//! The course of an analysis: which child is looked at next, what is reported
//! on the way, and what the findings add up to.
//!
//! Reading the file system is left to the caller. A [`Scan`] says which child
//! comes next; the caller looks the child up and hands back what it found,
//! and so on until the [`Analysis`] is complete.
use std::path::PathBuf;

use vstd::prelude::*;

use crate::model::{subtree_size, Analysis, AnalysisError, Entry, ProgressEvent, WalkFault};
#[allow(unused_imports)]
use crate::model::{all_reported, ProgressView};
#[allow(unused_imports)]
use crate::order::{is_stable_sort, lemma_mapped_multiset, size_sum};
use crate::model::checked_total;
use crate::outside::{display_path, file_name_of};
#[allow(unused_imports)]
use crate::outside::{path_file_name, path_text};

verus! {

/// The name under which a path is shown: its last component, or the whole
/// path where it has none.
pub open spec fn shown_name(path: PathBuf) -> Seq<char> {
    match path_file_name(path) {
        Some(name) => name,
        None => path_text(path),
    }
}

/// The last component if there is one, else the whole path.
pub fn name_or_path(file_name: Option<String>, whole: String) -> (name: String)
    ensures
        match file_name {
            Some(last) => name == last,
            None => name == whole,
        },
{
    match file_name {
        Some(last) => last,
        None => whole,
    }
}

/// The name under which a path is shown.
pub fn name_of(path: &PathBuf) -> (name: String)
    ensures
        name@ == shown_name(*path),
{
    name_or_path(file_name_of(path), display_path(path))
}

/// What became of one child of the root.
pub enum Outcome {
    /// The child could not be `stat`ed.
    Unreadable(PathBuf),
    /// The child was sized, with these errors on the way.
    Sized(Entry, Seq<AnalysisError>),
}

/// The entries of the children that were sized, in the order in which they
/// were looked at.
pub open spec fn found_entries(log: Seq<Outcome>) -> Seq<Entry>
    decreases log.len(),
{
    if log.len() == 0 {
        Seq::empty()
    } else {
        match log.last() {
            Outcome::Unreadable(_) => found_entries(log.drop_last()),
            Outcome::Sized(entry, _) => found_entries(log.drop_last()).push(entry),
        }
    }
}

/// All errors, in the order in which they were met. A child that could not
/// be `stat`ed is an error of its own.
pub open spec fn found_errors(log: Seq<Outcome>) -> Seq<AnalysisError>
    decreases log.len(),
{
    if log.len() == 0 {
        Seq::empty()
    } else {
        match log.last() {
            Outcome::Unreadable(path) => found_errors(log.drop_last()).push(
                AnalysisError::NoMetadata(path),
            ),
            Outcome::Sized(_, errors) => found_errors(log.drop_last()) + errors,
        }
    }
}

/// The progress events of a scan of `total` children after the outcomes in
/// `log`: a pair for each child that was sized, and none for the others.
pub open spec fn progress_so_far(log: Seq<Outcome>, total: nat) -> Seq<ProgressView>
    decreases log.len(),
{
    if log.len() == 0 {
        Seq::empty()
    } else {
        let before = progress_so_far(log.drop_last(), total);
        match log.last() {
            Outcome::Unreadable(_) => before,
            Outcome::Sized(entry, _) => before.push(
                ProgressView::Started { index: log.len(), total, name: entry.name@ },
            ).push(
                ProgressView::Finished {
                    index: log.len(),
                    total,
                    name: entry.name@,
                    size_in_bytes: entry.size_in_bytes as nat,
                },
            ),
        }
    }
}

/// The progress events of a complete scan.
pub open spec fn progress_of(log: Seq<Outcome>) -> Seq<ProgressView> {
    progress_so_far(log, log.len()).push(ProgressView::Done)
}

/// The event before the next child is sized.
pub open spec fn started_event(scan: ScanView) -> ProgressView {
    ProgressView::Started {
        index: scan.log.len() + 1,
        total: scan.total(),
        name: shown_name(scan.rest[0]),
    }
}

/// The event once the next child has been sized.
pub open spec fn finished_event(scan: ScanView, size_in_bytes: u64) -> ProgressView {
    ProgressView::Finished {
        index: scan.log.len() + 1,
        total: scan.total(),
        name: shown_name(scan.rest[0]),
        size_in_bytes: size_in_bytes as nat,
    }
}

/// How far a scan has come.
pub struct ScanView {
    /// The directory that is analyzed.
    pub root: PathBuf,
    /// What became of the children so far.
    pub log: Seq<Outcome>,
    /// The children that are still to be looked at.
    pub rest: Seq<PathBuf>,
}

impl ScanView {
    /// The number of children, looked at or not.
    pub open spec fn total(self) -> nat {
        self.log.len() + self.rest.len()
    }

    /// The progress events that have been handed out for the outcomes so far.
    pub open spec fn progress(self) -> Seq<ProgressView> {
        progress_so_far(self.log, self.total())
    }

    /// The scan after one more outcome.
    pub open spec fn after(self, outcome: Outcome) -> ScanView {
        ScanView { root: self.root, log: self.log.push(outcome), rest: self.rest.drop_first() }
    }
}

/// An analysis under way.
pub struct Scan {
    root: PathBuf,
    children: Vec<PathBuf>,
    at: usize,
    entries: Vec<Entry>,
    errors: Vec<AnalysisError>,
    log: Ghost<Seq<Outcome>>,
}

impl View for Scan {
    type V = ScanView;

    closed spec fn view(&self) -> ScanView {
        ScanView {
            root: self.root,
            log: self.log@,
            rest: self.children@.skip(self.at as int),
        }
    }
}

/// What a scan needs next.
pub enum ScanStep {
    /// The next child has to be `stat`ed.
    Stat(PendingChild),
    /// All children have been looked at. The event that says so has to be
    /// issued.
    Done(FinishedScan, ProgressEvent),
}

impl Scan {
    #[verifier::type_invariant]
    spec fn consistent(self) -> bool {
        &&& self.at <= self.children.len()
        &&& self.at == self.log@.len()
        &&& self.entries@ == found_entries(self.log@)
        &&& self.errors@ == found_errors(self.log@)
    }

    /// Starts the analysis of a directory with the given children.
    pub fn new(root: PathBuf, children: Vec<PathBuf>) -> (scan: Scan)
        ensures
            scan@ == (ScanView { root, log: Seq::empty(), rest: children@ }),
    {
        let scan = Scan {
            root,
            children,
            at: 0,
            entries: Vec::new(),
            errors: Vec::new(),
            log: Ghost(Seq::empty()),
        };
        assert(scan@.rest =~= children@);
        scan
    }

    /// Goes on to the next child, or ends the scan where there is none. At the
    /// end the events that were handed out are those of the complete scan.
    pub fn next(self) -> (step: ScanStep)
        ensures
            match step {
                ScanStep::Stat(child) => self@.rest.len() > 0 && child@ == self@,
                ScanStep::Done(finished, event) => {
                    &&& self@.rest.len() == 0
                    &&& finished@ == self@
                    &&& event@ == ProgressView::Done
                    &&& self@.progress().push(event@) == progress_of(self@.log)
                },
            },
    {
        proof {
            use_type_invariant(&self);
        }
        if self.at < self.children.len() {
            ScanStep::Stat(PendingChild { scan: self })
        } else {
            ScanStep::Done(FinishedScan { scan: self }, ProgressEvent::Done)
        }
    }
}

/// A child of which nothing is known yet but its path.
pub struct PendingChild {
    scan: Scan,
}

impl View for PendingChild {
    type V = ScanView;

    closed spec fn view(&self) -> ScanView {
        self.scan@
    }
}

impl PendingChild {
    #[verifier::type_invariant]
    spec fn consistent(self) -> bool {
        self.scan@.rest.len() > 0
    }

    /// The child's path.
    pub fn path(&self) -> (path: &PathBuf)
        ensures
            self@.rest.len() > 0,
            *path == self@.rest[0],
    {
        proof {
            use_type_invariant(self);
            use_type_invariant(&self.scan);
        }
        &self.scan.children[self.scan.at]
    }

    /// The child could not be `stat`ed. That is noted as an error, and the
    /// scan goes on: one broken entry does not sink the whole report.
    pub fn unreadable(self) -> (scan: Scan)
        ensures
            scan@ == self@.after(Outcome::Unreadable(self@.rest[0])),
            scan@.progress() == self@.progress(),
    {
        proof {
            use_type_invariant(&self);
            use_type_invariant(&self.scan);
        }
        let Scan { root, children, at, entries, errors, log } = self.scan;
        let ghost old_log = log@;
        let mut errors = errors;
        let path = children[at].clone();
        errors.push(AnalysisError::NoMetadata(path));
        let ghost new_log = old_log.push(Outcome::Unreadable(path));
        assert(new_log.drop_last() =~= old_log);
        let scan = Scan { root, children, at: at + 1, entries, errors, log: Ghost(new_log) };
        assert(scan@.rest =~= self@.rest.drop_first());
        scan
    }

    /// The child is there, and is about to be sized. The event that says so has
    /// to be issued before it is.
    pub fn found(self, is_dir: bool) -> (step: (SizingChild, ProgressEvent))
        ensures
            step.0@ == self@,
            step.0.is_dir() == is_dir,
            step.1@ == started_event(self@),
    {
        proof {
            use_type_invariant(&self);
            use_type_invariant(&self.scan);
        }
        let name = name_of(self.path());
        let event = ProgressEvent::Started {
            index: self.scan.at + 1,
            total: self.scan.children.len(),
            name: name.clone(),
        };
        (SizingChild { scan: self.scan, name, is_dir }, event)
    }
}

/// A child that is being sized.
pub struct SizingChild {
    scan: Scan,
    name: String,
    is_dir: bool,
}

impl View for SizingChild {
    type V = ScanView;

    closed spec fn view(&self) -> ScanView {
        self.scan@
    }
}

impl SizingChild {
    #[verifier::type_invariant]
    spec fn consistent(self) -> bool {
        &&& self.scan@.rest.len() > 0
        &&& self.name@ == shown_name(self.scan@.rest[0])
    }

    /// Whether the child is a directory.
    pub closed spec fn is_dir(self) -> bool {
        self.is_dir
    }

    /// The name under which the child is shown.
    pub closed spec fn name(self) -> String {
        self.name
    }

    /// The child's path.
    pub fn path(&self) -> (path: &PathBuf)
        ensures
            self@.rest.len() > 0,
            *path == self@.rest[0],
    {
        proof {
            use_type_invariant(self);
            use_type_invariant(&self.scan);
        }
        &self.scan.children[self.scan.at]
    }

    /// The walker has been through the child: an entry is made of it, and the
    /// walker's faults are noted as errors. The event that says so has to be
    /// issued. With the one that was handed out before, it makes up the
    /// child's part of the progress.
    pub fn sized(self, size_in_bytes: u64, faults: &Vec<WalkFault>) -> (step: (
        Scan,
        ProgressEvent,
    ))
        ensures
            self.name()@ == shown_name(self@.rest[0]),
            step.1@ == finished_event(self@, size_in_bytes),
            step.0@.progress() == self@.progress().push(started_event(self@)).push(step.1@),
            step.0@ == self@.after(
                Outcome::Sized(
                    (Entry {
                        path: self@.rest[0],
                        name: self.name(),
                        size_in_bytes,
                        is_dir: self.is_dir(),
                    }),
                    all_reported(faults@),
                ),
            ),
    {
        proof {
            use_type_invariant(&self);
            use_type_invariant(&self.scan);
        }
        let SizingChild { scan, name, is_dir } = self;
        let Scan { root, children, at, entries, errors, log } = scan;
        let ghost old_log = log@;
        let mut entries = entries;
        let mut errors = errors;
        let event = ProgressEvent::Finished {
            index: at + 1,
            total: children.len(),
            name: name.clone(),
            size_in_bytes,
        };
        let (size_in_bytes, mut child_errors) = subtree_size(size_in_bytes, faults);
        errors.append(&mut child_errors);
        let entry = Entry { path: children[at].clone(), name, size_in_bytes, is_dir };
        let ghost new_log = old_log.push(Outcome::Sized(entry, all_reported(faults@)));
        assert(new_log.drop_last() =~= old_log);
        entries.push(entry);
        let scan = Scan { root, children, at: at + 1, entries, errors, log: Ghost(new_log) };
        assert(scan@.rest =~= self@.rest.drop_first());
        (scan, event)
    }
}

/// A scan that has been through all children.
pub struct FinishedScan {
    scan: Scan,
}

impl View for FinishedScan {
    type V = ScanView;

    closed spec fn view(&self) -> ScanView {
        self.scan@
    }
}

impl FinishedScan {
    /// The sum of the sizes found, or `None` if it does not fit.
    pub fn checked_total(&self) -> (total: Option<u64>)
        ensures
            match total {
                Some(sum) => sum as nat == size_sum(found_entries(self@.log)),
                None => size_sum(found_entries(self@.log)) > u64::MAX,
            },
    {
        proof {
            use_type_invariant(&self.scan);
        }
        checked_total(&self.scan.entries)
    }

    /// The analysis that the findings add up to. The sum of the sizes has to
    /// fit (see [`FinishedScan::checked_total`]).
    pub fn into_analysis(self) -> (analysis: Analysis)
        requires
            size_sum(found_entries(self@.log)) <= u64::MAX,
        ensures
            analysis@.root == self@.root,
            analysis@.errors == found_errors(self@.log),
            is_stable_sort(found_entries(self@.log), analysis@.entries),
            analysis@.entries.to_multiset() == found_entries(self@.log).to_multiset(),
            analysis@.total_in_bytes == size_sum(found_entries(self@.log)),
            analysis@.is_consistent(),
    {
        proof {
            use_type_invariant(&self.scan);
        }
        let Scan { root, children: _, at: _, entries, errors, log: _ } = self.scan;
        Analysis::assemble(root, entries, errors)
    }
}

/// The child that an outcome is about.
pub open spec fn outcome_path(outcome: Outcome) -> PathBuf {
    match outcome {
        Outcome::Unreadable(path) => path,
        Outcome::Sized(entry, _) => entry.path,
    }
}

/// The paths of the children that were looked at.
pub open spec fn child_paths(log: Seq<Outcome>) -> Seq<PathBuf> {
    log.map_values(|outcome: Outcome| outcome_path(outcome))
}

/// All children of a scan in order: those looked at, then the rest.
pub open spec fn all_children(scan: ScanView) -> Seq<PathBuf> {
    child_paths(scan.log) + scan.rest
}

/// Every child is looked at once, in the order in which the children were
/// listed: an outcome for the next child moves it from the rest to the log and
/// changes nothing else, the number of children included.
pub proof fn law_each_child_once(scan: ScanView, outcome: Outcome)
    requires
        scan.rest.len() > 0,
        outcome_path(outcome) == scan.rest[0],
    ensures
        all_children(scan.after(outcome)) == all_children(scan),
        scan.after(outcome).total() == scan.total(),
        scan.after(outcome).root == scan.root,
{
    assert(all_children(scan.after(outcome)) =~= all_children(scan));
}

/// What a scan has reported grows by the two events around the sizing of a
/// child, numbered as the child stands among all children, and by nothing for
/// a child that could not be `stat`ed.
pub proof fn law_events_follow_outcomes(log: Seq<Outcome>, total: nat, outcome: Outcome)
    ensures
        progress_so_far(log.push(outcome), total) == match outcome {
            Outcome::Unreadable(_) => progress_so_far(log, total),
            Outcome::Sized(entry, _) => progress_so_far(log, total) + seq![
                ProgressView::Started { index: log.len() + 1, total, name: entry.name@ },
                ProgressView::Finished {
                    index: log.len() + 1,
                    total,
                    name: entry.name@,
                    size_in_bytes: entry.size_in_bytes as nat,
                },
            ],
        },
{
    assert(log.push(outcome).drop_last() =~= log);
    match outcome {
        Outcome::Unreadable(_) => {},
        Outcome::Sized(entry, _) => {
            assert(progress_so_far(log.push(outcome), total) =~= progress_so_far(log, total) + seq![
                ProgressView::Started { index: log.len() + 1, total, name: entry.name@ },
                ProgressView::Finished {
                    index: log.len() + 1,
                    total,
                    name: entry.name@,
                    size_in_bytes: entry.size_in_bytes as nat,
                },
            ]);
        },
    }
}

/// The two events belong together: they are about this entry, and carry the
/// same number, which is one of 1 to `total`.
pub open spec fn is_pair_for(
    started: ProgressView,
    finished: ProgressView,
    entry: Entry,
    total: nat,
) -> bool {
    match started {
        ProgressView::Started { index, total: of, name } => {
            &&& 1 <= index <= total
            &&& of == total
            &&& name == entry.name@
            &&& finished == (ProgressView::Finished {
                index,
                total,
                name,
                size_in_bytes: entry.size_in_bytes as nat,
            })
        },
        _ => false,
    }
}

/// A complete scan reports, for each child that was sized and in their order,
/// that it started and then that it finished with the size found; then once,
/// at the very end, that all is done. Nothing else is reported.
pub proof fn law_progress_is_paired(log: Seq<Outcome>)
    ensures
        progress_of(log).len() == 2 * found_entries(log).len() + 1,
        progress_of(log).last() == ProgressView::Done,
        forall|k: int|
            0 <= k < found_entries(log).len() ==> is_pair_for(
                progress_of(log)[2 * k],
                progress_of(log)[2 * k + 1],
                #[trigger] found_entries(log)[k],
                log.len(),
            ),
{
    lemma_pairs(log, log.len());
    let events = progress_so_far(log, log.len());
    assert forall|k: int| 0 <= k < found_entries(log).len() implies is_pair_for(
        progress_of(log)[2 * k],
        progress_of(log)[2 * k + 1],
        #[trigger] found_entries(log)[k],
        log.len(),
    ) by {
        assert(progress_of(log)[2 * k] == events[2 * k]);
        assert(progress_of(log)[2 * k + 1] == events[2 * k + 1]);
    }
}

proof fn lemma_pairs(log: Seq<Outcome>, total: nat)
    requires
        log.len() <= total,
    ensures
        progress_so_far(log, total).len() == 2 * found_entries(log).len(),
        forall|k: int|
            0 <= k < found_entries(log).len() ==> is_pair_for(
                progress_so_far(log, total)[2 * k],
                progress_so_far(log, total)[2 * k + 1],
                #[trigger] found_entries(log)[k],
                total,
            ),
    decreases log.len(),
{
    if log.len() > 0 {
        let before = log.drop_last();
        lemma_pairs(before, total);
        let events = progress_so_far(log, total);
        assert forall|k: int| 0 <= k < found_entries(log).len() implies is_pair_for(
            events[2 * k],
            events[2 * k + 1],
            #[trigger] found_entries(log)[k],
            total,
        ) by {
            if k < found_entries(before).len() {
                assert(found_entries(log)[k] == found_entries(before)[k]);
                assert(events[2 * k] == progress_so_far(before, total)[2 * k]);
                assert(events[2 * k + 1] == progress_so_far(before, total)[2 * k + 1]);
            } else {
                assert(log.last() is Sized);
            }
        }
    }
}

/// How many of the children could not be `stat`ed.
pub open spec fn unreadable_count(log: Seq<Outcome>) -> nat
    decreases log.len(),
{
    if log.len() == 0 {
        0
    } else {
        unreadable_count(log.drop_last()) + if log.last() is Unreadable {
            1nat
        } else {
            0nat
        }
    }
}

/// No child gets lost: each either has an entry or could not be `stat`ed, and
/// each of the latter is among the errors.
pub proof fn law_every_child_is_accounted_for(log: Seq<Outcome>)
    ensures
        found_entries(log).len() + unreadable_count(log) == log.len(),
        forall|i: int|
            0 <= i < log.len() ==> match #[trigger] log[i] {
                Outcome::Unreadable(path) => found_errors(log).contains(
                    AnalysisError::NoMetadata(path),
                ),
                Outcome::Sized(entry, errors) => {
                    &&& found_entries(log).contains(entry)
                    &&& forall|k: int|
                        0 <= k < errors.len() ==> found_errors(log).contains(#[trigger] errors[k])
                },
            },
    decreases log.len(),
{
    if log.len() > 0 {
        let before = log.drop_last();
        law_every_child_is_accounted_for(before);
        lemma_findings_grow(log);
        assert forall|i: int| 0 <= i < log.len() implies match #[trigger] log[i] {
            Outcome::Unreadable(path) => found_errors(log).contains(
                AnalysisError::NoMetadata(path),
            ),
            Outcome::Sized(entry, errors) => {
                &&& found_entries(log).contains(entry)
                &&& forall|k: int|
                    0 <= k < errors.len() ==> found_errors(log).contains(#[trigger] errors[k])
            },
        } by {
            if i < log.len() - 1 {
                assert(log[i] == before[i]);
            } else {
                match log[i] {
                    Outcome::Unreadable(path) => {
                        assert(found_errors(log).last() == AnalysisError::NoMetadata(path));
                    },
                    Outcome::Sized(entry, errors) => {
                        assert(found_entries(log).last() == entry);
                        assert forall|k: int| 0 <= k < errors.len() implies found_errors(
                            log,
                        ).contains(#[trigger] errors[k]) by {
                            assert(found_errors(log)[found_errors(before).len() + k] == errors[k]);
                        }
                    },
                }
            }
        }
    }
}

proof fn lemma_findings_grow(log: Seq<Outcome>)
    requires
        log.len() > 0,
    ensures
        forall|entry: Entry|
            found_entries(log.drop_last()).contains(entry) ==> #[trigger] found_entries(
                log,
            ).contains(entry),
        forall|error: AnalysisError|
            found_errors(log.drop_last()).contains(error) ==> #[trigger] found_errors(log).contains(
                error,
            ),
{
    let before = log.drop_last();
    assert forall|entry: Entry| found_entries(before).contains(entry) implies #[trigger]
        found_entries(log).contains(entry) by {
        let i = found_entries(before).index_of(entry);
        assert(found_entries(log)[i] == entry);
    }
    assert forall|error: AnalysisError| found_errors(before).contains(error) implies #[trigger]
        found_errors(log).contains(error) by {
        let i = found_errors(before).index_of(error);
        assert(found_errors(log)[i] == error);
    }
}

/// An analysis has no errors exactly where every child could be `stat`ed and no
/// walk met an error.
pub proof fn law_no_errors_where_all_was_read(log: Seq<Outcome>)
    ensures
        found_errors(log).len() == 0 <==> forall|i: int|
            0 <= i < log.len() ==> match #[trigger] log[i] {
                Outcome::Unreadable(_) => false,
                Outcome::Sized(_, errors) => errors.len() == 0,
            },
    decreases log.len(),
{
    if log.len() > 0 {
        let before = log.drop_last();
        law_no_errors_where_all_was_read(before);
        if found_errors(log).len() == 0 {
            assert forall|i: int| 0 <= i < log.len() implies match #[trigger] log[i] {
                Outcome::Unreadable(_) => false,
                Outcome::Sized(_, errors) => errors.len() == 0,
            } by {
                if i < log.len() - 1 {
                    assert(log[i] == before[i]);
                }
            }
        } else if forall|i: int|
            0 <= i < log.len() ==> match #[trigger] log[i] {
                Outcome::Unreadable(_) => false,
                Outcome::Sized(_, errors) => errors.len() == 0,
            } {
            assert forall|i: int| 0 <= i < before.len() implies match #[trigger] before[i] {
                Outcome::Unreadable(_) => false,
                Outcome::Sized(_, errors) => errors.len() == 0,
            } by {
                assert(before[i] == log[i]);
            }
            assert(match log[log.len() - 1] {
                Outcome::Unreadable(_) => false,
                Outcome::Sized(_, errors) => errors.len() == 0,
            });
        }
    }
}

/// An outcome gave rise to an error.
pub open spec fn gave(outcome: Outcome, error: AnalysisError) -> bool {
    match outcome {
        Outcome::Unreadable(path) => error == AnalysisError::NoMetadata(path),
        Outcome::Sized(_, errors) => errors.contains(error),
    }
}

/// No error comes from nowhere: each is a child that could not be `stat`ed, or
/// one that the walk of a child met.
pub proof fn law_errors_come_from_children(log: Seq<Outcome>, error: AnalysisError)
    requires
        found_errors(log).contains(error),
    ensures
        exists|i: int| 0 <= i < log.len() && gave(#[trigger] log[i], error),
    decreases log.len(),
{
    if log.len() > 0 {
        let before = log.drop_last();
        let n = log.len() - 1;
        if found_errors(before).contains(error) {
            law_errors_come_from_children(before, error);
            let i = choose|i: int| 0 <= i < before.len() && gave(#[trigger] before[i], error);
            assert(gave(log[i], error));
        } else {
            let k = found_errors(log).index_of(error);
            let split = found_errors(before).len();
            if k < split {
                assert(found_errors(before)[k] == error);
            } else if let Outcome::Sized(_, errors) = log[n] {
                assert(errors[k - split] == error);
            }
            assert(gave(log[n], error));
        }
    }
}

/// The paths of the entries.
pub open spec fn entry_paths(entries: Seq<Entry>) -> Seq<PathBuf> {
    entries.map_values(|entry: Entry| entry.path)
}

proof fn lemma_found_paths(log: Seq<Outcome>)
    requires
        child_paths(log).no_duplicates(),
    ensures
        entry_paths(found_entries(log)).no_duplicates(),
        forall|path: PathBuf|
            entry_paths(found_entries(log)).contains(path) ==> #[trigger] child_paths(log).contains(
                path,
            ),
    decreases log.len(),
{
    if log.len() > 0 {
        let before = log.drop_last();
        let n = log.len() - 1;
        let paths = child_paths(log);
        assert(child_paths(before) =~= paths.drop_last());
        lemma_found_paths(before);
        let old_found = entry_paths(found_entries(before));
        let found = entry_paths(found_entries(log));
        assert forall|path: PathBuf| child_paths(before).contains(path) implies paths.contains(path)
            && path != paths[n] by {
            let k = child_paths(before).index_of(path);
            assert(paths[k] == path);
        }
        if let Outcome::Sized(entry, _) = log[n] {
            assert(found =~= old_found.push(entry.path));
            assert(paths[n] == entry.path);
            assert forall|i: int, j: int|
                0 <= i < found.len() && 0 <= j < found.len() && i != j implies found[i]
                != found[j] by {
                if i < old_found.len() {
                    assert(old_found.contains(found[i]));
                    assert(child_paths(before).contains(found[i]));
                }
                if j < old_found.len() {
                    assert(old_found.contains(found[j]));
                    assert(child_paths(before).contains(found[j]));
                }
            }
            assert forall|path: PathBuf| found.contains(path) implies #[trigger] paths.contains(
                path,
            ) by {
                let k = found.index_of(path);
                if k < old_found.len() {
                    assert(old_found[k] == path);
                    assert(child_paths(before).contains(path));
                }
            }
        } else {
            assert(found =~= old_found);
            assert forall|path: PathBuf| found.contains(path) implies #[trigger] paths.contains(
                path,
            ) by {
                assert(child_paths(before).contains(path));
            }
        }
    }
}

/// The entries of an analysis are the largest first, no two of them have one
/// path, and the path of each is that of a child: a directory lists no child
/// twice.
pub proof fn law_entries_have_distinct_paths(log: Seq<Outcome>, entries: Seq<Entry>)
    requires
        child_paths(log).no_duplicates(),
        is_stable_sort(found_entries(log), entries),
        entries.to_multiset() == found_entries(log).to_multiset(),
    ensures
        forall|i: int, j: int|
            0 <= i < j < entries.len() ==> {
                &&& (#[trigger] entries[i]).size_in_bytes >= (#[trigger] entries[j]).size_in_bytes
                &&& entries[i].path != entries[j].path
            },
        forall|i: int|
            0 <= i < entries.len() ==> child_paths(log).contains((#[trigger] entries[i]).path),
{
    let found = entry_paths(found_entries(log));
    let paths = entry_paths(entries);
    lemma_found_paths(log);
    lemma_mapped_multiset(entries, found_entries(log), |entry: Entry| entry.path);
    found.lemma_multiset_has_no_duplicates();
    paths.lemma_multiset_has_no_duplicates_conv();
    found.to_multiset_ensures();
    paths.to_multiset_ensures();
    assert forall|i: int, j: int| 0 <= i < j < entries.len() implies {
        &&& (#[trigger] entries[i]).size_in_bytes >= (#[trigger] entries[j]).size_in_bytes
        &&& entries[i].path != entries[j].path
    } by {
        assert(paths[i] == entries[i].path && paths[j] == entries[j].path);
    }
    assert forall|i: int| 0 <= i < entries.len() implies child_paths(log).contains(
        (#[trigger] entries[i]).path,
    ) by {
        assert(paths[i] == entries[i].path);
        assert(paths.contains(paths[i]));
        assert(paths.to_multiset().count(paths[i]) > 0);
        assert(found.to_multiset().count(paths[i]) > 0);
        assert(found.contains(paths[i]));
    }
}

/// Entries lie where the children lie: what holds of the path of every child,
/// such as that it is right below the root, holds of that of every entry.
pub proof fn law_entries_lie_where_the_children_lie(
    log: Seq<Outcome>,
    entries: Seq<Entry>,
    holds: spec_fn(PathBuf) -> bool,
)
    requires
        entries.to_multiset() == found_entries(log).to_multiset(),
        forall|i: int| 0 <= i < log.len() ==> holds(outcome_path(#[trigger] log[i])),
    ensures
        forall|i: int| 0 <= i < entries.len() ==> holds((#[trigger] entries[i]).path),
{
    let found = found_entries(log);
    entries.to_multiset_ensures();
    found.to_multiset_ensures();
    lemma_found_hold(log, holds);
    assert forall|i: int| 0 <= i < entries.len() implies holds((#[trigger] entries[i]).path) by {
        assert(entries.contains(entries[i]));
        assert(entries.to_multiset().count(entries[i]) > 0);
        assert(found.to_multiset().count(entries[i]) > 0);
        assert(found.contains(entries[i]));
        let k = found.index_of(entries[i]);
        assert(holds(found[k].path));
    }
}

proof fn lemma_found_hold(log: Seq<Outcome>, holds: spec_fn(PathBuf) -> bool)
    requires
        forall|i: int| 0 <= i < log.len() ==> holds(outcome_path(#[trigger] log[i])),
    ensures
        forall|k: int|
            0 <= k < found_entries(log).len() ==> holds((#[trigger] found_entries(log)[k]).path),
    decreases log.len(),
{
    if log.len() > 0 {
        let before = log.drop_last();
        assert forall|i: int| 0 <= i < before.len() implies holds(
            outcome_path(#[trigger] before[i]),
        ) by {
            assert(before[i] == log[i]);
        }
        lemma_found_hold(before, holds);
        assert(holds(outcome_path(log[log.len() - 1])));
        assert forall|k: int| 0 <= k < found_entries(log).len() implies holds(
            (#[trigger] found_entries(log)[k]).path,
        ) by {
            if k < found_entries(before).len() {
                assert(found_entries(log)[k] == found_entries(before)[k]);
            }
        }
    }
}

/// Errors lie where the children and the walker's errors lie: what holds of the
/// paths of all of these, such as that they are below the root, holds of that
/// of every error.
pub proof fn law_errors_lie_where_the_walk_went(
    log: Seq<Outcome>,
    holds: spec_fn(PathBuf) -> bool,
)
    requires
        forall|i: int|
            0 <= i < log.len() ==> match #[trigger] log[i] {
                Outcome::Unreadable(path) => holds(path),
                Outcome::Sized(_, errors) => forall|k: int|
                    0 <= k < errors.len() ==> holds((#[trigger] errors[k]).spec_path()),
            },
    ensures
        forall|k: int|
            0 <= k < found_errors(log).len() ==> holds(
                (#[trigger] found_errors(log)[k]).spec_path(),
            ),
{
    assert forall|k: int| 0 <= k < found_errors(log).len() implies holds(
        (#[trigger] found_errors(log)[k]).spec_path(),
    ) by {
        let error = found_errors(log)[k];
        assert(found_errors(log).contains(error));
        law_errors_come_from_children(log, error);
        let i = choose|i: int| 0 <= i < log.len() && gave(#[trigger] log[i], error);
        if let Outcome::Sized(_, errors) = log[i] {
            let j = errors.index_of(error);
            assert(holds(errors[j].spec_path()));
        }
    }
}

/// The findings of a scan follow its outcomes, one by one: a child that was
/// sized adds its entry and the errors met on the way, one that could not be
/// `stat`ed adds an error about itself and no entry.
pub proof fn law_findings_follow_outcomes(log: Seq<Outcome>, outcome: Outcome)
    ensures
        found_entries(Seq::empty()).len() == 0,
        found_errors(Seq::empty()).len() == 0,
        match outcome {
            Outcome::Unreadable(path) => {
                &&& found_entries(log.push(outcome)) == found_entries(log)
                &&& found_errors(log.push(outcome)) == found_errors(log).push(
                    AnalysisError::NoMetadata(path),
                )
            },
            Outcome::Sized(entry, errors) => {
                &&& found_entries(log.push(outcome)) == found_entries(log).push(entry)
                &&& found_errors(log.push(outcome)) == found_errors(log) + errors
            },
        },
{
    assert(log.push(outcome).drop_last() =~= log);
}

/// A path is shown under its last component, and under the whole of it where it
/// has none.
pub proof fn law_paths_are_shown_by_their_last_component(path: PathBuf)
    ensures
        path_file_name(path) matches Some(name) ==> shown_name(path) == name,
        path_file_name(path) is None ==> shown_name(path) == path_text(path),
{
}

/// The two events around the sizing of a child tell the same place, number of
/// children and name: the children are counted from one on, those that could
/// not be `stat`ed among them.
pub proof fn law_events_tell_the_child(scan: ScanView, size_in_bytes: u64)
    requires
        scan.rest.len() > 0,
    ensures
        started_event(scan) == (ProgressView::Started {
            index: scan.log.len() + 1,
            total: scan.log.len() + scan.rest.len(),
            name: shown_name(scan.rest[0]),
        }),
        finished_event(scan, size_in_bytes) == (ProgressView::Finished {
            index: scan.log.len() + 1,
            total: scan.log.len() + scan.rest.len(),
            name: shown_name(scan.rest[0]),
            size_in_bytes: size_in_bytes as nat,
        }),
{
}

} // verus!
