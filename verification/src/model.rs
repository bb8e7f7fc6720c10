//! The types that a directory analysis works with.
use std::path::PathBuf;

use vstd::prelude::*;
use vstd::std_specs::convert::FromSpecImpl;

use crate::order::{size_sum, sort_by_size};
#[allow(unused_imports)]
use crate::order::{
    is_stable_sort, law_no_entry_exceeds_the_total, law_one_entry_is_its_own_total, law_totals_add_up,
    sorted_by_size,
};

verus! {

/// Options controlling how a directory is analyzed.
#[derive(Debug, Clone, Copy)]
pub struct AnalyzeOptions {
    /// When `true`, count "apparent size" (bytes a file claims) rather than
    /// "disk usage" (blocks actually allocated).
    pub apparent_size: bool,
}

impl Default for AnalyzeOptions {
    /// Disk usage is what is counted unless something else is asked for.
    fn default() -> (opts: AnalyzeOptions)
        ensures
            !opts.apparent_size,
    {
        AnalyzeOptions { apparent_size: false }
    }
}

/// What kept the directory walker from counting a path.
#[derive(Debug)]
pub enum WalkFault {
    /// The path could not be `stat`ed.
    NoMetadataForPath(PathBuf),
    /// The directory could not be listed.
    CouldNotReadDir(PathBuf),
}

/// A single inaccessible path encountered during traversal.
#[derive(Debug)]
pub enum AnalysisError {
    /// A path could not be `stat`ed, typically because it disappeared while
    /// its directory was being read, or for want of permission.
    NoMetadata(PathBuf),
    /// A directory could not be enumerated, typically for want of permission
    /// or because of a read error of the file system.
    CouldNotReadDir(PathBuf),
}

impl Clone for AnalysisError {
    /// The copy is the same error.
    fn clone(&self) -> (copy: AnalysisError)
        ensures
            copy == *self,
    {
        match self {
            AnalysisError::NoMetadata(p) => AnalysisError::NoMetadata(p.clone()),
            AnalysisError::CouldNotReadDir(p) => AnalysisError::CouldNotReadDir(p.clone()),
        }
    }
}

impl AnalysisError {
    /// The path that could not be accessed.
    pub open spec fn spec_path(self) -> PathBuf {
        match self {
            AnalysisError::NoMetadata(p) => p,
            AnalysisError::CouldNotReadDir(p) => p,
        }
    }

    /// A short reason for each kind of error.
    pub open spec fn spec_reason(self) -> Seq<char> {
        match self {
            AnalysisError::NoMetadata(_) => "could not stat"@,
            AnalysisError::CouldNotReadDir(_) => "could not read directory"@,
        }
    }

    /// The path that could not be accessed.
    pub fn path(&self) -> (path: &PathBuf)
        ensures
            *path == self.spec_path(),
    {
        match self {
            AnalysisError::NoMetadata(p) => p,
            AnalysisError::CouldNotReadDir(p) => p,
        }
    }

    /// A short human-readable reason, suitable for prefixing a warning line.
    pub fn reason(&self) -> (reason: &'static str)
        ensures
            reason@ == self.spec_reason(),
    {
        match self {
            AnalysisError::NoMetadata(_) => "could not stat",
            AnalysisError::CouldNotReadDir(_) => "could not read directory",
        }
    }
}

/// The error that reports a fault of the walker: of the same kind, and about
/// the same path.
pub open spec fn reported(fault: WalkFault) -> AnalysisError {
    match fault {
        WalkFault::NoMetadataForPath(p) => AnalysisError::NoMetadata(p),
        WalkFault::CouldNotReadDir(p) => AnalysisError::CouldNotReadDir(p),
    }
}

impl From<&WalkFault> for AnalysisError {
    fn from(fault: &WalkFault) -> (error: AnalysisError) {
        match fault {
            WalkFault::NoMetadataForPath(p) => AnalysisError::NoMetadata(p.clone()),
            WalkFault::CouldNotReadDir(p) => AnalysisError::CouldNotReadDir(p.clone()),
        }
    }
}

impl FromSpecImpl<&WalkFault> for AnalysisError {
    open spec fn obeys_from_spec() -> bool {
        true
    }

    open spec fn from_spec(fault: &WalkFault) -> AnalysisError {
        reported(*fault)
    }
}

/// The errors that report the given faults, one for one.
pub open spec fn all_reported(faults: Seq<WalkFault>) -> Seq<AnalysisError> {
    faults.map_values(|fault: WalkFault| reported(fault))
}

/// What is known of a subtree once the walker has been through it: the bytes
/// it counted, and an error for each of its faults, in their order. Faults do
/// not change the size: what could be read is counted.
pub fn subtree_size(size_in_bytes: u64, faults: &Vec<WalkFault>) -> (result: (
    u64,
    Vec<AnalysisError>,
))
    ensures
        result.0 == size_in_bytes,
        result.1@ == all_reported(faults@),
{
    let mut errors: Vec<AnalysisError> = Vec::new();
    let mut i: usize = 0;
    while i < faults.len()
        invariant
            i <= faults.len(),
            errors@ == all_reported(faults@.take(i as int)),
        decreases faults.len() - i,
    {
        errors.push(AnalysisError::from(&faults[i]));
        i += 1;
        assert(errors@ =~= all_reported(faults@.take(i as int)));
    }
    assert(faults@.take(i as int) =~= faults@);
    (size_in_bytes, errors)
}

/// A single child of the analyzed root directory, together with the total
/// number of bytes attributed to its subtree.
#[derive(Debug)]
pub struct Entry {
    /// The full path of this entry.
    pub path: PathBuf,
    /// The file or directory name (last path component).
    pub name: String,
    /// Total size of this entry's subtree, in bytes.
    pub size_in_bytes: u64,
    /// Whether this entry is a directory.
    pub is_dir: bool,
}

impl Clone for Entry {
    /// The copy is the same entry.
    fn clone(&self) -> (copy: Entry)
        ensures
            copy == *self,
    {
        Entry {
            path: self.path.clone(),
            name: self.name.clone(),
            size_in_bytes: self.size_in_bytes,
            is_dir: self.is_dir,
        }
    }
}

/// Progress events issued as each immediate child of the root is processed.
#[derive(Debug)]
pub enum Progress<'a> {
    /// A child is about to be sized. `index` is 1-based; `total` is the
    /// total number of immediate children discovered.
    Started {
        /// The child's number.
        index: usize,
        /// How many children there are.
        total: usize,
        /// The child's name.
        name: &'a str,
    },
    /// A child has been fully sized.
    Finished {
        /// The child's number.
        index: usize,
        /// How many children there are.
        total: usize,
        /// The child's name.
        name: &'a str,
        /// The size found.
        size_in_bytes: u64,
    },
    /// All children have been processed; the reporter should clear any UI.
    Done,
}

/// A progress event with its name as plain text.
pub enum ProgressView {
    /// See [`Progress::Started`].
    Started {
        /// The child's number.
        index: nat,
        /// How many children there are.
        total: nat,
        /// The child's name.
        name: Seq<char>,
    },
    /// See [`Progress::Finished`].
    Finished {
        /// The child's number.
        index: nat,
        /// How many children there are.
        total: nat,
        /// The child's name.
        name: Seq<char>,
        /// The size found.
        size_in_bytes: nat,
    },
    /// See [`Progress::Done`].
    Done,
}

impl<'a> View for Progress<'a> {
    type V = ProgressView;

    open spec fn view(&self) -> ProgressView {
        match *self {
            Progress::Started { index, total, name } => ProgressView::Started {
                index: index as nat,
                total: total as nat,
                name: name@,
            },
            Progress::Finished { index, total, name, size_in_bytes } => ProgressView::Finished {
                index: index as nat,
                total: total as nat,
                name: name@,
                size_in_bytes: size_in_bytes as nat,
            },
            Progress::Done => ProgressView::Done,
        }
    }
}

/// A progress event that holds the name of its child.
#[derive(Debug)]
pub enum ProgressEvent {
    /// See [`Progress::Started`].
    Started {
        /// The place of the child among all children, from 1 on.
        index: usize,
        /// The number of children.
        total: usize,
        /// The child's name.
        name: String,
    },
    /// See [`Progress::Finished`].
    Finished {
        /// The place of the child among all children, from 1 on.
        index: usize,
        /// The number of children.
        total: usize,
        /// The child's name.
        name: String,
        /// The size that was found.
        size_in_bytes: u64,
    },
    /// See [`Progress::Done`].
    Done,
}

impl View for ProgressEvent {
    type V = ProgressView;

    open spec fn view(&self) -> ProgressView {
        match *self {
            ProgressEvent::Started { index, total, name } => ProgressView::Started {
                index: index as nat,
                total: total as nat,
                name: name@,
            },
            ProgressEvent::Finished { index, total, name, size_in_bytes } => {
                ProgressView::Finished {
                    index: index as nat,
                    total: total as nat,
                    name: name@,
                    size_in_bytes: size_in_bytes as nat,
                }
            },
            ProgressEvent::Done => ProgressView::Done,
        }
    }
}

impl ProgressEvent {
    /// The event as a reporter takes it.
    pub fn as_progress(&self) -> (progress: Progress<'_>)
        ensures
            progress@ == self@,
            match (*self, progress) {
                (
                    ProgressEvent::Started { index: i, total: n, name: text },
                    Progress::Started { index, total, name },
                ) => index == i && total == n && name@ == text@,
                (
                    ProgressEvent::Finished { index: i, total: n, name: text, size_in_bytes: size },
                    Progress::Finished { index, total, name, size_in_bytes },
                ) => index == i && total == n && name@ == text@ && size_in_bytes == size,
                (ProgressEvent::Done, Progress::Done) => true,
                _ => false,
            },
    {
        match self {
            ProgressEvent::Started { index, total, name } => Progress::Started {
                index: *index,
                total: *total,
                name: name.as_str(),
            },
            ProgressEvent::Finished { index, total, name, size_in_bytes } => Progress::Finished {
                index: *index,
                total: *total,
                name: name.as_str(),
                size_in_bytes: *size_in_bytes,
            },
            ProgressEvent::Done => Progress::Done,
        }
    }
}

/// The sum of the entries' sizes, or `None` if it does not fit.
pub fn checked_total(entries: &Vec<Entry>) -> (total: Option<u64>)
    ensures
        match total {
            Some(sum) => sum as nat == size_sum(entries@),
            None => size_sum(entries@) > u64::MAX,
        },
{
    let mut sum: u64 = 0;
    let mut i: usize = 0;
    while i < entries.len()
        invariant
            i <= entries.len(),
            sum as nat == size_sum(entries@.take(i as int)),
        decreases entries.len() - i,
    {
        let size: u64 = entries[i].size_in_bytes;
        proof {
            assert(entries@.take(i + 1).drop_last() =~= entries@.take(i as int));
            assert(entries@.take(entries@.len() as int) =~= entries@);
            lemma_size_sum_grows(entries@, i + 1);
        }
        match sum.checked_add(size) {
            Some(next) => {
                sum = next;
            },
            None => {
                return None;
            },
        }
        i += 1;
    }
    assert(entries@.take(i as int) =~= entries@);
    Some(sum)
}

proof fn lemma_size_sum_grows(entries: Seq<Entry>, n: int)
    requires
        0 <= n <= entries.len(),
    ensures
        size_sum(entries.take(n)) <= size_sum(entries),
    decreases entries.len() - n,
{
    if n < entries.len() {
        lemma_size_sum_grows(entries, n + 1);
        assert(entries.take(n + 1).drop_last() =~= entries.take(n));
    } else {
        assert(entries.take(n) =~= entries);
    }
}

/// What an analysis holds.
pub struct AnalysisView {
    /// The directory that was analyzed.
    pub root: PathBuf,
    /// The sum of the sizes of its children.
    pub total_in_bytes: nat,
    /// The children, the largest first.
    pub entries: Seq<Entry>,
    /// What could not be accessed.
    pub errors: Seq<AnalysisError>,
}

impl AnalysisView {
    /// The entries stand in descending order of size, and the total is the
    /// sum of their sizes.
    pub open spec fn is_consistent(self) -> bool {
        &&& sorted_by_size(self.entries)
        &&& self.total_in_bytes == size_sum(self.entries)
    }
}

/// The result of analyzing a directory.
///
/// The entries are sorted in descending order of size: that is the order the
/// user almost always wants to see.
#[derive(Debug)]
pub struct Analysis {
    root: PathBuf,
    total_in_bytes: u64,
    entries: Vec<Entry>,
    errors: Vec<AnalysisError>,
}

impl View for Analysis {
    type V = AnalysisView;

    closed spec fn view(&self) -> AnalysisView {
        AnalysisView {
            root: self.root,
            total_in_bytes: self.total_in_bytes as nat,
            entries: self.entries@,
            errors: self.errors@,
        }
    }
}

impl Clone for Analysis {
    /// The copy holds the same.
    fn clone(&self) -> (copy: Analysis)
        ensures
            copy@ == self@,
    {
        proof {
            use_type_invariant(self);
        }
        let entries = self.entries.clone();
        let errors = self.errors.clone();
        assert(entries@ =~= self.entries@);
        assert(errors@ =~= self.errors@);
        Analysis {
            root: self.root.clone(),
            total_in_bytes: self.total_in_bytes,
            entries,
            errors,
        }
    }
}

impl Analysis {
    #[verifier::type_invariant]
    spec fn consistent(self) -> bool {
        self@.is_consistent()
    }

    /// Puts an analysis together from the children as they were found.
    pub(crate) fn assemble(
        root: PathBuf,
        found: Vec<Entry>,
        errors: Vec<AnalysisError>,
    ) -> (analysis: Analysis)
        requires
            size_sum(found@) <= u64::MAX,
        ensures
            analysis@.root == root,
            analysis@.errors == errors@,
            is_stable_sort(found@, analysis@.entries),
            analysis@.entries.to_multiset() == found@.to_multiset(),
            analysis@.total_in_bytes == size_sum(found@),
            analysis@.is_consistent(),
    {
        let entries = sort_by_size(found);
        let total_in_bytes: u64 = match checked_total(&entries) {
            Some(total) => total,
            None => 0,
        };
        Analysis { root, total_in_bytes, entries, errors }
    }

    /// The directory that was analyzed.
    pub fn root(&self) -> (root: &PathBuf)
        ensures
            *root == self@.root,
    {
        &self.root
    }

    /// The sum of sizes of all immediate children.
    ///
    /// It leaves out the bytes that the root directory takes up itself, so
    /// that the shares of the entries add up to the whole.
    pub fn total_in_bytes(&self) -> (total: u64)
        ensures
            total as nat == self@.total_in_bytes,
            total as nat == size_sum(self@.entries),
    {
        proof {
            use_type_invariant(self);
        }
        self.total_in_bytes
    }

    /// The per-child entries, sorted by size descending.
    pub fn entries(&self) -> (entries: &[Entry])
        ensures
            entries@ == self@.entries,
            sorted_by_size(entries@),
    {
        proof {
            use_type_invariant(self);
        }
        self.entries.as_slice()
    }

    /// Paths that could not be accessed during traversal. They are not fatal:
    /// what could be read is counted, and an unreadable subtree contributes
    /// nothing to its parent's total.
    pub fn errors(&self) -> (errors: &[AnalysisError])
        ensures
            errors@ == self@.errors,
    {
        self.errors.as_slice()
    }
}

/// Each fault of the walker is reported, in order, as an error of the same kind
/// about the same path, and nothing else is.
pub proof fn law_every_fault_is_reported(faults: Seq<WalkFault>)
    ensures
        all_reported(faults).len() == faults.len(),
        forall|i: int|
            0 <= i < faults.len() ==> match (faults[i], #[trigger] all_reported(faults)[i]) {
                (WalkFault::NoMetadataForPath(p), AnalysisError::NoMetadata(q)) => p == q,
                (WalkFault::CouldNotReadDir(p), AnalysisError::CouldNotReadDir(q)) => p == q,
                _ => false,
            },
{
}

/// The total of an analysis covers each of its entries, and whatever part of
/// them comes first makes up the total with the rest. The first entry is the
/// largest.
pub proof fn law_the_total_covers_the_entries(analysis: AnalysisView, i: int)
    requires
        analysis.is_consistent(),
        0 <= i < analysis.entries.len(),
    ensures
        analysis.entries[i].size_in_bytes <= analysis.total_in_bytes,
        analysis.entries[i].size_in_bytes <= analysis.entries[0].size_in_bytes,
        size_sum(analysis.entries.take(i)) + analysis.entries[i].size_in_bytes + size_sum(
            analysis.entries.skip(i + 1),
        ) == analysis.total_in_bytes,
{
    let entries = analysis.entries;
    law_no_entry_exceeds_the_total(entries, i);
    law_one_entry_is_its_own_total(entries[i]);
    law_totals_add_up(entries.take(i), seq![entries[i]]);
    law_totals_add_up(entries.take(i) + seq![entries[i]], entries.skip(i + 1));
    assert(entries =~= entries.take(i) + seq![entries[i]] + entries.skip(i + 1));
}

/// A progress event is seen as it is, with all that it holds.
pub proof fn law_events_are_seen_whole(event: ProgressEvent)
    ensures
        match event {
            ProgressEvent::Started { index, total, name } => event@ matches ProgressView::Started {
                index: i,
                total: n,
                name: text,
            } && i == index && n == total && text == name@,
            ProgressEvent::Finished { index, total, name, size_in_bytes } => event@ matches ProgressView::Finished {
                index: i,
                total: n,
                name: text,
                size_in_bytes: size,
            } && i == index && n == total && text == name@ && size == size_in_bytes,
            ProgressEvent::Done => event@ is Done,
        },
{
}

/// So is one that borrows its name.
pub proof fn law_borrowed_events_are_seen_whole(event: Progress<'_>)
    ensures
        match event {
            Progress::Started { index, total, name } => event@ matches ProgressView::Started {
                index: i,
                total: n,
                name: text,
            } && i == index && n == total && text == name@,
            Progress::Finished { index, total, name, size_in_bytes } => event@ matches ProgressView::Finished {
                index: i,
                total: n,
                name: text,
                size_in_bytes: size,
            } && i == index && n == total && text == name@ && size == size_in_bytes,
            Progress::Done => event@ is Done,
        },
{
}

} // verus!
