//! The rows of the tree report.
//!
//! With one level the report lists the largest children of the root. With
//! more, the directories among them are analyzed in turn and their largest
//! children stand beneath them. Running those analyses is left to the caller:
//! a [`RowCollector`] says which directory it needs next, and takes the result
//! or the news that there is none.
use std::path::PathBuf;

use vstd::prelude::*;

use crate::model::{Analysis, Entry};
#[allow(unused_imports)]
use crate::model::AnalysisView;

verus! {

/// One row to render: an entry plus the bookkeeping that says where it sits
/// in the tree.
#[derive(Debug)]
pub struct RenderRow {
    /// The entry's size.
    pub size_in_bytes: u64,
    /// Sum of sizes within this entry's sibling group; the divisor for the
    /// percent column.
    pub level_total: u64,
    /// Whether the entry is a directory.
    pub is_dir: bool,
    /// Tree-drawing prefix that goes immediately before the name. Empty for
    /// top-level rows.
    pub line_prefix: String,
    /// The entry's name.
    pub name: String,
    /// 0 for top-level rows, +1 per nesting level.
    pub depth: usize,
}

/// A row with its texts as character sequences.
pub struct RowView {
    /// See [`RenderRow::size_in_bytes`].
    pub size_in_bytes: nat,
    /// See [`RenderRow::level_total`].
    pub level_total: nat,
    /// See [`RenderRow::is_dir`].
    pub is_dir: bool,
    /// See [`RenderRow::line_prefix`].
    pub line_prefix: Seq<char>,
    /// See [`RenderRow::name`].
    pub name: Seq<char>,
    /// See [`RenderRow::depth`].
    pub depth: nat,
}

impl View for RenderRow {
    type V = RowView;

    open spec fn view(&self) -> RowView {
        RowView {
            size_in_bytes: self.size_in_bytes as nat,
            level_total: self.level_total as nat,
            is_dir: self.is_dir,
            line_prefix: self.line_prefix@,
            name: self.name@,
            depth: self.depth as nat,
        }
    }
}

/// The rows as character sequences.
pub open spec fn row_views(rows: Seq<RenderRow>) -> Seq<RowView> {
    rows.map_values(|row: RenderRow| row@)
}

/// How many of `len` entries are shown under the given limit.
pub open spec fn visible_count(len: nat, top: Option<usize>) -> nat {
    match top {
        Some(n) => if (n as nat) < len {
            n as nat
        } else {
            len
        },
        None => len,
    }
}

/// How many of `len` entries are shown under the given limit.
pub fn visible_len(len: usize, top: Option<usize>) -> (n: usize)
    ensures
        n as nat == visible_count(len as nat, top),
{
    match top {
        Some(n) => if n < len {
            n
        } else {
            len
        },
        None => len,
    }
}

/// The connector in front of an entry's name.
pub open spec fn branch(depth: nat, is_last: bool) -> Seq<char> {
    if depth == 0 {
        ""@
    } else if is_last {
        "└─ "@
    } else {
        "├─ "@
    }
}

/// What the rows beneath an entry carry in the entry's column.
pub open spec fn child_part(depth: nat, is_last: bool) -> Seq<char> {
    if depth == 0 {
        ""@
    } else if is_last {
        "   "@
    } else {
        "│  "@
    }
}

/// Whether the children of an entry at this depth are shown too.
pub open spec fn is_expanded(entry: Entry, depth: nat, levels: nat) -> bool {
    entry.is_dir && depth + 1 < levels
}

/// The row for the entry at place `i` of a level of which `n` are shown.
pub open spec fn row_for(
    level: AnalysisView,
    i: int,
    n: nat,
    prefix: Seq<char>,
    depth: nat,
) -> RowView {
    RowView {
        size_in_bytes: level.entries[i].size_in_bytes as nat,
        level_total: level.total_in_bytes,
        is_dir: level.entries[i].is_dir,
        line_prefix: prefix + branch(depth, i + 1 == n),
        name: level.entries[i].name@,
        depth,
    }
}

/// What a reply holds.
pub open spec fn seen_reply(reply: Option<Analysis>) -> Option<AnalysisView> {
    match reply {
        Some(sub) => Some(sub@),
        None => None,
    }
}

/// The first of the replies, and those behind it. Where there is none left
/// that counts as a failed analysis.
pub open spec fn next_reply(replies: Seq<Option<AnalysisView>>) -> (
    Option<AnalysisView>,
    Seq<Option<AnalysisView>>,
) {
    if replies.len() == 0 {
        (None, replies)
    } else {
        (replies[0], replies.drop_first())
    }
}

/// The rows for a level from its entry at place `i` on, with all that stands
/// beneath them, and the replies that are left then. `replies` are the results
/// of the analyses of the directories that are expanded, in the order in which
/// the report needs them; a failed one is `None` and adds no rows.
pub open spec fn rows_from(
    level: AnalysisView,
    i: int,
    top: Option<usize>,
    levels: nat,
    prefix: Seq<char>,
    depth: nat,
    replies: Seq<Option<AnalysisView>>,
) -> (Seq<RowView>, Seq<Option<AnalysisView>>)
    decreases levels - depth, visible_count(level.entries.len(), top) - i,
{
    let n = visible_count(level.entries.len(), top);
    if i >= n {
        (Seq::empty(), replies)
    } else {
        let row = row_for(level, i, n, prefix, depth);
        let (below, left) = if is_expanded(level.entries[i], depth, levels) {
            let (reply, others) = next_reply(replies);
            match reply {
                Some(sub) => rows_from(
                    sub,
                    0,
                    top,
                    levels,
                    prefix + child_part(depth, i + 1 == n),
                    depth + 1,
                    others,
                ),
                None => (Seq::empty(), others),
            }
        } else {
            (Seq::empty(), replies)
        };
        let (rest, left) = rows_from(level, i + 1, top, levels, prefix, depth, left);
        (seq![row] + below + rest, left)
    }
}

/// The rows of the report on an analysis, given the results of the analyses
/// of the directories that it expands.
pub open spec fn report_rows(
    analysis: AnalysisView,
    top: Option<usize>,
    levels: nat,
    replies: Seq<Option<AnalysisView>>,
) -> Seq<RowView> {
    rows_from(analysis, 0, top, levels, ""@, 0, replies).0
}

/// The directories that have to be analyzed for a level from its entry at place
/// `i` on, with all that stands beneath them, in the order in which the report
/// needs them, and the replies that are left then. Each directory that is
/// expanded is asked for by the path of its own entry, right after its row.
pub open spec fn asked_from(
    level: AnalysisView,
    i: int,
    top: Option<usize>,
    levels: nat,
    depth: nat,
    replies: Seq<Option<AnalysisView>>,
) -> (Seq<PathBuf>, Seq<Option<AnalysisView>>)
    decreases levels - depth, visible_count(level.entries.len(), top) - i,
{
    if i >= visible_count(level.entries.len(), top) {
        (Seq::empty(), replies)
    } else {
        let (here, left) = if is_expanded(level.entries[i], depth, levels) {
            let (reply, others) = next_reply(replies);
            let (below, left) = match reply {
                Some(sub) => asked_from(sub, 0, top, levels, depth + 1, others),
                None => (Seq::empty(), others),
            };
            (seq![level.entries[i].path] + below, left)
        } else {
            (Seq::empty(), replies)
        };
        let (rest, left) = asked_from(level, i + 1, top, levels, depth, left);
        (here + rest, left)
    }
}

/// The directories that are analyzed for the report on an analysis, in order,
/// given what those analyses find.
pub open spec fn report_asks(
    analysis: AnalysisView,
    top: Option<usize>,
    levels: nat,
    replies: Seq<Option<AnalysisView>>,
) -> Seq<PathBuf> {
    asked_from(analysis, 0, top, levels, 0, replies).0
}

/// A level of which some entries have their rows already.
pub struct LevelView {
    /// The analysis that the level shows.
    pub analysis: AnalysisView,
    /// The place of the next entry.
    pub next: int,
    /// The tree-drawing prefix of the level.
    pub prefix: Seq<char>,
}

/// The rows that the open levels still lack, the innermost level first.
pub open spec fn rows_left(
    open: Seq<LevelView>,
    top: Option<usize>,
    levels: nat,
    replies: Seq<Option<AnalysisView>>,
) -> Seq<RowView>
    decreases open.len(),
{
    if open.len() == 0 {
        Seq::empty()
    } else {
        let level = open.last();
        let (rows, left) = rows_from(
            level.analysis,
            level.next,
            top,
            levels,
            level.prefix,
            (open.len() - 1) as nat,
            replies,
        );
        rows + rows_left(open.drop_last(), top, levels, left)
    }
}

/// The directories that the open levels still ask for, the innermost level
/// first.
pub open spec fn asked_left(
    open: Seq<LevelView>,
    top: Option<usize>,
    levels: nat,
    replies: Seq<Option<AnalysisView>>,
) -> Seq<PathBuf>
    decreases open.len(),
{
    if open.len() == 0 {
        Seq::empty()
    } else {
        let level = open.last();
        let (paths, left) = asked_from(
            level.analysis,
            level.next,
            top,
            levels,
            (open.len() - 1) as nat,
            replies,
        );
        paths + asked_left(open.drop_last(), top, levels, left)
    }
}

/// How far the collecting of rows has come.
pub struct CollectorView {
    /// The limit that holds for each level.
    pub top: Option<usize>,
    /// How many levels are shown.
    pub levels: nat,
    /// The levels that are not finished, the outermost first.
    pub open: Seq<LevelView>,
    /// The rows so far.
    pub rows: Seq<RowView>,
}

impl CollectorView {
    /// The rows that come out if the analyses that are still to be made have
    /// these results.
    pub open spec fn outcome(self, replies: Seq<Option<AnalysisView>>) -> Seq<RowView> {
        self.rows + rows_left(self.open, self.top, self.levels, replies)
    }

    /// The directories that are still to be analyzed, in order, if the analyses
    /// have these results.
    pub open spec fn asked(self, replies: Seq<Option<AnalysisView>>) -> Seq<PathBuf> {
        asked_left(self.open, self.top, self.levels, replies)
    }

    /// The collector with one more level open.
    pub open spec fn entered(self, level: LevelView) -> CollectorView {
        CollectorView { open: self.open.push(level), ..self }
    }
}

struct Level {
    analysis: Analysis,
    next: usize,
    prefix: String,
}

impl View for Level {
    type V = LevelView;

    closed spec fn view(&self) -> LevelView {
        LevelView { analysis: self.analysis@, next: self.next as int, prefix: self.prefix@ }
    }
}

spec fn level_views(open: Seq<Level>) -> Seq<LevelView> {
    open.map_values(|level: Level| level@)
}

/// How much is left to do in the open levels.
spec fn work(open: Seq<LevelView>, top: Option<usize>) -> nat
    decreases open.len(),
{
    if open.len() == 0 {
        0
    } else {
        let n = visible_count(open.last().analysis.entries.len(), top);
        let here: int = n - open.last().next;
        work(open.drop_last(), top) + 1 + if here > 0 {
            here as nat
        } else {
            0nat
        }
    }
}

/// Collects the rows of a report.
pub struct RowCollector {
    top: Option<usize>,
    levels: usize,
    open: Vec<Level>,
    rows: Vec<RenderRow>,
}

impl View for RowCollector {
    type V = CollectorView;

    closed spec fn view(&self) -> CollectorView {
        CollectorView {
            top: self.top,
            levels: self.levels as nat,
            open: level_views(self.open@),
            rows: row_views(self.rows@),
        }
    }
}

/// A directory that has to be analyzed before the report can go on.
pub struct PendingLevel {
    collector: RowCollector,
    path: PathBuf,
    prefix: String,
}

impl PendingLevel {
    /// The state of the collector, without the level that is waited for.
    pub closed spec fn collector(self) -> CollectorView {
        self.collector@
    }

    /// The prefix of the level that is waited for.
    pub closed spec fn prefix(self) -> Seq<char> {
        self.prefix@
    }

    /// The rows that come out if this analysis and those after it have these
    /// results.
    pub open spec fn outcome(self, replies: Seq<Option<AnalysisView>>) -> Seq<RowView> {
        let (reply, others) = next_reply(replies);
        match reply {
            Some(sub) => self.collector().entered(
                LevelView { analysis: sub, next: 0, prefix: self.prefix() },
            ).outcome(others),
            None => self.collector().outcome(others),
        }
    }

    /// The directory that is waited for.
    pub closed spec fn awaited(self) -> PathBuf {
        self.path
    }

    /// The directories that are analyzed from here on, in order, if this
    /// analysis and those after it have these results: the one that is waited
    /// for comes first.
    pub open spec fn asked(self, replies: Seq<Option<AnalysisView>>) -> Seq<PathBuf> {
        let (reply, others) = next_reply(replies);
        seq![self.awaited()] + match reply {
            Some(sub) => self.collector().entered(
                LevelView { analysis: sub, next: 0, prefix: self.prefix() },
            ).asked(others),
            None => self.collector().asked(others),
        }
    }

    /// The directory of the row that was collected last: one that is expanded.
    pub open spec fn is_for(self, path: PathBuf) -> bool {
        let c = self.collector();
        let level = c.open.last();
        let i = level.next - 1;
        &&& c.open.len() > 0
        &&& 0 <= i < visible_count(level.analysis.entries.len(), c.top)
        &&& level.analysis.entries[i].path == path
        &&& is_expanded(level.analysis.entries[i], (c.open.len() - 1) as nat, c.levels)
    }

    #[verifier::type_invariant]
    spec fn consistent(self) -> bool {
        self.is_for(self.path)
    }

    /// The directory to analyze.
    pub fn path(&self) -> (path: &PathBuf)
        ensures
            self.is_for(*path),
            *path == self.awaited(),
            forall|replies: Seq<Option<AnalysisView>>|
                (#[trigger] self.asked(replies)).len() > 0 && self.asked(replies)[0] == *path,
    {
        proof {
            use_type_invariant(self);
        }
        &self.path
    }

    /// Takes the result of the analysis, or `None` where it failed. A failure
    /// leaves out the rows beneath the directory and nothing else.
    pub fn supply(self, reply: Option<Analysis>) -> (collector: RowCollector)
        ensures
            match reply {
                Some(sub) => collector@ == self.collector().entered(
                    LevelView { analysis: sub@, next: 0, prefix: self.prefix() },
                ),
                None => collector@ == self.collector(),
            },
            forall|replies: Seq<Option<AnalysisView>>|
                #![trigger collector@.outcome(replies)]
                collector@.outcome(replies) == self.outcome(
                    seq![seen_reply(reply)] + replies,
                ),
            forall|replies: Seq<Option<AnalysisView>>| #[trigger]
                collector@.asked(replies) == self.asked(
                    seq![seen_reply(reply)] + replies,
                ).drop_first(),
    {
        let PendingLevel { collector, path: _, prefix } = self;
        let RowCollector { top, levels, open, rows } = collector;
        let mut open = open;
        let ghost before = open@;
        let ghost reply_view = seen_reply(reply);
        if let Some(sub) = reply {
            open.push(Level { analysis: sub, next: 0, prefix });
            assert(level_views(open@) =~= level_views(before).push(
                LevelView { analysis: sub@, next: 0, prefix: prefix@ },
            ));
        }
        let collector = RowCollector { top, levels, open, rows };
        proof {
            assert forall|replies: Seq<Option<AnalysisView>>|
                #![trigger collector@.outcome(replies)]
                collector@.outcome(replies) == self.outcome(seq![reply_view] + replies) by {
                assert((seq![reply_view] + replies).drop_first() =~= replies);
            }
            assert forall|replies: Seq<Option<AnalysisView>>| #[trigger]
                collector@.asked(replies) == self.asked(
                    seq![reply_view] + replies,
                ).drop_first() by {
                assert((seq![reply_view] + replies).drop_first() =~= replies);
                assert(self.asked(seq![reply_view] + replies).drop_first() =~= collector@.asked(
                    replies,
                ));
            }
        }
        collector
    }
}

/// What a collector needs next.
pub enum CollectStep {
    /// A directory has to be analyzed.
    Analyze(PendingLevel),
    /// All rows have been collected.
    Done(Vec<RenderRow>),
}

fn branch_text(depth: usize, is_last: bool) -> (text: &'static str)
    ensures
        text@ == branch(depth as nat, is_last),
{
    if depth == 0 {
        ""
    } else if is_last {
        "└─ "
    } else {
        "├─ "
    }
}

fn child_part_text(depth: usize, is_last: bool) -> (text: &'static str)
    ensures
        text@ == child_part(depth as nat, is_last),
{
    if depth == 0 {
        ""
    } else if is_last {
        "   "
    } else {
        "│  "
    }
}

impl RowCollector {
    /// Starts the report on an analysis: the `top` largest entries of each
    /// level, `levels` levels deep.
    pub fn new(analysis: &Analysis, top: Option<usize>, levels: usize) -> (collector: RowCollector)
        ensures
            collector@ == (CollectorView {
                top,
                levels: levels as nat,
                open: seq![LevelView { analysis: analysis@, next: 0, prefix: ""@ }],
                rows: Seq::empty(),
            }),
            forall|replies: Seq<Option<AnalysisView>>| #[trigger]
                collector@.outcome(replies) == report_rows(
                    analysis@,
                    top,
                    levels as nat,
                    replies,
                ),
            forall|replies: Seq<Option<AnalysisView>>| #[trigger]
                collector@.asked(replies) == report_asks(analysis@, top, levels as nat, replies),
    {
        let mut open: Vec<Level> = Vec::new();
        open.push(Level { analysis: analysis.clone(), next: 0, prefix: "".to_string() });
        let collector = RowCollector { top, levels, open, rows: Vec::new() };
        proof {
            reveal_with_fuel(rows_left, 2);
            reveal_with_fuel(asked_left, 2);
            assert(collector@.open =~= seq![
                LevelView { analysis: analysis@, next: 0, prefix: ""@ },
            ]);
            assert(collector@.open.drop_last() =~= Seq::empty());
            assert(collector@.rows =~= Seq::empty());
            assert forall|replies: Seq<Option<AnalysisView>>| #[trigger]
                collector@.asked(replies) == report_asks(
                    analysis@,
                    top,
                    levels as nat,
                    replies,
                ) by {
                assert(collector@.asked(replies) =~= report_asks(
                    analysis@,
                    top,
                    levels as nat,
                    replies,
                ));
            }
            assert forall|replies: Seq<Option<AnalysisView>>| #[trigger]
                collector@.outcome(replies) == report_rows(
                    analysis@,
                    top,
                    levels as nat,
                    replies,
                ) by {
                assert(collector@.outcome(replies) =~= report_rows(
                    analysis@,
                    top,
                    levels as nat,
                    replies,
                ));
            }
        }
        collector
    }

    /// Collects rows until a directory has to be analyzed or there are none
    /// left. Whatever the analyses to come find, the report stays the same, and
    /// so do the directories that are analyzed for it.
    pub fn collect_rows(self) -> (step: CollectStep)
        ensures
            match step {
                CollectStep::Analyze(pending) => {
                    &&& forall|replies: Seq<Option<AnalysisView>>| #[trigger]
                        pending.outcome(replies) == self@.outcome(replies)
                    &&& forall|replies: Seq<Option<AnalysisView>>| #[trigger]
                        pending.asked(replies) == self@.asked(replies)
                },
                CollectStep::Done(rows) => {
                    &&& forall|replies: Seq<Option<AnalysisView>>|
                        row_views(rows@) == #[trigger] self@.outcome(replies)
                    &&& forall|replies: Seq<Option<AnalysisView>>| #[trigger]
                        self@.asked(replies) == Seq::<PathBuf>::empty()
                },
            },
    {
        let RowCollector { top, levels, open, rows } = self;
        let mut open = open;
        let mut rows = rows;
        let ghost start = self@;
        loop
            invariant
                start == self@,
                start.top == top,
                start.levels == levels,
                forall|replies: Seq<Option<AnalysisView>>| #[trigger]
                    start.outcome(replies) == row_views(rows@) + rows_left(
                        level_views(open@),
                        top,
                        levels as nat,
                        replies,
                    ),
                forall|replies: Seq<Option<AnalysisView>>| #[trigger]
                    start.asked(replies) == asked_left(
                        level_views(open@),
                        top,
                        levels as nat,
                        replies,
                    ),
            decreases work(level_views(open@), top),
        {
            let ghost open_before = level_views(open@);
            let ghost rows_before = row_views(rows@);
            let depth_plus_one: usize = open.len();
            match open.pop() {
                None => {
                    assert forall|replies: Seq<Option<AnalysisView>>|
                        row_views(rows@) == #[trigger] start.outcome(replies) by {
                        assert(rows_left(open_before, top, levels as nat, replies) =~= Seq::empty());
                    }
                    assert forall|replies: Seq<Option<AnalysisView>>| #[trigger]
                        self@.asked(replies) == Seq::<PathBuf>::empty() by {
                        assert(start.asked(replies) == asked_left(
                            open_before,
                            top,
                            levels as nat,
                            replies,
                        ));
                    }
                    return CollectStep::Done(rows);
                },
                Some(level) => {
                    let ghost outer = level_views(open@);
                    assert(outer =~= open_before.drop_last());
                    let Level { analysis, next, prefix } = level;
                    let depth: usize = depth_plus_one - 1;
                    let n: usize = visible_len(analysis.entries().len(), top);
                    if next >= n {
                        assert forall|replies: Seq<Option<AnalysisView>>| #[trigger]
                            start.outcome(replies) == row_views(rows@) + rows_left(
                                outer,
                                top,
                                levels as nat,
                                replies,
                            ) by {
                            assert(rows_left(open_before, top, levels as nat, replies)
                                =~= rows_left(outer, top, levels as nat, replies));
                        }
                        assert forall|replies: Seq<Option<AnalysisView>>| #[trigger]
                            start.asked(replies) == asked_left(
                                outer,
                                top,
                                levels as nat,
                                replies,
                            ) by {
                            assert(asked_left(open_before, top, levels as nat, replies)
                                =~= asked_left(outer, top, levels as nat, replies));
                        }
                        continue;
                    }
                    let is_last = next + 1 == n;
                    let total: u64 = analysis.total_in_bytes();
                    let entry = &analysis.entries()[next];
                    let is_dir = entry.is_dir;
                    let mut line_prefix = prefix.clone();
                    line_prefix.append(branch_text(depth, is_last));
                    rows.push(
                        RenderRow {
                            size_in_bytes: entry.size_in_bytes,
                            level_total: total,
                            is_dir,
                            line_prefix,
                            name: entry.name.clone(),
                            depth,
                        },
                    );
                    let ghost row = row_for(
                        analysis@,
                        next as int,
                        n as nat,
                        prefix@,
                        depth as nat,
                    );
                    assert(row_views(rows@) =~= rows_before.push(row));
                    let path = entry.path.clone();
                    let mut child_prefix = prefix.clone();
                    child_prefix.append(child_part_text(depth, is_last));
                    open.push(Level { analysis, next: next + 1, prefix });
                    let ghost here = LevelView {
                        analysis: analysis@,
                        next: next + 1,
                        prefix: prefix@,
                    };
                    let ghost open_after = level_views(open@);
                    assert(open_after =~= outer.push(here));
                    assert(open_after.drop_last() =~= outer);
                    if is_dir && depth_plus_one < levels {
                        let ghost below_prefix = child_prefix@;
                        let collector = RowCollector { top, levels, open, rows };
                        let pending = PendingLevel { collector, path, prefix: child_prefix };
                        assert forall|replies: Seq<Option<AnalysisView>>| #[trigger]
                            pending.outcome(replies) == start.outcome(replies) by {
                            reveal_with_fuel(rows_left, 2);
                            let (reply, others) = next_reply(replies);
                            match reply {
                                Some(sub) => {
                                    let inner = LevelView {
                                        analysis: sub,
                                        next: 0,
                                        prefix: below_prefix,
                                    };
                                    assert(open_after.push(inner).drop_last() =~= open_after);
                                },
                                None => {},
                            }
                            assert(pending.outcome(replies) =~= start.outcome(replies));
                        }
                        assert forall|replies: Seq<Option<AnalysisView>>| #[trigger]
                            pending.asked(replies) == start.asked(replies) by {
                            reveal_with_fuel(asked_left, 2);
                            let (reply, others) = next_reply(replies);
                            match reply {
                                Some(sub) => {
                                    let inner = LevelView {
                                        analysis: sub,
                                        next: 0,
                                        prefix: below_prefix,
                                    };
                                    assert(open_after.push(inner).drop_last() =~= open_after);
                                },
                                None => {},
                            }
                            assert(pending.asked(replies) =~= start.asked(replies));
                        }
                        return CollectStep::Analyze(pending);
                    }
                    assert forall|replies: Seq<Option<AnalysisView>>| #[trigger]
                        start.outcome(replies) == row_views(rows@) + rows_left(
                            open_after,
                            top,
                            levels as nat,
                            replies,
                        ) by {
                        assert(start.outcome(replies) =~= row_views(rows@) + rows_left(
                            open_after,
                            top,
                            levels as nat,
                            replies,
                        ));
                    }
                    assert forall|replies: Seq<Option<AnalysisView>>| #[trigger]
                        start.asked(replies) == asked_left(
                            open_after,
                            top,
                            levels as nat,
                            replies,
                        ) by {
                        assert(start.asked(replies) =~= asked_left(
                            open_after,
                            top,
                            levels as nat,
                            replies,
                        ));
                    }
                },
            }
        }
    }
}

proof fn lemma_flat(
    level: AnalysisView,
    i: int,
    top: Option<usize>,
    levels: nat,
    prefix: Seq<char>,
    depth: nat,
    replies: Seq<Option<AnalysisView>>,
)
    requires
        depth + 1 >= levels,
        0 <= i <= visible_count(level.entries.len(), top),
    ensures
        rows_from(level, i, top, levels, prefix, depth, replies) == (
            Seq::new(
                (visible_count(level.entries.len(), top) - i) as nat,
                |k: int|
                    row_for(
                        level,
                        i + k,
                        visible_count(level.entries.len(), top),
                        prefix,
                        depth,
                    ),
            ),
            replies,
        ),
    decreases visible_count(level.entries.len(), top) - i,
{
    let n = visible_count(level.entries.len(), top);
    let flat = Seq::new((n - i) as nat, |k: int| row_for(level, i + k, n, prefix, depth));
    if i < n {
        lemma_flat(level, i + 1, top, levels, prefix, depth, replies);
        assert(rows_from(level, i, top, levels, prefix, depth, replies).0 =~= flat);
    } else {
        assert(flat =~= Seq::empty());
    }
}

/// With one level the report is the flat list of the largest entries, and no
/// other directory is analyzed for it.
pub proof fn law_one_level_is_flat(
    analysis: AnalysisView,
    top: Option<usize>,
    levels: nat,
    replies: Seq<Option<AnalysisView>>,
)
    requires
        levels <= 1,
    ensures
        report_rows(analysis, top, levels, replies) == Seq::new(
            visible_count(analysis.entries.len(), top),
            |k: int|
                row_for(analysis, k, visible_count(analysis.entries.len(), top), ""@, 0),
        ),
        rows_from(analysis, 0, top, levels, ""@, 0, replies).1 == replies,
{
    lemma_flat(analysis, 0, top, levels, ""@, 0, replies);
    assert(report_rows(analysis, top, levels, replies) =~= Seq::new(
        visible_count(analysis.entries.len(), top),
        |k: int| row_for(analysis, k, visible_count(analysis.entries.len(), top), ""@, 0),
    ));
}

/// How wide the prefix of a level is: three characters for each level between
/// it and the top level.
pub open spec fn prefix_width(depth: nat) -> nat {
    if depth == 0 {
        0
    } else {
        (3 * (depth - 1)) as nat
    }
}

/// A row lies within the levels shown, and its name is indented by three
/// characters for each level above it.
pub open spec fn is_in_place(row: RowView, depth: nat, levels: nat) -> bool {
    &&& depth <= row.depth
    &&& row.depth == depth || row.depth < levels
    &&& row.line_prefix.len() == 3 * row.depth
}

pub(crate) proof fn lemma_in_place(
    level: AnalysisView,
    i: int,
    top: Option<usize>,
    levels: nat,
    prefix: Seq<char>,
    depth: nat,
    replies: Seq<Option<AnalysisView>>,
)
    requires
        prefix.len() == prefix_width(depth),
        0 <= i,
    ensures
        forall|k: int|
            0 <= k < rows_from(level, i, top, levels, prefix, depth, replies).0.len()
                ==> is_in_place(
                #[trigger] rows_from(level, i, top, levels, prefix, depth, replies).0[k],
                depth,
                levels,
            ),
    decreases levels - depth, visible_count(level.entries.len(), top) - i,
{
    reveal_strlit("");
    reveal_strlit("   ");
    reveal_strlit("│  ");
    reveal_strlit("└─ ");
    reveal_strlit("├─ ");
    let n = visible_count(level.entries.len(), top);
    if i < n {
        let row = row_for(level, i, n, prefix, depth);
        let below_prefix = prefix + child_part(depth, i + 1 == n);
        let (reply, others) = next_reply(replies);
        let (below, left) = if is_expanded(level.entries[i], depth, levels) {
            match reply {
                Some(sub) => rows_from(sub, 0, top, levels, below_prefix, depth + 1, others),
                None => (Seq::empty(), others),
            }
        } else {
            (Seq::empty(), replies)
        };
        if is_expanded(level.entries[i], depth, levels) {
            if let Some(sub) = reply {
                lemma_in_place(sub, 0, top, levels, below_prefix, depth + 1, others);
            }
        }
        lemma_in_place(level, i + 1, top, levels, prefix, depth, left);
        let rest = rows_from(level, i + 1, top, levels, prefix, depth, left).0;
        let all = rows_from(level, i, top, levels, prefix, depth, replies).0;
        assert(all == seq![row] + below + rest);
        assert forall|k: int| 0 <= k < all.len() implies is_in_place(
            #[trigger] all[k],
            depth,
            levels,
        ) by {
            if k == 0 {
                assert(all[k] == row);
            } else if k < 1 + below.len() {
                assert(all[k] == below[k - 1]);
            } else {
                assert(all[k] == rest[k - 1 - below.len()]);
            }
        }
    }
}

/// The report goes no deeper than the levels asked for, and each row is
/// indented by three characters for each level above it: top-level rows stand
/// at the edge.
pub proof fn law_rows_are_in_place(
    analysis: AnalysisView,
    top: Option<usize>,
    levels: nat,
    replies: Seq<Option<AnalysisView>>,
)
    ensures
        forall|k: int|
            0 <= k < report_rows(analysis, top, levels, replies).len() ==> is_in_place(
                #[trigger] report_rows(analysis, top, levels, replies)[k],
                0,
                levels,
            ),
{
    reveal_strlit("");
    lemma_in_place(analysis, 0, top, levels, ""@, 0, replies);
}

/// The rows of the given depth, in their order.
pub open spec fn rows_at(rows: Seq<RowView>, depth: nat) -> Seq<RowView> {
    rows.filter(|row: RowView| row.depth == depth)
}

proof fn lemma_filter_concat(a: Seq<RowView>, b: Seq<RowView>, depth: nat)
    ensures
        rows_at(a + b, depth) == rows_at(a, depth) + rows_at(b, depth),
    decreases b.len(),
{
    let keep = |row: RowView| row.depth == depth;
    reveal(Seq::filter);
    if b.len() == 0 {
        assert(a + b =~= a);
        assert(rows_at(a, depth) + rows_at(b, depth) =~= rows_at(a, depth));
    } else {
        assert((a + b).drop_last() =~= a + b.drop_last());
        lemma_filter_concat(a, b.drop_last(), depth);
        assert(rows_at(a + b, depth) =~= rows_at(a, depth) + rows_at(b, depth));
    }
}

proof fn lemma_none_at(rows: Seq<RowView>, depth: nat)
    requires
        forall|k: int| 0 <= k < rows.len() ==> (#[trigger] rows[k]).depth > depth,
    ensures
        rows_at(rows, depth) == Seq::<RowView>::empty(),
    decreases rows.len(),
{
    reveal(Seq::filter);
    if rows.len() > 0 {
        assert(rows[rows.len() - 1].depth > depth);
        lemma_none_at(rows.drop_last(), depth);
    }
}

proof fn lemma_level_rows(
    level: AnalysisView,
    i: int,
    top: Option<usize>,
    levels: nat,
    prefix: Seq<char>,
    depth: nat,
    replies: Seq<Option<AnalysisView>>,
)
    requires
        prefix.len() == prefix_width(depth),
        0 <= i <= visible_count(level.entries.len(), top),
    ensures
        rows_at(rows_from(level, i, top, levels, prefix, depth, replies).0, depth) == Seq::new(
            (visible_count(level.entries.len(), top) - i) as nat,
            |k: int|
                row_for(level, i + k, visible_count(level.entries.len(), top), prefix, depth),
        ),
    decreases visible_count(level.entries.len(), top) - i,
{
    reveal_strlit("");
    reveal_strlit("   ");
    reveal_strlit("│  ");
    reveal(Seq::filter);
    let n = visible_count(level.entries.len(), top);
    let flat = Seq::new((n - i) as nat, |k: int| row_for(level, i + k, n, prefix, depth));
    if i < n {
        let row = row_for(level, i, n, prefix, depth);
        let below_prefix = prefix + child_part(depth, i + 1 == n);
        let (reply, others) = next_reply(replies);
        let (below, left) = if is_expanded(level.entries[i], depth, levels) {
            match reply {
                Some(sub) => rows_from(sub, 0, top, levels, below_prefix, depth + 1, others),
                None => (Seq::empty(), others),
            }
        } else {
            (Seq::empty(), replies)
        };
        if is_expanded(level.entries[i], depth, levels) {
            if let Some(sub) = reply {
                lemma_in_place(sub, 0, top, levels, below_prefix, depth + 1, others);
            }
        }
        lemma_none_at(below, depth);
        lemma_level_rows(level, i + 1, top, levels, prefix, depth, left);
        let rest = rows_from(level, i + 1, top, levels, prefix, depth, left).0;
        lemma_filter_concat(seq![row] + below, rest, depth);
        lemma_filter_concat(seq![row], below, depth);
        assert(seq![row].drop_last() =~= Seq::empty());
        assert(rows_at(seq![row], depth) =~= seq![row]);
        assert(rows_at(rows_from(level, i, top, levels, prefix, depth, replies).0, depth) =~= flat);
    } else {
        assert(flat =~= Seq::empty());
    }
}

/// The top level is the same however deep the report goes and whatever the
/// analyses of the directories below find: the largest entries in order.
pub proof fn law_top_level_is_the_flat_list(
    analysis: AnalysisView,
    top: Option<usize>,
    levels: nat,
    replies: Seq<Option<AnalysisView>>,
)
    ensures
        rows_at(report_rows(analysis, top, levels, replies), 0) == report_rows(
            analysis,
            top,
            1,
            replies,
        ),
{
    reveal_strlit("");
    lemma_level_rows(analysis, 0, top, levels, ""@, 0, replies);
    law_one_level_is_flat(analysis, top, 1, replies);
    assert(rows_at(report_rows(analysis, top, levels, replies), 0) =~= report_rows(
        analysis,
        top,
        1,
        replies,
    ));
}

pub(crate) proof fn lemma_one_reply_each(
    level: AnalysisView,
    i: int,
    top: Option<usize>,
    levels: nat,
    prefix: Seq<char>,
    depth: nat,
    replies: Seq<Option<AnalysisView>>,
)
    ensures
        rows_from(level, i, top, levels, prefix, depth, replies).1 == asked_from(
            level,
            i,
            top,
            levels,
            depth,
            replies,
        ).1,
        asked_from(level, i, top, levels, depth, replies).0.len() <= replies.len() ==> asked_from(
            level,
            i,
            top,
            levels,
            depth,
            replies,
        ).1 == replies.skip(asked_from(level, i, top, levels, depth, replies).0.len() as int),
        asked_from(level, i, top, levels, depth, replies).0.len() > replies.len() ==> asked_from(
            level,
            i,
            top,
            levels,
            depth,
            replies,
        ).1.len() == 0,
    decreases levels - depth, visible_count(level.entries.len(), top) - i,
{
    let n = visible_count(level.entries.len(), top);
    let (asked, end) = asked_from(level, i, top, levels, depth, replies);
    if i < n {
        let below_prefix = prefix + child_part(depth, i + 1 == n);
        let (reply, others) = next_reply(replies);
        let (here, left) = if is_expanded(level.entries[i], depth, levels) {
            let (below, left) = match reply {
                Some(sub) => asked_from(sub, 0, top, levels, depth + 1, others),
                None => (Seq::empty(), others),
            };
            (seq![level.entries[i].path] + below, left)
        } else {
            (Seq::empty(), replies)
        };
        if is_expanded(level.entries[i], depth, levels) {
            if let Some(sub) = reply {
                lemma_one_reply_each(sub, 0, top, levels, below_prefix, depth + 1, others);
            }
        }
        lemma_one_reply_each(level, i + 1, top, levels, prefix, depth, left);
        let rest = asked_from(level, i + 1, top, levels, depth, left).0;
        assert(asked == here + rest);
        if here.len() <= replies.len() {
            assert(left =~= replies.skip(here.len() as int));
        }
        if asked.len() <= replies.len() {
            assert(end =~= replies.skip(asked.len() as int));
        }
    } else {
        assert(replies =~= replies.skip(0));
    }
}

/// The report takes one reply for each directory that it asks for, in that
/// order: what a level shows beneath a directory is the analysis of that
/// directory and of no other.
pub proof fn law_one_reply_for_each_directory(
    analysis: AnalysisView,
    top: Option<usize>,
    levels: nat,
    replies: Seq<Option<AnalysisView>>,
)
    requires
        report_asks(analysis, top, levels, replies).len() <= replies.len(),
    ensures
        rows_from(analysis, 0, top, levels, ""@, 0, replies).1 == replies.skip(
            report_asks(analysis, top, levels, replies).len() as int,
        ),
{
    lemma_one_reply_each(analysis, 0, top, levels, ""@, 0, replies);
}

/// A reply that adds no rows: a failed analysis, or that of a directory without
/// entries.
pub open spec fn adds_nothing(reply: Option<AnalysisView>) -> bool {
    match reply {
        Some(sub) => sub.entries.len() == 0,
        None => true,
    }
}

/// The replies are the same, but that some may have failed where the others
/// found a directory without entries.
pub open spec fn read_alike(
    replies: Seq<Option<AnalysisView>>,
    others: Seq<Option<AnalysisView>>,
) -> bool {
    &&& replies.len() == others.len()
    &&& forall|k: int|
        0 <= k < replies.len() ==> (#[trigger] replies[k]) == others[k] || (adds_nothing(
            replies[k],
        ) && adds_nothing(others[k]))
}

proof fn lemma_nothing_beneath(
    level: AnalysisView,
    top: Option<usize>,
    levels: nat,
    prefix: Seq<char>,
    depth: nat,
    replies: Seq<Option<AnalysisView>>,
)
    requires
        level.entries.len() == 0,
    ensures
        rows_from(level, 0, top, levels, prefix, depth, replies) == (
            Seq::<RowView>::empty(),
            replies,
        ),
        asked_from(level, 0, top, levels, depth, replies) == (Seq::<PathBuf>::empty(), replies),
{
}

proof fn lemma_read_alike(
    level: AnalysisView,
    i: int,
    top: Option<usize>,
    levels: nat,
    prefix: Seq<char>,
    depth: nat,
    a: Seq<Option<AnalysisView>>,
    b: Seq<Option<AnalysisView>>,
)
    requires
        read_alike(a, b),
        0 <= i,
    ensures
        rows_from(level, i, top, levels, prefix, depth, a).0 == rows_from(
            level,
            i,
            top,
            levels,
            prefix,
            depth,
            b,
        ).0,
        read_alike(
            rows_from(level, i, top, levels, prefix, depth, a).1,
            rows_from(level, i, top, levels, prefix, depth, b).1,
        ),
        asked_from(level, i, top, levels, depth, a).0 == asked_from(
            level,
            i,
            top,
            levels,
            depth,
            b,
        ).0,
    decreases levels - depth, visible_count(level.entries.len(), top) - i,
{
    let n = visible_count(level.entries.len(), top);
    lemma_one_reply_each(level, i, top, levels, prefix, depth, a);
    lemma_one_reply_each(level, i, top, levels, prefix, depth, b);
    if i < n {
        let below_prefix = prefix + child_part(depth, i + 1 == n);
        let (reply_a, others_a) = next_reply(a);
        let (reply_b, others_b) = next_reply(b);
        let (left_a, left_b) = if is_expanded(level.entries[i], depth, levels) {
            assert(read_alike(others_a, others_b)) by {
                assert forall|k: int| 0 <= k < others_a.len() implies (#[trigger] others_a[k])
                    == others_b[k] || (adds_nothing(others_a[k]) && adds_nothing(others_b[k])) by {
                    assert(others_a[k] == a[k + 1] && others_b[k] == b[k + 1]);
                }
            }
            if a.len() > 0 {
                assert(a[0] == b[0] || (adds_nothing(a[0]) && adds_nothing(b[0])));
            }
            if reply_a == reply_b {
                if let Some(sub) = reply_a {
                    lemma_one_reply_each(
                        sub,
                        0,
                        top,
                        levels,
                        below_prefix,
                        depth + 1,
                        others_a,
                    );
                    lemma_one_reply_each(
                        sub,
                        0,
                        top,
                        levels,
                        below_prefix,
                        depth + 1,
                        others_b,
                    );
                    lemma_read_alike(
                        sub,
                        0,
                        top,
                        levels,
                        below_prefix,
                        depth + 1,
                        others_a,
                        others_b,
                    );
                    (
                        rows_from(sub, 0, top, levels, below_prefix, depth + 1, others_a).1,
                        rows_from(sub, 0, top, levels, below_prefix, depth + 1, others_b).1,
                    )
                } else {
                    (others_a, others_b)
                }
            } else {
                if let Some(sub) = reply_a {
                    lemma_nothing_beneath(sub, top, levels, below_prefix, depth + 1, others_a);
                }
                if let Some(sub) = reply_b {
                    lemma_nothing_beneath(sub, top, levels, below_prefix, depth + 1, others_b);
                }
                (others_a, others_b)
            }
        } else {
            (a, b)
        };
        lemma_one_reply_each(level, i + 1, top, levels, prefix, depth, left_a);
        lemma_one_reply_each(level, i + 1, top, levels, prefix, depth, left_b);
        lemma_read_alike(level, i + 1, top, levels, prefix, depth, left_a, left_b);
    }
}

/// A directory whose analysis fails adds its own row and no other: all rows are
/// as they would be if it had no entries, and the same directories are analyzed
/// for the rest of the report.
pub proof fn law_failed_directory_reads_as_empty(
    analysis: AnalysisView,
    top: Option<usize>,
    levels: nat,
    replies: Seq<Option<AnalysisView>>,
    k: int,
    empty: AnalysisView,
)
    requires
        0 <= k < replies.len(),
        empty.entries.len() == 0,
    ensures
        report_rows(analysis, top, levels, replies.update(k, None)) == report_rows(
            analysis,
            top,
            levels,
            replies.update(k, Some(empty)),
        ),
        report_asks(analysis, top, levels, replies.update(k, None)) == report_asks(
            analysis,
            top,
            levels,
            replies.update(k, Some(empty)),
        ),
{
    let failed = replies.update(k, None);
    let found = replies.update(k, Some(empty));
    assert forall|j: int| 0 <= j < failed.len() implies (#[trigger] failed[j]) == found[j] || (
    adds_nothing(failed[j]) && adds_nothing(found[j])) by {}
    lemma_read_alike(analysis, 0, top, levels, ""@, 0, failed, found);
}

/// Rows are seen as they are, one for one and with all that they hold.
pub proof fn law_rows_are_seen_whole(rows: Seq<RenderRow>)
    ensures
        row_views(rows).len() == rows.len(),
        forall|i: int|
            0 <= i < rows.len() ==> {
                let view = #[trigger] row_views(rows)[i];
                &&& view.size_in_bytes == rows[i].size_in_bytes
                &&& view.level_total == rows[i].level_total
                &&& view.is_dir == rows[i].is_dir
                &&& view.line_prefix == rows[i].line_prefix@
                &&& view.name == rows[i].name@
                &&& view.depth == rows[i].depth
            },
{
}

} // verus!
