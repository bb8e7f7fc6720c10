//! What the tree report shows, row by row, and how its tree lines are drawn.
#[allow(unused_imports)]
use std::path::PathBuf;

use vstd::prelude::*;

#[allow(unused_imports)]
use crate::model::{AnalysisView, Entry};
#[allow(unused_imports)]
use crate::rows::{
    asked_from, branch, child_part, is_expanded, is_in_place, law_one_level_is_flat,
    law_top_level_is_the_flat_list, lemma_in_place, lemma_one_reply_each, next_reply, prefix_width,
    report_asks, report_rows, row_for, rows_from, visible_count, RowView,
};

verus! {

/// How many of `len` entries a limit lets through.
pub open spec fn shown_len(len: nat, top: Option<usize>) -> nat {
    if top is Some && top->0 < len {
        top->0 as nat
    } else {
        len
    }
}

/// A row shows an entry of a level with the given total.
pub open spec fn is_row_of(row: RowView, entry: Entry, total: nat, depth: nat) -> bool {
    &&& row.size_in_bytes == entry.size_in_bytes
    &&& row.level_total == total
    &&& row.is_dir == entry.is_dir
    &&& row.name == entry.name@
    &&& row.depth == depth
}

/// With a limit as many entries are shown as it lets through, or all where
/// there are fewer; without one all are.
pub proof fn law_a_limit_lets_the_first_through(len: nat, top: Option<usize>)
    ensures
        visible_count(len, top) <= len,
        top is None ==> visible_count(len, top) == len,
        top matches Some(n) ==> visible_count(len, top) <= n && (n >= len ==> visible_count(
            len,
            top,
        ) == len) && (n < len ==> visible_count(len, top) == n),
{
}

/// However many levels are shown, the rows of the top level are the largest
/// entries of the analysis, as many as the limit lets through, in their order:
/// each with its own size, kind and name, and the total of the analysis.
pub proof fn law_the_top_level_shows_the_entries(
    analysis: AnalysisView,
    top: Option<usize>,
    levels: nat,
    replies: Seq<Option<AnalysisView>>,
)
    ensures
        ({
            let rows = report_rows(analysis, top, levels, replies).filter(
                |row: RowView| row.depth == 0,
            );
            &&& rows.len() == shown_len(analysis.entries.len(), top)
            &&& forall|k: int|
                0 <= k < rows.len() ==> is_row_of(
                    #[trigger] rows[k],
                    analysis.entries[k],
                    analysis.total_in_bytes,
                    0,
                ) && rows[k].line_prefix.len() == 0
        }),
{
    reveal_strlit("");
    law_top_level_is_the_flat_list(analysis, top, levels, replies);
    law_one_level_is_flat(analysis, top, 1, replies);
}

// ---------------------------------------------------------------------------
// Beneath a directory
// ---------------------------------------------------------------------------

/// The rows show the same one level deeper.
pub open spec fn are_deeper(rows: Seq<RowView>, others: Seq<RowView>) -> bool {
    &&& rows.len() == others.len()
    &&& forall|k: int|
        0 <= k < rows.len() ==> {
            &&& (#[trigger] rows[k]).size_in_bytes == others[k].size_in_bytes
            &&& rows[k].level_total == others[k].level_total
            &&& rows[k].is_dir == others[k].is_dir
            &&& rows[k].name == others[k].name
            &&& rows[k].depth == others[k].depth + 1
        }
}

/// A level without its first entry, and without those that are not shown.
pub open spec fn without_first(analysis: AnalysisView, top: Option<usize>) -> AnalysisView {
    AnalysisView {
        entries: analysis.entries.subrange(1, shown_len(analysis.entries.len(), top) as int),
        ..analysis
    }
}

/// A report shows its first entry, beneath it the report on that entry where it
/// is a directory and there are levels left, and then the report on the other
/// entries. What stands beneath a directory is what a report on it with one
/// level less would show, and for no other reason is a directory analyzed: each
/// is asked for by its own path, right after its row.
pub proof fn law_a_directory_is_followed_by_its_report(
    analysis: AnalysisView,
    top: Option<usize>,
    levels: nat,
    replies: Seq<Option<AnalysisView>>,
)
    requires
        report_asks(analysis, top, levels, replies).len() <= replies.len(),
    ensures
        ({
            let rows = report_rows(analysis, top, levels, replies);
            let asks = report_asks(analysis, top, levels, replies);
            let others = without_first(analysis, top);
            let later = replies.skip(1);
            if shown_len(analysis.entries.len(), top) == 0 {
                rows.len() == 0 && asks.len() == 0
            } else {
                let first = analysis.entries[0];
                &&& rows.len() > 0
                &&& is_row_of(rows[0], first, analysis.total_in_bytes, 0)
                &&& if first.is_dir && levels >= 2 {
                    &&& replies.len() > 0
                    &&& asks.len() > 0
                    &&& asks[0] == first.path
                    &&& match replies[0] {
                        Some(sub) => {
                            let below = report_rows(sub, top, (levels - 1) as nat, later);
                            let below_asks = report_asks(sub, top, (levels - 1) as nat, later);
                            let left = replies.skip(1 + below_asks.len() as int);
                            &&& below.len() < rows.len()
                            &&& are_deeper(rows.subrange(1, 1 + below.len() as int), below)
                            &&& rows.skip(1 + below.len() as int) == report_rows(
                                others,
                                top,
                                levels,
                                left,
                            )
                            &&& asks.skip(1) == below_asks + report_asks(others, top, levels, left)
                        },
                        None => {
                            &&& rows.skip(1) == report_rows(others, top, levels, later)
                            &&& asks.skip(1) == report_asks(others, top, levels, later)
                        },
                    }
                } else {
                    &&& rows.skip(1) == report_rows(others, top, levels, replies)
                    &&& asks == report_asks(others, top, levels, replies)
                }
            }
        }),
{
    reveal_strlit("");
    let rows = report_rows(analysis, top, levels, replies);
    let asks = report_asks(analysis, top, levels, replies);
    let others = without_first(analysis, top);
    let n = visible_count(analysis.entries.len(), top);
    if n > 0 {
        let first = analysis.entries[0];
        let row = row_for(analysis, 0, n, ""@, 0);
        if first.is_dir && levels >= 2 {
            let (reply, later) = next_reply(replies);
            match reply {
                Some(sub) => {
                    let under = ""@ + child_part(0, 1 == n);
                    let less = (levels - 1) as nat;
                    let below = rows_from(sub, 0, top, levels, under, 1, later).0;
                    let flat = rows_from(sub, 0, top, less, ""@, 0, later).0;
                    let below_asks = asked_from(sub, 0, top, levels, 1, later).0;
                    let left = rows_from(sub, 0, top, levels, under, 1, later).1;
                    lemma_deeper(sub, 0, top, levels, under, 1, ""@, later);
                    lemma_one_reply_each(sub, 0, top, levels, under, 1, later);
                    lemma_without_first(analysis, 0, top, levels, left);
                    let rest = rows_from(analysis, 1, top, levels, ""@, 0, left).0;
                    let rest_asks = asked_from(analysis, 1, top, levels, 0, left).0;
                    assert(rows == seq![row] + below + rest);
                    assert(asks == (seq![first.path] + below_asks) + rest_asks);
                    assert(replies.len() > 0);
                    assert(later =~= replies.skip(1));
                    assert(left =~= replies.skip(1 + below_asks.len() as int));
                    assert(rows.subrange(1, 1 + below.len() as int) =~= below);
                    assert(rows.skip(1 + below.len() as int) =~= rest);
                    assert(asks.skip(1) =~= below_asks + rest_asks);
                },
                None => {
                    lemma_without_first(analysis, 0, top, levels, later);
                    let rest = rows_from(analysis, 1, top, levels, ""@, 0, later).0;
                    let rest_asks = asked_from(analysis, 1, top, levels, 0, later).0;
                    assert(asks == (seq![first.path] + Seq::<PathBuf>::empty()) + rest_asks);
                    assert(replies.len() > 0);
                    assert(later =~= replies.skip(1));
                    assert(rows == seq![row] + Seq::<RowView>::empty() + rest);
                    assert(rows.skip(1) =~= rest);
                    assert(asks.skip(1) =~= rest_asks);
                },
            }
        } else {
            lemma_without_first(analysis, 0, top, levels, replies);
            let rest = rows_from(analysis, 1, top, levels, ""@, 0, replies).0;
            let rest_asks = asked_from(analysis, 1, top, levels, 0, replies).0;
            assert(rows == seq![row] + Seq::<RowView>::empty() + rest);
            assert(rows.skip(1) =~= rest);
            assert(asks == Seq::<PathBuf>::empty() + rest_asks);
            assert(asks =~= rest_asks);
        }
    }
}

proof fn lemma_deeper(
    level: AnalysisView,
    i: int,
    top: Option<usize>,
    levels: nat,
    prefix: Seq<char>,
    depth: nat,
    other: Seq<char>,
    replies: Seq<Option<AnalysisView>>,
)
    requires
        depth >= 1,
        levels >= 1,
        0 <= i,
    ensures
        ({
            let deep = rows_from(level, i, top, levels, prefix, depth, replies);
            let flat = rows_from(
                level,
                i,
                top,
                (levels - 1) as nat,
                other,
                (depth - 1) as nat,
                replies,
            );
            &&& are_deeper(deep.0, flat.0)
            &&& deep.1 == flat.1
        }),
        asked_from(level, i, top, levels, depth, replies) == asked_from(
            level,
            i,
            top,
            (levels - 1) as nat,
            (depth - 1) as nat,
            replies,
        ),
    decreases levels - depth, visible_count(level.entries.len(), top) - i,
{
    let n = visible_count(level.entries.len(), top);
    let less = (levels - 1) as nat;
    let above = (depth - 1) as nat;
    if i < n {
        let entry = level.entries[i];
        let under = prefix + child_part(depth, i + 1 == n);
        let other_under = other + child_part(above, i + 1 == n);
        assert(is_expanded(entry, depth, levels) == is_expanded(entry, above, less));
        let (reply, others) = next_reply(replies);
        let (below, left) = if is_expanded(entry, depth, levels) {
            match reply {
                Some(sub) => rows_from(sub, 0, top, levels, under, depth + 1, others),
                None => (Seq::empty(), others),
            }
        } else {
            (Seq::empty(), replies)
        };
        let (flat_below, flat_left) = if is_expanded(entry, above, less) {
            match reply {
                Some(sub) => rows_from(sub, 0, top, less, other_under, above + 1, others),
                None => (Seq::empty(), others),
            }
        } else {
            (Seq::empty(), replies)
        };
        if is_expanded(entry, depth, levels) {
            if let Some(sub) = reply {
                lemma_deeper(sub, 0, top, levels, under, depth + 1, other_under, others);
                lemma_one_reply_each(sub, 0, top, levels, under, depth + 1, others);
            }
        }
        assert(are_deeper(below, flat_below) && left == flat_left);
        lemma_deeper(level, i + 1, top, levels, prefix, depth, other, left);
        let row = row_for(level, i, n, prefix, depth);
        let flat_row = row_for(level, i, n, other, above);
        let rest = rows_from(level, i + 1, top, levels, prefix, depth, left).0;
        let flat_rest = rows_from(level, i + 1, top, less, other, above, left).0;
        let deep = rows_from(level, i, top, levels, prefix, depth, replies).0;
        let flat = rows_from(level, i, top, less, other, above, replies).0;
        assert(deep == seq![row] + below + rest);
        assert(flat == seq![flat_row] + flat_below + flat_rest);
        assert forall|k: int| 0 <= k < deep.len() implies {
            &&& (#[trigger] deep[k]).size_in_bytes == flat[k].size_in_bytes
            &&& deep[k].level_total == flat[k].level_total
            &&& deep[k].is_dir == flat[k].is_dir
            &&& deep[k].name == flat[k].name
            &&& deep[k].depth == flat[k].depth + 1
        } by {
            if k == 0 {
                assert(deep[k] == row && flat[k] == flat_row);
            } else if k < 1 + below.len() {
                assert(deep[k] == below[k - 1] && flat[k] == flat_below[k - 1]);
            } else {
                assert(deep[k] == rest[k - 1 - below.len()]);
                assert(flat[k] == flat_rest[k - 1 - below.len()]);
            }
        }
    }
}

proof fn lemma_without_first(
    level: AnalysisView,
    i: int,
    top: Option<usize>,
    levels: nat,
    replies: Seq<Option<AnalysisView>>,
)
    requires
        0 <= i < visible_count(level.entries.len(), top),
    ensures
        rows_from(level, i + 1, top, levels, ""@, 0, replies) == rows_from(
            without_first(level, top),
            i,
            top,
            levels,
            ""@,
            0,
            replies,
        ),
        asked_from(level, i + 1, top, levels, 0, replies) == asked_from(
            without_first(level, top),
            i,
            top,
            levels,
            0,
            replies,
        ),
    decreases visible_count(level.entries.len(), top) - i,
{
    let n = visible_count(level.entries.len(), top);
    let others = without_first(level, top);
    assert(visible_count(others.entries.len(), top) == n - 1);
    if i + 1 < n {
        let entry = level.entries[i + 1];
        assert(others.entries[i] == entry);
        let under = ""@ + child_part(0, i + 2 == n);
        let (reply, later) = next_reply(replies);
        let left = if is_expanded(entry, 0, levels) {
            match reply {
                Some(sub) => rows_from(sub, 0, top, levels, under, 1, later).1,
                None => later,
            }
        } else {
            replies
        };
        if is_expanded(entry, 0, levels) {
            if let Some(sub) = reply {
                lemma_one_reply_each(sub, 0, top, levels, under, 1, later);
            }
        }
        lemma_without_first(level, i + 1, top, levels, left);
        assert(row_for(level, i + 1, n, ""@, 0) == row_for(
            others,
            i,
            (n - 1) as nat,
            ""@,
            0,
        ));
    }
}

// ---------------------------------------------------------------------------
// Tree lines
// ---------------------------------------------------------------------------

/// Behind the row at place `k` comes another of the given depth before any that
/// is less deep.
pub open spec fn goes_on(rows: Seq<RowView>, k: int, depth: nat) -> bool {
    exists|j: int| k < j < rows.len() && #[trigger] is_next(rows, k, depth, j)
}

/// The row at place `j` is the first one behind place `k` that is no deeper than
/// this, and exactly so deep.
pub open spec fn is_next(rows: Seq<RowView>, k: int, depth: nat, j: int) -> bool {
    &&& rows[j].depth == depth
    &&& forall|m: int| k < m < j ==> (#[trigger] rows[m]).depth > depth
}

/// The tree line of a row in the column of the given depth: a branch in the
/// row's own column, the last one bent, and in the columns to its left a line
/// just where it leads on to another row.
pub open spec fn is_drawn(rows: Seq<RowView>, k: int, depth: nat) -> bool {
    let cell = rows[k].line_prefix.subrange(3 * (depth - 1), 3 * depth as int);
    if depth == rows[k].depth {
        if goes_on(rows, k, depth) {
            cell == seq!['├', '─', ' ']
        } else {
            cell == seq!['└', '─', ' ']
        }
    } else {
        if goes_on(rows, k, depth) {
            cell == seq!['│', ' ', ' ']
        } else {
            cell == seq![' ', ' ', ' ']
        }
    }
}

/// The tree lines of a report are drawn from its rows: each row has three
/// characters for each level above it, and they show where that level goes on.
pub proof fn law_tree_lines_follow_the_rows(
    analysis: AnalysisView,
    top: Option<usize>,
    levels: nat,
    replies: Seq<Option<AnalysisView>>,
    k: int,
    depth: nat,
)
    requires
        0 <= k < report_rows(analysis, top, levels, replies).len(),
        1 <= depth <= report_rows(analysis, top, levels, replies)[k].depth,
    ensures
        report_rows(analysis, top, levels, replies)[k].line_prefix.len() == 3 * report_rows(
            analysis,
            top,
            levels,
            replies,
        )[k].depth,
        is_drawn(report_rows(analysis, top, levels, replies), k, depth),
{
    reveal_strlit("");
    lemma_in_place(analysis, 0, top, levels, ""@, 0, replies);
    lemma_lines(analysis, 0, top, levels, ""@, 0, replies);
    assert(is_in_place(report_rows(analysis, top, levels, replies)[k], 0, levels));
}

proof fn lemma_lines(
    level: AnalysisView,
    i: int,
    top: Option<usize>,
    levels: nat,
    prefix: Seq<char>,
    depth: nat,
    replies: Seq<Option<AnalysisView>>,
)
    requires
        prefix.len() == prefix_width(depth),
        0 <= i,
    ensures
        ({
            let rows = rows_from(level, i, top, levels, prefix, depth, replies).0;
            &&& rows.len() > 0 <==> i < visible_count(level.entries.len(), top)
            &&& rows.len() > 0 ==> rows[0].depth == depth
            &&& forall|k: int|
                0 <= k < rows.len() ==> {
                    &&& (#[trigger] rows[k]).depth >= depth
                    &&& rows[k].line_prefix.len() == 3 * rows[k].depth
                    &&& rows[k].line_prefix.take(prefix.len() as int) == prefix
                }
            &&& forall|k: int, c: nat|
                0 <= k < rows.len() && 1 <= c && depth <= c <= rows[k].depth ==>
                #[trigger] is_drawn(rows, k, c)
        }),
    decreases levels - depth, visible_count(level.entries.len(), top) - i,
{
    reveal_strlit("");
    reveal_strlit("   ");
    reveal_strlit("│  ");
    reveal_strlit("└─ ");
    reveal_strlit("├─ ");
    let n = visible_count(level.entries.len(), top);
    lemma_in_place(level, i, top, levels, prefix, depth, replies);
    if i < n {
        let row = row_for(level, i, n, prefix, depth);
        let under = prefix + child_part(depth, i + 1 == n);
        let (reply, others) = next_reply(replies);
        let (below, left) = if is_expanded(level.entries[i], depth, levels) {
            match reply {
                Some(sub) => rows_from(sub, 0, top, levels, under, depth + 1, others),
                None => (Seq::empty(), others),
            }
        } else {
            (Seq::empty(), replies)
        };
        if is_expanded(level.entries[i], depth, levels) {
            if let Some(sub) = reply {
                lemma_lines(sub, 0, top, levels, under, depth + 1, others);
            }
        }
        lemma_lines(level, i + 1, top, levels, prefix, depth, left);
        let rest = rows_from(level, i + 1, top, levels, prefix, depth, left).0;
        let rows = rows_from(level, i, top, levels, prefix, depth, replies).0;
        assert(rows == seq![row] + below + rest);
        lemma_lines_join(row, below, rest, prefix, under, depth, i + 1 == n);
    }
}

proof fn lemma_lines_join(
    row: RowView,
    below: Seq<RowView>,
    rest: Seq<RowView>,
    prefix: Seq<char>,
    under: Seq<char>,
    depth: nat,
    is_last: bool,
)
    requires
        prefix.len() == prefix_width(depth),
        under == prefix + child_part(depth, is_last),
        row.depth == depth,
        row.line_prefix == prefix + branch(depth, is_last),
        rest.len() > 0 <==> !is_last,
        rest.len() > 0 ==> rest[0].depth == depth,
        forall|k: int|
            0 <= k < below.len() ==> {
                &&& (#[trigger] below[k]).depth >= depth + 1
                &&& below[k].line_prefix.len() == 3 * below[k].depth
                &&& below[k].line_prefix.take(under.len() as int) == under
            },
        forall|k: int, c: nat|
            0 <= k < below.len() && 1 <= c && depth + 1 <= c <= below[k].depth ==>
            #[trigger] is_drawn(below, k, c),
        forall|k: int|
            0 <= k < rest.len() ==> {
                &&& (#[trigger] rest[k]).depth >= depth
                &&& rest[k].line_prefix.len() == 3 * rest[k].depth
                &&& rest[k].line_prefix.take(prefix.len() as int) == prefix
            },
        forall|k: int, c: nat|
            0 <= k < rest.len() && 1 <= c && depth <= c <= rest[k].depth ==>
            #[trigger] is_drawn(rest, k, c),
    ensures
        ({
            let rows = seq![row] + below + rest;
            &&& rows.len() > 0
            &&& rows[0].depth == depth
            &&& forall|k: int|
                0 <= k < rows.len() ==> {
                    &&& (#[trigger] rows[k]).depth >= depth
                    &&& rows[k].line_prefix.len() == 3 * rows[k].depth
                    &&& rows[k].line_prefix.take(prefix.len() as int) == prefix
                }
            &&& forall|k: int, c: nat|
                0 <= k < rows.len() && 1 <= c && depth <= c <= rows[k].depth ==>
                #[trigger] is_drawn(rows, k, c)
        }),
{
    reveal_strlit("");
    reveal_strlit("   ");
    reveal_strlit("│  ");
    reveal_strlit("└─ ");
    reveal_strlit("├─ ");
    let rows = seq![row] + below + rest;
    let split = 1 + below.len() as int;
    assert forall|k: int| 0 <= k < rows.len() implies {
        &&& (#[trigger] rows[k]).depth >= depth
        &&& rows[k].line_prefix.len() == 3 * rows[k].depth
        &&& rows[k].line_prefix.take(prefix.len() as int) == prefix
    } by {
        if k == 0 {
            assert(rows[k] == row);
            assert(row.line_prefix.take(prefix.len() as int) =~= prefix);
        } else if k < split {
            assert(rows[k] == below[k - 1]);
            let line = below[k - 1].line_prefix;
            assert(line.take(prefix.len() as int) =~= line.take(under.len() as int).take(
                prefix.len() as int,
            ));
            assert(under.take(prefix.len() as int) =~= prefix);
        } else {
            assert(rows[k] == rest[k - split]);
        }
    }
    assert forall|k: int, c: nat|
        0 <= k < rows.len() && 1 <= c && depth <= c <= rows[k].depth implies #[trigger] is_drawn(
        rows,
        k,
        c,
    ) by {
        if k < split && c == depth {
            lemma_own_column(row, below, rest, depth, is_last, k);
            let cell = rows[k].line_prefix.subrange(3 * (c - 1), 3 * c as int);
            if k == 0 {
                assert(rows[k] == row);
                assert(cell =~= branch(depth, is_last));
                assert(cell =~= if is_last {
                    seq!['└', '─', ' ']
                } else {
                    seq!['├', '─', ' ']
                });
            } else {
                assert(rows[k] == below[k - 1]);
                let line = below[k - 1].line_prefix;
                assert(cell =~= line.take(under.len() as int).subrange(3 * (c - 1), 3 * c as int));
                assert(cell =~= child_part(depth, is_last));
                assert(cell =~= if is_last {
                    seq![' ', ' ', ' ']
                } else {
                    seq!['│', ' ', ' ']
                });
            }
        } else if k < split {
            assert(rows[k] == below[k - 1]);
            assert(is_drawn(below, k - 1, c));
            lemma_inner_column(row, below, rest, depth, k, c);
        } else {
            assert(rows[k] == rest[k - split]);
            assert(is_drawn(rest, k - split, c));
            lemma_later_column(row, below, rest, k, c);
        }
    }
}

/// The column of an entry goes on beneath it just where another entry follows.
proof fn lemma_own_column(
    row: RowView,
    below: Seq<RowView>,
    rest: Seq<RowView>,
    depth: nat,
    is_last: bool,
    k: int,
)
    requires
        0 <= k <= below.len(),
        row.depth == depth,
        rest.len() > 0 <==> !is_last,
        rest.len() > 0 ==> rest[0].depth == depth,
        forall|m: int| 0 <= m < below.len() ==> (#[trigger] below[m]).depth >= depth + 1,
    ensures
        goes_on(seq![row] + below + rest, k, depth) == !is_last,
{
    let rows = seq![row] + below + rest;
    let split = 1 + below.len() as int;
    assert forall|m: int| 1 <= m < split implies (#[trigger] rows[m]).depth > depth by {
        assert(rows[m] == below[m - 1]);
    }
    if !is_last {
        assert(rows[split] == rest[0]);
        assert(is_next(rows, k, depth, split));
    } else if goes_on(rows, k, depth) {
        let j = choose|j: int| k < j < rows.len() && #[trigger] is_next(rows, k, depth, j);
        assert(rows[j].depth > depth);
    }
}

/// Columns of deeper levels end with the entry that they are beneath.
proof fn lemma_inner_column(
    row: RowView,
    below: Seq<RowView>,
    rest: Seq<RowView>,
    depth: nat,
    k: int,
    c: nat,
)
    requires
        1 <= k <= below.len(),
        c > depth,
        rest.len() > 0 ==> rest[0].depth == depth,
    ensures
        goes_on(seq![row] + below + rest, k, c) == goes_on(below, k - 1, c),
{
    let rows = seq![row] + below + rest;
    let split = 1 + below.len() as int;
    assert forall|m: int| 1 <= m < split implies #[trigger] rows[m] == below[m - 1] by {}
    if goes_on(below, k - 1, c) {
        let j = choose|j: int| k - 1 < j < below.len() && #[trigger] is_next(below, k - 1, c, j);
        assert forall|m: int| k < m < j + 1 implies (#[trigger] rows[m]).depth > c by {
            assert(rows[m] == below[m - 1]);
        }
        assert(rows[j + 1] == below[j]);
        assert(is_next(rows, k, c, j + 1));
    }
    if goes_on(rows, k, c) {
        let j = choose|j: int| k < j < rows.len() && #[trigger] is_next(rows, k, c, j);
        if j >= split {
            assert(rows[split] == rest[0]);
            assert(false);
        }
        assert forall|m: int| k - 1 < m < j - 1 implies (#[trigger] below[m]).depth > c by {
            assert(rows[m + 1] == below[m]);
        }
        assert(below[j - 1] == rows[j]);
        assert(is_next(below, k - 1, c, j - 1));
    }
}

proof fn lemma_later_column(
    row: RowView,
    below: Seq<RowView>,
    rest: Seq<RowView>,
    k: int,
    c: nat,
)
    requires
        1 + below.len() <= k < 1 + below.len() + rest.len(),
    ensures
        goes_on(seq![row] + below + rest, k, c) == goes_on(rest, k - 1 - below.len(), c),
{
    let rows = seq![row] + below + rest;
    let split = 1 + below.len() as int;
    assert forall|m: int| split <= m < rows.len() implies #[trigger] rows[m] == rest[m - split] by {}
    if goes_on(rest, k - split, c) {
        let j = choose|j: int|
            k - split < j < rest.len() && #[trigger] is_next(rest, k - split, c, j);
        assert forall|m: int| k < m < j + split implies (#[trigger] rows[m]).depth > c by {
            assert(rows[m] == rest[m - split]);
        }
        assert(rows[j + split] == rest[j]);
        assert(is_next(rows, k, c, j + split));
    }
    if goes_on(rows, k, c) {
        let j = choose|j: int| k < j < rows.len() && #[trigger] is_next(rows, k, c, j);
        assert forall|m: int| k - split < m < j - split implies (#[trigger] rest[m]).depth > c by {
            assert(rows[m + split] == rest[m]);
        }
        assert(rest[j - split] == rows[j]);
        assert(is_next(rest, k - split, c, j - split));
    }
}

} // verus!
