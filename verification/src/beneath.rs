//! What stands where in the classic tree view.
//!
//! The laws here say what each change to the tree leaves behind, row by row: a
//! listing its entries, a size its row, a failure its message.
#[allow(unused_imports)]
use std::path::PathBuf;

use vstd::prelude::*;

#[allow(unused_imports)]
use crate::model::Entry;
#[allow(unused_imports)]
use crate::outline::{
    holds, is_cut, law_flushing_changes_shares_only, lemma_find, lemma_nothing_cut, listing_rows,
    marked, parent_text, same_directory, OutlineView, OutlineWindowView,
};
#[allow(unused_imports)]
use crate::outside::{human_size, path_text, same_path};
#[allow(unused_imports)]
use crate::window::{
    directories, item_for_entry, law_every_directory_is_handed_out,
    law_plain_rows_stand_for_no_file, law_rows_show_their_entries, placeholder_item, ItemView,
    WorkerMsg,
};

verus! {

/// The row or the top level is in the tree.
pub open spec fn is_open(outline: OutlineView, parent: Option<int>) -> bool {
    match parent {
        Some(p) => 0 <= p < outline.items.len() && outline.alive[p],
        None => true,
    }
}

/// Two rows are the same but for their shares.
pub open spec fn same_but_share(a: ItemView, b: ItemView) -> bool {
    &&& a.name == b.name
    &&& a.size_human == b.size_human
    &&& a.size_bytes == b.size_bytes
    &&& a.path == b.path
    &&& a.is_dir == b.is_dir
    &&& a.loaded == b.loaded
    &&& a.sized == b.sized
    &&& a.depth == b.depth
}

/// A row shows an entry that has just been listed, whatever its share: its
/// name, a directory's with a slash behind it, the text of its path, its size
/// and its kind. A file shows its size for reading; a directory waits for it,
/// and for its children.
pub open spec fn shows_entry(row: ItemView, entry: Entry, depth: int) -> bool {
    &&& row.name == if entry.is_dir {
        entry.name@.push('/')
    } else {
        entry.name@
    }
    &&& row.size_human == if entry.is_dir {
        seq!['…']
    } else {
        human_size(entry.size_in_bytes, true)
    }
    &&& row.size_bytes == entry.size_in_bytes
    &&& row.path == path_text(entry.path)
    &&& row.is_dir == entry.is_dir
    &&& row.loaded == !entry.is_dir
    &&& row.sized == !entry.is_dir
    &&& row.depth == depth
}

/// A row stands for children that have not been asked for.
pub open spec fn is_waiting(row: ItemView, depth: int) -> bool {
    &&& row.name == seq!['(', 'l', 'o', 'a', 'd', 'i', 'n', 'g', '…', ')']
    &&& row.path.len() == 0
    &&& row.size_bytes == 0
    &&& !row.is_dir
    &&& row.depth == depth
}

proof fn lemma_shows_entry(entry: Entry, depth: int)
    ensures
        shows_entry(item_for_entry(entry, depth), entry, depth),
{
    law_rows_show_their_entries(entry, depth);
    let row = item_for_entry(entry, depth);
    if entry.is_dir {
        assert(row.name =~= row.name.drop_last().push(row.name.last()));
    }
}

proof fn lemma_is_waiting(depth: int)
    ensures
        is_waiting(placeholder_item(depth), depth),
{
    reveal_strlit("(loading…)");
    reveal_strlit("");
    assert(placeholder_item(depth).name =~= seq![
        '(',
        'l',
        'o',
        'a',
        'd',
        'i',
        'n',
        'g',
        '…',
        ')',
    ]);
}

/// The number that the row at place `k` of a listing gets where the first one
/// gets `start`: each directory takes up one more, for its placeholder.
spec fn number_of(start: int, rows: Seq<ItemView>, k: int) -> int
    decreases k,
{
    if k <= 0 {
        start
    } else if rows[k - 1].is_dir {
        number_of(start, rows, k - 1) + 2
    } else {
        number_of(start, rows, k - 1) + 1
    }
}

proof fn lemma_numbers_grow(start: int, rows: Seq<ItemView>, j: int, k: int)
    requires
        0 <= j < k,
    ensures
        start <= number_of(start, rows, j),
        number_of(start, rows, j) + (if rows[j].is_dir {
            2int
        } else {
            1int
        }) <= number_of(start, rows, k),
    decreases k,
{
    if j < k - 1 {
        lemma_numbers_grow(start, rows, j, k - 1);
    } else if j > 0 {
        lemma_numbers_grow(start, rows, j - 1, j);
    }
}

/// The row at place `k` of a listing, with its placeholder, is in the tree.
spec fn is_placed(outline: OutlineView, parent: Option<int>, row: ItemView, at: int) -> bool {
    &&& 0 <= at < outline.items.len()
    &&& outline.items[at] == row
    &&& outline.parents[at] == parent
    &&& outline.alive[at]
    &&& row.is_dir ==> {
        &&& at + 1 < outline.items.len()
        &&& outline.items[at + 1] == placeholder_item(row.depth + 1)
        &&& outline.parents[at + 1] == Some(at)
        &&& outline.alive[at + 1]
    }
}

/// A number belongs to the row at place `k` of a listing, or to its placeholder.
spec fn belongs(start: int, rows: Seq<ItemView>, k: int, i: int) -> bool {
    i == number_of(start, rows, k) || rows[k].is_dir && i == number_of(start, rows, k) + 1
}

/// A number belongs to one of the first `n` rows of a listing.
spec fn is_new(start: int, rows: Seq<ItemView>, n: int, i: int) -> bool {
    exists|k: int| 0 <= k < n && #[trigger] belongs(start, rows, k, i)
}

proof fn lemma_inserted_rows(
    outline: OutlineView,
    parent: Option<int>,
    rows: Seq<ItemView>,
    n: int,
)
    requires
        outline.is_consistent(),
        0 <= n <= rows.len(),
    ensures
        ({
            let filled = outline.inserted(parent, rows, n);
            let start = outline.items.len() as int;
            &&& filled.items.len() == number_of(start, rows, n)
            &&& filled.items.len() >= start
            &&& filled.parents.len() == filled.items.len()
            &&& filled.alive.len() == filled.items.len()
            &&& forall|i: int|
                0 <= i < start ==> #[trigger] filled.items[i] == outline.items[i]
                    && filled.parents[i] == outline.parents[i] && filled.alive[i]
                    == outline.alive[i]
            &&& forall|k: int|
                0 <= k < n ==> is_placed(
                    filled,
                    parent,
                    rows[k],
                    #[trigger] number_of(start, rows, k),
                )
            &&& forall|i: int|
                start <= i < filled.items.len() ==> #[trigger] is_new(start, rows, n, i)
        }),
    decreases n,
{
    if n > 0 {
        lemma_inserted_rows(outline, parent, rows, n - 1);
        let start = outline.items.len() as int;
        let before = outline.inserted(parent, rows, n - 1);
        let filled = outline.inserted(parent, rows, n);
        let at = number_of(start, rows, n - 1);
        assert(before.items.len() == at);
        assert forall|i: int| 0 <= i < at implies #[trigger] filled.items[i] == before.items[i]
            && filled.parents[i] == before.parents[i] && filled.alive[i] == before.alive[i] by {}
        assert forall|k: int| 0 <= k < n implies is_placed(
            filled,
            parent,
            rows[k],
            #[trigger] number_of(start, rows, k),
        ) by {
            if k < n - 1 {
                assert(is_placed(before, parent, rows[k], number_of(start, rows, k)));
                lemma_numbers_grow(start, rows, k, n - 1);
                let j = number_of(start, rows, k);
                assert(filled.items[j] == before.items[j]);
                if rows[k].is_dir {
                    assert(filled.items[j + 1] == before.items[j + 1]);
                }
            }
        }
        assert forall|i: int| start <= i < filled.items.len() implies #[trigger] is_new(
            start,
            rows,
            n,
            i,
        ) by {
            if i < at {
                assert(is_new(start, rows, n - 1, i));
                let k = choose|k: int| 0 <= k < n - 1 && #[trigger] belongs(start, rows, k, i);
                assert(belongs(start, rows, k, i));
            } else {
                assert(belongs(start, rows, n - 1, i));
            }
        }
    }
}

/// The rows right beneath a row, or at the top level, are those that are in the
/// tree there, each once, in the order in which they were made.
pub proof fn law_children_are_the_rows_beneath(outline: OutlineView, parent: Option<int>)
    ensures
        ({
            let ids = outline.children_of(parent);
            &&& forall|i: int|
                0 <= i < outline.items.len() && outline.alive[i] && outline.parents[i] == parent
                    <==> #[trigger] ids.contains(i)
            &&& forall|j: int, k: int|
                0 <= j < k < ids.len() ==> #[trigger] ids[j] < #[trigger] ids[k]
        }),
{
    lemma_children_before(outline, parent, outline.items.len() as int);
}

proof fn lemma_children_before(outline: OutlineView, parent: Option<int>, n: int)
    requires
        0 <= n,
    ensures
        ({
            let ids = outline.children(parent, n);
            &&& forall|i: int|
                0 <= i < n && outline.alive[i] && outline.parents[i] == parent <==>
                #[trigger] ids.contains(i)
            &&& forall|j: int, k: int|
                0 <= j < k < ids.len() ==> #[trigger] ids[j] < #[trigger] ids[k]
        }),
    decreases n,
{
    if n > 0 {
        lemma_children_before(outline, parent, n - 1);
        let before = outline.children(parent, n - 1);
        let ids = outline.children(parent, n);
        if outline.alive[n - 1] && outline.parents[n - 1] == parent {
            assert(ids == before.push(n - 1));
            assert forall|i: int|
                0 <= i < n && outline.alive[i] && outline.parents[i] == parent <==>
                #[trigger] ids.contains(i) by {
                if before.contains(i) {
                    assert(ids[before.index_of(i)] == i);
                }
                if ids.contains(i) && i != n - 1 {
                    assert(before[ids.index_of(i)] == i);
                }
                if i == n - 1 {
                    assert(ids[before.len() as int] == i);
                }
            }
            assert forall|j: int, k: int| 0 <= j < k < ids.len() implies #[trigger] ids[j]
                < #[trigger] ids[k] by {
                if k == before.len() {
                    assert(before.contains(before[j]));
                }
            }
        }
    }
}

/// No row at or above the one that is listed is a placeholder beneath it.
proof fn lemma_parent_stays(outline: OutlineView, parent: Option<int>, rows: Seq<ItemView>)
    requires
        outline.is_consistent(),
        is_open(outline, parent),
    ensures
        ({
            let filled = outline.inserted(parent, rows, rows.len() as int);
            parent matches Some(p) ==> !is_cut(filled.parents, filled.placeholders(parent), p)
        }),
{
    let filled = outline.inserted(parent, rows, rows.len() as int);
    let roots = filled.placeholders(parent);
    lemma_inserted_rows(outline, parent, rows, rows.len() as int);
    if let Some(p) = parent {
        assert forall|j: int| 0 <= j <= p implies !#[trigger] roots[j] by {
            assert(filled.items[j] == outline.items[j]);
        }
        lemma_nothing_cut(filled.parents, roots, p);
    }
}

pub(crate) proof fn lemma_filled_consistent(outline: OutlineView, parent: Option<int>, rows: Seq<ItemView>)
    requires
        outline.is_consistent(),
        is_open(outline, parent),
    ensures
        outline.inserted(parent, rows, rows.len() as int).is_consistent(),
        outline.enumerated(parent, rows).is_consistent(),
{
    let n = rows.len() as int;
    let start = outline.items.len() as int;
    let filled = outline.inserted(parent, rows, n);
    lemma_inserted_rows(outline, parent, rows, n);
    assert forall|i: int| 0 <= i < filled.parents.len() implies match #[trigger] filled.parents[i] {
        Some(p) => 0 <= p < i && (filled.alive[i] ==> filled.alive[p]),
        None => true,
    } by {
        if i < start {
            assert(filled.items[i] == outline.items[i]);
            if let Some(p) = outline.parents[i] {
                assert(filled.items[p] == outline.items[p]);
            }
        } else {
            assert(is_new(start, rows, n, i));
            let k = choose|k: int| 0 <= k < n && #[trigger] belongs(start, rows, k, i);
            assert(is_placed(filled, parent, rows[k], number_of(start, rows, k)));
            if let Some(p) = parent {
                assert(filled.items[p] == outline.items[p]);
            }
        }
    }
    let after = outline.enumerated(parent, rows);
    assert forall|i: int| 0 <= i < after.parents.len() implies match #[trigger] after.parents[i] {
        Some(p) => 0 <= p < i && (after.alive[i] ==> after.alive[p]),
        None => true,
    } by {
        assert(after.parents[i] == filled.parents[i]);
    }
}

/// What is in the tree right beneath a directory that has been listed, and
/// beneath its new rows.
proof fn lemma_listed(outline: OutlineView, parent: Option<int>, rows: Seq<ItemView>)
    requires
        outline.is_consistent(),
        is_open(outline, parent),
        forall|k: int| 0 <= k < rows.len() ==> (#[trigger] rows[k]).path.len() > 0,
    ensures
        ({
            let after = outline.enumerated(parent, rows);
            let start = outline.items.len() as int;
            let n = rows.len() as int;
            &&& after.items.len() == number_of(start, rows, n)
            &&& after.items.len() >= start
            &&& after.parents.len() == after.items.len()
            &&& after.alive.len() == after.items.len()
            &&& forall|i: int|
                0 <= i < start ==> #[trigger] after.parents[i] == outline.parents[i] && (
                outline.parents[i] == parent ==> (after.alive[i] <==> outline.alive[i]
                    && outline.items[i].path.len() > 0))
            &&& forall|k: int|
                0 <= k < n ==> {
                    let i = #[trigger] number_of(start, rows, k);
                    &&& start <= i < after.items.len()
                    &&& after.alive[i]
                    &&& after.parents[i] == parent
                    &&& same_but_share(after.items[i], rows[k])
                    &&& rows[k].is_dir ==> {
                        &&& i + 1 < after.items.len()
                        &&& after.alive[i + 1]
                        &&& after.parents[i + 1] == Some(i)
                        &&& same_but_share(after.items[i + 1], placeholder_item(rows[k].depth + 1))
                    }
                }
            &&& forall|i: int|
                start <= i < after.items.len() ==> #[trigger] is_new(start, rows, n, i)
        }),
{
    let n = rows.len() as int;
    let start = outline.items.len() as int;
    let filled = outline.inserted(parent, rows, n);
    let roots = filled.placeholders(parent);
    let after = outline.enumerated(parent, rows);
    lemma_inserted_rows(outline, parent, rows, n);
    lemma_filled_consistent(outline, parent, rows);
    lemma_parent_stays(outline, parent, rows);
    assert forall|i: int| 0 <= i < start implies #[trigger] after.parents[i] == outline.parents[i]
        && (outline.parents[i] == parent ==> (after.alive[i] <==> outline.alive[i]
        && outline.items[i].path.len() > 0)) by {
        assert(filled.items[i] == outline.items[i]);
    }
    assert forall|k: int| 0 <= k < n implies {
        let i = #[trigger] number_of(start, rows, k);
        &&& start <= i < after.items.len()
        &&& after.alive[i]
        &&& after.parents[i] == parent
        &&& same_but_share(after.items[i], rows[k])
        &&& rows[k].is_dir ==> {
            &&& i + 1 < after.items.len()
            &&& after.alive[i + 1]
            &&& after.parents[i + 1] == Some(i)
            &&& same_but_share(after.items[i + 1], placeholder_item(rows[k].depth + 1))
        }
    } by {
        let i = number_of(start, rows, k);
        lemma_numbers_grow(start, rows, k, n);
        assert(is_placed(filled, parent, rows[k], i));
        assert(rows[k].path.len() > 0);
        assert(!roots[i]);
        assert(!is_cut(filled.parents, roots, i));
        if rows[k].is_dir {
            assert(parent != Some(i));
            assert(!roots[i + 1]);
            assert(!is_cut(filled.parents, roots, i + 1));
        }
    }
}

proof fn lemma_only_one(ids: Seq<int>, x: int)
    requires
        forall|i: int| #[trigger] ids.contains(i) <==> i == x,
        forall|j: int, k: int| 0 <= j < k < ids.len() ==> #[trigger] ids[j] < #[trigger] ids[k],
    ensures
        ids == seq![x],
{
    assert(ids.contains(x));
    if ids.len() > 1 {
        assert(ids.contains(ids[0]) && ids.contains(ids[1]));
    }
    assert(ids.contains(ids[0]));
    assert(ids =~= seq![x]);
}

proof fn lemma_new_row(
    outline: OutlineView,
    parent: Option<int>,
    entries: Seq<Entry>,
    depth: int,
    k: int,
)
    requires
        outline.is_consistent(),
        is_open(outline, parent),
        forall|j: int| 0 <= j < entries.len() ==> path_text((#[trigger] entries[j]).path).len() > 0,
        0 <= k < entries.len(),
    ensures
        ({
            let rows = listing_rows(entries, depth);
            let start = outline.items.len() as int;
            let after = outline.enumerated(parent, rows);
            let i = number_of(start, rows, k);
            &&& start <= i < after.items.len()
            &&& after.alive[i]
            &&& after.parents[i] == parent
            &&& shows_entry(after.items[i], entries[k], depth)
            &&& entries[k].is_dir ==> after.children_of(Some(i)) == seq![i + 1] && is_waiting(
                after.items[i + 1],
                depth + 1,
            )
            &&& !entries[k].is_dir ==> after.children_of(Some(i)).len() == 0
        }),
{
    let rows = listing_rows(entries, depth);
    let n = rows.len() as int;
    let start = outline.items.len() as int;
    let after = outline.enumerated(parent, rows);
    let i = number_of(start, rows, k);
    lemma_rows_have_paths(entries, depth);
    lemma_listed(outline, parent, rows);
    lemma_shows_entry(entries[k], depth);
    lemma_is_waiting(depth + 1);
    assert(rows[k] == item_for_entry(entries[k], depth));
    assert(same_but_share(after.items[i], rows[k]));
    let below = after.children_of(Some(i));
    law_children_are_the_rows_beneath(after, Some(i));
    assert forall|j: int| #[trigger] below.contains(j) <==> rows[k].is_dir && j == i + 1 by {
        if 0 <= j < start {
            assert(after.parents[j] == outline.parents[j]);
        } else if start <= j < after.items.len() {
            assert(is_new(start, rows, n, j));
            let m = choose|m: int| 0 <= m < n && #[trigger] belongs(start, rows, m, j);
            let at = number_of(start, rows, m);
            assert(after.parents[at] == parent);
            if m < k {
                lemma_numbers_grow(start, rows, m, k);
            } else if k < m {
                lemma_numbers_grow(start, rows, k, m);
            }
        }
    }
    if rows[k].is_dir {
        lemma_only_one(below, i + 1);
    } else if below.len() > 0 {
        assert(below.contains(below[0]));
    }
}

proof fn lemma_rows_have_paths(entries: Seq<Entry>, depth: int)
    requires
        forall|k: int| 0 <= k < entries.len() ==> path_text((#[trigger] entries[k]).path).len() > 0,
    ensures
        forall|k: int|
            0 <= k < entries.len() ==> (#[trigger] listing_rows(entries, depth)[k]).path.len() > 0,
{
    assert forall|k: int| 0 <= k < entries.len() implies (#[trigger] listing_rows(
        entries,
        depth,
    )[k]).path.len() > 0 by {
        assert(path_text(entries[k].path).len() > 0);
        law_rows_show_their_entries(entries[k], depth);
    }
}

proof fn lemma_old_children(
    outline: OutlineView,
    parent: Option<int>,
    entries: Seq<Entry>,
    depth: int,
    n: int,
)
    requires
        outline.is_consistent(),
        is_open(outline, parent),
        forall|k: int| 0 <= k < entries.len() ==> path_text((#[trigger] entries[k]).path).len() > 0,
        0 <= n <= outline.items.len(),
    ensures
        outline.enumerated(parent, listing_rows(entries, depth)).children(parent, n)
            == outline.children(parent, n).filter(|i: int| outline.items[i].path.len() > 0),
    decreases n,
{
    reveal(Seq::filter);
    let after = outline.enumerated(parent, listing_rows(entries, depth));
    if n > 0 {
        lemma_old_children(outline, parent, entries, depth, n - 1);
        lemma_rows_have_paths(entries, depth);
        lemma_listed(outline, parent, listing_rows(entries, depth));
        assert(after.parents[n - 1] == outline.parents[n - 1]);
        let before = outline.children(parent, n - 1);
        assert(before.push(n - 1).drop_last() =~= before);
        if outline.parents[n - 1] != parent {
            assert(outline.children(parent, n) == before);
        }
    }
}

proof fn lemma_new_children(
    outline: OutlineView,
    parent: Option<int>,
    entries: Seq<Entry>,
    depth: int,
    ids: Seq<int>,
    n: int,
)
    requires
        outline.is_consistent(),
        is_open(outline, parent),
        forall|k: int| 0 <= k < entries.len() ==> path_text((#[trigger] entries[k]).path).len() > 0,
        ids == Seq::new(
            entries.len(),
            |k: int| number_of(outline.items.len() as int, listing_rows(entries, depth), k),
        ),
        0 <= n <= entries.len(),
    ensures
        ({
            let rows = listing_rows(entries, depth);
            let start = outline.items.len() as int;
            let after = outline.enumerated(parent, rows);
            after.children(parent, number_of(start, rows, n)) == after.children(parent, start)
                + ids.take(n)
        }),
    decreases n,
{
    let rows = listing_rows(entries, depth);
    let start = outline.items.len() as int;
    let after = outline.enumerated(parent, rows);
    if n == 0 {
        assert(after.children(parent, start) + ids.take(0) =~= after.children(parent, start));
    } else {
        lemma_new_children(outline, parent, entries, depth, ids, n - 1);
        lemma_rows_have_paths(entries, depth);
        lemma_listed(outline, parent, rows);
        let at = number_of(start, rows, n - 1);
        assert(after.parents[at] == parent);
        assert(after.children(parent, at + 1) == after.children(parent, at).push(at));
        if rows[n - 1].is_dir {
            assert(after.parents[at + 1] == Some(at));
            assert(parent != Some(at));
            assert(after.children(parent, at + 2) == after.children(parent, at + 1));
        }
        assert(after.children(parent, start) + ids.take(n) =~= (after.children(parent, start)
            + ids.take(n - 1)).push(at));
    }
}

/// A listing puts a row into the tree for each of its entries, in their order,
/// and leaves the rest of the tree as it is. The rows beneath the directory are
/// then those with a path that stood there before, followed by exactly one row
/// for each entry, which shows the entry. Beneath the row of a directory stands
/// a placeholder and nothing else, beneath that of a file nothing. The numbers
/// of the new rows are handed back.
pub proof fn law_listing_adds_a_row_for_each_entry(
    outline: OutlineView,
    parent: Option<int>,
    entries: Seq<Entry>,
    depth: int,
) -> (ids: Seq<int>)
    requires
        outline.is_consistent(),
        is_open(outline, parent),
        forall|k: int| 0 <= k < entries.len() ==> path_text((#[trigger] entries[k]).path).len() > 0,
    ensures
        ids.len() == entries.len(),
        ({
            let after = outline.enumerated(parent, listing_rows(entries, depth));
            let old_len = outline.items.len() as int;
            &&& after.is_consistent()
            &&& after.items.len() == after.parents.len() == after.alive.len()
            &&& after.children_of(parent) == outline.children_of(parent).filter(
                |i: int| outline.items[i].path.len() > 0,
            ) + ids
            &&& forall|k: int|
                0 <= k < ids.len() ==> {
                    let i = #[trigger] ids[k];
                    &&& old_len <= i < after.items.len()
                    &&& after.alive[i]
                    &&& after.parents[i] == parent
                    &&& shows_entry(after.items[i], entries[k], depth)
                    &&& entries[k].is_dir ==> after.children_of(Some(i)) == seq![i + 1]
                        && is_waiting(after.items[i + 1], depth + 1)
                    &&& !entries[k].is_dir ==> after.children_of(Some(i)).len() == 0
                }
            &&& forall|j: int, k: int|
                0 <= j < k < ids.len() ==> #[trigger] ids[j] < #[trigger] ids[k]
            &&& forall|i: int|
                0 <= i < old_len ==> {
                    &&& #[trigger] after.parents[i] == outline.parents[i]
                    &&& same_but_share(after.items[i], outline.items[i])
                    &&& outline.parents[i] != parent ==> after.items[i].percent
                        == outline.items[i].percent
                    &&& after.alive[i] <==> {
                        &&& outline.alive[i]
                        &&& outline.parents[i] == parent ==> outline.items[i].path.len() > 0
                        &&& outline.parents[i] matches Some(p) ==> after.alive[p]
                    }
                }
        }),
{
    let rows = listing_rows(entries, depth);
    let n = rows.len() as int;
    let start = outline.items.len() as int;
    let filled = outline.inserted(parent, rows, n);
    let roots = filled.placeholders(parent);
    let bare = filled.pruned(roots);
    let after = outline.enumerated(parent, rows);
    let ids = Seq::new(entries.len(), |k: int| number_of(start, rows, k));
    lemma_inserted_rows(outline, parent, rows, n);
    lemma_filled_consistent(outline, parent, rows);
    lemma_parent_stays(outline, parent, rows);
    lemma_rows_have_paths(entries, depth);
    lemma_listed(outline, parent, rows);
    assert forall|i: int| 0 <= i < start implies {
        &&& #[trigger] after.parents[i] == outline.parents[i]
        &&& same_but_share(after.items[i], outline.items[i])
        &&& outline.parents[i] != parent ==> after.items[i].percent == outline.items[i].percent
        &&& after.alive[i] <==> {
            &&& outline.alive[i]
            &&& outline.parents[i] == parent ==> outline.items[i].path.len() > 0
            &&& outline.parents[i] matches Some(p) ==> after.alive[p]
        }
    } by {
        assert(filled.items[i] == outline.items[i]);
        law_children_are_the_rows_beneath(bare, parent);
        if let Some(p) = outline.parents[i] {
            assert(filled.items[p] == outline.items[p]);
        }
    }
    assert forall|k: int| 0 <= k < ids.len() implies {
        let i = #[trigger] ids[k];
        &&& start <= i < after.items.len()
        &&& after.alive[i]
        &&& after.parents[i] == parent
        &&& shows_entry(after.items[i], entries[k], depth)
        &&& entries[k].is_dir ==> after.children_of(Some(i)) == seq![i + 1] && is_waiting(
            after.items[i + 1],
            depth + 1,
        )
        &&& !entries[k].is_dir ==> after.children_of(Some(i)).len() == 0
    } by {
        lemma_new_row(outline, parent, entries, depth, k);
    }
    assert forall|j: int, k: int| 0 <= j < k < ids.len() implies #[trigger] ids[j]
        < #[trigger] ids[k] by {
        lemma_numbers_grow(start, rows, j, k);
    }
    lemma_old_children(outline, parent, entries, depth, start);
    lemma_new_children(outline, parent, entries, depth, ids, n);
    assert(ids.take(n) =~= ids);
    ids
}

// ---------------------------------------------------------------------------
// Finding rows
// ---------------------------------------------------------------------------

/// A row is in the tree under this path, right beneath the given row or at the
/// top level where one of them is asked for.
pub open spec fn is_under(
    outline: OutlineView,
    i: int,
    path: Seq<char>,
    beneath: Option<Option<int>>,
) -> bool {
    &&& 0 <= i < outline.items.len()
    &&& outline.alive[i]
    &&& outline.items[i].path == path
    &&& beneath matches Some(parent) ==> outline.parents[i] == parent
}

/// None of the first `n` rows in this order is under the path.
pub open spec fn none_before(
    outline: OutlineView,
    order: Seq<int>,
    path: Seq<char>,
    beneath: Option<Option<int>>,
    n: int,
) -> bool {
    forall|k: int| 0 <= k < n ==> !is_under(outline, #[trigger] order[k], path, beneath)
}

/// A search finds the first row under the path in the order in which the rows
/// are shown, and where that order leaves all of them out the oldest. It finds
/// none only where there is none.
pub proof fn law_the_first_row_is_found(
    outline: OutlineView,
    order: Seq<int>,
    path: Seq<char>,
    beneath: Option<Option<int>>,
)
    ensures
        match outline.find(order, path, beneath) {
            Some(i) => {
                &&& is_under(outline, i, path, beneath)
                &&& {
                    ||| exists|k: int|
                        0 <= k < order.len() && #[trigger] order[k] == i && none_before(
                            outline,
                            order,
                            path,
                            beneath,
                            k,
                        )
                    ||| none_before(outline, order, path, beneath, order.len() as int)
                        && forall|j: int|
                        0 <= j < i ==> !#[trigger] is_under(outline, j, path, beneath)
                }
            },
            None => forall|i: int| !#[trigger] is_under(outline, i, path, beneath),
        },
{
    assert forall|i: int| #[trigger] is_under(outline, i, path, beneath) <==> outline.is_at(
        i,
        path,
        beneath,
    ) by {}
    lemma_find(outline, order, path, beneath);
    if outline.find(order, path, beneath) is None {
        assert forall|i: int| !#[trigger] is_under(outline, i, path, beneath) by {
            assert(!outline.is_at(i, path, beneath));
        }
    }
    if let Some(i) = outline.find(order, path, beneath) {
        let walk = outline.walk(order);
        let k = lemma_found_at(outline, walk, path, beneath, walk.len() as int);
        if k < order.len() {
            assert forall|j: int| 0 <= j < k implies !is_under(
                outline,
                #[trigger] order[j],
                path,
                beneath,
            ) by {
                assert(walk[j] == order[j]);
            }
            assert(order[k] == i);
            assert(none_before(outline, order, path, beneath, k));
        } else {
            assert forall|j: int| 0 <= j < order.len() implies !is_under(
                outline,
                #[trigger] order[j],
                path,
                beneath,
            ) by {
                assert(walk[j] == order[j]);
            }
            assert forall|j: int| 0 <= j < i implies !#[trigger] is_under(
                outline,
                j,
                path,
                beneath,
            ) by {
                assert(walk[k] == k - order.len());
                assert(walk[order.len() + j] == j);
            }
        }
    }
}

proof fn lemma_found_at(
    outline: OutlineView,
    ids: Seq<int>,
    path: Seq<char>,
    beneath: Option<Option<int>>,
    n: int,
) -> (k: int)
    requires
        0 <= n <= ids.len(),
        outline.first_of(ids, path, beneath, n) is Some,
    ensures
        0 <= k < n,
        outline.first_of(ids, path, beneath, n) == Some(ids[k]),
        forall|j: int| 0 <= j < k ==> !outline.is_at(#[trigger] ids[j], path, beneath),
    decreases n,
{
    if outline.first_of(ids, path, beneath, n - 1) is Some {
        lemma_found_at(outline, ids, path, beneath, n - 1)
    } else {
        lemma_none_at(outline, ids, path, beneath, n - 1);
        n - 1
    }
}

proof fn lemma_none_at(
    outline: OutlineView,
    ids: Seq<int>,
    path: Seq<char>,
    beneath: Option<Option<int>>,
    n: int,
)
    requires
        0 <= n <= ids.len(),
        outline.first_of(ids, path, beneath, n) is None,
    ensures
        forall|j: int| 0 <= j < n ==> !outline.is_at(#[trigger] ids[j], path, beneath),
    decreases n,
{
    if n > 0 {
        lemma_none_at(outline, ids, path, beneath, n - 1);
    }
}

/// The root of the window has no row. Any other directory is looked up by the
/// text of its path, unless it is the one that was looked up last: that one
/// still has its row.
pub proof fn law_lookups_go_by_path(
    window: OutlineWindowView,
    order: Seq<int>,
    path: PathBuf,
)
    ensures
        window.lookup(order, None) is None,
        window.remembered(order, None) == window.cache,
        match window.cache {
            Some((known, row)) => if same_path(known, path) {
                window.lookup(order, Some(path)) == Some(row) && window.remembered(
                    order,
                    Some(path),
                ) == window.cache
            } else {
                window.lookup(order, Some(path)) == window.outline.find(
                    order,
                    path_text(path),
                    None,
                )
            },
            None => window.lookup(order, Some(path)) == window.outline.find(
                order,
                path_text(path),
                None,
            ),
        },
        !window.is_cached(path) ==> window.remembered(order, Some(path)) == match window.outline.find(
            order,
            path_text(path),
            None,
        ) {
            Some(row) => Some((path, row)),
            None => window.cache,
        },
        window.is_cached(path) <==> (window.cache matches Some((known, _)) && same_path(
            known,
            path,
        )),
        same_path(path, path) ==> (OutlineWindowView {
            cache: window.remembered(order, Some(path)),
            ..window
        }).lookup(order, Some(path)) == window.lookup(order, Some(path)),
{
}

/// Where no two rows in the tree have the same path, no message needs the order
/// in which they are shown.
pub proof fn law_distinct_paths_need_no_order(window: OutlineWindowView, msg: WorkerMsg)
    requires
        forall|i: int, j: int|
            0 <= i < j < window.outline.items.len() && window.outline.alive[i]
                && window.outline.alive[j] ==> #[trigger] window.outline.items[i].path
                != #[trigger] window.outline.items[j].path,
    ensures
        !window.needs_order(msg),
        !window.flush_needs_order(),
{
    assert forall|path: Seq<char>| !#[trigger] window.outline.has_several(path) by {
        if window.outline.has_several(path) {
            let (i, j) = choose|i: int, j: int|
                i < j && #[trigger] window.outline.is_at(i, path, None)
                    && #[trigger] window.outline.is_at(j, path, None);
            assert(window.outline.items[i].path != window.outline.items[j].path);
        }
    }
}

// ---------------------------------------------------------------------------
// Sizes, failures and expanding
// ---------------------------------------------------------------------------

/// A size that comes in stands in the row under its path beneath the directory
/// it was listed in, which is then sized. Nothing else about that row changes,
/// and no other row does. Where there is no such row nothing changes.
pub proof fn law_a_size_goes_to_its_row(
    outline: OutlineView,
    order: Seq<int>,
    parent: Option<int>,
    path: Seq<char>,
    size: u64,
    size_human: Seq<char>,
)
    ensures
        ({
            let after = outline.sized(order, parent, path, size, size_human);
            &&& after.items.len() == outline.items.len()
            &&& after.parents == outline.parents
            &&& after.alive == outline.alive
            &&& match outline.find(order, path, Some(parent)) {
                Some(i) => {
                    &&& is_under(outline, i, path, Some(parent))
                    &&& after.items[i].size_bytes == size
                    &&& after.items[i].size_human == size_human
                    &&& after.items[i].sized
                    &&& after.items[i].name == outline.items[i].name
                    &&& after.items[i].percent == outline.items[i].percent
                    &&& after.items[i].path == outline.items[i].path
                    &&& after.items[i].is_dir == outline.items[i].is_dir
                    &&& after.items[i].loaded == outline.items[i].loaded
                    &&& after.items[i].depth == outline.items[i].depth
                    &&& forall|j: int|
                        0 <= j < outline.items.len() && j != i ==> #[trigger] after.items[j]
                            == outline.items[j]
                },
                None => {
                    &&& after.items == outline.items
                    &&& forall|i: int| !#[trigger] is_under(outline, i, path, Some(parent))
                },
            }
        }),
{
    law_the_first_row_is_found(outline, order, path, Some(parent));
}

/// Where a directory cannot be listed, all that stood beneath its row is gone,
/// and one row with the message stands there, one level deeper than its own.
/// The rest of the tree stays as it is.
pub proof fn law_a_failure_replaces_the_rows_beneath(
    outline: OutlineView,
    p: int,
    message: Seq<char>,
)
    requires
        outline.is_consistent(),
        0 <= p < outline.items.len(),
        outline.alive[p],
    ensures
        ({
            let after = outline.failed(Some(p), message);
            let n = outline.items.len() as int;
            &&& after.items.len() == n + 1
            &&& after.alive[n]
            &&& after.parents[n] == Some(p)
            &&& after.items[n].depth == outline.items[p].depth + 1
            &&& after.items[n].path.len() == 0
            &&& after.items[n].size_bytes == 0
            &&& !after.items[n].is_dir
            &&& after.items[n].name.len() == message.len() + 9
            &&& after.items[n].name.subrange(8, message.len() + 8int) == message
            &&& forall|i: int|
                0 <= i < n ==> {
                    &&& #[trigger] after.items[i] == outline.items[i]
                    &&& after.parents[i] == outline.parents[i]
                    &&& after.alive[i] <==> {
                        &&& outline.alive[i]
                        &&& outline.parents[i] != Some(p)
                        &&& outline.parents[i] matches Some(q) ==> after.alive[q]
                    }
                }
            &&& after.alive[p]
        }),
        outline.failed(None, message) == outline,
{
    law_plain_rows_stand_for_no_file(message, outline.items[p].depth + 1);
    let roots = outline.child_marks(Some(p));
    assert forall|j: int| 0 <= j <= p implies !#[trigger] roots[j] by {}
    lemma_nothing_cut(outline.parents, roots, p);
}

/// To expand a row marks its children as asked for, and changes nothing else.
pub proof fn law_expanding_marks_the_row(outline: OutlineView, i: int)
    requires
        0 <= i < outline.items.len(),
    ensures
        ({
            let after = outline.expanded(i);
            &&& after.items.len() == outline.items.len()
            &&& after.parents == outline.parents
            &&& after.alive == outline.alive
            &&& after.items[i].loaded
            &&& after.items[i].percent == outline.items[i].percent
            &&& after.items[i].name == outline.items[i].name
            &&& after.items[i].size_human == outline.items[i].size_human
            &&& after.items[i].size_bytes == outline.items[i].size_bytes
            &&& after.items[i].path == outline.items[i].path
            &&& after.items[i].is_dir == outline.items[i].is_dir
            &&& after.items[i].sized == outline.items[i].sized
            &&& after.items[i].depth == outline.items[i].depth
            &&& forall|j: int|
                0 <= j < outline.items.len() && j != i ==> #[trigger] after.items[j]
                    == outline.items[j]
        }),
{
}

// ---------------------------------------------------------------------------
// Messages
// ---------------------------------------------------------------------------

/// The number of directories among the entries.
pub open spec fn directory_count(entries: Seq<Entry>) -> nat {
    entries.filter(|entry: Entry| entry.is_dir).len()
}

/// A listing that comes in is refused only where a depth or a counter would no
/// longer fit. Else its entries have their rows beneath the row of the
/// directory, one level deeper, or at the top level where it has none; the
/// directories among them are counted as handed out; and no share is left to be
/// worked out. The directory's row and the new rows are handed back.
pub proof fn law_a_listing_message_shows_its_entries(
    window: OutlineWindowView,
    order: Seq<int>,
    parent_path: Option<PathBuf>,
    entries: Vec<Entry>,
) -> (placed: (Option<int>, Seq<int>))
    requires
        window.is_consistent(),
        forall|k: int|
            0 <= k < entries@.len() ==> path_text((#[trigger] entries@[k]).path).len() > 0,
    ensures
        ({
            let (parent, ids) = placed;
            let depth = if parent is Some {
                window.outline.items[parent->0].depth + 1
            } else {
                0
            };
            let dirs = directory_count(entries@);
            &&& parent == match parent_path {
                Some(path) => window.outline.find(order, path_text(path), None),
                None => None,
            }
            &&& match window.after(order, WorkerMsg::Enumerated { parent_path, entries }) {
                Some(next) => {
                    &&& ids.len() == entries@.len()
                    &&& next.outline.children_of(parent) == window.outline.children_of(
                        parent,
                    ).filter(|i: int| window.outline.items[i].path.len() > 0) + ids
                    &&& forall|k: int|
                        0 <= k < ids.len() ==> window.outline.items.len() <= #[trigger] ids[k]
                            && shows_entry(next.outline.items[ids[k]], entries@[k], depth)
                    &&& forall|i: int|
                        0 <= i < window.outline.items.len() ==> same_but_share(
                            #[trigger] next.outline.items[i],
                            window.outline.items[i],
                        )
                    &&& next.status.queued == window.status.queued + dirs
                    &&& next.status.sized == window.status.sized
                    &&& next.dirty.len() == 0
                    &&& next.cache is None
                },
                None => {
                    ||| depth > i32::MAX
                    ||| dirs > 0 && depth >= i32::MAX
                    ||| window.status.queued + dirs > usize::MAX
                },
            }
        }),
{
    let parent = window.outline.resolve(order, parent_text(parent_path));
    let depth = window.outline.child_depth(parent);
    let flushed = window.flush(order).outline;
    law_flushing_changes_shares_only(
        window.outline,
        order,
        window.dirty,
        window.dirty.len() as int,
    );
    assert(flushed.is_consistent());
    lemma_directory_count(entries@);
    if let Some(path) = parent_path {
        lemma_find(window.outline, order, path_text(path), None);
    }
    let ids = law_listing_adds_a_row_for_each_entry(flushed, parent, entries@, depth);
    let after = flushed.enumerated(parent, listing_rows(entries@, depth));
    lemma_same_beneath(flushed, window.outline, parent, flushed.items.len() as int);
    let has_path = |i: int| window.outline.items[i].path.len() > 0;
    let had_path = |i: int| flushed.items[i].path.len() > 0;
    law_children_are_the_rows_beneath(window.outline, parent);
    let children = window.outline.children_of(parent);
    assert forall|k: int| 0 <= k < children.len() implies had_path(#[trigger] children[k])
        == has_path(children[k]) by {
        assert(children.contains(children[k]));
        assert(flushed.items[children[k]].path == window.outline.items[children[k]].path);
    }
    lemma_same_filter(children, had_path, has_path);
    assert forall|i: int| 0 <= i < window.outline.items.len() implies same_but_share(
        #[trigger] after.items[i],
        window.outline.items[i],
    ) by {
        assert(after.parents[i] == flushed.parents[i]);
        assert(same_but_share(after.items[i], flushed.items[i]));
    }
    (parent, ids)
}

proof fn lemma_directory_count(entries: Seq<Entry>)
    ensures
        directories(entries, entries.len() as int).len() == directory_count(entries),
{
    law_every_directory_is_handed_out(entries);
}

proof fn lemma_same_beneath(a: OutlineView, b: OutlineView, parent: Option<int>, n: int)
    requires
        a.alive == b.alive,
        a.parents == b.parents,
    ensures
        a.children(parent, n) == b.children(parent, n),
    decreases n,
{
    if n > 0 {
        lemma_same_beneath(a, b, parent, n - 1);
    }
}

proof fn lemma_same_filter(ids: Seq<int>, f: spec_fn(int) -> bool, g: spec_fn(int) -> bool)
    requires
        forall|k: int| 0 <= k < ids.len() ==> f(#[trigger] ids[k]) == g(ids[k]),
    ensures
        ids.filter(f) == ids.filter(g),
    decreases ids.len(),
{
    reveal(Seq::filter);
    if ids.len() > 0 {
        assert forall|k: int| 0 <= k < ids.drop_last().len() implies f(
            #[trigger] ids.drop_last()[k],
        ) == g(ids.drop_last()[k]) by {
            assert(ids.drop_last()[k] == ids[k]);
        }
        lemma_same_filter(ids.drop_last(), f, g);
        assert(f(ids[ids.len() - 1]) == g(ids[ids.len() - 1]));
    }
}

/// A size that comes in is refused only where it could no longer be counted.
/// Else it is counted, it stands in its row, and the directory it was listed in
/// is marked, so that its shares are worked out before the next redraw.
pub proof fn law_a_size_message_is_counted_and_shown(
    window: OutlineWindowView,
    order: Seq<int>,
    path: PathBuf,
    parent_path: Option<PathBuf>,
    size: u64,
)
    ensures
        ({
            let parent = window.lookup(order, parent_path);
            match window.after(order, WorkerMsg::Sized { path, parent_path, size }) {
                Some(next) => {
                    &&& next.status.sized == window.status.sized + 1
                    &&& next.status.queued == window.status.queued
                    &&& next.outline == window.outline.sized(
                        order,
                        parent,
                        path_text(path),
                        size,
                        human_size(size, true),
                    )
                    &&& next.dirty == window.dirty || next.dirty == window.dirty.push(parent_path)
                    &&& next.dirty == window.dirty ==> exists|k: int|
                        0 <= k < window.dirty.len() && same_directory(
                            #[trigger] window.dirty[k],
                            parent_path,
                        )
                },
                None => window.status.sized >= usize::MAX,
            }
        }),
{
    if !holds(window.dirty, parent_path) {
        assert(window.dirty.push(parent_path).len() != window.dirty.len());
    }
}

/// Word of a directory that could not be listed is refused only where the depth
/// of the message would no longer fit. Else the message stands beneath the
/// directory's row, and no counter changes. Where the directory has no row
/// nothing changes.
pub proof fn law_a_failure_message_is_shown(
    window: OutlineWindowView,
    order: Seq<int>,
    parent_path: Option<PathBuf>,
    message: String,
)
    ensures
        ({
            let parent = window.lookup(order, parent_path);
            match window.after(order, WorkerMsg::EnumerateFailed { parent_path, message }) {
                Some(next) => {
                    &&& next.status == window.status
                    &&& next.dirty == window.dirty
                    &&& parent is None ==> next.outline == window.outline
                    &&& parent is Some ==> next.outline == window.outline.failed(
                        parent,
                        message@,
                    )
                },
                None => parent is Some && window.outline.items[parent->0].depth >= i32::MAX,
            }
        }),
{
}

/// Two directories are the same where their paths are; the root of the window
/// is the same as itself and as no other.
pub proof fn law_directories_are_told_apart_by_path(p: PathBuf, q: PathBuf)
    ensures
        same_directory(Some(p), Some(q)) == same_path(p, q),
        same_directory(None, None),
        !same_directory(Some(p), None),
        !same_directory(None, Some(q)),
{
}

} // verus!
