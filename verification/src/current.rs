//! The shares that a window shows are never out of date.
//!
//! In the classic tree view shares are not worked out for every size that
//! comes in. Whatever messages arrive, the directories that are marked are all
//! that have shares to be worked out anew, so that none is left once the window
//! is redrawn. In the column view none is left after any message.
#[allow(unused_imports)]
use std::path::PathBuf;

use vstd::prelude::*;

#[allow(unused_imports)]
use crate::beneath::lemma_filled_consistent;
#[allow(unused_imports)]
use crate::models::{keys_for, lemma_key_in_range, rows_for, ModelsView, WindowView};
#[allow(unused_imports)]
use crate::outline::{
    holds, is_cut, law_flushing_changes_shares_only, lemma_find, lemma_nothing_cut, listing_rows,
    marked, parent_text, same_directory, OutlineView, OutlineWindowView,
};
#[allow(unused_imports)]
use crate::outside::{human_size, path_text};
#[allow(unused_imports)]
use crate::window::{
    error_item, ids_in_range, law_recomputing_is_idempotent, law_shares_are_rounded_down, level_total,
    percent_of,
    placeholder_item, recomputed, shown_sum, ItemView, WorkerMsg,
};

verus! {

// ---------------------------------------------------------------------------
// The classic tree view
// ---------------------------------------------------------------------------

/// A row stands right beneath a row, or at the top level.
pub open spec fn is_child(outline: OutlineView, parent: Option<int>, i: int) -> bool {
    &&& 0 <= i < outline.items.len()
    &&& outline.alive[i]
    &&& outline.parents[i] == parent
}

/// The shares beneath a row, or at the top level, are those that the sizes
/// there give.
pub open spec fn is_current(outline: OutlineView, parent: Option<int>) -> bool {
    forall|i: int| #[trigger]
        is_child(outline, parent, i) && outline.items[i].path.len() > 0 ==> outline.items[i].percent
            == percent_of(
            outline.items[i].size_bytes,
            level_total(outline.items, outline.children_of(parent)),
        )
}

/// A directory goes by the text of a row, or by none where the top level is
/// meant.
pub open spec fn is_named(
    outline: OutlineView,
    directory: Option<PathBuf>,
    parent: Option<int>,
) -> bool {
    match directory {
        Some(path) => match parent {
            Some(i) => outline.is_at(i, path_text(path), None),
            None => forall|i: int| !#[trigger] outline.is_at(i, path_text(path), None),
        },
        None => parent is None,
    }
}

/// The shares beneath a row are marked to be worked out anew.
pub open spec fn is_marked(
    outline: OutlineView,
    dirty: Seq<Option<PathBuf>>,
    from: int,
    parent: Option<int>,
) -> bool {
    exists|k: int| from <= k < dirty.len() && is_named(outline, #[trigger] dirty[k], parent)
}

/// Every share that is out of date is marked to be worked out anew.
pub open spec fn is_accurate(window: OutlineWindowView) -> bool {
    &&& window.is_consistent()
    &&& forall|k: int|
        0 <= k < window.dirty.len() ==> parent_text(#[trigger] window.dirty[k]) != Some(
            Seq::<char>::empty(),
        )
    &&& forall|parent: Option<int>| #[trigger]
        is_current(window.outline, parent) || is_marked(window.outline, window.dirty, 0, parent)
}

/// A directory whose text but one row has is found.
proof fn lemma_named(
    outline: OutlineView,
    order: Seq<int>,
    directory: Option<PathBuf>,
    parent: Option<int>,
)
    requires
        is_named(outline, directory, parent),
        directory is Some ==> !outline.has_several(path_text(directory->0)),
    ensures
        outline.resolve(order, parent_text(directory)) == parent,
{
    if let Some(path) = directory {
        let text = path_text(path);
        lemma_find(outline, order, text, None);
        if let Some(i) = parent {
            assert(outline.find(order, text, None) is Some);
            let j = outline.find(order, text, None)->0;
            assert(outline.is_at(i, text, None) && outline.is_at(j, text, None));
        }
    }
}

proof fn lemma_child_ids(outline: OutlineView, parent: Option<int>, n: int)
    requires
        0 <= n <= outline.items.len(),
    ensures
        forall|i: int|
            outline.children(parent, n).contains(i) <==> #[trigger] is_child(outline, parent, i)
                && i < n,
    decreases n,
{
    if n > 0 {
        lemma_child_ids(outline, parent, n - 1);
        let before = outline.children(parent, n - 1);
        let now = outline.children(parent, n);
        assert forall|i: int|
            now.contains(i) <==> #[trigger] is_child(outline, parent, i) && i < n by {
            if is_child(outline, parent, n - 1) {
                assert(now == before.push(n - 1));
                assert(now.last() == n - 1);
                if before.contains(i) {
                    let k = before.index_of(i);
                    assert(now[k] == i);
                }
                if now.contains(i) && i != n - 1 {
                    let k = now.index_of(i);
                    assert(before[k] == i);
                }
            } else {
                assert(now == before);
            }
        }
    }
}

/// Two trees have the same rows beneath a row.
proof fn lemma_same_children(a: OutlineView, b: OutlineView, parent: Option<int>, n: int)
    requires
        0 <= n <= b.items.len(),
        a.items.len() <= b.items.len(),
        forall|i: int| #[trigger] is_child(b, parent, i) <==> is_child(a, parent, i),
    ensures
        b.children(parent, n) == a.children(
            parent,
            if n < a.items.len() {
                n
            } else {
                a.items.len() as int
            },
        ),
    decreases n,
{
    if n > 0 {
        lemma_same_children(a, b, parent, n - 1);
        assert(is_child(b, parent, n - 1) <==> is_child(a, parent, n - 1));
    }
}

proof fn lemma_same_shown(a: Seq<ItemView>, b: Seq<ItemView>, ids: Seq<int>, n: int)
    requires
        0 <= n <= ids.len(),
        forall|k: int|
            0 <= k < ids.len() ==> a[#[trigger] ids[k]].path == b[ids[k]].path
                && a[ids[k]].size_bytes == b[ids[k]].size_bytes,
    ensures
        shown_sum(a, ids, n) == shown_sum(b, ids, n),
    decreases n,
{
    if n > 0 {
        lemma_same_shown(a, b, ids, n - 1);
        assert(a[ids[n - 1]].path == b[ids[n - 1]].path);
    }
}

proof fn lemma_same_total(a: OutlineView, b: OutlineView, parent: Option<int>)
    requires
        a.items.len() <= b.items.len(),
        forall|i: int| #[trigger] is_child(b, parent, i) <==> is_child(a, parent, i),
        forall|i: int| #[trigger]
            is_child(a, parent, i) ==> a.items[i].path == b.items[i].path && a.items[i].size_bytes
                == b.items[i].size_bytes,
    ensures
        b.children_of(parent) == a.children_of(parent),
        level_total(b.items, b.children_of(parent)) == level_total(a.items, a.children_of(parent)),
{
    lemma_same_children(a, b, parent, b.items.len() as int);
    let ids = a.children_of(parent);
    lemma_child_ids(a, parent, a.items.len() as int);
    assert forall|k: int| 0 <= k < ids.len() implies a.items[#[trigger] ids[k]].path
        == b.items[ids[k]].path && a.items[ids[k]].size_bytes == b.items[ids[k]].size_bytes by {
        assert(ids.contains(ids[k]));
        assert(is_child(a, parent, ids[k]));
    }
    lemma_same_shown(a.items, b.items, ids, ids.len() as int);
}

/// Two rows look alike as far as shares go.
spec fn looks_alike(a: ItemView, b: ItemView) -> bool {
    a.path == b.path && a.size_bytes == b.size_bytes && a.percent == b.percent
}

/// A level that stays as it is stays up to date.
proof fn lemma_level_kept(a: OutlineView, b: OutlineView, parent: Option<int>)
    requires
        a.items.len() <= b.items.len(),
        forall|i: int| #[trigger] is_child(b, parent, i) <==> is_child(a, parent, i),
        forall|i: int| #[trigger]
            is_child(a, parent, i) ==> looks_alike(a.items[i], b.items[i]),
        is_current(a, parent),
    ensures
        is_current(b, parent),
{
    lemma_same_total(a, b, parent);
    assert forall|i: int| #[trigger]
        is_child(b, parent, i) && b.items[i].path.len() > 0 implies b.items[i].percent
        == percent_of(b.items[i].size_bytes, level_total(b.items, b.children_of(parent))) by {
        assert(is_child(a, parent, i));
        assert(looks_alike(a.items[i], b.items[i]));
    }
}

/// Working out the shares of a level brings it up to date, and leaves all
/// others as they are.
proof fn lemma_shared(outline: OutlineView, parent: Option<int>)
    requires
        outline.is_consistent(),
    ensures
        outline.with_shares(parent).is_consistent(),
        is_current(outline.with_shares(parent), parent),
        forall|other: Option<int>|
            is_current(outline, other) ==> #[trigger] is_current(
                outline.with_shares(parent),
                other,
            ),
{
    let after = outline.with_shares(parent);
    let ids = outline.children_of(parent);
    lemma_child_ids(outline, parent, outline.items.len() as int);
    assert forall|other: Option<int>, i: int| #[trigger]
        is_child(after, other, i) <==> is_child(outline, other, i) by {}
    assert forall|i: int| #[trigger] is_child(outline, parent, i) implies outline.items[i].path
        == after.items[i].path && outline.items[i].size_bytes == after.items[i].size_bytes by {}
    lemma_same_total(outline, after, parent);
    assert forall|i: int| #[trigger]
        is_child(after, parent, i) && after.items[i].path.len() > 0 implies after.items[i].percent
        == percent_of(
        after.items[i].size_bytes,
        level_total(after.items, after.children_of(parent)),
    ) by {
        assert(is_child(outline, parent, i));
        assert(ids.contains(i));
    }
    assert forall|other: Option<int>| is_current(outline, other) implies #[trigger] is_current(
        after,
        other,
    ) by {
        if other != parent {
            assert forall|i: int| #[trigger] is_child(outline, other, i) implies outline.items[i]
                == after.items[i] by {
                assert(!is_child(outline, parent, i));
                assert(!ids.contains(i));
            }
            lemma_level_kept(outline, after, other);
        }
    }
}

proof fn lemma_flushed(window: OutlineWindowView, order: Seq<int>, n: int)
    requires
        is_accurate(window),
        !window.flush_needs_order(),
        0 <= n <= window.dirty.len(),
    ensures
        window.outline.flushed(order, window.dirty, n).is_consistent(),
        forall|parent: Option<int>| #[trigger]
            is_current(window.outline.flushed(order, window.dirty, n), parent) || is_marked(
                window.outline,
                window.dirty,
                n,
                parent,
            ),
    decreases n,
{
    if n > 0 {
        lemma_flushed(window, order, n - 1);
        let before = window.outline.flushed(order, window.dirty, n - 1);
        let after = window.outline.flushed(order, window.dirty, n);
        let last = window.dirty[n - 1];
        let row = before.resolve(order, parent_text(last));
        law_flushing_changes_shares_only(window.outline, order, window.dirty, n - 1);
        assert(row == window.outline.resolve(order, parent_text(last))) by {
            if let Some(path) = last {
                let text = path_text(path);
                assert(before.row_at(order, text) == window.outline.row_at(order, text));
            }
        }
        lemma_shared(before, row);
        assert forall|parent: Option<int>| #[trigger]
            is_current(after, parent) || is_marked(
                window.outline,
                window.dirty,
                n,
                parent,
            ) by {
            if !is_current(before, parent) {
                assert(is_marked(window.outline, window.dirty, n - 1, parent));
                let k = choose|k: int|
                    n - 1 <= k < window.dirty.len() && is_named(
                        window.outline,
                        #[trigger] window.dirty[k],
                        parent,
                    );
                if k >= n {
                    assert(is_marked(window.outline, window.dirty, n, parent));
                } else {
                    lemma_named(window.outline, order, last, parent);
                    assert(parent == row);
                }
            }
        }
    }
}

/// A directory goes by what it went by, where rows stay under their paths.
proof fn lemma_still_named(
    a: OutlineView,
    b: OutlineView,
    directory: Option<PathBuf>,
    parent: Option<int>,
)
    requires
        is_named(a, directory, parent),
        forall|i: int, path: Seq<char>| #[trigger]
            b.is_at(i, path, None) <==> a.is_at(i, path, None),
    ensures
        is_named(b, directory, parent),
{
}

proof fn lemma_sized(
    window: OutlineWindowView,
    order: Seq<int>,
    parent: Option<PathBuf>,
    row: Option<int>,
    path: Seq<char>,
    size: u64,
    size_human: Seq<char>,
    after: OutlineWindowView,
)
    requires
        is_accurate(window),
        parent_text(parent) != Some(Seq::<char>::empty()),
        is_named(window.outline, parent, row),
        forall|k: int|
            0 <= k < window.dirty.len() && same_directory(#[trigger] window.dirty[k], parent)
                ==> is_named(window.outline, window.dirty[k], row),
        after.outline == window.outline.sized(order, row, path, size, size_human),
        after.dirty == marked(window.dirty, parent),
        after.is_consistent(),
    ensures
        is_accurate(after),
{
    let old_tree = window.outline;
    let new_tree = after.outline;
    lemma_find(old_tree, order, path, Some(row));
    assert(new_tree.items.len() == old_tree.items.len());
    assert forall|i: int, text: Seq<char>| #[trigger]
        new_tree.is_at(i, text, None) <==> old_tree.is_at(i, text, None) by {}
    assert(is_marked(new_tree, after.dirty, 0, row)) by {
        if holds(window.dirty, parent) {
            let k = choose|k: int|
                0 <= k < window.dirty.len() && same_directory(#[trigger] window.dirty[k], parent);
            lemma_still_named(old_tree, new_tree, window.dirty[k], row);
        } else {
            lemma_still_named(old_tree, new_tree, parent, row);
            assert(after.dirty[window.dirty.len() as int] == parent);
        }
    }
    assert forall|k: int| 0 <= k < after.dirty.len() implies parent_text(#[trigger] after.dirty[k])
        != Some(Seq::<char>::empty()) by {
        if k < window.dirty.len() {
            assert(after.dirty[k] == window.dirty[k]);
        }
    }
    assert forall|p: Option<int>| #[trigger]
        is_current(new_tree, p) || is_marked(new_tree, after.dirty, 0, p) by {
        if p == row {
        } else if is_current(old_tree, p) {
            assert forall|i: int| #[trigger] is_child(old_tree, p, i) implies old_tree.items[i]
                == new_tree.items[i] by {}
            assert forall|i: int| #[trigger]
                is_child(new_tree, p, i) <==> is_child(old_tree, p, i) by {}
            lemma_level_kept(old_tree, new_tree, p);
        } else {
            assert(is_marked(old_tree, window.dirty, 0, p));
            let k = choose|k: int|
                0 <= k < window.dirty.len() && is_named(old_tree, #[trigger] window.dirty[k], p);
            lemma_still_named(old_tree, new_tree, window.dirty[k], p);
            assert(after.dirty[k] == window.dirty[k]);
        }
    }
}

/// A row that is not cut off itself goes with the row it stands beneath.
proof fn lemma_cut_with_parent(outline: OutlineView, roots: Seq<bool>, p: int, i: int)
    requires
        outline.is_consistent(),
        is_child(outline, Some(p), i),
        !roots[i],
    ensures
        is_cut(outline.parents, roots, i) == is_cut(outline.parents, roots, p),
        0 <= p < i,
        outline.alive[p],
{
}

/// Where only rows beneath one row are cut off, each other level is kept as it
/// is or goes as a whole.
proof fn lemma_pruned(outline: OutlineView, roots: Seq<bool>, row: Option<int>, p: Option<int>)
    requires
        outline.is_consistent(),
        roots.len() == outline.items.len(),
        forall|i: int| 0 <= i < roots.len() && #[trigger] roots[i] ==> outline.parents[i] == row,
        p != row,
        is_current(outline, p),
    ensures
        is_current(outline.pruned(roots), p),
{
    let after = outline.pruned(roots);
    let gone = p is Some && 0 <= p->0 < outline.items.len() && is_cut(
        outline.parents,
        roots,
        p->0,
    );
    assert forall|i: int| #[trigger] is_child(outline, p, i) implies after.alive[i] == !gone by {
        assert(!roots[i]);
        if let Some(q) = p {
            lemma_cut_with_parent(outline, roots, q, i);
        }
    }
    assert forall|i: int| #[trigger] is_child(after, p, i) implies is_child(outline, p, i) by {}
    if !gone {
        assert forall|i: int| #[trigger] is_child(after, p, i) <==> is_child(outline, p, i) by {}
        lemma_level_kept(outline, after, p);
    }
}

proof fn lemma_pruned_consistent(outline: OutlineView, roots: Seq<bool>)
    requires
        outline.is_consistent(),
    ensures
        outline.pruned(roots).is_consistent(),
{
    let after = outline.pruned(roots);
    assert forall|i: int| 0 <= i < after.parents.len() implies match #[trigger] after.parents[i] {
        Some(p) => 0 <= p < i && (after.alive[i] ==> after.alive[p]),
        None => true,
    } by {
        assert(after.parents[i] == outline.parents[i]);
    }
}

proof fn lemma_appended(outline: OutlineView, parent: Option<int>, item: ItemView, p: Option<int>)
    requires
        outline.is_consistent(),
        p != parent || item.path.len() == 0,
        is_current(outline, p),
    ensures
        is_current(outline.appended(parent, item), p),
{
    let after = outline.appended(parent, item);
    if p != parent {
        assert forall|i: int| #[trigger] is_child(after, p, i) <==> is_child(outline, p, i) by {}
        lemma_level_kept(outline, after, p);
    } else {
        lemma_blank_appended(outline, parent, item);
    }
}

proof fn lemma_sum_prefix(a: Seq<ItemView>, b: Seq<ItemView>, ids: Seq<int>, more: Seq<int>, n: int)
    requires
        0 <= n <= ids.len() <= more.len(),
        forall|k: int| 0 <= k < ids.len() ==> #[trigger] more[k] == ids[k],
        forall|k: int| 0 <= k < ids.len() ==> a[#[trigger] ids[k]] == b[ids[k]],
    ensures
        shown_sum(b, more, n) == shown_sum(a, ids, n),
    decreases n,
{
    if n > 0 {
        lemma_sum_prefix(a, b, ids, more, n - 1);
        assert(more[n - 1] == ids[n - 1]);
        assert(a[ids[n - 1]] == b[ids[n - 1]]);
    }
}

/// A row that stands for no file does not change the shares of its level.
proof fn lemma_blank_appended(outline: OutlineView, parent: Option<int>, item: ItemView)
    requires
        outline.is_consistent(),
        item.path.len() == 0,
        is_current(outline, parent),
    ensures
        is_current(outline.appended(parent, item), parent),
{
    let after = outline.appended(parent, item);
    let n = outline.items.len() as int;
    let ids = outline.children_of(parent);
    let more = after.children_of(parent);
    lemma_children_below(outline, after, parent, n);
    assert(after.alive[n] && after.parents[n] == parent);
    assert(more == ids.push(n));
    lemma_child_ids(outline, parent, n);
    assert forall|k: int| 0 <= k < ids.len() implies outline.items[#[trigger] ids[k]]
        == after.items[ids[k]] by {
        assert(ids.contains(ids[k]));
        assert(is_child(outline, parent, ids[k]));
    }
    lemma_sum_prefix(outline.items, after.items, ids, more, ids.len() as int);
    assert(more[ids.len() as int] == n);
    assert(after.items[n] == item);
    assert(shown_sum(after.items, more, more.len() as int) == shown_sum(
        outline.items,
        ids,
        ids.len() as int,
    ));
    assert forall|i: int| #[trigger]
        is_child(after, parent, i) && after.items[i].path.len() > 0 implies after.items[i].percent
        == percent_of(after.items[i].size_bytes, level_total(after.items, more)) by {
        assert(is_child(outline, parent, i));
    }
}

proof fn lemma_children_below(a: OutlineView, b: OutlineView, parent: Option<int>, n: int)
    requires
        0 <= n <= a.items.len() <= b.items.len(),
        forall|i: int| 0 <= i < n ==> (#[trigger] b.alive[i]) == a.alive[i],
        forall|i: int| 0 <= i < n ==> (#[trigger] b.parents[i]) == a.parents[i],
    ensures
        b.children(parent, n) == a.children(parent, n),
    decreases n,
{
    if n > 0 {
        lemma_children_below(a, b, parent, n - 1);
        assert(b.alive[n - 1] == a.alive[n - 1]);
        assert(b.parents[n - 1] == a.parents[n - 1]);
    }
}

/// When the window is redrawn, all shares are those that the sizes give, unless
/// a directory that was marked goes by a text that several rows have.
pub proof fn law_redrawn_shares_are_current(window: OutlineWindowView, order: Seq<int>)
    requires
        is_accurate(window),
        !window.flush_needs_order(),
    ensures
        is_accurate(window.flush(order)),
        forall|parent: Option<int>| #[trigger] is_current(window.flush(order).outline, parent),
{
    let n = window.dirty.len() as int;
    lemma_flushed(window, order, n);
    law_flushing_changes_shares_only(window.outline, order, window.dirty, n);
    assert forall|parent: Option<int>| #[trigger]
        is_current(window.flush(order).outline, parent) by {
        assert(!is_marked(window.outline, window.dirty, n, parent));
        assert(is_current(window.outline.flushed(order, window.dirty, n), parent));
    }
}

/// An empty window shows no share that is out of date.
pub proof fn law_empty_window_is_accurate(window: OutlineWindowView)
    requires
        window.is_consistent(),
        window.outline.items.len() == 0,
        window.dirty.len() == 0,
    ensures
        is_accurate(window),
{
}

proof fn lemma_append_consistent(outline: OutlineView, parent: Option<int>, item: ItemView)
    requires
        outline.is_consistent(),
        match parent {
            Some(p) => 0 <= p < outline.items.len() && outline.alive[p],
            None => true,
        },
    ensures
        outline.appended(parent, item).is_consistent(),
{
    let after = outline.appended(parent, item);
    assert forall|i: int| 0 <= i < after.parents.len() implies match #[trigger] after.parents[i] {
        Some(p) => 0 <= p < i && (after.alive[i] ==> after.alive[p]),
        None => true,
    } by {
        if i < outline.parents.len() {
            assert(after.parents[i] == outline.parents[i]);
        }
    }
}

proof fn lemma_failed(
    window: OutlineWindowView,
    row: Option<int>,
    message: Seq<char>,
    after: OutlineWindowView,
)
    requires
        is_accurate(window),
        match row {
            Some(p) => 0 <= p < window.outline.items.len() && window.outline.alive[p],
            None => true,
        },
        after.outline == window.outline.failed(row, message),
        after.dirty == window.dirty,
        after.is_consistent(),
    ensures
        is_accurate(after),
{
    let old_tree = window.outline;
    let new_tree = after.outline;
    let n = old_tree.items.len() as int;
    if let Some(r) = row {
        let roots = old_tree.child_marks(row);
        let bare = old_tree.pruned(roots);
        let item = error_item(message, old_tree.child_depth(row));
        lemma_pruned_consistent(old_tree, roots);
        reveal_strlit("");
        assert forall|p: Option<int>| #[trigger]
            is_current(new_tree, p) || is_marked(new_tree, after.dirty, 0, p) by {
            if p == row {
                assert forall|i: int| #[trigger]
                    is_child(new_tree, p, i) implies new_tree.items[i].path.len() == 0 by {
                    if i < n {
                        assert(roots[i]);
                        assert(is_cut(old_tree.parents, roots, i));
                    }
                }
                assert(is_current(new_tree, p));
            } else if is_current(old_tree, p) {
                lemma_pruned(old_tree, roots, row, p);
                lemma_appended(bare, row, item, p);
            } else {
                assert(is_marked(old_tree, window.dirty, 0, p));
                let k = choose|k: int|
                    0 <= k < window.dirty.len() && is_named(
                        old_tree,
                        #[trigger] window.dirty[k],
                        p,
                    );
                if p is Some && !new_tree.alive[p->0] {
                    assert forall|i: int| !#[trigger] is_child(new_tree, p, i) by {
                        if is_child(new_tree, p, i) {
                            assert(new_tree.parents[i] == p);
                        }
                    }
                    assert(is_current(new_tree, p));
                } else {
                    lemma_name_kept(old_tree, new_tree, window.dirty[k], p);
                    assert(is_marked(new_tree, after.dirty, 0, p));
                }
            }
        }
    }
}

/// A directory goes by the row it went by, as long as that is there, and by none
/// if it went by none.
proof fn lemma_name_kept(
    a: OutlineView,
    b: OutlineView,
    directory: Option<PathBuf>,
    parent: Option<int>,
)
    requires
        is_named(a, directory, parent),
        parent_text(directory) != Some(Seq::<char>::empty()),
        b.items.len() == a.items.len() + 1,
        b.items[a.items.len() as int].path.len() == 0,
        forall|i: int| 0 <= i < a.items.len() ==> (#[trigger] b.items[i]) == a.items[i],
        forall|i: int| 0 <= i < a.items.len() && #[trigger] b.alive[i] ==> a.alive[i],
        parent is Some ==> b.alive[parent->0],
    ensures
        is_named(b, directory, parent),
{
    if let Some(path) = directory {
        let text = path_text(path);
        if text.len() == 0 {
            assert(text =~= Seq::empty());
        }
        if parent is None {
            assert forall|i: int| !#[trigger] b.is_at(i, text, None) by {
                if b.is_at(i, text, None) && i < a.items.len() {
                    assert(a.is_at(i, text, None));
                }
            }
        }
    }
}

proof fn lemma_inserted(outline: OutlineView, row: Option<int>, rows: Seq<ItemView>, n: int)
    requires
        outline.is_consistent(),
        match row {
            Some(p) => 0 <= p < outline.items.len() && outline.alive[p],
            None => true,
        },
        forall|p: Option<int>| #[trigger] is_current(outline, p),
        0 <= n <= rows.len(),
    ensures
        outline.inserted(row, rows, n).is_consistent(),
        match row {
            Some(p) => 0 <= p < outline.inserted(row, rows, n).items.len() && outline.inserted(
                row,
                rows,
                n,
            ).alive[p],
            None => true,
        },
        forall|p: Option<int>| p != row ==> #[trigger] is_current(outline.inserted(row, rows, n), p),
    decreases n,
{
    if n > 0 {
        lemma_inserted(outline, row, rows, n - 1);
        let before = outline.inserted(row, rows, n - 1);
        let after = outline.inserted(row, rows, n);
        let item = rows[n - 1];
        let with_row = before.appended(row, item);
        let place = before.items.len() as int;
        lemma_append_consistent(before, row, item);
        assert forall|p: Option<int>| p != row implies #[trigger] is_current(with_row, p) by {
            assert(is_current(before, p));
            lemma_appended(before, row, item, p);
        }
        if item.is_dir {
            let blank = placeholder_item(item.depth + 1);
            reveal_strlit("");
            assert(with_row.alive[place]);
            lemma_append_consistent(with_row, Some(place), blank);
            assert forall|p: Option<int>| p != row implies #[trigger] is_current(after, p) by {
                assert(is_current(with_row, p));
                lemma_appended(with_row, Some(place), blank, p);
            }
        }
    }
}

proof fn lemma_enumerated(outline: OutlineView, row: Option<int>, rows: Seq<ItemView>)
    requires
        outline.is_consistent(),
        match row {
            Some(p) => 0 <= p < outline.items.len() && outline.alive[p],
            None => true,
        },
        forall|p: Option<int>| #[trigger] is_current(outline, p),
    ensures
        outline.enumerated(row, rows).is_consistent(),
        forall|p: Option<int>| #[trigger] is_current(outline.enumerated(row, rows), p),
{
    let filled = outline.inserted(row, rows, rows.len() as int);
    lemma_inserted(outline, row, rows, rows.len() as int);
    let roots = filled.placeholders(row);
    let bare = filled.pruned(roots);
    lemma_pruned_consistent(filled, roots);
    assert forall|p: Option<int>| p != row implies #[trigger] is_current(bare, p) by {
        assert(is_current(filled, p));
        lemma_pruned(filled, roots, row, p);
    }
    lemma_shared(bare, row);
    assert forall|p: Option<int>| #[trigger] is_current(outline.enumerated(row, rows), p) by {
        if p != row {
            assert(is_current(bare, p));
        }
    }
}

/// The directory that a message is about.
pub open spec fn subject(msg: WorkerMsg) -> Option<Seq<char>> {
    match msg {
        WorkerMsg::Enumerated { parent_path, entries: _ } => parent_text(parent_path),
        WorkerMsg::Sized { path: _, parent_path, size: _ } => parent_text(parent_path),
        WorkerMsg::EnumerateFailed { parent_path, message: _ } => parent_text(parent_path),
    }
}

/// The directory that a size came in for goes by the row that is looked up for
/// it, in this spelling and in that of its mark.
pub open spec fn is_spelled_alike(
    window: OutlineWindowView,
    order: Seq<int>,
    msg: WorkerMsg,
) -> bool {
    match msg {
        WorkerMsg::Sized { path: _, parent_path, size: _ } => {
            let row = window.lookup(order, parent_path);
            &&& is_named(window.outline, parent_path, row)
            &&& forall|k: int|
                0 <= k < window.dirty.len() && same_directory(
                    #[trigger] window.dirty[k],
                    parent_path,
                ) ==> is_named(window.outline, window.dirty[k], row)
        },
        _ => true,
    }
}

/// Whatever messages come in, every share that is out of date is marked to be
/// worked out anew. An empty path names no directory: it is what rows that
/// stand for no file have in its place. Directories are told apart by the texts
/// of their paths, so that a mark may go astray where two have the same text, or
/// one is spelled in several ways.
pub proof fn law_outdated_shares_are_marked(
    window: OutlineWindowView,
    order: Seq<int>,
    msg: WorkerMsg,
)
    requires
        is_accurate(window),
        subject(msg) != Some(Seq::<char>::empty()),
        is_spelled_alike(window, order, msg),
        msg is Enumerated ==> !window.flush_needs_order(),
        window.after(order, msg) is Some,
    ensures
        is_accurate(window.after(order, msg)->0),
{
    let after = window.after(order, msg)->0;
    match msg {
        WorkerMsg::Enumerated { parent_path, entries } => {
            let row = window.outline.resolve(order, parent_text(parent_path));
            law_redrawn_shares_are_current(window, order);
            law_flushing_changes_shares_only(
                window.outline,
                order,
                window.dirty,
                window.dirty.len() as int,
            );
            if let Some(path) = parent_path {
                lemma_find(window.outline, order, path_text(path), None);
            }
            lemma_enumerated(
                window.flush(order).outline,
                row,
                listing_rows(entries@, window.outline.child_depth(row)),
            );
        },
        WorkerMsg::Sized { path, parent_path, size } => {
            let row = window.lookup(order, parent_path);
            lemma_looked_up(window, order, parent_path);
            lemma_find(window.outline, order, path_text(path), Some(row));
            lemma_sized(
                window,
                order,
                parent_path,
                row,
                path_text(path),
                size,
                human_size(size, true),
                after,
            );
        },
        WorkerMsg::EnumerateFailed { parent_path, message } => {
            let row = window.lookup(order, parent_path);
            lemma_looked_up(window, order, parent_path);
            lemma_failed_consistent(window.outline, row, message@);
            lemma_failed(window, row, message@, after);
        },
    }
}

/// A row that is looked up is in the tree, and is what is remembered then.
proof fn lemma_looked_up(window: OutlineWindowView, order: Seq<int>, parent: Option<PathBuf>)
    requires
        window.is_consistent(),
    ensures
        match window.lookup(order, parent) {
            Some(row) => {
                &&& 0 <= row < window.outline.items.len()
                &&& window.outline.alive[row]
                &&& window.remembered(order, parent) matches Some((_, known)) && known == row
            },
            None => window.remembered(order, parent) == window.cache,
        },
{
    if let Some(path) = parent {
        lemma_find(window.outline, order, path_text(path), None);
    }
}

proof fn lemma_failed_consistent(outline: OutlineView, row: Option<int>, message: Seq<char>)
    requires
        outline.is_consistent(),
        match row {
            Some(p) => 0 <= p < outline.items.len() && outline.alive[p],
            None => true,
        },
    ensures
        outline.failed(row, message).is_consistent(),
        row is Some ==> outline.failed(row, message).alive[row->0],
{
    if let Some(r) = row {
        let roots = outline.child_marks(row);
        lemma_pruned_consistent(outline, roots);
        assert forall|j: int| 0 <= j <= r implies !#[trigger] roots[j] by {
            assert(outline.parents[j] != Some(r));
        }
        lemma_nothing_cut(outline.parents, roots, r);
        lemma_append_consistent(
            outline.pruned(roots),
            row,
            error_item(message, outline.child_depth(row)),
        );
    }
}

/// Expanding a row changes no share and no mark.
pub proof fn law_expanding_keeps_shares(window: OutlineWindowView, i: int)
    requires
        is_accurate(window),
        0 <= i < window.outline.items.len(),
    ensures
        is_accurate((OutlineWindowView { outline: window.outline.expanded(i), ..window })),
{
    let old_tree = window.outline;
    let new_tree = old_tree.expanded(i);
    assert(new_tree.is_consistent());
    assert forall|p: Option<int>| #[trigger]
        is_current(new_tree, p) || is_marked(new_tree, window.dirty, 0, p) by {
        if is_current(old_tree, p) {
            assert forall|k: int| #[trigger] is_child(new_tree, p, k) <==> is_child(
                old_tree,
                p,
                k,
            ) by {}
            lemma_level_kept(old_tree, new_tree, p);
        } else {
            assert(is_marked(old_tree, window.dirty, 0, p));
            let k = choose|k: int|
                0 <= k < window.dirty.len() && is_named(old_tree, #[trigger] window.dirty[k], p);
            assert forall|j: int, text: Seq<char>| #[trigger]
                new_tree.is_at(j, text, None) <==> old_tree.is_at(j, text, None) by {}
            lemma_still_named(old_tree, new_tree, window.dirty[k], p);
        }
    }
}

// ---------------------------------------------------------------------------
// The column view
// ---------------------------------------------------------------------------

/// No row is in two levels, and the shares of each level are those that the
/// sizes there give.
pub open spec fn is_column_accurate(window: ModelsView) -> bool {
    &&& window.is_consistent()
    &&& forall|l: int, m: int, i: int|
        0 <= l < window.levels.len() && 0 <= m < window.levels.len()
            && #[trigger] window.levels[l].contains(i) && #[trigger] window.levels[m].contains(i)
            ==> l == m
    &&& forall|l: int|
        0 <= l < window.levels.len() ==> recomputed(window.items, #[trigger] window.levels[l])
            == window.items
}

proof fn lemma_recomputed_kept(a: Seq<ItemView>, b: Seq<ItemView>, ids: Seq<int>)
    requires
        a.len() <= b.len(),
        ids_in_range(ids, a.len()),
        forall|i: int| ids.contains(i) ==> #[trigger] a[i] == b[i],
        recomputed(a, ids) == a,
    ensures
        recomputed(b, ids) == b,
{
    assert forall|k: int| 0 <= k < ids.len() implies a[#[trigger] ids[k]].path == b[ids[k]].path
        && a[ids[k]].size_bytes == b[ids[k]].size_bytes by {
        assert(ids.contains(ids[k]));
        assert(a[ids[k]] == b[ids[k]]);
    }
    lemma_same_shown(a, b, ids, ids.len() as int);
    assert forall|i: int| 0 <= i < b.len() implies #[trigger] recomputed(b, ids)[i] == b[i] by {
        if ids.contains(i) && b[i].path.len() > 0 {
            let k = ids.index_of(i);
            assert(0 <= ids[k] < a.len());
            assert(a[i] == b[i]);
            assert(recomputed(a, ids)[i] == a[i]);
        }
    }
    assert(recomputed(b, ids) =~= b);
}

/// The shares of a level can be worked out without touching another.
proof fn lemma_column_shared(window: ModelsView, level: int)
    requires
        window.is_consistent(),
        0 <= level < window.levels.len(),
        forall|l: int, m: int, i: int|
            0 <= l < window.levels.len() && 0 <= m < window.levels.len()
                && #[trigger] window.levels[l].contains(i)
                && #[trigger] window.levels[m].contains(i) ==> l == m,
        forall|l: int|
            0 <= l < window.levels.len() && l != level ==> recomputed(
                window.items,
                #[trigger] window.levels[l],
            ) == window.items,
    ensures
        is_column_accurate(window.with_shares(level)),
{
    let after = window.with_shares(level);
    law_recomputing_is_idempotent(window.items, window.levels[level]);
    assert(after.is_consistent());
    assert forall|l: int| 0 <= l < after.levels.len() implies recomputed(
        after.items,
        #[trigger] after.levels[l],
    ) == after.items by {
        if l != level {
            let ids = window.levels[l];
            assert(ids_in_range(ids, window.items.len()));
            assert forall|i: int| ids.contains(i) implies #[trigger] window.items[i]
                == after.items[i] by {
                let k = ids.index_of(i);
                assert(0 <= ids[k] < window.items.len());
                assert(!window.levels[level].contains(i));
            }
            lemma_recomputed_kept(window.items, after.items, ids);
        }
    }
}

/// Replacing the rows of a level leaves the others accurate.
proof fn lemma_column_refilled(
    window: ModelsView,
    level: int,
    rows: Seq<ItemView>,
    keys: Seq<Option<PathBuf>>,
)
    requires
        is_column_accurate(window),
        0 <= level < window.levels.len(),
        rows.len() == keys.len(),
    ensures
        window.refilled(level, rows, keys).is_consistent(),
        forall|l: int, m: int, i: int|
            0 <= l < window.levels.len() && 0 <= m < window.levels.len()
                && #[trigger] window.refilled(level, rows, keys).levels[l].contains(i)
                && #[trigger] window.refilled(level, rows, keys).levels[m].contains(i) ==> l == m,
        forall|l: int|
            0 <= l < window.levels.len() && l != level ==> recomputed(
                window.refilled(level, rows, keys).items,
                #[trigger] window.refilled(level, rows, keys).levels[l],
            ) == window.refilled(level, rows, keys).items,
{
    let after = window.refilled(level, rows, keys);
    let fresh = after.levels[level];
    assert forall|l: int| 0 <= l < after.levels.len() implies ids_in_range(
        #[trigger] after.levels[l],
        after.items.len(),
    ) by {
        if l != level {
            assert(ids_in_range(window.levels[l], window.items.len()));
        }
    }
    assert forall|l: int, i: int|
        0 <= l < after.levels.len() && #[trigger] after.levels[l].contains(i) implies (l == level)
        == (i >= window.items.len()) by {
        let k = after.levels[l].index_of(i);
        if l != level {
            assert(ids_in_range(window.levels[l], window.items.len()));
            assert(window.levels[l][k] == i);
        } else {
            assert(fresh[k] == window.items.len() + k);
        }
    }
    assert forall|l: int, m: int, i: int|
        0 <= l < after.levels.len() && 0 <= m < after.levels.len()
            && #[trigger] after.levels[l].contains(i) && #[trigger] after.levels[m].contains(
            i,
        ) implies l == m by {
        if l != level && m != level {
            assert(window.levels[l].contains(i) && window.levels[m].contains(i));
        }
    }
    assert forall|l: int| 0 <= l < after.levels.len() && l != level implies recomputed(
        after.items,
        #[trigger] after.levels[l],
    ) == after.items by {
        let ids = window.levels[l];
        assert(ids_in_range(ids, window.items.len()));
        assert forall|i: int| ids.contains(i) implies #[trigger] window.items[i]
            == after.items[i] by {
            let k = ids.index_of(i);
            assert(0 <= ids[k] < window.items.len());
        }
        lemma_recomputed_kept(window.items, after.items, ids);
    }
}

/// A size is for a row of the level that its message names, if the row is in a
/// level at all.
pub open spec fn is_addressed(window: ModelsView, msg: WorkerMsg) -> bool {
    match msg {
        WorkerMsg::Sized { path, parent_path, size: _ } => match window.item_at(path) {
            Some(i) => forall|l: int|
                0 <= l < window.levels.len() && #[trigger] window.levels[l].contains(i)
                    ==> window.store_for(parent_path) == Some(l),
            None => true,
        },
        _ => true,
    }
}

/// In the column view the shares of every level are up to date after each
/// message.
pub proof fn law_column_shares_are_current(window: WindowView, msg: WorkerMsg)
    requires
        is_column_accurate(window.models),
        is_addressed(window.models, msg),
        window.after(msg) is Some,
    ensures
        is_column_accurate(window.after(msg)->0.models),
{
    let models = window.models;
    match msg {
        WorkerMsg::Enumerated { parent_path, entries } => {
            if let Some(level) = models.store_for(parent_path) {
                if let Some(path) = parent_path {
                    lemma_key_in_range(models.owners, path, models.owners.len() as int);
                }
                let rows = rows_for(entries@, models.parent_depth(parent_path) + 1);
                let keys = keys_for(entries@);
                lemma_column_refilled(models, level, rows, keys);
                lemma_column_shared(models.refilled(level, rows, keys), level);
            }
        },
        WorkerMsg::Sized { path, parent_path, size } => {
            if let Some(i) = models.item_at(path) {
                lemma_key_in_range(models.keys, path, models.keys.len() as int);
                let noted = ModelsView {
                    items: models.items.update(
                        i,
                        ItemView {
                            size_bytes: size as nat,
                            size_human: human_size(size, true),
                            sized: true,
                            ..models.items[i]
                        },
                    ),
                    ..models
                };
                assert(noted.is_consistent());
                assert forall|l: int|
                    0 <= l < noted.levels.len() && !(#[trigger] noted.levels[l]).contains(
                        i,
                    ) implies recomputed(noted.items, noted.levels[l]) == noted.items by {
                    let ids = models.levels[l];
                    assert(ids_in_range(ids, models.items.len()));
                    assert forall|j: int| ids.contains(j) implies #[trigger] models.items[j]
                        == noted.items[j] by {
                        let k = ids.index_of(j);
                        assert(0 <= ids[k] < models.items.len());
                    }
                    lemma_recomputed_kept(models.items, noted.items, ids);
                }
                match models.store_for(parent_path) {
                    Some(level) => {
                        if let Some(parent) = parent_path {
                            lemma_key_in_range(models.owners, parent, models.owners.len() as int);
                        }
                        assert forall|l: int|
                            0 <= l < noted.levels.len() && l != level implies recomputed(
                            noted.items,
                            #[trigger] noted.levels[l],
                        ) == noted.items by {
                            assert(!models.levels[l].contains(i));
                        }
                        lemma_column_shared(noted, level);
                    },
                    None => {
                        assert forall|l: int| 0 <= l < noted.levels.len() implies recomputed(
                            noted.items,
                            #[trigger] noted.levels[l],
                        ) == noted.items by {
                            assert(!models.levels[l].contains(i));
                        }
                    },
                }
            }
        },
        WorkerMsg::EnumerateFailed { parent_path, message } => {
            if let Some(level) = models.store_for(parent_path) {
                if let Some(path) = parent_path {
                    lemma_key_in_range(models.owners, path, models.owners.len() as int);
                }
                let row = error_item(message@, models.parent_depth(parent_path) + 1);
                reveal_strlit("");
                lemma_column_refilled(models, level, seq![row], seq![None]);
                let after = models.refilled(level, seq![row], seq![None]);
                let fresh = after.levels[level];
                assert forall|i: int| 0 <= i < after.items.len() implies #[trigger] recomputed(
                    after.items,
                    fresh,
                )[i] == after.items[i] by {
                    if fresh.contains(i) {
                        let k = fresh.index_of(i);
                        assert(fresh[k] == models.items.len() + k);
                        assert(after.items[i] == row);
                    }
                }
                assert(recomputed(after.items, fresh) =~= after.items);
            }
        },
    }
}

/// An empty window shows no share that is out of date.
pub proof fn law_empty_columns_are_accurate(window: ModelsView)
    requires
        window.is_consistent(),
        window.items.len() == 0,
    ensures
        is_column_accurate(window),
{
    assert forall|l: int| 0 <= l < window.levels.len() implies recomputed(
        window.items,
        #[trigger] window.levels[l],
    ) == window.items by {
        assert(recomputed(window.items, window.levels[l]) =~= window.items);
    }
    assert forall|l: int, i: int| 0 <= l < window.levels.len() implies !#[trigger] window.levels[l].contains(
        i,
    ) by {
        if window.levels[l].contains(i) {
            let k = window.levels[l].index_of(i);
            assert(ids_in_range(window.levels[l], window.items.len()));
            assert(0 <= window.levels[l][k] < 0);
        }
    }
}

/// Shares that are up to date are whole percents, rounded down: each row that
/// stands for a file shows how many hundredths of its level's total fit into
/// its size.
pub proof fn law_current_shares_are_rounded_down(
    outline: OutlineView,
    parent: Option<int>,
    i: int,
)
    requires
        is_current(outline, parent),
        0 <= i < outline.items.len(),
        outline.alive[i],
        outline.parents[i] == parent,
        outline.items[i].path.len() > 0,
    ensures
        ({
            let total = level_total(outline.items, outline.children_of(parent));
            let row = outline.items[i];
            &&& total > 0 ==> row.percent * total <= 100 * row.size_bytes < (row.percent + 1)
                * total
            &&& total == 0 ==> row.percent == 0
        }),
{
    assert(is_child(outline, parent, i));
    law_shares_are_rounded_down(
        outline.items[i].size_bytes,
        level_total(outline.items, outline.children_of(parent)),
    );
}

/// A listing leaves the shares of its level up to date, whatever they were.
pub proof fn law_listed_shares_are_current(
    outline: OutlineView,
    parent: Option<int>,
    rows: Seq<ItemView>,
)
    requires
        outline.is_consistent(),
        match parent {
            Some(p) => 0 <= p < outline.items.len() && outline.alive[p],
            None => true,
        },
    ensures
        is_current(outline.enumerated(parent, rows), parent),
{
    let filled = outline.inserted(parent, rows, rows.len() as int);
    lemma_filled_consistent(outline, parent, rows);
    lemma_pruned_consistent(filled, filled.placeholders(parent));
    lemma_shared(filled.pruned(filled.placeholders(parent)), parent);
}

} // verus!
