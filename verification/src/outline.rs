//! The rows of the classic tree view.
//!
//! All rows stand in one tree. A directory that has not been expanded holds a
//! placeholder, so that it can be. Shares are not worked out for every size
//! that comes in but once for a batch of them.
use std::path::PathBuf;

use vstd::prelude::*;

use crate::model::Entry;
use crate::order::reversed;
use crate::outside::{display_path, format_size, is_same_path};
#[allow(unused_imports)]
use crate::outside::{human_size, path_text, same_path};
use crate::status::Status;
#[allow(unused_imports)]
use crate::status::StatusView;
use crate::window::{count_dirs, recompute_percentages, Batch, EntryItem, WorkerMsg};
#[allow(unused_imports)]
use crate::window::{
    directories, error_item, id_views, ids_in_range, item_for_entry, item_views,
    law_shares_do_not_sway_totals, placeholder_item, recomputed, ItemView, YIELD_EVERY,
};

verus! {

/// After how many rows of a listing the window gets to redraw.
pub const INSERT_CHUNK: usize = 256;

/// Whether the window gets to redraw after the row at this place of a listing.
pub fn ends_chunk(place: usize) -> (ends: bool)
    requires
        place < usize::MAX,
    ensures
        ends == ((place + 1) % INSERT_CHUNK as int == 0),
        ends == ((place + 1) % 256 == 0),
{
    (place + 1) % INSERT_CHUNK == 0
}

/// What the tree holds. Rows that have been removed keep their number.
pub struct OutlineView {
    /// Every row that was ever made.
    pub items: Seq<ItemView>,
    /// The row beneath which each row stands, `None` at the top level.
    pub parents: Seq<Option<int>>,
    /// Whether the row is still in the tree.
    pub alive: Seq<bool>,
}

/// Whether the row or one above it is among those that are cut off.
pub open spec fn is_cut(parents: Seq<Option<int>>, roots: Seq<bool>, i: int) -> bool
    decreases i,
{
    ||| roots[i]
    ||| match parents[i] {
        Some(p) => 0 <= p < i && is_cut(parents, roots, p),
        None => false,
    }
}

impl OutlineView {
    /// A row stands beneath an older one, and is in the tree only if that is.
    pub open spec fn is_consistent(self) -> bool {
        &&& self.parents.len() == self.items.len()
        &&& self.alive.len() == self.items.len()
        &&& forall|i: int|
            0 <= i < self.parents.len() ==> match #[trigger] self.parents[i] {
                Some(p) => 0 <= p < i && (self.alive[i] ==> self.alive[p]),
                None => true,
            }
    }

    /// The rows right beneath a row, or at the top level, that are among the
    /// first `n` rows.
    pub open spec fn children(self, parent: Option<int>, n: int) -> Seq<int>
        decreases n,
    {
        if n <= 0 {
            Seq::empty()
        } else if self.alive[n - 1] && self.parents[n - 1] == parent {
            self.children(parent, n - 1).push(n - 1)
        } else {
            self.children(parent, n - 1)
        }
    }

    /// The rows right beneath a row, or at the top level.
    pub open spec fn children_of(self, parent: Option<int>) -> Seq<int> {
        self.children(parent, self.items.len() as int)
    }

    /// Whether a row is in the tree under this path, right beneath the given
    /// row where one is asked for.
    pub open spec fn is_at(self, i: int, path: Seq<char>, beneath: Option<Option<int>>) -> bool {
        &&& 0 <= i < self.items.len()
        &&& self.alive[i]
        &&& self.items[i].path == path
        &&& match beneath {
            Some(parent) => self.parents[i] == parent,
            None => true,
        }
    }

    /// The first such row among the first `n` of the given numbers.
    pub open spec fn first_of(
        self,
        ids: Seq<int>,
        path: Seq<char>,
        beneath: Option<Option<int>>,
        n: int,
    ) -> Option<int>
        decreases n,
    {
        if n <= 0 {
            None
        } else if self.first_of(ids, path, beneath, n - 1) is Some {
            self.first_of(ids, path, beneath, n - 1)
        } else if self.is_at(ids[n - 1], path, beneath) {
            Some(ids[n - 1])
        } else {
            None
        }
    }

    /// The order in which rows are looked through: that in which they are
    /// shown, as far as it is given, and behind it that in which they were
    /// made.
    pub open spec fn walk(self, order: Seq<int>) -> Seq<int> {
        order + Seq::new(self.items.len(), |i: int| i)
    }

    /// The first row under this path, right beneath the given row where one is
    /// asked for.
    pub open spec fn find(
        self,
        order: Seq<int>,
        path: Seq<char>,
        beneath: Option<Option<int>>,
    ) -> Option<int> {
        self.first_of(self.walk(order), path, beneath, self.walk(order).len() as int)
    }

    /// The row with this path, at whatever depth.
    pub open spec fn row_at(self, order: Seq<int>, path: Seq<char>) -> Option<int> {
        self.find(order, path, None)
    }

    /// The row of a directory; `None` for the root and for what has no row.
    pub open spec fn resolve(self, order: Seq<int>, parent: Option<Seq<char>>) -> Option<int> {
        match parent {
            Some(path) => self.row_at(order, path),
            None => None,
        }
    }

    /// The row right beneath a row, or at the top level, with this path.
    pub open spec fn child_at(
        self,
        order: Seq<int>,
        parent: Option<int>,
        path: Seq<char>,
    ) -> Option<int> {
        self.find(order, path, Some(parent))
    }

    /// Whether several rows are in the tree under this path, so that the order
    /// decides which of them is found.
    pub open spec fn has_several(self, path: Seq<char>) -> bool {
        exists|i: int, j: int|
            i < j && #[trigger] self.is_at(i, path, None) && #[trigger] self.is_at(j, path, None)
    }

    /// The depth of the rows beneath a row.
    pub open spec fn child_depth(self, parent: Option<int>) -> int {
        match parent {
            Some(p) => self.items[p].depth + 1,
            None => 0,
        }
    }

    /// With one more row.
    pub open spec fn appended(self, parent: Option<int>, item: ItemView) -> OutlineView {
        OutlineView {
            items: self.items.push(item),
            parents: self.parents.push(parent),
            alive: self.alive.push(true),
        }
    }

    /// With the first `n` of the given rows, each directory with a placeholder
    /// beneath it.
    pub open spec fn inserted(self, parent: Option<int>, rows: Seq<ItemView>, n: int) -> OutlineView
        decreases n,
    {
        if n <= 0 {
            self
        } else {
            let before = self.inserted(parent, rows, n - 1);
            let row = rows[n - 1];
            let with_row = before.appended(parent, row);
            if row.is_dir {
                with_row.appended(
                    Some(before.items.len() as int),
                    placeholder_item(row.depth + 1),
                )
            } else {
                with_row
            }
        }
    }

    /// Without the given rows and all that stands beneath them.
    pub open spec fn pruned(self, roots: Seq<bool>) -> OutlineView {
        OutlineView {
            alive: Seq::new(
                self.alive.len(),
                |i: int| self.alive[i] && !is_cut(self.parents, roots, i),
            ),
            ..self
        }
    }

    /// The rows right beneath a row that stand for no file.
    pub open spec fn placeholders(self, parent: Option<int>) -> Seq<bool> {
        Seq::new(
            self.items.len(),
            |i: int|
                self.alive[i] && self.parents[i] == parent && self.items[i].path.len() == 0,
        )
    }

    /// The rows right beneath a row.
    pub open spec fn child_marks(self, parent: Option<int>) -> Seq<bool> {
        Seq::new(self.items.len(), |i: int| self.parents[i] == parent)
    }

    /// With the shares beneath a row worked out anew.
    pub open spec fn with_shares(self, parent: Option<int>) -> OutlineView {
        OutlineView { items: recomputed(self.items, self.children_of(parent)), ..self }
    }

    /// With the children of a directory beneath its row, in place of the
    /// placeholder there.
    pub open spec fn enumerated(self, parent: Option<int>, rows: Seq<ItemView>) -> OutlineView {
        let filled = self.inserted(parent, rows, rows.len() as int);
        filled.pruned(filled.placeholders(parent)).with_shares(parent)
    }

    /// With the size of a directory in its row. Shares are left as they are.
    pub open spec fn sized(
        self,
        order: Seq<int>,
        parent: Option<int>,
        path: Seq<char>,
        size: u64,
        size_human: Seq<char>,
    ) -> OutlineView {
        match self.child_at(order, parent, path) {
            Some(i) => OutlineView {
                items: self.items.update(
                    i,
                    ItemView { size_bytes: size as nat, size_human, sized: true, ..self.items[i] },
                ),
                ..self
            },
            None => self,
        }
    }

    /// With a single row beneath a directory, which says why it could not be
    /// listed. Where the directory has no row nothing happens.
    pub open spec fn failed(self, parent: Option<int>, message: Seq<char>) -> OutlineView {
        match parent {
            Some(p) => self.pruned(self.child_marks(parent)).appended(
                parent,
                error_item(message, self.child_depth(parent)),
            ),
            None => self,
        }
    }

    /// With the shares worked out anew beneath the first `n` of the given
    /// directories.
    pub open spec fn flushed(
        self,
        order: Seq<int>,
        dirty: Seq<Option<PathBuf>>,
        n: int,
    ) -> OutlineView
        decreases n,
    {
        if n <= 0 {
            self
        } else {
            let before = self.flushed(order, dirty, n - 1);
            before.with_shares(before.resolve(order, parent_text(dirty[n - 1])))
        }
    }

    /// With the children of a row asked for.
    pub open spec fn expanded(self, i: int) -> OutlineView {
        OutlineView {
            items: self.items.update(i, ItemView { loaded: true, ..self.items[i] }),
            ..self
        }
    }
}

/// The rows for the entries of a listing.
pub open spec fn listing_rows(entries: Seq<Entry>, depth: int) -> Seq<ItemView> {
    entries.map_values(|entry: Entry| item_for_entry(entry, depth))
}

/// Row numbers, where there are any, as integers.
pub open spec fn parent_view(parent: Option<usize>) -> Option<int> {
    match parent {
        Some(p) => Some(p as int),
        None => None,
    }
}

/// The level that a search is confined to, if to any.
pub open spec fn beneath_view(beneath: Option<Option<usize>>) -> Option<Option<int>> {
    match beneath {
        Some(parent) => Some(parent_view(parent)),
        None => None,
    }
}

/// Several of them.
pub open spec fn parent_views(parents: Seq<Option<usize>>) -> Seq<Option<int>> {
    parents.map_values(|parent: Option<usize>| parent_view(parent))
}

/// The tree of rows.
pub struct Outline {
    items: Vec<EntryItem>,
    parents: Vec<Option<usize>>,
    alive: Vec<bool>,
}

impl View for Outline {
    type V = OutlineView;

    closed spec fn view(&self) -> OutlineView {
        OutlineView {
            items: item_views(self.items@),
            parents: parent_views(self.parents@),
            alive: self.alive@,
        }
    }
}

proof fn lemma_first_of(
    outline: OutlineView,
    ids: Seq<int>,
    path: Seq<char>,
    beneath: Option<Option<int>>,
    n: int,
)
    requires
        0 <= n <= ids.len(),
    ensures
        match outline.first_of(ids, path, beneath, n) {
            Some(i) => outline.is_at(i, path, beneath),
            None => forall|k: int| 0 <= k < n ==> !outline.is_at(#[trigger] ids[k], path, beneath),
        },
    decreases n,
{
    if n > 0 {
        lemma_first_of(outline, ids, path, beneath, n - 1);
    }
}

/// What is found is there, and where nothing is found nothing is there.
pub(crate) proof fn lemma_find(
    outline: OutlineView,
    order: Seq<int>,
    path: Seq<char>,
    beneath: Option<Option<int>>,
)
    ensures
        match outline.find(order, path, beneath) {
            Some(i) => outline.is_at(i, path, beneath),
            None => forall|i: int| !#[trigger] outline.is_at(i, path, beneath),
        },
{
    let walk = outline.walk(order);
    lemma_first_of(outline, walk, path, beneath, walk.len() as int);
    if outline.find(order, path, beneath) is None {
        assert forall|i: int| !#[trigger] outline.is_at(i, path, beneath) by {
            if 0 <= i < outline.items.len() {
                assert(walk[order.len() + i] == i);
            }
        }
    }
}

proof fn lemma_same_first(
    a: OutlineView,
    b: OutlineView,
    ids: Seq<int>,
    path: Seq<char>,
    beneath: Option<Option<int>>,
    n: int,
)
    requires
        0 <= n <= ids.len(),
        forall|i: int| #[trigger] b.is_at(i, path, beneath) <==> a.is_at(i, path, beneath),
    ensures
        b.first_of(ids, path, beneath, n) == a.first_of(ids, path, beneath, n),
    decreases n,
{
    if n > 0 {
        lemma_same_first(a, b, ids, path, beneath, n - 1);
        assert(b.is_at(ids[n - 1], path, beneath) <==> a.is_at(ids[n - 1], path, beneath));
    }
}

/// Which of the rows under one path is found depends on the order in which they
/// are shown. Where there is but one, it does not.
pub proof fn law_order_decides_among_several_only(
    outline: OutlineView,
    order: Seq<int>,
    other: Seq<int>,
    path: Seq<char>,
    beneath: Option<Option<int>>,
)
    requires
        !outline.has_several(path),
    ensures
        outline.find(order, path, beneath) == outline.find(other, path, beneath),
{
    lemma_find(outline, order, path, beneath);
    lemma_find(outline, other, path, beneath);
    if let Some(i) = outline.find(order, path, beneath) {
        assert(outline.find(other, path, beneath) is Some);
        let j = outline.find(other, path, beneath)->0;
        assert(outline.is_at(i, path, None) && outline.is_at(j, path, None));
    }
}

proof fn lemma_no_children(outline: OutlineView, parent: Option<int>, n: int)
    requires
        n <= outline.items.len(),
        forall|i: int|
            0 <= i < n ==> !(#[trigger] outline.alive[i] && outline.parents[i] == parent),
    ensures
        outline.children(parent, n) == Seq::<int>::empty(),
    decreases n,
{
    if n > 0 {
        lemma_no_children(outline, parent, n - 1);
        assert(!(outline.alive[n - 1] && outline.parents[n - 1] == parent));
    }
}

proof fn lemma_inserted_keeps(
    outline: OutlineView,
    parent: Option<int>,
    rows: Seq<ItemView>,
    n: int,
    i: int,
)
    requires
        outline.is_consistent(),
        0 <= i < outline.items.len(),
    ensures
        outline.inserted(parent, rows, n).items.len() >= outline.items.len(),
        outline.inserted(parent, rows, n).parents.len() == outline.inserted(
            parent,
            rows,
            n,
        ).items.len(),
        outline.inserted(parent, rows, n).alive.len() == outline.inserted(
            parent,
            rows,
            n,
        ).items.len(),
        outline.inserted(parent, rows, n).items[i] == outline.items[i],
        outline.inserted(parent, rows, n).parents[i] == outline.parents[i],
        outline.inserted(parent, rows, n).alive[i] == outline.alive[i],
    decreases n,
{
    if n > 0 {
        lemma_inserted_keeps(outline, parent, rows, n - 1, i);
    }
}

proof fn lemma_children(outline: OutlineView, parent: Option<int>, n: int)
    requires
        n <= outline.items.len(),
    ensures
        ids_in_range(outline.children(parent, n), outline.items.len()),
        forall|k: int|
            0 <= k < outline.children(parent, n).len() ==> #[trigger] outline.children(
                parent,
                n,
            )[k] < n,
    decreases n,
{
    if n > 0 {
        lemma_children(outline, parent, n - 1);
    }
}

fn is_same_parent(a: Option<usize>, b: Option<usize>) -> (same: bool)
    ensures
        same == (parent_view(a) == parent_view(b)),
{
    match (a, b) {
        (Some(p), Some(q)) => p == q,
        (None, None) => true,
        _ => false,
    }
}

impl Outline {
    /// An empty tree.
    pub fn new() -> (outline: Outline)
        ensures
            outline@.is_consistent(),
            outline@.items.len() == 0,
    {
        Outline { items: Vec::new(), parents: Vec::new(), alive: Vec::new() }
    }

    /// The number of rows that were ever made.
    pub fn item_count(&self) -> (n: usize)
        ensures
            n as nat == self@.items.len(),
    {
        self.items.len()
    }

    /// A row by its number.
    pub fn item(&self, id: usize) -> (item: &EntryItem)
        requires
            id < self@.items.len(),
        ensures
            item@ == self@.items[id as int],
    {
        &self.items[id]
    }

    /// Whether a row is still in the tree.
    pub fn is_alive(&self, id: usize) -> (alive: bool)
        requires
            self@.is_consistent(),
            id < self@.items.len(),
        ensures
            alive == self@.alive[id as int],
    {
        self.alive[id]
    }

    /// The row beneath which a row stands.
    pub fn parent(&self, id: usize) -> (parent: Option<usize>)
        requires
            self@.is_consistent(),
            id < self@.items.len(),
        ensures
            parent_view(parent) == self@.parents[id as int],
    {
        assert(self@.parents[id as int] == parent_view(self.parents@[id as int]));
        self.parents[id]
    }

    /// The rows right beneath a row, or at the top level.
    pub fn children(&self, parent: Option<usize>) -> (ids: Vec<usize>)
        requires
            self@.is_consistent(),
        ensures
            id_views(ids@) == self@.children_of(parent_view(parent)),
    {
        let mut ids: Vec<usize> = Vec::new();
        let mut i: usize = 0;
        assert(id_views(ids@) =~= Seq::empty());
        while i < self.items.len()
            invariant
                self@.is_consistent(),
                i <= self.items@.len(),
                id_views(ids@) == self@.children(parent_view(parent), i as int),
            decreases self.items@.len() - i,
        {
            let ghost before = ids@;
            assert(self@.parents[i as int] == parent_view(self.parents@[i as int]));
            if self.alive[i] && is_same_parent(self.parents[i], parent) {
                ids.push(i);
                assert(id_views(ids@) =~= id_views(before).push(i as int));
            }
            i += 1;
        }
        ids
    }

    /// The first row under this path in the order in which rows are looked
    /// through, right beneath the given row where one is asked for.
    fn find(
        &self,
        order: &Vec<usize>,
        path: &String,
        beneath: Option<Option<usize>>,
    ) -> (row: Option<usize>)
        requires
            self@.is_consistent(),
        ensures
            parent_view(row) == self@.find(id_views(order@), path@, beneath_view(beneath)),
            row is Some ==> self@.is_at(row->0 as int, path@, beneath_view(beneath)),
    {
        let n: usize = self.items.len();
        let ghost ids = self@.walk(id_views(order@));
        let ghost under = beneath_view(beneath);
        let mut k: usize = 0;
        while k < order.len()
            invariant
                self@.is_consistent(),
                n == self.items@.len(),
                n == self@.items.len(),
                ids == self@.walk(id_views(order@)),
                under == beneath_view(beneath),
                k <= order@.len(),
                self@.first_of(ids, path@, under, k as int) is None,
            decreases order@.len() - k,
        {
            assert(ids[k as int] == order@[k as int]);
            let id: usize = order[k];
            if self.is_row_at(id, path, beneath) {
                proof {
                    lemma_first_stays(self@, ids, path@, under, k + 1, ids.len() as int);
                }
                return Some(id);
            }
            k += 1;
        }
        let mut i: usize = 0;
        while i < n
            invariant
                self@.is_consistent(),
                n == self.items@.len(),
                n == self@.items.len(),
                ids == self@.walk(id_views(order@)),
                under == beneath_view(beneath),
                i <= n,
                self@.first_of(ids, path@, under, order@.len() + i) is None,
            decreases n - i,
        {
            assert(ids[order@.len() + i] == i);
            if self.is_row_at(i, path, beneath) {
                proof {
                    lemma_first_stays(
                        self@,
                        ids,
                        path@,
                        under,
                        order@.len() + i + 1,
                        ids.len() as int,
                    );
                }
                return Some(i);
            }
            i += 1;
        }
        None
    }

    fn is_row_at(&self, id: usize, path: &String, beneath: Option<Option<usize>>) -> (is: bool)
        requires
            self@.is_consistent(),
        ensures
            is == self@.is_at(id as int, path@, beneath_view(beneath)),
    {
        if id >= self.items.len() {
            return false;
        }
        assert(self@.items[id as int] == self.items@[id as int]@);
        assert(self@.parents[id as int] == parent_view(self.parents@[id as int]));
        let in_level = match beneath {
            Some(parent) => is_same_parent(self.parents[id], parent),
            None => true,
        };
        self.alive[id] && self.items[id].path.eq(path) && in_level
    }

    /// The row with this path, at whatever depth, given the order in which the
    /// rows are shown.
    pub fn find_row_by_path(&self, order: &Vec<usize>, path: &String) -> (row: Option<usize>)
        requires
            self@.is_consistent(),
        ensures
            parent_view(row) == self@.row_at(id_views(order@), path@),
            row is Some ==> self@.is_at(row->0 as int, path@, None),
    {
        self.find(order, path, None)
    }

    /// The row of a directory; `None` for the root and for what has no row.
    pub fn resolve(&self, order: &Vec<usize>, parent: &Option<PathBuf>) -> (row: Option<usize>)
        requires
            self@.is_consistent(),
        ensures
            parent_view(row) == self@.resolve(id_views(order@), parent_text(*parent)),
            row is Some ==> row->0 < self@.items.len() && self@.alive[row->0 as int],
    {
        match parent {
            Some(path) => self.find_row_by_path(order, &display_path(path)),
            None => None,
        }
    }

    /// Whether several rows are in the tree under this path.
    pub fn has_several(&self, path: &String) -> (several: bool)
        requires
            self@.is_consistent(),
        ensures
            several == self@.has_several(path@),
    {
        let mut first: Option<usize> = None;
        let mut i: usize = 0;
        while i < self.items.len()
            invariant
                self@.is_consistent(),
                i <= self.items@.len(),
                match first {
                    Some(f) => f < i && self@.is_at(f as int, path@, None),
                    None => true,
                },
                forall|j: int|
                    0 <= j < i && #[trigger] self@.is_at(j, path@, None) ==> first == Some(
                        j as usize,
                    ),
            decreases self.items@.len() - i,
        {
            if self.is_row_at(i, path, None) {
                if let Some(f) = first {
                    assert(self@.is_at(f as int, path@, None) && self@.is_at(i as int, path@, None));
                    return true;
                }
                first = Some(i);
            }
            i += 1;
        }
        assert(!self@.has_several(path@)) by {
            if self@.has_several(path@) {
                let (a, b) = choose|a: int, b: int|
                    a < b && #[trigger] self@.is_at(a, path@, None) && #[trigger] self@.is_at(
                        b,
                        path@,
                        None,
                    );
                assert(first == Some(a as usize) && first == Some(b as usize));
            }
        }
        false
    }

    /// The depth of the rows beneath a row.
    pub fn child_depth(&self, parent: Option<usize>) -> (depth: i32)
        requires
            parent is Some ==> parent->0 < self@.items.len() && self@.items[parent->0 as int].depth
                < i32::MAX,
        ensures
            depth as int == self@.child_depth(parent_view(parent)),
    {
        match parent {
            Some(p) => {
                assert(self@.items[p as int] == self.items@[p as int]@);
                self.items[p].depth + 1
            },
            None => 0,
        }
    }

    fn append(&mut self, parent: Option<usize>, item: EntryItem)
        requires
            old(self)@.is_consistent(),
            parent is Some ==> parent->0 < old(self)@.items.len()
                && old(self)@.alive[parent->0 as int],
        ensures
            final(self)@ == old(self)@.appended(parent_view(parent), item@),
            final(self)@.is_consistent(),
    {
        let ghost before = self@;
        self.items.push(item);
        self.parents.push(parent);
        self.alive.push(true);
        proof {
            let after = before.appended(parent_view(parent), item@);
            assert(self@.items =~= after.items);
            assert(self@.parents =~= after.parents);
            assert(self@ == after);
            assert forall|i: int| 0 <= i < after.parents.len() implies match #[trigger] after.parents[i] {
                Some(p) => 0 <= p < i && (after.alive[i] ==> after.alive[p]),
                None => true,
            } by {
                if i < before.parents.len() {
                    assert(after.parents[i] == before.parents[i]);
                }
            }
        }
    }

    /// Appends rows beneath a row, or at the top level, each directory with a
    /// placeholder beneath it.
    fn insert(&mut self, parent: Option<usize>, rows: Vec<EntryItem>)
        requires
            old(self)@.is_consistent(),
            parent is Some ==> parent->0 < old(self)@.items.len()
                && old(self)@.alive[parent->0 as int],
            forall|k: int| 0 <= k < rows@.len() && (#[trigger] rows@[k]).is_dir ==> rows@[k].depth < i32::MAX,
        ensures
            final(self)@ == old(self)@.inserted(
                parent_view(parent),
                item_views(rows@),
                rows@.len() as int,
            ),
            final(self)@.is_consistent(),
            final(self)@.items.len() >= old(self)@.items.len(),
    {
        let ghost start = self@;
        let ghost views = item_views(rows@);
        let ghost all = rows@;
        let mut rest = reversed(rows);
        let mut k: usize = 0;
        let n: usize = rest.len();
        while k < n
            invariant
                k <= n,
                n == all.len(),
                rest@ == all.skip(k as int).reverse(),
                views == item_views(all),
                forall|j: int| 0 <= j < all.len() && (#[trigger] all[j]).is_dir ==> all[j].depth < i32::MAX,
                self@ == start.inserted(parent_view(parent), views, k as int),
                self@.is_consistent(),
                self@.items.len() >= start.items.len(),
                parent is Some ==> parent->0 < self@.items.len() && self@.alive[parent->0 as int],
            decreases n - k,
        {
            let ghost before = self@;
            if let Some(item) = rest.pop() {
                assert(item == all[k as int]);
                assert(rest@ =~= all.skip(k + 1).reverse());
                assert(views[k as int] == item@);
                let is_dir = item.is_dir;
                let depth: i32 = item.depth;
                let id: usize = self.items.len();
                self.append(parent, item);
                if is_dir {
                    self.append(Some(id), EntryItem::placeholder_row(depth + 1));
                }
            }
            k += 1;
        }
    }

    /// Removes rows and all that stands beneath them.
    fn prune(&mut self, roots: &Vec<bool>)
        requires
            old(self)@.is_consistent(),
            roots@.len() == old(self)@.items.len(),
        ensures
            final(self)@ == old(self)@.pruned(roots@),
            final(self)@.is_consistent(),
    {
        let ghost before = self@;
        let mut cut: Vec<bool> = Vec::new();
        let mut i: usize = 0;
        let n: usize = self.items.len();
        while i < n
            invariant
                i <= n,
                n == before.items.len(),
                before.is_consistent(),
                roots@.len() == n,
                self.items@.len() == n,
                self.parents@.len() == n,
                self.alive@.len() == n,
                item_views(self.items@) == before.items,
                parent_views(self.parents@) == before.parents,
                cut@.len() == i,
                forall|j: int| 0 <= j < i ==> #[trigger] cut@[j] == is_cut(before.parents, roots@, j),
                forall|j: int|
                    0 <= j < n ==> #[trigger] self.alive@[j] == if j < i {
                        before.alive[j] && !is_cut(before.parents, roots@, j)
                    } else {
                        before.alive[j]
                    },
            decreases n - i,
        {
            assert(before.parents[i as int] == parent_view(self.parents@[i as int]));
            let above = match self.parents[i] {
                Some(p) => cut[p],
                None => false,
            };
            let is_cut_off = roots[i] || above;
            assert(is_cut_off == is_cut(before.parents, roots@, i as int));
            cut.push(is_cut_off);
            if is_cut_off {
                self.alive.set(i, false);
            }
            i += 1;
        }
        proof {
            let after = before.pruned(roots@);
            assert(self@.alive =~= after.alive);
            assert(self@ == after);
            assert forall|i: int| 0 <= i < after.parents.len() implies match #[trigger] after.parents[i] {
                Some(p) => 0 <= p < i && (after.alive[i] ==> after.alive[p]),
                None => true,
            } by {
                assert(after.parents[i] == before.parents[i]);
            }
        }
    }

    /// Works out the shares beneath a row, or at the top level, anew.
    pub fn recompute_shares(&mut self, parent: Option<usize>)
        requires
            old(self)@.is_consistent(),
        ensures
            final(self)@ == old(self)@.with_shares(parent_view(parent)),
            final(self)@.is_consistent(),
    {
        let ghost before = self@;
        let ids = self.children(parent);
        proof {
            lemma_children(before, parent_view(parent), before.items.len() as int);
        }
        recompute_percentages(&mut self.items, &ids);
        assert(self@ == before.with_shares(parent_view(parent)));
        assert(self@.items.len() == before.items.len());
    }

    /// Marks the rows right beneath a row that stand for no file.
    fn collect_placeholders(&self, parent: Option<usize>) -> (marks: Vec<bool>)
        requires
            self@.is_consistent(),
        ensures
            marks@ == self@.placeholders(parent_view(parent)),
    {
        let mut marks: Vec<bool> = Vec::new();
        let mut i: usize = 0;
        while i < self.items.len()
            invariant
                self@.is_consistent(),
                i <= self.items@.len(),
                marks@ == self@.placeholders(parent_view(parent)).take(i as int),
            decreases self.items@.len() - i,
        {
            assert(self@.parents[i as int] == parent_view(self.parents@[i as int]));
            assert(self@.items[i as int] == self.items@[i as int]@);
            marks.push(
                self.alive[i] && is_same_parent(self.parents[i], parent)
                    && self.items[i].path.as_str().is_empty(),
            );
            i += 1;
            assert(marks@ =~= self@.placeholders(parent_view(parent)).take(i as int));
        }
        assert(self@.placeholders(parent_view(parent)).take(i as int) =~= self@.placeholders(
            parent_view(parent),
        ));
        marks
    }

    fn mark_children(&self, parent: Option<usize>) -> (marks: Vec<bool>)
        requires
            self@.is_consistent(),
        ensures
            marks@ == self@.child_marks(parent_view(parent)),
    {
        let mut marks: Vec<bool> = Vec::new();
        let mut i: usize = 0;
        while i < self.items.len()
            invariant
                self@.is_consistent(),
                i <= self.items@.len(),
                marks@ == self@.child_marks(parent_view(parent)).take(i as int),
            decreases self.items@.len() - i,
        {
            assert(self@.parents[i as int] == parent_view(self.parents@[i as int]));
            marks.push(is_same_parent(self.parents[i], parent));
            i += 1;
            assert(marks@ =~= self@.child_marks(parent_view(parent)).take(i as int));
        }
        assert(self@.child_marks(parent_view(parent)).take(i as int) =~= self@.child_marks(
            parent_view(parent),
        ));
        marks
    }

    /// Puts the rows of a listing beneath a row, or at the top level, in place
    /// of the placeholder there.
    pub fn apply_rows(&mut self, parent: Option<usize>, rows: Vec<EntryItem>)
        requires
            old(self)@.is_consistent(),
            parent is Some ==> parent->0 < old(self)@.items.len()
                && old(self)@.alive[parent->0 as int],
            forall|k: int| 0 <= k < rows@.len() && (#[trigger] rows@[k]).is_dir ==> rows@[k].depth < i32::MAX,
        ensures
            final(self)@ == old(self)@.enumerated(parent_view(parent), item_views(rows@)),
            final(self)@.is_consistent(),
    {
        self.insert(parent, rows);
        let marks = self.collect_placeholders(parent);
        self.prune(&marks);
        self.recompute_shares(parent);
    }

    /// Notes the size of a row right beneath a row, or at the top level, given
    /// its text. Shares are left as they are.
    pub fn update_row_size(
        &mut self,
        order: &Vec<usize>,
        parent: Option<usize>,
        path: &String,
        size: u64,
        size_human: String,
    )
        requires
            old(self)@.is_consistent(),
        ensures
            final(self)@ == old(self)@.sized(
                id_views(order@),
                parent_view(parent),
                path@,
                size,
                size_human@,
            ),
            final(self)@.is_consistent(),
            final(self)@.alive == old(self)@.alive,
    {
        let ghost before = self@;
        if let Some(id) = self.find(order, path, Some(parent)) {
            assert(self@.items[id as int] == self.items@[id as int]@);
            self.items[id].size_bytes = size;
            self.items[id].size_human = size_human;
            self.items[id].sized = true;
            assert(self@.items =~= before.sized(
                id_views(order@),
                parent_view(parent),
                path@,
                size,
                size_human@,
            ).items);
        }
    }

    /// Replaces all that stands beneath a directory's row by a row that says
    /// why it could not be listed. Where the directory has no row nothing
    /// happens.
    pub fn apply_enumerate_failed(&mut self, parent: Option<usize>, message: &str)
        requires
            old(self)@.is_consistent(),
            parent is Some ==> parent->0 < old(self)@.items.len()
                && old(self)@.alive[parent->0 as int] && old(self)@.items[parent->0 as int].depth
                < i32::MAX,
        ensures
            final(self)@ == old(self)@.failed(parent_view(parent), message@),
            final(self)@.is_consistent(),
            parent is Some ==> final(self)@.alive[parent->0 as int],
    {
        if let Some(p) = parent {
            let depth: i32 = self.child_depth(parent);
            let marks = self.mark_children(parent);
            proof {
                lemma_not_cut(self@, parent_view(parent), p as int);
            }
            self.prune(&marks);
            self.append(parent, EntryItem::error_row(message, depth));
        }
    }

    /// Asks for the children of a row that is expanded. Only the first time
    /// there is anything to do: the path to list is returned then.
    pub fn expand(&mut self, id: usize) -> (path: Option<String>)
        requires
            old(self)@.is_consistent(),
            id < old(self)@.items.len(),
        ensures
            final(self)@.is_consistent(),
            if old(self)@.items[id as int].loaded {
                path is None && final(self)@ == old(self)@
            } else {
                &&& path is Some
                &&& path->0@ == old(self)@.items[id as int].path
                &&& final(self)@ == old(self)@.expanded(id as int)
            },
    {
        let ghost before = self@;
        assert(self@.items[id as int] == self.items@[id as int]@);
        if self.items[id].loaded {
            return None;
        }
        self.items[id].loaded = true;
        assert(self@.items =~= before.expanded(id as int).items);
        Some(self.items[id].path.clone())
    }
}

proof fn lemma_first_stays(
    outline: OutlineView,
    ids: Seq<int>,
    path: Seq<char>,
    beneath: Option<Option<int>>,
    m: int,
    n: int,
)
    requires
        m <= n,
        outline.first_of(ids, path, beneath, m) is Some,
    ensures
        outline.first_of(ids, path, beneath, n) == outline.first_of(ids, path, beneath, m),
    decreases n,
{
    if m < n {
        lemma_first_stays(outline, ids, path, beneath, m, n - 1);
    }
}

/// A row is in place where neither it nor an older one is cut off.
pub(crate) proof fn lemma_nothing_cut(parents: Seq<Option<int>>, roots: Seq<bool>, i: int)
    requires
        forall|j: int| 0 <= j <= i ==> !#[trigger] roots[j],
        0 <= i,
    ensures
        !is_cut(parents, roots, i),
    decreases i,
{
    if let Some(p) = parents[i] {
        if 0 <= p < i {
            lemma_nothing_cut(parents, roots, p);
        }
    }
}

/// A row is not cut off with the rows beneath a row that is no older.
proof fn lemma_not_cut(outline: OutlineView, parent: Option<int>, i: int)
    requires
        outline.is_consistent(),
        parent is Some,
        0 <= i <= parent->0 < outline.items.len(),
    ensures
        !is_cut(outline.parents, outline.child_marks(parent), i),
{
    lemma_nothing_cut(outline.parents, outline.child_marks(parent), i);
}

/// The text of a path, where there is one.
pub open spec fn parent_text(path: Option<PathBuf>) -> Option<Seq<char>> {
    match path {
        Some(p) => Some(path_text(p)),
        None => None,
    }
}

/// The rows are the same but for their shares.
pub open spec fn differ_in_shares(a: Seq<ItemView>, b: Seq<ItemView>) -> bool {
    &&& a.len() == b.len()
    &&& forall|i: int|
        0 <= i < a.len() ==> (#[trigger] b[i]) == (ItemView { percent: b[i].percent, ..a[i] })
}

/// Trees with the same rows at the same paths find the same.
pub(crate) proof fn lemma_same_lookup(
    a: OutlineView,
    b: OutlineView,
    order: Seq<int>,
    path: Seq<char>,
    beneath: Option<Option<int>>,
)
    requires
        a.items.len() == b.items.len(),
        a.alive == b.alive,
        a.parents == b.parents,
        forall|i: int| 0 <= i < a.items.len() ==> (#[trigger] b.items[i]).path == a.items[i].path,
    ensures
        b.find(order, path, beneath) == a.find(order, path, beneath),
{
    assert forall|i: int| #[trigger] b.is_at(i, path, beneath) <==> a.is_at(i, path, beneath) by {
        if 0 <= i < a.items.len() {
            assert(b.items[i].path == a.items[i].path);
        }
    }
    assert(a.walk(order) == b.walk(order));
    lemma_same_first(a, b, a.walk(order), path, beneath, a.walk(order).len() as int);
}

/// Working out shares that were put off changes shares and nothing else, and
/// every row is found as before.
pub proof fn law_flushing_changes_shares_only(
    outline: OutlineView,
    order: Seq<int>,
    dirty: Seq<Option<PathBuf>>,
    n: int,
)
    requires
        0 <= n <= dirty.len(),
    ensures
        differ_in_shares(outline.items, outline.flushed(order, dirty, n).items),
        outline.flushed(order, dirty, n).parents == outline.parents,
        outline.flushed(order, dirty, n).alive == outline.alive,
        forall|any: Seq<int>, path: Seq<char>| #[trigger]
            outline.flushed(order, dirty, n).row_at(any, path) == outline.row_at(any, path),
    decreases n,
{
    let after = outline.flushed(order, dirty, n);
    if n > 0 {
        law_flushing_changes_shares_only(outline, order, dirty, n - 1);
        let before = outline.flushed(order, dirty, n - 1);
        assert forall|i: int| 0 <= i < outline.items.len() implies (#[trigger] after.items[i]) == (
        ItemView { percent: after.items[i].percent, ..outline.items[i] }) by {
            assert(before.items[i] == (ItemView {
                percent: before.items[i].percent,
                ..outline.items[i]
            }));
        }
    }
    assert forall|any: Seq<int>, path: Seq<char>| #[trigger]
        after.row_at(any, path) == outline.row_at(any, path) by {
        lemma_same_lookup(outline, after, any, path, None);
    }
}

/// Whether two directories are the same; the root is the same as itself only.
pub open spec fn same_directory(a: Option<PathBuf>, b: Option<PathBuf>) -> bool {
    match (a, b) {
        (Some(p), Some(q)) => same_path(p, q),
        (None, None) => true,
        _ => false,
    }
}

/// Whether a directory is among those whose shares have to be worked out anew.
pub open spec fn holds(dirty: Seq<Option<PathBuf>>, parent: Option<PathBuf>) -> bool {
    exists|k: int| 0 <= k < dirty.len() && same_directory(#[trigger] dirty[k], parent)
}

/// The directories whose shares have to be worked out anew, with one more.
pub open spec fn marked(dirty: Seq<Option<PathBuf>>, parent: Option<PathBuf>) -> Seq<
    Option<PathBuf>,
> {
    if holds(dirty, parent) {
        dirty
    } else {
        dirty.push(parent)
    }
}

/// The window with the classic tree view.
pub struct OutlineWindowView {
    /// The rows.
    pub outline: OutlineView,
    /// The directories whose shares have to be worked out anew.
    pub dirty: Seq<Option<PathBuf>>,
    /// The directory that was looked up last, and its row.
    pub cache: Option<(PathBuf, int)>,
    /// The counters of the status bar.
    pub status: StatusView,
}

impl OutlineWindowView {
    /// The tree is in order, and the row that was looked up last is in it.
    pub open spec fn is_consistent(self) -> bool {
        &&& self.outline.is_consistent()
        &&& match self.cache {
            Some((_, row)) => 0 <= row < self.outline.items.len() && self.outline.alive[row],
            None => true,
        }
    }

    /// With all shares worked out.
    pub open spec fn flush(self, order: Seq<int>) -> OutlineWindowView {
        OutlineWindowView {
            outline: self.outline.flushed(order, self.dirty, self.dirty.len() as int),
            dirty: Seq::empty(),
            ..self
        }
    }

    /// Whether this directory was the last one that was looked up.
    pub open spec fn is_cached(self, path: PathBuf) -> bool {
        match self.cache {
            Some((known, _)) => same_path(known, path),
            None => false,
        }
    }

    /// The row of a directory: that of the last lookup if it was for the same
    /// directory, however spelled, else the one that is found under its text.
    pub open spec fn lookup(self, order: Seq<int>, parent: Option<PathBuf>) -> Option<int> {
        match parent {
            Some(path) => match self.cache {
                Some((known, row)) if same_path(known, path) => Some(row),
                _ => self.outline.row_at(order, path_text(path)),
            },
            None => None,
        }
    }

    /// What is remembered after that: a row that was found.
    pub open spec fn remembered(self, order: Seq<int>, parent: Option<PathBuf>) -> Option<
        (PathBuf, int),
    > {
        match parent {
            Some(path) => if self.is_cached(path) {
                self.cache
            } else {
                match self.outline.row_at(order, path_text(path)) {
                    Some(row) => Some((path, row)),
                    None => self.cache,
                }
            },
            None => self.cache,
        }
    }

    /// The window after a message, given the order in which the rows are shown,
    /// or `None` where a depth or a counter would no longer fit.
    pub open spec fn after(self, order: Seq<int>, msg: WorkerMsg) -> Option<OutlineWindowView> {
        match msg {
            WorkerMsg::Enumerated { parent_path, entries } => {
                let parent = self.outline.resolve(order, parent_text(parent_path));
                let depth = self.outline.child_depth(parent);
                let dirs = directories(entries@, entries@.len() as int).len();
                let queued = self.status.queued + dirs;
                if depth > i32::MAX || (dirs > 0 && depth >= i32::MAX) || queued > usize::MAX {
                    None
                } else {
                    Some(
                        OutlineWindowView {
                            outline: self.flush(order).outline.enumerated(
                                parent,
                                listing_rows(entries@, depth),
                            ),
                            dirty: Seq::empty(),
                            cache: None,
                            status: StatusView { queued, ..self.status },
                        },
                    )
                }
            },
            WorkerMsg::Sized { path, parent_path, size } => if self.status.sized >= usize::MAX {
                None
            } else {
                Some(
                    OutlineWindowView {
                        outline: self.outline.sized(
                            order,
                            self.lookup(order, parent_path),
                            path_text(path),
                            size,
                            human_size(size, true),
                        ),
                        dirty: marked(self.dirty, parent_path),
                        cache: self.remembered(order, parent_path),
                        status: StatusView { sized: self.status.sized + 1, ..self.status },
                    },
                )
            },
            WorkerMsg::EnumerateFailed { parent_path, message } => {
                let parent = self.lookup(order, parent_path);
                if self.outline.child_depth(parent) > i32::MAX {
                    None
                } else {
                    Some(
                        OutlineWindowView {
                            outline: self.outline.failed(parent, message@),
                            cache: self.remembered(order, parent_path),
                            ..self
                        },
                    )
                }
            },
        }
    }

    /// Whether the order in which the rows are shown matters for the shares
    /// that were put off: only where several rows are under one path.
    pub open spec fn flush_needs_order(self) -> bool {
        exists|k: int|
            0 <= k < self.dirty.len() && (#[trigger] self.dirty[k]) is Some
                && self.outline.has_several(path_text(self.dirty[k]->0))
    }

    /// Whether the order in which the rows are shown matters for a message.
    pub open spec fn needs_order(self, msg: WorkerMsg) -> bool {
        match msg {
            WorkerMsg::Enumerated { parent_path, entries: _ } => {
                ||| self.flush_needs_order()
                ||| parent_path is Some && self.outline.has_several(path_text(parent_path->0))
            },
            WorkerMsg::Sized { path, parent_path, size: _ } => {
                ||| self.outline.has_several(path_text(path))
                ||| parent_path is Some && self.outline.has_several(path_text(parent_path->0))
            },
            WorkerMsg::EnumerateFailed { parent_path, message: _ } => parent_path is Some
                && self.outline.has_several(path_text(parent_path->0)),
        }
    }
}

fn is_same_directory(a: &Option<PathBuf>, b: &Option<PathBuf>) -> (same: bool)
    ensures
        same == same_directory(*a, *b),
{
    match (a, b) {
        (Some(p), Some(q)) => is_same_path(p, q),
        (None, None) => true,
        _ => false,
    }
}

/// Applies the messages of the workers to the classic tree view, one by one.
///
/// Rows are found by the texts of their paths. Several may be under one text,
/// and then the first one in the order in which they are shown is meant. That
/// order is the window's; it is handed in wherever it matters.
pub struct OutlineConsumer {
    outline: Outline,
    dirty: Vec<Option<PathBuf>>,
    cache: Option<(PathBuf, usize)>,
    status: Status,
    batch: Batch,
}

impl View for OutlineConsumer {
    type V = OutlineWindowView;

    closed spec fn view(&self) -> OutlineWindowView {
        OutlineWindowView {
            outline: self.outline@,
            dirty: self.dirty@,
            cache: match self.cache {
                Some((path, row)) => Some((path, row as int)),
                None => None,
            },
            status: self.status@,
        }
    }
}

impl OutlineConsumer {
    /// The messages since the window was last redrawn.
    pub closed spec fn waiting(self) -> nat {
        self.batch@
    }

    /// An empty window.
    pub fn new() -> (consumer: OutlineConsumer)
        ensures
            consumer@ == (OutlineWindowView {
                outline: OutlineView {
                    items: Seq::empty(),
                    parents: Seq::empty(),
                    alive: Seq::empty(),
                },
                dirty: Seq::empty(),
                cache: None,
                status: StatusView { queued: 0, sized: 0 },
            }),
            consumer@.is_consistent(),
            consumer.waiting() == 0,
    {
        let consumer = OutlineConsumer {
            outline: Outline::new(),
            dirty: Vec::new(),
            cache: None,
            status: Status::new(),
            batch: Batch::new(),
        };
        assert(consumer@.outline.items =~= Seq::empty());
        assert(consumer@.outline.parents =~= Seq::empty());
        assert(consumer@.outline.alive =~= Seq::empty());
        assert(consumer@.dirty =~= Seq::empty());
        consumer
    }

    /// The rows.
    pub fn outline(&self) -> (outline: &Outline)
        ensures
            outline@ == self@.outline,
    {
        &self.outline
    }

    /// The counters of the status bar.
    pub fn status(&self) -> (status: &Status)
        ensures
            status@ == self@.status,
    {
        &self.status
    }

    /// Asks for the children of a row that is expanded.
    pub fn expand(&mut self, id: usize) -> (path: Option<String>)
        requires
            old(self)@.is_consistent(),
            id < old(self)@.outline.items.len(),
        ensures
            final(self)@.is_consistent(),
            final(self).waiting() == old(self).waiting(),
            if old(self)@.outline.items[id as int].loaded {
                path is None && final(self)@ == old(self)@
            } else {
                &&& path is Some
                &&& path->0@ == old(self)@.outline.items[id as int].path
                &&& final(self)@ == (OutlineWindowView {
                    outline: old(self)@.outline.expanded(id as int),
                    ..old(self)@
                })
            },
    {
        self.outline.expand(id)
    }

    /// The row of a directory. The row that was looked up last is remembered:
    /// sizes arrive in clusters.
    fn lookup_parent(&mut self, order: &Vec<usize>, parent: &Option<PathBuf>) -> (row: Option<
        usize,
    >)
        requires
            old(self)@.is_consistent(),
        ensures
            final(self)@ == (OutlineWindowView {
                cache: old(self)@.remembered(id_views(order@), *parent),
                ..old(self)@
            }),
            final(self)@.is_consistent(),
            final(self).waiting() == old(self).waiting(),
            parent_view(row) == old(self)@.lookup(id_views(order@), *parent),
            row is Some ==> row->0 < old(self)@.outline.items.len()
                && old(self)@.outline.alive[row->0 as int],
            row is Some ==> (final(self)@.cache matches Some((_, r)) && r == row->0),
    {
        let path = match parent {
            Some(path) => path,
            None => {
                return None;
            },
        };
        if let Some((cached, row)) = &self.cache {
            if is_same_path(cached, path) {
                return Some(*row);
            }
        }
        match self.outline.find_row_by_path(order, &display_path(path)) {
            Some(row) => {
                self.cache = Some((path.clone(), row));
                Some(row)
            },
            None => None,
        }
    }

    /// Works out the shares that were put off: once for each directory,
    /// however many sizes came in beneath it.
    pub fn flush_dirty(&mut self, order: &Vec<usize>)
        requires
            old(self)@.is_consistent(),
        ensures
            final(self)@.is_consistent(),
            final(self)@ == old(self)@.flush(id_views(order@)),
            final(self).waiting() == old(self).waiting(),
    {
        let ghost start = self@;
        let ghost shown = id_views(order@);
        let mut k: usize = 0;
        while k < self.dirty.len()
            invariant
                start == old(self)@,
                shown == id_views(order@),
                self.dirty@ == start.dirty,
                self.cache == old(self).cache,
                self.status == old(self).status,
                self.batch == old(self).batch,
                k <= self.dirty@.len(),
                self.outline@.is_consistent(),
                self.outline@ == start.outline.flushed(shown, start.dirty, k as int),
            decreases self.dirty@.len() - k,
        {
            let row = self.outline.resolve(order, &self.dirty[k]);
            self.outline.recompute_shares(row);
            k += 1;
        }
        self.dirty.clear();
        proof {
            let n = start.dirty.len() as int;
            law_flushing_changes_shares_only(start.outline, shown, start.dirty, n);
            assert(self@.dirty =~= Seq::empty());
            assert(self@.outline == start.flush(shown).outline);
        }
    }

    fn mark_dirty(&mut self, parent: &Option<PathBuf>)
        requires
            old(self)@.is_consistent(),
        ensures
            final(self)@.is_consistent(),
            final(self)@ == (OutlineWindowView {
                dirty: marked(old(self)@.dirty, *parent),
                ..old(self)@
            }),
            final(self).waiting() == old(self).waiting(),
    {
        let mut k: usize = 0;
        while k < self.dirty.len()
            invariant
                self == old(self),
                self@.is_consistent(),
                k <= self.dirty@.len(),
                forall|j: int|
                    0 <= j < k ==> !same_directory(#[trigger] self.dirty@[j], *parent),
            decreases self.dirty@.len() - k,
        {
            if is_same_directory(&self.dirty[k], parent) {
                assert(same_directory(self@.dirty[k as int], *parent));
                assert(holds(self@.dirty, *parent));
                return;
            }
            k += 1;
        }
        assert(!holds(self@.dirty, *parent));
        let copy = match parent {
            Some(path) => Some(path.clone()),
            None => None,
        };
        self.dirty.push(copy);
    }

    /// Puts a listing beneath its directory and accounts for the directories
    /// in it.
    fn apply_enumerated(
        &mut self,
        order: &Vec<usize>,
        parent_path: &Option<PathBuf>,
        entries: &Vec<Entry>,
    ) -> (applied: bool)
        requires
            old(self)@.is_consistent(),
        ensures
            final(self)@.is_consistent(),
            final(self).waiting() == old(self).waiting(),
            match old(self)@.after(
                id_views(order@),
                (WorkerMsg::Enumerated { parent_path: *parent_path, entries: *entries }),
            ) {
                Some(next) => applied && final(self)@ == next,
                None => !applied && final(self)@ == old(self)@,
            },
    {
        let ghost start = self@;
        let ghost shown = id_views(order@);
        let parent = self.outline.resolve(order, parent_path);
        let n_dirs: usize = count_dirs(entries);
        let queued: usize = self.status.queued();
        if queued.checked_add(n_dirs).is_none() {
            return false;
        }
        if let Some(p) = parent {
            if self.outline.item(p).depth == i32::MAX {
                return false;
            }
        }
        let depth: i32 = self.outline.child_depth(parent);
        if n_dirs > 0 && depth == i32::MAX {
            return false;
        }
        self.flush_dirty(order);
        proof {
            let n = start.dirty.len() as int;
            law_flushing_changes_shares_only(start.outline, shown, start.dirty, n);
        }
        self.cache = None;
        self.status.enqueue(n_dirs);
        let mut rows: Vec<EntryItem> = Vec::new();
        let ghost all = listing_rows(entries@, depth as int);
        let mut i: usize = 0;
        while i < entries.len()
            invariant
                i <= entries@.len(),
                all == listing_rows(entries@, depth as int),
                item_views(rows@) == all.take(i as int),
            decreases entries@.len() - i,
        {
            let ghost before = rows@;
            let row = EntryItem::from_entry(&entries[i], depth);
            rows.push(row);
            i += 1;
            assert(item_views(rows@) =~= item_views(before).push(row@));
            assert(item_views(rows@) =~= all.take(i as int));
        }
        assert(all.take(i as int) =~= all);
        assert forall|k: int| 0 <= k < rows@.len() && (#[trigger] rows@[k]).is_dir implies rows@[k].depth
            < i32::MAX by {
            assert(item_views(rows@)[k] == all[k]);
            lemma_has_directory(entries@, entries@.len() as int, k);
        }
        self.outline.apply_rows(parent, rows);
        true
    }

    /// Applies a message, given the order in which the rows are shown. Where a
    /// depth or a counter would no longer fit the window stays as it is, and
    /// the result is `false`.
    pub fn handle(&mut self, order: &Vec<usize>, msg: &WorkerMsg) -> (applied: bool)
        requires
            old(self)@.is_consistent(),
        ensures
            final(self)@.is_consistent(),
            final(self).waiting() == old(self).waiting(),
            match old(self)@.after(id_views(order@), *msg) {
                Some(next) => applied && final(self)@ == next,
                None => !applied && final(self)@ == old(self)@,
            },
    {
        match msg {
            WorkerMsg::Enumerated { parent_path, entries } => self.apply_enumerated(
                order,
                parent_path,
                entries,
            ),
            WorkerMsg::Sized { path, parent_path, size } => {
                if self.status.sized() == usize::MAX {
                    return false;
                }
                let parent = self.lookup_parent(order, parent_path);
                proof {
                    lemma_find(
                        self.outline@,
                        id_views(order@),
                        path_text(*path),
                        Some(parent_view(parent)),
                    );
                }
                self.outline.update_row_size(
                    order,
                    parent,
                    &display_path(path),
                    *size,
                    format_size(*size, true),
                );
                self.mark_dirty(parent_path);
                self.status.complete_one();
                true
            },
            WorkerMsg::EnumerateFailed { parent_path, message } => self.apply_enumerate_failed(
                order,
                parent_path,
                message,
            ),
        }
    }

    /// Puts the reason why a directory could not be listed beneath its row.
    fn apply_enumerate_failed(
        &mut self,
        order: &Vec<usize>,
        parent_path: &Option<PathBuf>,
        message: &String,
    ) -> (applied: bool)
        requires
            old(self)@.is_consistent(),
        ensures
            final(self)@.is_consistent(),
            final(self).waiting() == old(self).waiting(),
            match old(self)@.after(
                id_views(order@),
                (WorkerMsg::EnumerateFailed { parent_path: *parent_path, message: *message }),
            ) {
                Some(next) => applied && final(self)@ == next,
                None => !applied && final(self)@ == old(self)@,
            },
    {
        let ghost start = self@;
        let known = match &self.cache {
            Some((path, row)) => Some((path.clone(), *row)),
            None => None,
        };
        let parent = self.lookup_parent(order, parent_path);
        if let Some(p) = parent {
            if self.outline.item(p).depth == i32::MAX {
                self.cache = known;
                return false;
            }
        }
        self.outline.apply_enumerate_failed(parent, message.as_str());
        true
    }

    /// Whether the order in which the rows are shown has to be handed in with a
    /// message; else any will do.
    pub fn needs_order(&self, msg: &WorkerMsg) -> (needed: bool)
        requires
            self@.is_consistent(),
        ensures
            needed == self@.needs_order(*msg),
    {
        match msg {
            WorkerMsg::Enumerated { parent_path, entries: _ } => self.flush_needs_order()
                || self.is_shared(parent_path),
            WorkerMsg::Sized { path, parent_path, size: _ } => self.outline.has_several(
                &display_path(path),
            ) || self.is_shared(parent_path),
            WorkerMsg::EnumerateFailed { parent_path, message: _ } => self.is_shared(parent_path),
        }
    }

    fn is_shared(&self, path: &Option<PathBuf>) -> (shared: bool)
        requires
            self@.is_consistent(),
        ensures
            shared == (*path is Some && self@.outline.has_several(path_text(path->0))),
    {
        match path {
            Some(p) => self.outline.has_several(&display_path(p)),
            None => false,
        }
    }

    /// Whether the order in which the rows are shown has to be handed in to
    /// work out the shares that were put off; else any will do.
    pub fn flush_needs_order(&self) -> (needed: bool)
        requires
            self@.is_consistent(),
        ensures
            needed == self@.flush_needs_order(),
    {
        let mut k: usize = 0;
        while k < self.dirty.len()
            invariant
                self@.is_consistent(),
                k <= self.dirty@.len(),
                forall|j: int|
                    0 <= j < k ==> !((#[trigger] self@.dirty[j]) is Some
                        && self@.outline.has_several(path_text(self@.dirty[j]->0))),
            decreases self.dirty@.len() - k,
        {
            assert(self@.dirty[k as int] == self.dirty@[k as int]);
            if self.is_shared(&self.dirty[k]) {
                return true;
            }
            k += 1;
        }
        false
    }

    /// Ends the turn of a message that has been handled. Says whether the
    /// window has to redraw before the next one; the shares are worked out
    /// before it does.
    pub fn end_turn(&mut self, order: &Vec<usize>, queue_is_empty: bool) -> (pause: bool)
        requires
            old(self)@.is_consistent(),
        ensures
            final(self)@.is_consistent(),
            pause == (old(self).waiting() + 1 >= YIELD_EVERY || queue_is_empty),
            pause == (old(self).waiting() + 1 >= 64 || queue_is_empty),
            if pause {
                final(self)@ == old(self)@.flush(id_views(order@)) && final(self).waiting() == 0
            } else {
                final(self)@ == old(self)@ && final(self).waiting() == old(self).waiting() + 1
            },
    {
        let pause = self.batch.count(queue_is_empty);
        if pause {
            self.flush_dirty(order);
        }
        pause
    }
}

proof fn lemma_has_directory(entries: Seq<Entry>, n: int, k: int)
    requires
        0 <= k < n <= entries.len(),
        entries[k].is_dir,
    ensures
        directories(entries, n).len() > 0,
    decreases n,
{
    if k < n - 1 {
        lemma_has_directory(entries, n - 1, k);
    }
}

/// Whenever the window is redrawn, no shares are outstanding.
pub proof fn law_nothing_is_left_to_flush(window: OutlineWindowView, order: Seq<int>)
    ensures
        window.flush(order).dirty.len() == 0,
        forall|any: Seq<int>| #[trigger] window.flush(order).flush(any) == window.flush(order),
{
}

/// A size that comes in is not shown as a share before the shares are worked
/// out: until then it changes its own row only.
pub proof fn law_size_leaves_shares(
    outline: OutlineView,
    order: Seq<int>,
    parent: Option<int>,
    path: Seq<char>,
    size: u64,
    size_human: Seq<char>,
    i: int,
)
    requires
        0 <= i < outline.items.len(),
    ensures
        outline.sized(order, parent, path, size, size_human).items[i].percent
            == outline.items[i].percent,
        outline.child_at(order, parent, path) != Some(i) ==> outline.sized(
            order,
            parent,
            path,
            size,
            size_human,
        ).items[i] == outline.items[i],
{
    lemma_find(outline, order, path, Some(parent));
}

/// Where no two rows are under one path, the order in which the rows are shown
/// makes no difference to the shares that were put off.
pub proof fn law_flushing_needs_no_order(
    window: OutlineWindowView,
    order: Seq<int>,
    other: Seq<int>,
)
    requires
        !window.flush_needs_order(),
    ensures
        window.flush(order) == window.flush(other),
{
    lemma_flushed_alike(window, order, other, window.dirty.len() as int);
}

proof fn lemma_flushed_alike(
    window: OutlineWindowView,
    order: Seq<int>,
    other: Seq<int>,
    n: int,
)
    requires
        !window.flush_needs_order(),
        0 <= n <= window.dirty.len(),
    ensures
        window.outline.flushed(order, window.dirty, n) == window.outline.flushed(
            other,
            window.dirty,
            n,
        ),
    decreases n,
{
    if n > 0 {
        lemma_flushed_alike(window, order, other, n - 1);
        let before = window.outline.flushed(order, window.dirty, n - 1);
        law_flushing_changes_shares_only(window.outline, order, window.dirty, n - 1);
        if let Some(path) = window.dirty[n - 1] {
            let text = path_text(path);
            assert(!window.outline.has_several(text));
            law_order_decides_among_several_only(window.outline, order, other, text, None);
            assert(before.row_at(order, text) == window.outline.row_at(order, text));
            assert(before.row_at(other, text) == window.outline.row_at(other, text));
        }
    }
}

/// Where no two rows are under one path, the order in which the rows are shown
/// makes no difference to a message.
pub proof fn law_messages_need_no_order(
    window: OutlineWindowView,
    order: Seq<int>,
    other: Seq<int>,
    msg: WorkerMsg,
)
    requires
        !window.needs_order(msg),
    ensures
        window.after(order, msg) == window.after(other, msg),
{
    let parent = match msg {
        WorkerMsg::Enumerated { parent_path, entries: _ } => parent_path,
        WorkerMsg::Sized { path: _, parent_path, size: _ } => parent_path,
        WorkerMsg::EnumerateFailed { parent_path, message: _ } => parent_path,
    };
    if let Some(path) = parent {
        law_order_decides_among_several_only(
            window.outline,
            order,
            other,
            path_text(path),
            None,
        );
    }
    match msg {
        WorkerMsg::Enumerated { .. } => law_flushing_needs_no_order(window, order, other),
        WorkerMsg::Sized { path, .. } => {
            law_order_decides_among_several_only(
                window.outline,
                order,
                other,
                path_text(path),
                Some(window.lookup(order, parent)),
            );
        },
        _ => {},
    }
}

/// The directory whose shares are worked out first makes no difference: those
/// of one level do not touch those of another.
pub proof fn law_levels_are_worked_out_in_any_order(
    outline: OutlineView,
    p: Option<int>,
    q: Option<int>,
)
    ensures
        outline.with_shares(p).with_shares(q) == outline.with_shares(q).with_shares(p),
{
    let n = outline.items.len() as int;
    let a = outline.with_shares(p);
    let b = outline.with_shares(q);
    let ids_p = outline.children_of(p);
    let ids_q = outline.children_of(q);
    lemma_same_ids(outline, a, q, n);
    lemma_same_ids(outline, b, p, n);
    lemma_children(outline, p, n);
    lemma_children(outline, q, n);
    if p != q {
        lemma_apart(outline, p, q, n);
    }
    law_shares_do_not_sway_totals(outline.items, a.items, ids_q);
    law_shares_do_not_sway_totals(outline.items, b.items, ids_p);
    assert(a.with_shares(q).items =~= b.with_shares(p).items);
}

proof fn lemma_same_ids(a: OutlineView, b: OutlineView, parent: Option<int>, n: int)
    requires
        a.alive == b.alive,
        a.parents == b.parents,
    ensures
        b.children(parent, n) == a.children(parent, n),
    decreases n,
{
    if n > 0 {
        lemma_same_ids(a, b, parent, n - 1);
    }
}

proof fn lemma_apart(outline: OutlineView, p: Option<int>, q: Option<int>, n: int)
    requires
        p != q,
    ensures
        forall|i: int|
            #![trigger outline.children(p, n).contains(i)]
            #![trigger outline.children(q, n).contains(i)]
            !(outline.children(p, n).contains(i) && outline.children(q, n).contains(i)),
{
    assert forall|i: int| !(outline.children(p, n).contains(i) && outline.children(q, n).contains(i))
        by {
        lemma_parent_of_child(outline, p, n, i);
        lemma_parent_of_child(outline, q, n, i);
    }
}

proof fn lemma_parent_of_child(outline: OutlineView, parent: Option<int>, n: int, i: int)
    ensures
        outline.children(parent, n).contains(i) ==> outline.parents[i] == parent,
    decreases n,
{
    if n > 0 {
        lemma_parent_of_child(outline, parent, n - 1, i);
        let before = outline.children(parent, n - 1);
        let now = outline.children(parent, n);
        if now.contains(i) && !before.contains(i) {
            let k = now.index_of(i);
            if k < before.len() {
                assert(before[k] == i);
            }
        }
    }
}

/// A listing drives out the placeholder and nothing else: of the rows that
/// stood beneath the directory those with a path stay.
pub proof fn law_listing_replaces_placeholder(
    outline: OutlineView,
    parent: Option<int>,
    rows: Seq<ItemView>,
    i: int,
)
    requires
        outline.is_consistent(),
        match parent {
            Some(p) => 0 <= p < outline.items.len() && outline.alive[p],
            None => true,
        },
        0 <= i < outline.items.len(),
        outline.alive[i],
        outline.parents[i] == parent,
    ensures
        outline.enumerated(parent, rows).alive[i] <==> outline.items[i].path.len() > 0,
{
    let n = rows.len() as int;
    let filled = outline.inserted(parent, rows, n);
    lemma_inserted_keeps(outline, parent, rows, n, i);
    let roots = filled.placeholders(parent);
    if let Some(p) = parent {
        assert forall|j: int| 0 <= j <= p implies !#[trigger] roots[j] by {
            lemma_inserted_keeps(outline, parent, rows, n, j);
        }
        lemma_nothing_cut(filled.parents, roots, p);
    }
}

/// Where a directory cannot be listed the message is all that is left beneath
/// its row.
pub proof fn law_failure_leaves_the_message(outline: OutlineView, p: int, message: Seq<char>)
    requires
        outline.is_consistent(),
        0 <= p < outline.items.len(),
        outline.alive[p],
    ensures
        outline.failed(Some(p), message).children_of(Some(p)) == seq![outline.items.len() as int],
        outline.failed(Some(p), message).items.last() == error_item(
            message,
            outline.items[p].depth + 1,
        ),
{
    let after = outline.failed(Some(p), message);
    lemma_no_children(after, Some(p), outline.items.len() as int);
    assert(after.alive[outline.items.len() as int]);
    assert(after.children_of(Some(p)) =~= Seq::empty().push(outline.items.len() as int));
}

/// The children of a row are asked for once: expanding it again asks nothing.
pub proof fn law_children_are_loaded_once(outline: OutlineView, i: int)
    requires
        0 <= i < outline.items.len(),
    ensures
        outline.expanded(i).items[i].loaded,
        outline.expanded(i).expanded(i) == outline.expanded(i),
{
    assert(outline.expanded(i).expanded(i).items =~= outline.expanded(i).items);
}

/// However many sizes come in beneath a directory, its shares are worked out
/// once.
pub proof fn law_marking_twice_is_marking_once(
    dirty: Seq<Option<PathBuf>>,
    parent: Option<PathBuf>,
)
    requires
        same_directory(parent, parent),
    ensures
        holds(marked(dirty, parent), parent),
        marked(marked(dirty, parent), parent) == marked(dirty, parent),
{
    if !holds(dirty, parent) {
        assert(same_directory(dirty.push(parent)[dirty.len() as int], parent));
    }
}

/// The counters of the status bar only ever grow, by the directories of a
/// listing and by one for each size that comes in.
pub proof fn law_counters_only_grow(
    window: OutlineWindowView,
    order: Seq<int>,
    msg: WorkerMsg,
)
    requires
        window.after(order, msg) is Some,
    ensures
        window.after(order, msg)->0.status.queued >= window.status.queued,
        window.after(order, msg)->0.status.sized == window.status.sized + if msg is Sized {
            1int
        } else {
            0int
        },
        !(msg is Enumerated) ==> window.after(order, msg)->0.status.queued == window.status.queued,
{
}

} // verus!
