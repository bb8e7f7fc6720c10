//! What the windows show: the rows of a tree, and the messages by which worker
//! threads fill it.
use std::path::PathBuf;

use vstd::prelude::*;

use crate::color::{palette_index, PALETTE_LEN};
use crate::model::Entry;
use crate::outside::{display_path, format_size};
#[allow(unused_imports)]
use crate::outside::{human_size, path_text};
use crate::text::to_decimal;
#[allow(unused_imports)]
use crate::text::decimal;

verus! {

/// One row of the tree.
#[derive(Debug)]
pub struct EntryItem {
    /// Display name, with a slash behind it for a directory.
    pub name: String,
    /// The size for reading. While a directory is still being sized this is
    /// the pending label.
    pub size_human: String,
    /// The size in bytes, by which rows are sorted.
    pub size_bytes: u64,
    /// The share of the level's total, 0 to 100.
    pub percent: i32,
    /// The text of the path. Empty for rows that stand for no file.
    pub path: String,
    /// Whether the row can be expanded.
    pub is_dir: bool,
    /// Whether the children have been asked for.
    pub loaded: bool,
    /// Whether the size is final.
    pub sized: bool,
    /// 0 for top-level rows, +1 per nesting level.
    pub depth: i32,
}

/// A row with its texts as character sequences.
pub struct ItemView {
    /// See [`EntryItem::name`].
    pub name: Seq<char>,
    /// See [`EntryItem::size_human`].
    pub size_human: Seq<char>,
    /// See [`EntryItem::size_bytes`].
    pub size_bytes: nat,
    /// See [`EntryItem::percent`].
    pub percent: int,
    /// See [`EntryItem::path`].
    pub path: Seq<char>,
    /// See [`EntryItem::is_dir`].
    pub is_dir: bool,
    /// See [`EntryItem::loaded`].
    pub loaded: bool,
    /// See [`EntryItem::sized`].
    pub sized: bool,
    /// See [`EntryItem::depth`].
    pub depth: int,
}

impl View for EntryItem {
    type V = ItemView;

    open spec fn view(&self) -> ItemView {
        ItemView {
            name: self.name@,
            size_human: self.size_human@,
            size_bytes: self.size_bytes as nat,
            percent: self.percent as int,
            path: self.path@,
            is_dir: self.is_dir,
            loaded: self.loaded,
            sized: self.sized,
            depth: self.depth as int,
        }
    }
}

/// The row for an entry that has just been listed, given the texts of its path
/// and of its size. A file has its size already; a directory waits for it. A
/// file has no children that could be asked for.
pub open spec fn listed_item(
    entry: Entry,
    depth: int,
    path: Seq<char>,
    size: Seq<char>,
) -> ItemView {
    ItemView {
        name: if entry.is_dir {
            entry.name@ + "/"@
        } else {
            entry.name@
        },
        size_human: if entry.is_dir {
            "…"@
        } else {
            size
        },
        size_bytes: entry.size_in_bytes as nat,
        percent: 0,
        path,
        is_dir: entry.is_dir,
        loaded: !entry.is_dir,
        sized: !entry.is_dir,
        depth,
    }
}

/// The row for an entry that has just been listed.
pub open spec fn item_for_entry(entry: Entry, depth: int) -> ItemView {
    listed_item(entry, depth, path_text(entry.path), human_size(entry.size_in_bytes, true))
}

/// A row that stands for no file.
pub open spec fn plain_item(name: Seq<char>, depth: int) -> ItemView {
    ItemView {
        name,
        size_human: ""@,
        size_bytes: 0,
        percent: 0,
        path: ""@,
        is_dir: false,
        loaded: true,
        sized: true,
        depth,
    }
}

/// The row that says why a directory could not be listed.
pub open spec fn error_item(message: Seq<char>, depth: int) -> ItemView {
    plain_item("(error: "@ + message + ")"@, depth)
}

/// The row that stands for children that have not been asked for.
pub open spec fn placeholder_item(depth: int) -> ItemView {
    plain_item("(loading…)"@, depth)
}

impl EntryItem {
    /// The row for an entry that has just been listed, given the texts of its
    /// path and of its size.
    pub fn from_parts(entry: &Entry, depth: i32, path: String, size: String) -> (item: EntryItem)
        ensures
            item@ == listed_item(*entry, depth as int, path@, size@),
    {
        let mut name = entry.name.clone();
        if entry.is_dir {
            name.append("/");
        }
        let size_human = if entry.is_dir {
            "…".to_string()
        } else {
            size
        };
        EntryItem {
            name,
            size_human,
            size_bytes: entry.size_in_bytes,
            percent: 0,
            path,
            is_dir: entry.is_dir,
            loaded: !entry.is_dir,
            sized: !entry.is_dir,
            depth,
        }
    }

    /// The row for an entry that has just been listed.
    pub fn from_entry(entry: &Entry, depth: i32) -> (item: EntryItem)
        ensures
            item@ == item_for_entry(*entry, depth as int),
    {
        EntryItem::from_parts(
            entry,
            depth,
            display_path(&entry.path),
            format_size(entry.size_in_bytes, true),
        )
    }

    fn plain(name: String, depth: i32) -> (item: EntryItem)
        ensures
            item@ == plain_item(name@, depth as int),
    {
        EntryItem {
            name,
            size_human: "".to_string(),
            size_bytes: 0,
            percent: 0,
            path: "".to_string(),
            is_dir: false,
            loaded: true,
            sized: true,
            depth,
        }
    }

    /// The row that says why a directory could not be listed. Its path is
    /// empty, so that it is never taken for an entry.
    pub fn error_row(message: &str, depth: i32) -> (item: EntryItem)
        ensures
            item@ == error_item(message@, depth as int),
    {
        let mut name = "(error: ".to_string();
        name.append(message);
        name.append(")");
        EntryItem::plain(name, depth)
    }

    /// The row that stands for children that have not been asked for.
    pub fn placeholder_row(depth: i32) -> (item: EntryItem)
        ensures
            item@ == placeholder_item(depth as int),
    {
        EntryItem::plain("(loading…)".to_string(), depth)
    }
}

/// The rows as character sequences.
pub open spec fn item_views(items: Seq<EntryItem>) -> Seq<ItemView> {
    items.map_values(|item: EntryItem| item@)
}

// ---------------------------------------------------------------------------
// Shares
// ---------------------------------------------------------------------------

/// The sizes of the first `n` of the given rows together. Rows that stand for
/// no file do not count.
pub open spec fn shown_sum(items: Seq<ItemView>, ids: Seq<int>, n: int) -> nat
    decreases n,
{
    if n <= 0 {
        0
    } else {
        let item = items[ids[n - 1]];
        shown_sum(items, ids, n - 1) + if item.path.len() > 0 {
            item.size_bytes
        } else {
            0
        }
    }
}

/// The total of a level: the sum, as far as it can be represented.
pub open spec fn level_total(items: Seq<ItemView>, ids: Seq<int>) -> nat {
    let sum = shown_sum(items, ids, ids.len() as int);
    if sum < u64::MAX {
        sum
    } else {
        u64::MAX as nat
    }
}

/// The share of a size in a total, in whole percent, rounded down.
pub open spec fn percent_of(size: nat, total: nat) -> int {
    if total == 0 {
        0
    } else {
        (size * 100) as int / total as int
    }
}

/// The rows after the shares of some of them in the given total have been worked
/// out. Nothing else changes, and rows that stand for no file keep their share.
pub open spec fn shared_so_far(items: Seq<ItemView>, ids: Seq<int>, total: nat) -> Seq<ItemView> {
    Seq::new(
        items.len(),
        |i: int|
            if ids.contains(i) && items[i].path.len() > 0 {
                ItemView { percent: percent_of(items[i].size_bytes, total), ..items[i] }
            } else {
                items[i]
            },
    )
}

/// The rows after the shares of a level have been worked out anew.
pub open spec fn recomputed(items: Seq<ItemView>, ids: Seq<int>) -> Seq<ItemView> {
    shared_so_far(items, ids, level_total(items, ids))
}

/// Row numbers as integers.
pub open spec fn id_views(ids: Seq<usize>) -> Seq<int> {
    ids.map_values(|id: usize| id as int)
}

/// All numbers are those of rows.
pub open spec fn ids_in_range(ids: Seq<int>, len: nat) -> bool {
    forall|k: int| 0 <= k < ids.len() ==> 0 <= #[trigger] ids[k] < len
}

proof fn lemma_shown_member(items: Seq<ItemView>, ids: Seq<int>, n: int, k: int)
    requires
        0 <= k < n <= ids.len(),
        items[ids[k]].path.len() > 0,
    ensures
        items[ids[k]].size_bytes <= shown_sum(items, ids, n),
    decreases n,
{
    if k < n - 1 {
        lemma_shown_member(items, ids, n - 1, k);
    }
}

/// The share of a part in its whole is between 0 and 100 percent.
pub proof fn law_percent_in_range(size: nat, total: nat)
    requires
        size <= total,
    ensures
        0 <= percent_of(size, total) <= 100,
{
    if total > 0 {
        assert(0 <= (size * 100) as int / total as int <= 100) by (nonlinear_arith)
            requires
                0 <= size <= total,
                total > 0,
        ;
    }
}

fn share(size: u64, total: u64) -> (percent: i32)
    requires
        size <= total,
    ensures
        percent as int == percent_of(size as nat, total as nat),
        total > 0 ==> percent * total <= 100 * size < (percent + 1) * total,
{
    proof {
        law_percent_in_range(size as nat, total as nat);
        law_shares_are_rounded_down(size as nat, total as nat);
    }
    if total == 0 {
        0
    } else {
        ((size as u128 * 100) / total as u128) as i32
    }
}

fn total_of(items: &Vec<EntryItem>, ids: &Vec<usize>) -> (total: u64)
    requires
        ids_in_range(id_views(ids@), items@.len()),
    ensures
        total as nat == level_total(item_views(items@), id_views(ids@)),
{
    let ghost views = item_views(items@);
    let ghost numbers = id_views(ids@);
    let mut total: u64 = 0;
    let mut k: usize = 0;
    while k < ids.len()
        invariant
            k <= ids.len(),
            ids_in_range(numbers, items@.len()),
            views == item_views(items@),
            numbers == id_views(ids@),
            shown_sum(views, numbers, k as int) < u64::MAX ==> total as nat == shown_sum(
                views,
                numbers,
                k as int,
            ),
            shown_sum(views, numbers, k as int) >= u64::MAX ==> total == u64::MAX,
        decreases ids.len() - k,
    {
        assert(numbers[k as int] == ids@[k as int]);
        let item = &items[ids[k]];
        if !item.path.as_str().is_empty() {
            total = total.saturating_add(item.size_bytes);
        }
        k += 1;
    }
    total
}

/// Works out the shares of a level anew: each row's share of the sum of the
/// level's sizes.
pub fn recompute_percentages(items: &mut Vec<EntryItem>, ids: &Vec<usize>)
    requires
        ids_in_range(id_views(ids@), old(items)@.len()),
    ensures
        item_views(final(items)@) == recomputed(item_views(old(items)@), id_views(ids@)),
{
    let ghost before = item_views(items@);
    let ghost numbers = id_views(ids@);
    let total: u64 = total_of(items, ids);
    let mut k: usize = 0;
    assert(item_views(items@) =~= shared_so_far(before, numbers.take(0), total as nat));
    while k < ids.len()
        invariant
            k <= ids.len(),
            ids_in_range(numbers, before.len()),
            numbers == id_views(ids@),
            total as nat == level_total(before, numbers),
            items@.len() == before.len(),
            item_views(items@) == shared_so_far(before, numbers.take(k as int), total as nat),
        decreases ids.len() - k,
    {
        let ghost here = item_views(items@);
        assert(numbers[k as int] == ids@[k as int]);
        let id: usize = ids[k];
        assert(here[id as int] == items@[id as int]@);
        assert(here[id as int].path == before[id as int].path);
        assert(here[id as int].size_bytes == before[id as int].size_bytes);
        if !items[id].path.as_str().is_empty() {
            proof {
                lemma_shown_member(before, numbers, numbers.len() as int, k as int);
            }
            let percent: i32 = share(items[id].size_bytes, total);
            items[id].percent = percent;
            assert(item_views(items@) =~= here.update(
                id as int,
                ItemView { percent: percent as int, ..here[id as int] },
            ));
        }
        proof {
            let shorter = numbers.take(k as int);
            let longer = numbers.take(k + 1);
            assert(longer =~= shorter.push(id as int));
            assert forall|i: int| longer.contains(i) <==> (shorter.contains(i) || i == id) by {
                if shorter.contains(i) {
                    let w = shorter.index_of(i);
                    assert(longer[w] == i);
                }
                if i == id {
                    assert(longer[k as int] == i);
                }
                if longer.contains(i) && i != id {
                    let w = longer.index_of(i);
                    assert(shorter[w] == i);
                }
            }
        }
        k += 1;
        assert(item_views(items@) =~= shared_so_far(before, numbers.take(k as int), total as nat));
    }
    assert(numbers.take(k as int) =~= numbers);
    assert(item_views(items@) =~= recomputed(before, numbers));
}

/// The shares of the first `n` of the given rows together.
pub open spec fn percent_sum(items: Seq<ItemView>, ids: Seq<int>, n: int, total: nat) -> int
    decreases n,
{
    if n <= 0 {
        0
    } else {
        let item = items[ids[n - 1]];
        percent_sum(items, ids, n - 1, total) + if item.path.len() > 0 {
            percent_of(item.size_bytes, total)
        } else {
            0
        }
    }
}

proof fn lemma_percent_sum(items: Seq<ItemView>, ids: Seq<int>, n: int, total: nat)
    requires
        0 <= n <= ids.len(),
        total > 0,
    ensures
        0 <= percent_sum(items, ids, n, total),
        percent_sum(items, ids, n, total) * total <= 100 * shown_sum(items, ids, n),
    decreases n,
{
    if n > 0 {
        lemma_percent_sum(items, ids, n - 1, total);
        let item = items[ids[n - 1]];
        let before = percent_sum(items, ids, n - 1, total);
        if item.path.len() > 0 {
            let size = item.size_bytes;
            let here = percent_of(size, total);
            assert(0 <= here && here * total <= size * 100) by (nonlinear_arith)
                requires
                    here == (size * 100) as int / total as int,
                    size >= 0,
                    total > 0,
            ;
            assert((before + here) * total == before * total + here * total) by (nonlinear_arith);
        }
    }
}

/// The shares of a level never add up to more than the whole, as long as the
/// level's total can be represented.
pub proof fn law_shares_fit_the_whole(items: Seq<ItemView>, ids: Seq<int>)
    requires
        shown_sum(items, ids, ids.len() as int) <= u64::MAX,
    ensures
        0 <= percent_sum(items, ids, ids.len() as int, level_total(items, ids)) <= 100,
{
    let total = level_total(items, ids);
    let n = ids.len() as int;
    if total > 0 {
        lemma_percent_sum(items, ids, n, total);
        let sum = percent_sum(items, ids, n, total);
        assert(sum <= 100) by (nonlinear_arith)
            requires
                sum * total <= 100 * total,
                total > 0,
        ;
    } else {
        lemma_no_shares(items, ids, n);
    }
}

proof fn lemma_no_shares(items: Seq<ItemView>, ids: Seq<int>, n: int)
    ensures
        percent_sum(items, ids, n, 0) == 0,
    decreases n,
{
    if n > 0 {
        lemma_no_shares(items, ids, n - 1);
    }
}

proof fn lemma_same_sum(items: Seq<ItemView>, other: Seq<ItemView>, ids: Seq<int>, n: int)
    requires
        0 <= n <= ids.len(),
        ids_in_range(ids, items.len()),
        items.len() == other.len(),
        forall|i: int|
            0 <= i < items.len() ==> (#[trigger] items[i]).path == other[i].path
                && items[i].size_bytes == other[i].size_bytes,
    ensures
        shown_sum(items, ids, n) == shown_sum(other, ids, n),
    decreases n,
{
    if n > 0 {
        lemma_same_sum(items, other, ids, n - 1);
        assert(0 <= ids[n - 1] < items.len());
        assert(items[ids[n - 1]].path == other[ids[n - 1]].path);
    }
}

/// The total of a level rests on the sizes there, not on the shares.
pub proof fn law_shares_do_not_sway_totals(
    items: Seq<ItemView>,
    other: Seq<ItemView>,
    ids: Seq<int>,
)
    requires
        ids_in_range(ids, items.len()),
        items.len() == other.len(),
        forall|i: int|
            0 <= i < items.len() ==> (#[trigger] items[i]).path == other[i].path
                && items[i].size_bytes == other[i].size_bytes,
    ensures
        level_total(items, ids) == level_total(other, ids),
{
    lemma_same_sum(items, other, ids, ids.len() as int);
}

/// Working out the shares a second time changes nothing: it can be put off and
/// done once for many changes.
pub proof fn law_recomputing_is_idempotent(items: Seq<ItemView>, ids: Seq<int>)
    requires
        ids_in_range(ids, items.len()),
    ensures
        recomputed(recomputed(items, ids), ids) == recomputed(items, ids),
{
    let once = recomputed(items, ids);
    lemma_same_sum(items, once, ids, ids.len() as int);
    assert(recomputed(once, ids) =~= once);
}

/// Working out the shares can wait: shares of an earlier time do not show in
/// the result, whatever has changed since.
pub proof fn law_shares_can_wait(items: Seq<ItemView>, other: Seq<ItemView>, ids: Seq<int>)
    requires
        ids_in_range(ids, items.len()),
        items.len() == other.len(),
        forall|i: int|
            0 <= i < items.len() ==> (#[trigger] other[i]) == (ItemView {
                percent: other[i].percent,
                ..items[i]
            }),
        forall|i: int|
            0 <= i < items.len() && !(ids.contains(i) && items[i].path.len() > 0) ==> (
            #[trigger] other[i]) == items[i],
    ensures
        recomputed(other, ids) == recomputed(items, ids),
{
    assert forall|i: int| 0 <= i < items.len() implies (#[trigger] items[i]).path == other[i].path
        && items[i].size_bytes == other[i].size_bytes by {
        assert(other[i] == (ItemView { percent: other[i].percent, ..items[i] }));
    }
    lemma_same_sum(items, other, ids, ids.len() as int);
    assert(recomputed(other, ids) =~= recomputed(items, ids));
}

/// The shares that are worked out for a level are between 0 and 100 percent.
pub proof fn law_recomputed_in_range(items: Seq<ItemView>, ids: Seq<int>, k: int)
    requires
        0 <= k < ids.len(),
        ids_in_range(ids, items.len()),
        items[ids[k]].path.len() > 0,
        items[ids[k]].size_bytes <= u64::MAX,
    ensures
        0 <= recomputed(items, ids)[ids[k]].percent <= 100,
{
    lemma_shown_member(items, ids, ids.len() as int, k);
    assert(ids.contains(ids[k]));
    law_percent_in_range(items[ids[k]].size_bytes, level_total(items, ids));
}

// ---------------------------------------------------------------------------
// The bar of a row
// ---------------------------------------------------------------------------

/// The bar that shows a row's share in the color of its level.
#[derive(Debug, Clone, Copy)]
pub struct DepthBar {
    /// The share to show.
    pub percent: i32,
    /// The depth of the row.
    pub depth: i32,
}

/// A share as it is drawn: what lies outside 0 to 100 is drawn as the nearer
/// of the two.
pub open spec fn drawn_percent(percent: int) -> int {
    if percent < 0 {
        0
    } else if percent > 100 {
        100
    } else {
        percent
    }
}

impl DepthBar {
    /// The share as it is drawn.
    pub fn shown_percent(&self) -> (percent: i32)
        ensures
            percent as int == drawn_percent(self.percent as int),
    {
        if self.percent < 0 {
            0
        } else if self.percent > 100 {
            100
        } else {
            self.percent
        }
    }

    /// The text on the bar.
    pub fn label(&self) -> (text: String)
        ensures
            text@ == decimal(drawn_percent(self.percent as int) as nat) + "%"@,
    {
        let mut text = to_decimal(self.shown_percent() as u64);
        text.append("%");
        text
    }

    /// The place of the bar's color in the palette.
    pub fn color(&self) -> (place: usize)
        ensures
            place as int == if self.depth <= 0 {
                0
            } else {
                self.depth as int % PALETTE_LEN as int
            },
            place < PALETTE_LEN,
    {
        palette_index(self.depth)
    }
}

// ---------------------------------------------------------------------------
// Messages
// ---------------------------------------------------------------------------

/// Message of a worker thread to the window.
///
/// Messages carry paths: a row may be replaced between the moment a worker is
/// started and the moment it reports back.
#[derive(Debug)]
pub enum WorkerMsg {
    /// The immediate children of a directory have been listed.
    Enumerated {
        /// The directory; `None` for the root of the window.
        parent_path: Option<PathBuf>,
        /// Its children.
        entries: Vec<Entry>,
    },
    /// The recursive size of a directory has been found.
    Sized {
        /// The directory.
        path: PathBuf,
        /// The directory in which it lies; `None` for the root of the window.
        parent_path: Option<PathBuf>,
        /// The size.
        size: u64,
    },
    /// A directory could not be listed.
    EnumerateFailed {
        /// The directory; `None` for the root of the window.
        parent_path: Option<PathBuf>,
        /// Why.
        message: String,
    },
}

/// The directories among the first `n` entries, in their order.
pub open spec fn directories(entries: Seq<Entry>, n: int) -> Seq<PathBuf>
    decreases n,
{
    if n <= 0 {
        Seq::empty()
    } else if entries[n - 1].is_dir {
        directories(entries, n - 1).push(entries[n - 1].path)
    } else {
        directories(entries, n - 1)
    }
}

/// What a worker does once it has listed a directory, or failed to: the
/// message that it sends at once, and the directories that it sizes then, one
/// after the other.
pub fn request_populate(
    parent_path: Option<PathBuf>,
    listing: Result<Vec<Entry>, String>,
) -> (plan: (WorkerMsg, Vec<PathBuf>))
    ensures
        match listing {
            Ok(entries) => {
                &&& plan.0 == (WorkerMsg::Enumerated { parent_path, entries })
                &&& plan.1@ == directories(entries@, entries@.len() as int)
            },
            Err(message) => {
                &&& plan.0 == (WorkerMsg::EnumerateFailed { parent_path, message })
                &&& plan.1@.len() == 0
            },
        },
{
    match listing {
        Ok(entries) => {
            let mut dirs: Vec<PathBuf> = Vec::new();
            let mut i: usize = 0;
            while i < entries.len()
                invariant
                    i <= entries.len(),
                    dirs@ == directories(entries@, i as int),
                decreases entries.len() - i,
            {
                if entries[i].is_dir {
                    dirs.push(entries[i].path.clone());
                }
                i += 1;
            }
            (WorkerMsg::Enumerated { parent_path, entries }, dirs)
        },
        Err(message) => (WorkerMsg::EnumerateFailed { parent_path, message }, Vec::new()),
    }
}

/// The message that a worker sends once it has sized a directory, for the
/// listing that it made beneath `parent_path`.
pub fn sized_message(parent_path: &Option<PathBuf>, path: PathBuf, size: u64) -> (msg: WorkerMsg)
    ensures
        msg == (WorkerMsg::Sized { path, parent_path: *parent_path, size }),
{
    let parent_path = match parent_path {
        Some(parent) => Some(parent.clone()),
        None => None,
    };
    WorkerMsg::Sized { path, parent_path, size }
}

/// How many of the entries are directories.
pub fn count_dirs(entries: &Vec<Entry>) -> (n: usize)
    ensures
        n as nat == directories(entries@, entries@.len() as int).len(),
{
    let mut n: usize = 0;
    let mut i: usize = 0;
    while i < entries.len()
        invariant
            i <= entries.len(),
            n <= i,
            n as nat == directories(entries@, i as int).len(),
        decreases entries.len() - i,
    {
        if entries[i].is_dir {
            n += 1;
        }
        i += 1;
    }
    n
}

/// After how many messages in a row the window gets to redraw.
pub const YIELD_EVERY: usize = 64;

/// Counts messages between two pauses.
#[derive(Debug, Clone, Copy)]
pub struct Batch {
    since_yield: usize,
}

impl View for Batch {
    type V = nat;

    closed spec fn view(&self) -> nat {
        self.since_yield as nat
    }
}

impl Batch {
    #[verifier::type_invariant]
    spec fn consistent(self) -> bool {
        self.since_yield < YIELD_EVERY
    }

    /// No message has been handled yet.
    pub fn new() -> (batch: Batch)
        ensures
            batch@ == 0,
    {
        Batch { since_yield: 0 }
    }

    /// Counts one message that has been handled, and says whether the window
    /// has to redraw now: after a full batch, so that a burst of messages does
    /// not freeze it, and whenever no message is left.
    pub fn count(&mut self, queue_is_empty: bool) -> (pause: bool)
        ensures
            pause == (old(self)@ + 1 >= YIELD_EVERY || queue_is_empty),
            pause == (old(self)@ + 1 >= 64 || queue_is_empty),
            final(self)@ == if pause {
                0
            } else {
                old(self)@ + 1
            },
            final(self)@ < YIELD_EVERY,
    {
        proof {
            use_type_invariant(&*self);
        }
        let since: usize = self.since_yield + 1;
        if since >= YIELD_EVERY || queue_is_empty {
            self.since_yield = 0;
            true
        } else {
            self.since_yield = since;
            false
        }
    }
}

// ---------------------------------------------------------------------------
// What the rows show
// ---------------------------------------------------------------------------

/// A share is the whole percent, rounded down: so many hundredths of the total
/// fit into the size, and not one more. Of nothing there is no share.
pub proof fn law_shares_are_rounded_down(size: nat, total: nat)
    ensures
        total > 0 ==> percent_of(size, total) * total <= 100 * size < (percent_of(size, total) + 1)
            * total,
        total == 0 ==> percent_of(size, total) == 0,
{
    if total > 0 {
        let scaled = (size * 100) as int;
        let t = total as int;
        let p = scaled / t;
        assert(p * t <= scaled < (p + 1) * t) by (nonlinear_arith)
            requires
                t > 0,
                p == scaled / t,
        ;
    }
}

/// The total of a level without rows is nothing, and each row that joins the
/// level adds its size, up to the largest number that can be represented. A
/// row that stands for no file adds nothing.
pub proof fn law_each_row_adds_its_size(items: Seq<ItemView>, ids: Seq<int>, i: int)
    ensures
        level_total(items, Seq::empty()) == 0,
        ({
            let sum = level_total(items, ids) + if items[i].path.len() > 0 {
                items[i].size_bytes
            } else {
                0
            };
            level_total(items, ids.push(i)) == if sum <= u64::MAX {
                sum
            } else {
                u64::MAX as nat
            }
        }),
{
    lemma_same_ids_same_sum(items, ids, ids.push(i), ids.len() as int);
    assert(ids.push(i)[ids.len() as int] == i);
}

proof fn lemma_same_ids_same_sum(items: Seq<ItemView>, a: Seq<int>, b: Seq<int>, n: int)
    requires
        n <= a.len(),
        n <= b.len(),
        forall|k: int| 0 <= k < n ==> a[k] == b[k],
    ensures
        shown_sum(items, a, n) == shown_sum(items, b, n),
    decreases n,
{
    if n > 0 {
        lemma_same_ids_same_sum(items, a, b, n - 1);
    }
}

/// Once the shares of a level have been worked out, each of its rows that
/// stands for a file shows the whole percent of its size in the level's total,
/// rounded down. Nothing else about the row changes, and no other row does.
pub proof fn law_recomputed_shares_are_rounded_down(items: Seq<ItemView>, ids: Seq<int>, i: int)
    requires
        0 <= i < items.len(),
    ensures
        ({
            let total = level_total(items, ids);
            let after = recomputed(items, ids);
            &&& after.len() == items.len()
            &&& after[i].name == items[i].name
            &&& after[i].size_human == items[i].size_human
            &&& after[i].size_bytes == items[i].size_bytes
            &&& after[i].path == items[i].path
            &&& after[i].is_dir == items[i].is_dir
            &&& after[i].loaded == items[i].loaded
            &&& after[i].sized == items[i].sized
            &&& after[i].depth == items[i].depth
            &&& !ids.contains(i) || items[i].path.len() == 0 ==> after[i].percent
                == items[i].percent
            &&& ids.contains(i) && items[i].path.len() > 0 && total > 0 ==> after[i].percent * total
                <= 100 * items[i].size_bytes < (after[i].percent + 1) * total
            &&& ids.contains(i) && items[i].path.len() > 0 && total == 0 ==> after[i].percent == 0
        }),
{
    law_shares_are_rounded_down(items[i].size_bytes, level_total(items, ids));
}

/// The row of a listed entry shows the entry: its name, a directory's with a
/// slash behind it, the text of its path, its size and its kind, at the depth
/// where it was listed. A file shows its size for reading and has nothing left
/// to ask for; a directory is neither sized nor loaded yet.
pub proof fn law_rows_show_their_entries(entry: Entry, depth: int)
    ensures
        ({
            let row = item_for_entry(entry, depth);
            &&& row.path == path_text(entry.path)
            &&& row.size_bytes == entry.size_in_bytes
            &&& row.is_dir == entry.is_dir
            &&& row.depth == depth
            &&& row.percent == 0
            &&& entry.is_dir ==> row.name.len() == entry.name@.len() + 1
            &&& entry.is_dir ==> row.name.last() == '/'
            &&& entry.is_dir ==> row.name.drop_last() == entry.name@
            &&& entry.is_dir ==> row.size_human == seq!['…']
            &&& entry.is_dir ==> !row.loaded && !row.sized
            &&& !entry.is_dir ==> row.name == entry.name@
            &&& !entry.is_dir ==> row.size_human == human_size(entry.size_in_bytes, true)
            &&& !entry.is_dir ==> row.loaded && row.sized
        }),
{
    reveal_strlit("/");
    reveal_strlit("…");
    let row = item_for_entry(entry, depth);
    assert(entry.is_dir ==> row.name =~= entry.name@.push('/'));
    assert(entry.is_dir ==> row.name.drop_last() =~= entry.name@);
    assert(entry.is_dir ==> row.size_human =~= seq!['…']);
}

/// A row that stands for no file has no path, no size and no children, and
/// holds its text: the message of a failure in full, at the depth asked for.
pub proof fn law_plain_rows_stand_for_no_file(message: Seq<char>, depth: int)
    ensures
        ({
            let error = error_item(message, depth);
            let waiting = placeholder_item(depth);
            &&& error.path.len() == 0 && waiting.path.len() == 0
            &&& error.size_bytes == 0 && waiting.size_bytes == 0
            &&& error.size_human.len() == 0 && waiting.size_human.len() == 0
            &&& !error.is_dir && !waiting.is_dir
            &&& error.loaded && waiting.loaded
            &&& error.sized && waiting.sized
            &&& error.percent == 0 && waiting.percent == 0
            &&& error.depth == depth && waiting.depth == depth
            &&& error.name.len() == message.len() + 9
            &&& error.name.subrange(8, message.len() + 8int) == message
        }),
{
    reveal_strlit("");
    reveal_strlit("(error: ");
    reveal_strlit(")");
    let error = error_item(message, depth);
    assert(error.name.subrange(8, message.len() + 8int) =~= message);
}

/// The directories of a listing are all of its entries that are directories,
/// in their order and each once, and no others.
pub proof fn law_every_directory_is_handed_out(entries: Seq<Entry>)
    ensures
        directories(entries, entries.len() as int) == entries.filter(
            |entry: Entry| entry.is_dir,
        ).map_values(|entry: Entry| entry.path),
    decreases entries.len(),
{
    reveal(Seq::filter);
    let dirs = |entry: Entry| entry.is_dir;
    let paths = |entry: Entry| entry.path;
    if entries.len() == 0 {
        assert(entries.filter(dirs).map_values(paths) =~= Seq::empty());
    } else {
        let before = entries.drop_last();
        law_every_directory_is_handed_out(before);
        lemma_directories_before(entries, before, before.len() as int);
        if entries.last().is_dir {
            assert(entries.filter(dirs) =~= before.filter(dirs).push(entries.last()));
            assert(entries.filter(dirs).map_values(paths) =~= before.filter(dirs).map_values(
                paths,
            ).push(entries.last().path));
        }
    }
}

proof fn lemma_directories_before(a: Seq<Entry>, b: Seq<Entry>, n: int)
    requires
        n <= a.len(),
        n <= b.len(),
        forall|k: int| 0 <= k < n ==> a[k] == b[k],
    ensures
        directories(a, n) == directories(b, n),
    decreases n,
{
    if n > 0 {
        lemma_directories_before(a, b, n - 1);
    }
}

/// A bar draws a share as it is, and what lies outside of 0 to 100 percent as
/// the nearer end.
pub proof fn law_bars_stay_within_their_ends(percent: int)
    ensures
        0 <= drawn_percent(percent) <= 100,
        0 <= percent <= 100 ==> drawn_percent(percent) == percent,
        percent < 0 ==> drawn_percent(percent) == 0,
        percent > 100 ==> drawn_percent(percent) == 100,
{
}

/// Rows are seen as they are, one for one and with all that they hold, and so
/// are their numbers.
pub proof fn law_rows_are_seen_whole(items: Seq<EntryItem>, ids: Seq<usize>)
    ensures
        item_views(items).len() == items.len(),
        forall|i: int|
            0 <= i < items.len() ==> {
                let view = #[trigger] item_views(items)[i];
                &&& view.name == items[i].name@
                &&& view.size_human == items[i].size_human@
                &&& view.size_bytes == items[i].size_bytes
                &&& view.percent == items[i].percent
                &&& view.path == items[i].path@
                &&& view.is_dir == items[i].is_dir
                &&& view.loaded == items[i].loaded
                &&& view.sized == items[i].sized
                &&& view.depth == items[i].depth
            },
        id_views(ids).len() == ids.len(),
        forall|k: int| 0 <= k < ids.len() ==> #[trigger] id_views(ids)[k] == ids[k],
{
}

} // verus!
