//! What stands where in the column view.
//!
//! The laws here say what each change to the levels leaves behind, row by row:
//! a listing its entries, a size its row, a failure its message.
#[allow(unused_imports)]
use std::path::PathBuf;

use vstd::prelude::*;

#[allow(unused_imports)]
use crate::beneath::{directory_count, same_but_share, shows_entry};
#[allow(unused_imports)]
use crate::model::Entry;
#[allow(unused_imports)]
use crate::models::{
    keys_for, last_key, law_listing_fills_its_level, rows_for, ModelsView, WindowView,
};
#[allow(unused_imports)]
use crate::outside::{human_size, same_path};
#[allow(unused_imports)]
use crate::window::{
    item_for_entry, law_every_directory_is_handed_out, law_plain_rows_stand_for_no_file,
    law_recomputed_shares_are_rounded_down, law_rows_show_their_entries,
    law_shares_do_not_sway_totals, level_total, ItemView, WorkerMsg,
};

verus! {

// ---------------------------------------------------------------------------
// Finding rows and levels
// ---------------------------------------------------------------------------

/// Something is kept under this path.
pub open spec fn is_key(key: Option<PathBuf>, path: PathBuf) -> bool {
    key is Some && same_path(key->0, path)
}

/// Of all that is kept under a path the last one is found, and nothing is found
/// only where nothing is kept there.
pub proof fn law_the_last_one_is_found(keys: Seq<Option<PathBuf>>, path: PathBuf)
    ensures
        match last_key(keys, path, keys.len() as int) {
            Some(i) => {
                &&& 0 <= i < keys.len()
                &&& is_key(keys[i], path)
                &&& forall|j: int| i < j < keys.len() ==> !is_key(#[trigger] keys[j], path)
            },
            None => forall|j: int| 0 <= j < keys.len() ==> !is_key(#[trigger] keys[j], path),
        },
{
    lemma_last_before(keys, path, keys.len() as int);
}

proof fn lemma_last_before(keys: Seq<Option<PathBuf>>, path: PathBuf, n: int)
    requires
        0 <= n <= keys.len(),
    ensures
        match last_key(keys, path, n) {
            Some(i) => {
                &&& 0 <= i < n
                &&& is_key(keys[i], path)
                &&& forall|j: int| i < j < n ==> !is_key(#[trigger] keys[j], path)
            },
            None => forall|j: int| 0 <= j < n ==> !is_key(#[trigger] keys[j], path),
        },
    decreases n,
{
    if n > 0 && !is_key(keys[n - 1], path) {
        lemma_last_before(keys, path, n - 1);
    }
}

/// A directory is found by its path: its row among the rows, its level among
/// the levels. The root has the first level. The depth of a directory is that
/// of its row, and one less than the top level's where it has none.
pub proof fn law_directories_are_found_by_path(window: ModelsView, path: PathBuf)
    ensures
        window.item_at(path) == last_key(window.keys, path, window.keys.len() as int),
        window.store_for(None) == Some(0int),
        window.store_for(Some(path)) == last_key(window.owners, path, window.owners.len() as int),
        window.parent_depth(None) == -1,
        window.parent_depth(Some(path)) == match window.item_at(path) {
            Some(i) => window.items[i].depth,
            None => -1,
        },
        window.child_level(path) == match window.store_for(Some(path)) {
            Some(level) => level,
            None => window.owners.len() as int,
        },
{
}

/// A directory that gets a level is found at it from then on. The level is
/// empty at first; one that was there before stays as it is, and so do all
/// other levels and all rows.
pub proof fn law_a_level_is_made_once(window: ModelsView, path: PathBuf)
    requires
        window.is_consistent(),
        same_path(path, path),
    ensures
        ({
            let after = window.registered(path);
            let level = window.child_level(path);
            &&& after.is_consistent()
            &&& after.store_for(Some(path)) == Some(level)
            &&& after.items == window.items
            &&& after.keys == window.keys
            &&& forall|l: int|
                0 <= l < window.levels.len() ==> #[trigger] after.levels[l] == window.levels[l]
                    && after.owners[l] == window.owners[l]
            &&& window.store_for(Some(path)) is Some ==> after.levels.len() == window.levels.len()
            &&& window.store_for(Some(path)) is None ==> after.levels.len() == window.levels.len()
                + 1 && after.levels[level].len() == 0
            &&& after.registered(path) == after
        }),
{
    law_the_last_one_is_found(window.owners, path);
    law_the_last_one_is_found(window.registered(path).owners, path);
    let after = window.registered(path);
    if window.store_for(Some(path)) is None {
        assert(is_key(after.owners[window.owners.len() as int], path));
    }
}

// ---------------------------------------------------------------------------
// Rows
// ---------------------------------------------------------------------------

/// A size that comes in stands in the row that is found under its path, which
/// is then sized. Of all other rows at most the shares change, and only where
/// they are in the level of the directory: those are whole percents of the
/// level's total, rounded down.
pub proof fn law_a_size_goes_to_its_row(
    window: ModelsView,
    path: PathBuf,
    parent: Option<PathBuf>,
    size: u64,
    size_human: Seq<char>,
)
    requires
        window.is_consistent(),
    ensures
        ({
            let after = window.sized(path, parent, size, size_human);
            &&& after.items.len() == window.items.len()
            &&& after.keys == window.keys
            &&& after.owners == window.owners
            &&& after.levels == window.levels
            &&& match window.item_at(path) {
                Some(i) => {
                    &&& after.items[i].size_bytes == size
                    &&& after.items[i].size_human == size_human
                    &&& after.items[i].sized
                    &&& after.items[i].name == window.items[i].name
                    &&& after.items[i].path == window.items[i].path
                    &&& after.items[i].is_dir == window.items[i].is_dir
                    &&& after.items[i].loaded == window.items[i].loaded
                    &&& after.items[i].depth == window.items[i].depth
                    &&& forall|j: int|
                        0 <= j < window.items.len() && j != i ==> same_but_share(
                            #[trigger] after.items[j],
                            window.items[j],
                        )
                    &&& window.store_for(parent) is None ==> forall|j: int|
                        0 <= j < window.items.len() ==> (#[trigger] after.items[j]).percent
                            == window.items[j].percent
                    &&& window.store_for(parent) is Some ==> forall|j: int|
                        0 <= j < window.items.len() ==> has_share(
                            #[trigger] after.items[j],
                            window.items[j].percent,
                            after.levels[window.store_for(parent)->0].contains(j),
                            level_total(
                                after.items,
                                after.levels[window.store_for(parent)->0],
                            ),
                        )
                },
                None => after.items == window.items,
            }
        }),
{
    let after = window.sized(path, parent, size, size_human);
    law_the_last_one_is_found(window.keys, path);
    if let Some(i) = window.item_at(path) {
        let noted = window.items.update(
            i,
            ItemView { size_bytes: size as nat, size_human, sized: true, ..window.items[i] },
        );
        if let Some(level) = window.store_for(parent) {
            let ids = window.levels[level];
            if let Some(owner) = parent {
                law_the_last_one_is_found(window.owners, owner);
            }
            law_shares_do_not_sway_totals(noted, after.items, ids);
            assert forall|j: int| 0 <= j < window.items.len() implies has_share(
                #[trigger] after.items[j],
                window.items[j].percent,
                ids.contains(j),
                level_total(after.items, ids),
            ) by {
                law_recomputed_shares_are_rounded_down(noted, ids, j);
            }
        }
    }
}

/// The share of a row after its level's shares have been worked out. A row of
/// another level, or one that stands for no file, keeps the share it had.
pub open spec fn has_share(row: ItemView, before: int, listed: bool, total: nat) -> bool {
    if listed && row.path.len() > 0 {
        &&& total > 0 ==> row.percent * total <= 100 * row.size_bytes < (row.percent + 1) * total
        &&& total == 0 ==> row.percent == 0
    } else {
        row.percent == before
    }
}

/// Where a directory cannot be listed its level holds one row, with the
/// message, one deeper than the directory's own row. All rows and all other
/// levels stay as they are.
pub proof fn law_a_failure_fills_its_level(
    window: ModelsView,
    parent: Option<PathBuf>,
    message: Seq<char>,
)
    requires
        window.is_consistent(),
    ensures
        ({
            let after = window.failed(parent, message);
            match window.store_for(parent) {
                Some(level) => {
                    let n = window.items.len() as int;
                    &&& after.levels[level] == seq![n]
                    &&& after.items.len() == n + 1
                    &&& after.items[n].name.len() == message.len() + 9
                    &&& after.items[n].name.subrange(8, message.len() + 8int) == message
                    &&& after.items[n].depth == window.parent_depth(parent) + 1
                    &&& after.items[n].path.len() == 0
                    &&& after.items[n].size_bytes == 0
                    &&& !after.items[n].is_dir
                    &&& after.keys.len() == n + 1
                    &&& after.keys[n] is None
                    &&& forall|i: int|
                        0 <= i < n ==> #[trigger] after.items[i] == window.items[i]
                            && after.keys[i] == window.keys[i]
                    &&& after.owners == window.owners
                    &&& forall|l: int|
                        0 <= l < window.levels.len() && l != level ==> #[trigger] after.levels[l]
                            == window.levels[l]
                },
                None => after == window,
            }
        }),
{
    law_plain_rows_stand_for_no_file(message, window.parent_depth(parent) + 1);
    if let Some(path) = parent {
        law_the_last_one_is_found(window.owners, path);
    }
    if let Some(level) = window.store_for(parent) {
        assert(window.failed(parent, message).levels[level] =~= seq![window.items.len() as int]);
    }
}

/// To expand a row marks its children as asked for, and changes nothing else.
pub proof fn law_expanding_marks_the_row(window: ModelsView, i: int)
    requires
        0 <= i < window.items.len(),
    ensures
        ({
            let after = window.expanded(i);
            &&& after.items.len() == window.items.len()
            &&& after.keys == window.keys
            &&& after.owners == window.owners
            &&& after.levels == window.levels
            &&& after.items[i].loaded
            &&& after.items[i].name == window.items[i].name
            &&& after.items[i].size_human == window.items[i].size_human
            &&& after.items[i].size_bytes == window.items[i].size_bytes
            &&& after.items[i].percent == window.items[i].percent
            &&& after.items[i].path == window.items[i].path
            &&& after.items[i].is_dir == window.items[i].is_dir
            &&& after.items[i].sized == window.items[i].sized
            &&& after.items[i].depth == window.items[i].depth
            &&& forall|j: int|
                0 <= j < window.items.len() && j != i ==> #[trigger] after.items[j]
                    == window.items[j]
        }),
{
}

// ---------------------------------------------------------------------------
// Messages
// ---------------------------------------------------------------------------

/// A listing that comes in is refused only where a depth or a counter would no
/// longer fit. Else the level of its directory holds exactly one row for each
/// entry, in order, each of which shows its entry one deeper than the
/// directory's own row and is kept under the entry's path; the shares there are
/// whole percents, rounded down; and its directories are counted as handed out.
/// A listing for a directory that has no level changes nothing.
pub proof fn law_a_listing_message_fills_its_level(
    window: WindowView,
    parent_path: Option<PathBuf>,
    entries: Vec<Entry>,
)
    requires
        window.models.is_consistent(),
    ensures
        ({
            let before = window.models;
            let depth = before.parent_depth(parent_path) + 1;
            let dirs = directory_count(entries@);
            match window.after(WorkerMsg::Enumerated { parent_path, entries }) {
                Some(next) => {
                    let after = next.models;
                    &&& next.status.sized == window.status.sized
                    &&& match before.store_for(parent_path) {
                        Some(level) => {
                            let n = before.items.len() as int;
                            &&& next.status.queued == window.status.queued + dirs
                            &&& after.items.len() == n + entries@.len()
                            &&& after.keys.len() == n + entries@.len()
                            &&& after.levels[level].len() == entries@.len()
                            &&& after.levels.len() == before.levels.len()
                            &&& after.owners == before.owners
                            &&& forall|k: int|
                                0 <= k < entries@.len() ==> {
                                    let i = #[trigger] after.levels[level][k];
                                    &&& i == n + k
                                    &&& after.keys[i] == Some(entries@[k].path)
                                    &&& shows_entry(after.items[i], entries@[k], depth)
                                    &&& has_share(
                                        after.items[i],
                                        0,
                                        true,
                                        level_total(after.items, after.levels[level]),
                                    )
                                }
                            &&& forall|i: int|
                                0 <= i < n ==> #[trigger] after.items[i] == before.items[i]
                                    && after.keys[i] == before.keys[i]
                            &&& forall|l: int|
                                0 <= l < before.levels.len() && l != level ==>
                                #[trigger] after.levels[l] == before.levels[l]
                        },
                        None => next == window,
                    }
                },
                None => {
                    ||| depth > i32::MAX
                    ||| window.status.queued + dirs > usize::MAX
                },
            }
        }),
{
    let before = window.models;
    let depth = before.parent_depth(parent_path) + 1;
    law_every_directory_is_handed_out(entries@);
    if let Some(path) = parent_path {
        law_the_last_one_is_found(before.owners, path);
    }
    if let Some(level) = before.store_for(parent_path) {
        law_listing_fills_its_level(before, parent_path, entries@, depth);
        let rows = rows_for(entries@, depth);
        let filled = before.refilled(level, rows, keys_for(entries@));
        let after = before.enumerated(parent_path, rows, keys_for(entries@));
        let ids = filled.levels[level];
        law_shares_do_not_sway_totals(filled.items, after.items, ids);
        assert forall|k: int| 0 <= k < entries@.len() implies {
            let i = #[trigger] after.levels[level][k];
            &&& i == before.items.len() + k
            &&& after.keys[i] == Some(entries@[k].path)
            &&& shows_entry(after.items[i], entries@[k], depth)
            &&& has_share(after.items[i], 0, true, level_total(after.items, after.levels[level]))
        } by {
            let i = after.levels[level][k];
            assert(ids[k] == i);
            assert(ids.contains(i));
            law_rows_show_their_entries(entries@[k], depth);
            let row = item_for_entry(entries@[k], depth);
            if entries@[k].is_dir {
                assert(row.name =~= row.name.drop_last().push(row.name.last()));
            }
            assert(filled.items[i] == rows[k]);
            law_recomputed_shares_are_rounded_down(filled.items, ids, i);
        }
    }
}

/// A size that comes in is refused only where it could no longer be counted.
/// Else it is counted, and put into its row.
pub proof fn law_a_size_message_is_counted_and_shown(
    window: WindowView,
    path: PathBuf,
    parent_path: Option<PathBuf>,
    size: u64,
)
    ensures
        match window.after(WorkerMsg::Sized { path, parent_path, size }) {
            Some(next) => {
                &&& next.status.sized == window.status.sized + 1
                &&& next.status.queued == window.status.queued
                &&& next.models == window.models.sized(
                    path,
                    parent_path,
                    size,
                    human_size(size, true),
                )
            },
            None => window.status.sized >= usize::MAX,
        },
{
}

/// Word of a directory that could not be listed is refused only where the depth
/// of the message would no longer fit. Else the message is shown, and no
/// counter changes.
pub proof fn law_a_failure_message_is_shown(
    window: WindowView,
    parent_path: Option<PathBuf>,
    message: String,
)
    ensures
        match window.after(WorkerMsg::EnumerateFailed { parent_path, message }) {
            Some(next) => {
                &&& next.status == window.status
                &&& next.models == window.models.failed(parent_path, message@)
            },
            None => window.models.parent_depth(parent_path) >= i32::MAX,
        },
{
}

} // verus!
