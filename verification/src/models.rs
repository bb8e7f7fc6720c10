//! The rows of the window, level by level.
//!
//! Each directory that is expanded has a level of its own, which is filled
//! when a worker reports what the directory holds. Sizes of directories come
//! in later, one by one.
use std::path::PathBuf;

use vstd::prelude::*;

use crate::model::Entry;
use crate::outside::{format_size, is_same_path, path_from_text};
#[allow(unused_imports)]
use crate::outside::{human_size, same_path, text_as_path};
use crate::status::Status;
#[allow(unused_imports)]
use crate::status::StatusView;
use crate::window::{count_dirs, recompute_percentages, Batch, EntryItem, WorkerMsg};
#[allow(unused_imports)]
use crate::window::{
    directories, error_item, id_views, ids_in_range, item_for_entry, item_views, recomputed, ItemView,
    YIELD_EVERY,
};

verus! {

/// The last of the first `n` keys that is the given path.
pub open spec fn last_key(keys: Seq<Option<PathBuf>>, path: PathBuf, n: int) -> Option<int>
    decreases n,
{
    if n <= 0 {
        None
    } else if keys[n - 1] is Some && same_path(keys[n - 1]->0, path) {
        Some(n - 1)
    } else {
        last_key(keys, path, n - 1)
    }
}

/// What is kept under exactly this path is found under it, unless something was
/// put there later.
pub open spec fn is_found(keys: Seq<Option<PathBuf>>, path: PathBuf) -> bool {
    forall|k: int|
        0 <= k < keys.len() && #[trigger] keys[k] == Some(path) ==> (last_key(
            keys,
            path,
            keys.len() as int,
        ) matches Some(i) && k <= i)
}

/// Several lists of row numbers as integers.
pub open spec fn level_id_views(levels: Seq<Vec<usize>>) -> Seq<Seq<int>> {
    levels.map_values(|ids: Vec<usize>| id_views(ids@))
}

/// What the window holds.
pub struct ModelsView {
    /// Every row that was ever made, those that are no longer shown among
    /// them.
    pub items: Seq<ItemView>,
    /// The path under which each row is found, if under any. Of several rows
    /// under one path the last one counts.
    pub keys: Seq<Option<PathBuf>>,
    /// The directory that each level lists; `None` for the first level, which
    /// lists the root.
    pub owners: Seq<Option<PathBuf>>,
    /// The rows of each level.
    pub levels: Seq<Seq<int>>,
}

impl ModelsView {
    /// Each row has a key or none, each level has an owner but for the first,
    /// and levels list rows that there are.
    pub open spec fn is_consistent(self) -> bool {
        &&& self.keys.len() == self.items.len()
        &&& self.owners.len() == self.levels.len()
        &&& self.levels.len() >= 1
        &&& self.owners[0] is None
        &&& forall|l: int|
            0 <= l < self.levels.len() ==> ids_in_range(#[trigger] self.levels[l], self.items.len())
    }

    /// The row that is found under a path.
    pub open spec fn item_at(self, path: PathBuf) -> Option<int> {
        last_key(self.keys, path, self.keys.len() as int)
    }

    /// The level that lists a directory, if it has been asked for.
    pub open spec fn store_for(self, parent: Option<PathBuf>) -> Option<int> {
        match parent {
            None => Some(0),
            Some(path) => last_key(self.owners, path, self.owners.len() as int),
        }
    }

    /// The depth of the row of a directory, -1 for the root and for what has
    /// no row.
    pub open spec fn parent_depth(self, parent: Option<PathBuf>) -> int {
        match parent {
            Some(path) => match self.item_at(path) {
                Some(i) => self.items[i].depth,
                None => -1,
            },
            None => -1,
        }
    }

    /// The level that lists the directory, or that will once there is one.
    pub open spec fn child_level(self, path: PathBuf) -> int {
        match last_key(self.owners, path, self.owners.len() as int) {
            Some(level) => level,
            None => self.owners.len() as int,
        }
    }

    /// With a level for the directory, empty at first.
    pub open spec fn registered(self, path: PathBuf) -> ModelsView {
        if last_key(self.owners, path, self.owners.len() as int) is Some {
            self
        } else {
            ModelsView {
                owners: self.owners.push(Some(path)),
                levels: self.levels.push(Seq::empty()),
                ..self
            }
        }
    }

    /// With the rows of a level replaced by the given ones.
    pub open spec fn refilled(
        self,
        level: int,
        rows: Seq<ItemView>,
        keys: Seq<Option<PathBuf>>,
    ) -> ModelsView {
        ModelsView {
            items: self.items + rows,
            keys: self.keys + keys,
            levels: self.levels.update(
                level,
                Seq::new(rows.len(), |k: int| self.items.len() + k),
            ),
            ..self
        }
    }

    /// With the shares of a level worked out anew.
    pub open spec fn with_shares(self, level: int) -> ModelsView {
        ModelsView { items: recomputed(self.items, self.levels[level]), ..self }
    }

    /// With the children of a directory in their level, given their rows.
    pub open spec fn enumerated(
        self,
        parent: Option<PathBuf>,
        rows: Seq<ItemView>,
        keys: Seq<Option<PathBuf>>,
    ) -> ModelsView {
        match self.store_for(parent) {
            Some(level) => self.refilled(level, rows, keys).with_shares(level),
            None => self,
        }
    }

    /// With the size of a directory in its row, and the shares of its level
    /// worked out anew. A size for which there is no row is dropped.
    pub open spec fn sized(
        self,
        path: PathBuf,
        parent: Option<PathBuf>,
        size: u64,
        size_human: Seq<char>,
    ) -> ModelsView {
        match self.item_at(path) {
            Some(i) => {
                let noted = ModelsView {
                    items: self.items.update(
                        i,
                        ItemView {
                            size_bytes: size as nat,
                            size_human,
                            sized: true,
                            ..self.items[i]
                        },
                    ),
                    ..self
                };
                match self.store_for(parent) {
                    Some(level) => noted.with_shares(level),
                    None => noted,
                }
            },
            None => self,
        }
    }

    /// With a single row in the level of a directory, which says why it could
    /// not be listed.
    pub open spec fn failed(self, parent: Option<PathBuf>, message: Seq<char>) -> ModelsView {
        match self.store_for(parent) {
            Some(level) => self.refilled(
                level,
                seq![error_item(message, self.parent_depth(parent) + 1)],
                seq![None],
            ),
            None => self,
        }
    }

    /// With the children of a row asked for.
    pub open spec fn expanded(self, i: int) -> ModelsView {
        ModelsView {
            items: self.items.update(i, ItemView { loaded: true, ..self.items[i] }),
            ..self
        }
    }
}

/// The rows for the entries of a listing.
pub open spec fn rows_for(entries: Seq<Entry>, depth: int) -> Seq<ItemView> {
    entries.map_values(|entry: Entry| item_for_entry(entry, depth))
}

/// The keys of the rows for the entries of a listing.
pub open spec fn keys_for(entries: Seq<Entry>) -> Seq<Option<PathBuf>> {
    entries.map_values(|entry: Entry| Some(entry.path))
}

fn find_key(keys: &Vec<Option<PathBuf>>, path: &PathBuf) -> (found: Option<usize>)
    ensures
        match (found, last_key(keys@, *path, keys@.len() as int)) {
            (Some(i), Some(k)) => i == k && i < keys@.len(),
            (None, None) => true,
            _ => false,
        },
        is_found(keys@, *path),
{
    let mut n: usize = keys.len();
    while n > 0
        invariant
            n <= keys@.len(),
            forall|k: int| n <= k < keys@.len() ==> #[trigger] keys@[k] != Some(*path),
            last_key(keys@, *path, keys@.len() as int) == last_key(keys@, *path, n as int),
        decreases n,
    {
        if let Some(key) = &keys[n - 1] {
            if is_same_path(key, path) {
                return Some(n - 1);
            }
        }
        n -= 1;
    }
    None
}

/// The rows of the window and their levels.
pub struct Models {
    items: Vec<EntryItem>,
    keys: Vec<Option<PathBuf>>,
    owners: Vec<Option<PathBuf>>,
    levels: Vec<Vec<usize>>,
}

impl View for Models {
    type V = ModelsView;

    closed spec fn view(&self) -> ModelsView {
        ModelsView {
            items: item_views(self.items@),
            keys: self.keys@,
            owners: self.owners@,
            levels: level_id_views(self.levels@),
        }
    }
}

impl Models {
    /// A window with an empty first level.
    pub fn new() -> (models: Models)
        ensures
            models@ == (ModelsView {
                items: Seq::empty(),
                keys: Seq::empty(),
                owners: seq![None],
                levels: seq![Seq::empty()],
            }),
            models@.is_consistent(),
    {
        let mut owners: Vec<Option<PathBuf>> = Vec::new();
        owners.push(None);
        let mut levels: Vec<Vec<usize>> = Vec::new();
        levels.push(Vec::new());
        let models = Models { items: Vec::new(), keys: Vec::new(), owners, levels };
        assert(models@.items =~= Seq::empty());
        assert(models@.levels[0] =~= Seq::empty());
        assert(models@.levels =~= seq![Seq::empty()]);
        models
    }

    /// The rows of a level, by their numbers.
    pub fn level(&self, level: usize) -> (ids: &Vec<usize>)
        requires
            self@.is_consistent(),
            level < self@.levels.len(),
        ensures
            id_views(ids@) == self@.levels[level as int],
    {
        &self.levels[level]
    }

    /// The number of levels.
    pub fn level_count(&self) -> (n: usize)
        ensures
            n as nat == self@.levels.len(),
    {
        self.levels.len()
    }

    /// A row by its number.
    pub fn item(&self, id: usize) -> (item: &EntryItem)
        requires
            id < self@.items.len(),
        ensures
            item@ == self@.items[id as int],
    {
        &self.items[id]
    }

    /// The number of rows that were ever made.
    pub fn item_count(&self) -> (n: usize)
        ensures
            n as nat == self@.items.len(),
    {
        self.items.len()
    }

    /// The level that lists a directory, if it has been asked for.
    pub fn store_for(&self, parent: &Option<PathBuf>) -> (level: Option<usize>)
        requires
            self@.is_consistent(),
        ensures
            match (level, self@.store_for(*parent)) {
                (Some(l), Some(k)) => l == k && l < self@.levels.len(),
                (None, None) => true,
                _ => false,
            },
            *parent is Some ==> is_found(self@.owners, parent->0),
    {
        match parent {
            None => Some(0),
            Some(path) => find_key(&self.owners, path),
        }
    }

    /// The depth of the row of a directory, -1 for the root and for what has
    /// no row.
    pub fn parent_depth(&self, parent: &Option<PathBuf>) -> (depth: i32)
        requires
            self@.is_consistent(),
        ensures
            depth as int == self@.parent_depth(*parent),
    {
        match parent {
            Some(path) => match find_key(&self.keys, path) {
                Some(i) => self.items[i].depth,
                None => -1,
            },
            None => -1,
        }
    }

    /// The level for the children of a row, made where there is none yet. A
    /// row that is no directory has none.
    pub fn children_store(&mut self, id: usize) -> (level: Option<usize>)
        requires
            old(self)@.is_consistent(),
            id < old(self)@.items.len(),
        ensures
            final(self)@.is_consistent(),
            ({
                let item = old(self)@.items[id as int];
                let path = text_as_path(item.path);
                if item.is_dir {
                    &&& final(self)@ == old(self)@.registered(path)
                    &&& level is Some
                    &&& level->0 == old(self)@.child_level(path)
                    &&& level->0 < final(self)@.levels.len()
                } else {
                    level is None && final(self)@ == old(self)@
                }
            }),
    {
        assert(self@.items[id as int] == self.items@[id as int]@);
        if !self.items[id].is_dir {
            return None;
        }
        let path = path_from_text(self.items[id].path.as_str());
        match find_key(&self.owners, &path) {
            Some(level) => Some(level),
            None => {
                let ghost before = self@;
                let level: usize = self.levels.len();
                self.owners.push(Some(path));
                self.levels.push(Vec::new());
                proof {
                    let made = self.levels@[level as int];
                    assert(id_views(made@) =~= Seq::empty());
                    assert(self@.levels =~= before.levels.push(Seq::empty()));
                    assert(self@ == before.registered(path));
                }
                Some(level)
            },
        }
    }

    /// Asks for the children of a row that is expanded. Only the first time
    /// there is anything to do: the directory to list is returned then.
    pub fn expand(&mut self, id: usize) -> (path: Option<PathBuf>)
        requires
            old(self)@.is_consistent(),
            id < old(self)@.items.len(),
        ensures
            final(self)@.is_consistent(),
            ({
                let item = old(self)@.items[id as int];
                if item.is_dir && !item.loaded {
                    &&& path == Some(text_as_path(item.path))
                    &&& final(self)@ == old(self)@.expanded(id as int)
                } else {
                    path is None && final(self)@ == old(self)@
                }
            }),
    {
        let ghost before = self@;
        assert(self@.items[id as int] == self.items@[id as int]@);
        if !self.items[id].is_dir || self.items[id].loaded {
            return None;
        }
        self.items[id].loaded = true;
        assert(self@.items =~= before.expanded(id as int).items);
        Some(path_from_text(self.items[id].path.as_str()))
    }

    /// Replaces the rows of a level.
    fn refill(&mut self, level: usize, rows: Vec<EntryItem>, keys: Vec<Option<PathBuf>>)
        requires
            old(self)@.is_consistent(),
            level < old(self)@.levels.len(),
            rows@.len() == keys@.len(),
        ensures
            final(self)@ == old(self)@.refilled(level as int, item_views(rows@), keys@),
            final(self)@.is_consistent(),
    {
        let ghost before = self@;
        let ghost row_views = item_views(rows@);
        let mut rows = rows;
        let mut keys = keys;
        let start: usize = self.items.len();
        self.items.append(&mut rows);
        self.keys.append(&mut keys);
        let end: usize = self.items.len();
        let mut ids: Vec<usize> = Vec::new();
        let mut id: usize = start;
        while id < end
            invariant
                start <= id <= end,
                ids@.len() == id - start,
                forall|k: int| 0 <= k < ids@.len() ==> #[trigger] ids@[k] == start + k,
            decreases end - id,
        {
            ids.push(id);
            id += 1;
        }
        let ghost numbers = id_views(ids@);
        self.levels.set(level, ids);
        proof {
            assert(self@.items =~= before.items + row_views);
            assert(numbers =~= Seq::new(row_views.len(), |k: int| before.items.len() + k));
            assert(self@.levels =~= before.levels.update(level as int, numbers));
            assert forall|l: int| 0 <= l < self@.levels.len() implies ids_in_range(
                #[trigger] self@.levels[l],
                self@.items.len(),
            ) by {
                if l != level {
                    assert(self@.levels[l] == before.levels[l]);
                }
            }
        }
    }

    fn reshare(&mut self, level: usize)
        requires
            old(self)@.is_consistent(),
            level < old(self)@.levels.len(),
        ensures
            final(self)@ == old(self)@.with_shares(level as int),
            final(self)@.is_consistent(),
    {
        let ghost before = self@;
        assert(self@.levels[level as int] == id_views(self.levels@[level as int]@));
        recompute_percentages(&mut self.items, &self.levels[level]);
        assert(self@.items == before.with_shares(level as int).items);
    }

    /// Puts the children of a directory into its level, given their rows and
    /// the paths under which these are found. Where the level has not been
    /// asked for nothing happens.
    pub fn apply_rows(
        &mut self,
        parent: &Option<PathBuf>,
        rows: Vec<EntryItem>,
        keys: Vec<Option<PathBuf>>,
    )
        requires
            old(self)@.is_consistent(),
            rows@.len() == keys@.len(),
        ensures
            final(self)@ == old(self)@.enumerated(*parent, item_views(rows@), keys@),
            final(self)@.is_consistent(),
    {
        if let Some(level) = self.store_for(parent) {
            self.refill(level, rows, keys);
            self.reshare(level);
        }
    }

    /// Puts the children of a directory into its level and accounts for the
    /// directories among them. Where the level has not been asked for nothing
    /// happens.
    pub fn apply_enumerated(
        &mut self,
        status: &mut Status,
        parent: &Option<PathBuf>,
        entries: &Vec<Entry>,
    )
        requires
            old(self)@.is_consistent(),
            old(self)@.parent_depth(*parent) < i32::MAX,
            old(self)@.store_for(*parent) is Some ==> old(status)@.queued + directories(
                entries@,
                entries@.len() as int,
            ).len() <= usize::MAX,
        ensures
            final(self)@ == old(self)@.enumerated(
                *parent,
                rows_for(entries@, old(self)@.parent_depth(*parent) + 1),
                keys_for(entries@),
            ),
            final(self)@.is_consistent(),
            final(status)@.sized == old(status)@.sized,
            final(status)@.queued == old(status)@.queued + if old(self)@.store_for(
                *parent,
            ) is Some {
                directories(entries@, entries@.len() as int).len()
            } else {
                0
            },
    {
        let depth: i32 = self.parent_depth(parent) + 1;
        if self.store_for(parent).is_none() {
            return;
        }
        status.enqueue(count_dirs(entries));
        let mut rows: Vec<EntryItem> = Vec::new();
        let mut keys: Vec<Option<PathBuf>> = Vec::new();
        let ghost all_rows = rows_for(entries@, depth as int);
        let ghost all_keys = keys_for(entries@);
        let mut i: usize = 0;
        while i < entries.len()
            invariant
                i <= entries@.len(),
                all_rows == rows_for(entries@, depth as int),
                all_keys == keys_for(entries@),
                item_views(rows@) == all_rows.take(i as int),
                keys@ == all_keys.take(i as int),
            decreases entries@.len() - i,
        {
            let ghost before = rows@;
            let row = EntryItem::from_entry(&entries[i], depth);
            rows.push(row);
            keys.push(Some(entries[i].path.clone()));
            i += 1;
            assert(item_views(rows@) =~= item_views(before).push(row@));
            assert(item_views(rows@) =~= all_rows.take(i as int));
            assert(keys@ =~= all_keys.take(i as int));
        }
        assert(all_rows.take(i as int) =~= all_rows);
        assert(all_keys.take(i as int) =~= all_keys);
        assert(rows@.len() == item_views(rows@).len());
        self.apply_rows(parent, rows, keys);
    }

    /// Notes the size of a directory, given its text, and works out the shares
    /// of its level anew. A size for which there is no row is dropped.
    pub fn apply_size_text(
        &mut self,
        path: &PathBuf,
        parent: &Option<PathBuf>,
        size: u64,
        size_human: String,
    )
        requires
            old(self)@.is_consistent(),
        ensures
            final(self)@ == old(self)@.sized(*path, *parent, size, size_human@),
            is_found(old(self)@.keys, *path),
            final(self)@.is_consistent(),
    {
        let ghost before = self@;
        match find_key(&self.keys, path) {
            Some(i) => {
                self.items[i].size_bytes = size;
                self.items[i].size_human = size_human;
                self.items[i].sized = true;
                assert(before.items[i as int] == item_views(old(self).items@)[i as int]);
                assert(self@.items =~= before.items.update(
                    i as int,
                    ItemView {
                        size_bytes: size as nat,
                        size_human: size_human@,
                        sized: true,
                        ..before.items[i as int]
                    },
                ));
                if let Some(level) = self.store_for(parent) {
                    self.reshare(level);
                }
            },
            None => {},
        }
    }

    /// Notes the size of a directory and works out the shares of its level
    /// anew.
    pub fn apply_sized(&mut self, path: &PathBuf, parent: &Option<PathBuf>, size: u64)
        requires
            old(self)@.is_consistent(),
        ensures
            final(self)@ == old(self)@.sized(*path, *parent, size, human_size(size, true)),
            is_found(old(self)@.keys, *path),
            final(self)@.is_consistent(),
    {
        self.apply_size_text(path, parent, size, format_size(size, true));
    }

    /// Replaces the rows of a directory's level by one that says why the
    /// directory could not be listed.
    pub fn apply_enumerate_failed(&mut self, parent: &Option<PathBuf>, message: &str)
        requires
            old(self)@.is_consistent(),
            old(self)@.parent_depth(*parent) < i32::MAX,
        ensures
            final(self)@ == old(self)@.failed(*parent, message@),
            final(self)@.is_consistent(),
    {
        let depth: i32 = self.parent_depth(parent) + 1;
        if let Some(level) = self.store_for(parent) {
            let mut rows: Vec<EntryItem> = Vec::new();
            rows.push(EntryItem::error_row(message, depth));
            let mut keys: Vec<Option<PathBuf>> = Vec::new();
            keys.push(None);
            assert(item_views(rows@) =~= seq![error_item(message@, depth as int)]);
            assert(keys@ =~= seq![None]);
            self.refill(level, rows, keys);
        }
    }
}

/// The window and its status bar.
pub struct WindowView {
    /// The rows.
    pub models: ModelsView,
    /// The counters of the status bar.
    pub status: StatusView,
}

impl WindowView {
    /// The window after a message, or `None` where a depth or a counter would
    /// no longer fit.
    pub open spec fn after(self, msg: WorkerMsg) -> Option<WindowView> {
        match msg {
            WorkerMsg::Enumerated { parent_path, entries } => {
                let depth = self.models.parent_depth(parent_path) + 1;
                let shown = self.models.store_for(parent_path) is Some;
                let dirs = directories(entries@, entries@.len() as int).len();
                let queued = self.status.queued + if shown {
                    dirs
                } else {
                    0
                };
                if depth > i32::MAX || queued > usize::MAX {
                    None
                } else {
                    Some(
                        WindowView {
                            models: self.models.enumerated(
                                parent_path,
                                rows_for(entries@, depth),
                                keys_for(entries@),
                            ),
                            status: StatusView { queued, ..self.status },
                        },
                    )
                }
            },
            WorkerMsg::Sized { path, parent_path, size } => if self.status.sized >= usize::MAX {
                None
            } else {
                Some(
                    WindowView {
                        models: self.models.sized(
                            path,
                            parent_path,
                            size,
                            human_size(size, true),
                        ),
                        status: StatusView { sized: self.status.sized + 1, ..self.status },
                    },
                )
            },
            WorkerMsg::EnumerateFailed { parent_path, message } => if self.models.parent_depth(
                parent_path,
            ) >= i32::MAX {
                None
            } else {
                Some(
                    WindowView {
                        models: self.models.failed(parent_path, message@),
                        status: self.status,
                    },
                )
            },
        }
    }
}

/// Applies the messages of the workers to the window, one by one.
pub struct Consumer {
    /// The rows.
    pub models: Models,
    /// The counters of the status bar.
    pub status: Status,
    /// The messages since the window was last redrawn.
    pub batch: Batch,
}

impl View for Consumer {
    type V = WindowView;

    open spec fn view(&self) -> WindowView {
        WindowView { models: self.models@, status: self.status@ }
    }
}

impl Consumer {
    /// An empty window.
    pub fn new() -> (consumer: Consumer)
        ensures
            consumer@.models.is_consistent(),
            consumer@.models.items.len() == 0,
            consumer@.models.levels == seq![Seq::<int>::empty()],
            consumer@.status == (StatusView { queued: 0, sized: 0 }),
            consumer.batch@ == 0,
    {
        Consumer { models: Models::new(), status: Status::new(), batch: Batch::new() }
    }

    /// Applies a message. Where a depth or a counter would no longer fit the
    /// window stays as it is, and the result is `false`.
    pub fn handle(&mut self, msg: &WorkerMsg) -> (applied: bool)
        requires
            old(self)@.models.is_consistent(),
        ensures
            final(self)@.models.is_consistent(),
            final(self).batch == old(self).batch,
            match old(self)@.after(*msg) {
                Some(next) => applied && final(self)@ == next,
                None => !applied && final(self)@ == old(self)@,
            },
            applied ==> (*msg matches WorkerMsg::Sized { path, parent_path: _, size: _ } ==> is_found(
                old(self)@.models.keys,
                path,
            )),
    {
        match msg {
            WorkerMsg::Enumerated { parent_path, entries } => {
                if self.models.parent_depth(parent_path) == i32::MAX {
                    return false;
                }
                let queued: usize = self.status.queued();
                if self.models.store_for(parent_path).is_some() {
                    if queued.checked_add(count_dirs(entries)).is_none() {
                        return false;
                    }
                }
                self.models.apply_enumerated(&mut self.status, parent_path, entries);
                true
            },
            WorkerMsg::Sized { path, parent_path, size } => {
                if self.status.sized() == usize::MAX {
                    return false;
                }
                self.models.apply_sized(path, parent_path, *size);
                self.status.complete_one();
                true
            },
            WorkerMsg::EnumerateFailed { parent_path, message } => {
                if self.models.parent_depth(parent_path) == i32::MAX {
                    return false;
                }
                self.models.apply_enumerate_failed(parent_path, message.as_str());
                true
            },
        }
    }

    /// Ends the turn of a message that has been handled. Says whether the
    /// window has to redraw before the next one.
    pub fn end_turn(&mut self, queue_is_empty: bool) -> (pause: bool)
        ensures
            final(self)@ == old(self)@,
            pause == (old(self).batch@ + 1 >= YIELD_EVERY || queue_is_empty),
            pause == (old(self).batch@ + 1 >= 64 || queue_is_empty),
            final(self).batch@ == if pause {
                0
            } else {
                old(self).batch@ + 1
            },
    {
        self.batch.count(queue_is_empty)
    }
}

// ---------------------------------------------------------------------------
// Laws
// ---------------------------------------------------------------------------

proof fn lemma_key_found(keys: Seq<Option<PathBuf>>, path: PathBuf, n: int, k: int)
    requires
        0 <= k < n <= keys.len(),
        keys[k] is Some,
        same_path(keys[k]->0, path),
    ensures
        last_key(keys, path, n) matches Some(i) && k <= i < n && keys[i] is Some && same_path(
            keys[i]->0,
            path,
        ),
    decreases n,
{
    if !(keys[n - 1] is Some && same_path(keys[n - 1]->0, path)) {
        lemma_key_found(keys, path, n - 1, k);
    }
}

proof fn lemma_key_prefix(
    keys: Seq<Option<PathBuf>>,
    longer: Seq<Option<PathBuf>>,
    path: PathBuf,
    n: int,
)
    requires
        0 <= n <= keys.len() <= longer.len(),
        forall|k: int| 0 <= k < keys.len() ==> #[trigger] longer[k] == keys[k],
    ensures
        last_key(longer, path, n) == last_key(keys, path, n),
    decreases n,
{
    if n > 0 {
        assert(longer[n - 1] == keys[n - 1]);
        lemma_key_prefix(keys, longer, path, n - 1);
    }
}

/// Once a listing has been applied, its entries are found: a size that comes
/// in for one of them meets a row of that listing, not one of an older.
pub proof fn law_listed_entries_are_found(
    window: ModelsView,
    parent: Option<PathBuf>,
    entries: Seq<Entry>,
    depth: int,
    k: int,
    path: PathBuf,
)
    requires
        window.is_consistent(),
        window.store_for(parent) is Some,
        0 <= k < entries.len(),
        same_path(entries[k].path, path),
    ensures
        ({
            let after = window.enumerated(parent, rows_for(entries, depth), keys_for(entries));
            after.item_at(path) matches Some(i) && window.items.len() + k <= i < after.items.len()
        }),
{
    let after = window.enumerated(parent, rows_for(entries, depth), keys_for(entries));
    assert(after.keys == window.keys + keys_for(entries));
    lemma_key_found(after.keys, path, after.keys.len() as int, window.items.len() + k);
}

/// A size that comes in under the path of a listed entry meets the row of that
/// entry, or of a later one under its path: what is found for it is what every
/// lookup finds.
pub proof fn law_sizes_meet_their_rows(
    window: ModelsView,
    parent: Option<PathBuf>,
    entries: Seq<Entry>,
    depth: int,
    k: int,
)
    requires
        window.is_consistent(),
        window.store_for(parent) is Some,
        0 <= k < entries.len(),
        is_found(
            window.enumerated(parent, rows_for(entries, depth), keys_for(entries)).keys,
            entries[k].path,
        ),
    ensures
        ({
            let after = window.enumerated(parent, rows_for(entries, depth), keys_for(entries));
            after.item_at(entries[k].path) matches Some(i) && window.items.len() + k <= i
                < after.items.len()
        }),
{
    let after = window.enumerated(parent, rows_for(entries, depth), keys_for(entries));
    assert(after.keys[window.items.len() + k] == Some(entries[k].path));
    lemma_key_in_range(after.keys, entries[k].path, after.keys.len() as int);
}

/// A listing fills the level of its directory with one row for each entry, in
/// the order of the listing; the rows and the levels that were there before
/// stay as they are.
pub proof fn law_listing_fills_its_level(
    window: ModelsView,
    parent: Option<PathBuf>,
    entries: Seq<Entry>,
    depth: int,
)
    requires
        window.is_consistent(),
        window.store_for(parent) is Some,
    ensures
        ({
            let level = window.store_for(parent)->0;
            let after = window.enumerated(parent, rows_for(entries, depth), keys_for(entries));
            &&& after.levels[level].len() == entries.len()
            &&& forall|k: int|
                0 <= k < entries.len() ==> {
                    let row = after.items[#[trigger] after.levels[level][k]];
                    row == (ItemView { percent: row.percent, ..item_for_entry(entries[k], depth) })
                }
            &&& forall|i: int| 0 <= i < window.items.len() ==> #[trigger] after.items[i]
                == window.items[i]
            &&& forall|l: int|
                0 <= l < window.levels.len() && l != level ==> #[trigger] after.levels[l]
                    == window.levels[l]
        }),
{
    let level = window.store_for(parent)->0;
    if let Some(path) = parent {
        lemma_key_in_range(window.owners, path, window.owners.len() as int);
    }
    let after = window.enumerated(parent, rows_for(entries, depth), keys_for(entries));
    let filled = window.refilled(level, rows_for(entries, depth), keys_for(entries));
    let ids = filled.levels[level];
    assert forall|i: int| 0 <= i < window.items.len() implies #[trigger] after.items[i]
        == window.items[i] by {
        assert(!ids.contains(i));
        assert(filled.items[i] == window.items[i]);
    }
    assert forall|k: int| 0 <= k < entries.len() implies ({
        let row = after.items[#[trigger] after.levels[level][k]];
        row == (ItemView { percent: row.percent, ..item_for_entry(entries[k], depth) })
    }) by {
        assert(filled.items[window.items.len() + k] == rows_for(entries, depth)[k]);
    }
}

pub(crate) proof fn lemma_key_in_range(keys: Seq<Option<PathBuf>>, path: PathBuf, n: int)
    requires
        n <= keys.len(),
    ensures
        last_key(keys, path, n) matches Some(i) ==> 0 <= i < n && keys[i] is Some,
    decreases n,
{
    if n > 0 {
        lemma_key_in_range(keys, path, n - 1);
    }
}

/// A row that reports a failure is found under no path: what was found before
/// is found still.
pub proof fn law_error_rows_are_never_found(
    window: ModelsView,
    parent: Option<PathBuf>,
    message: Seq<char>,
    path: PathBuf,
)
    requires
        window.is_consistent(),
    ensures
        window.failed(parent, message).item_at(path) == window.item_at(path),
{
    let after = window.failed(parent, message);
    if window.store_for(parent) is Some {
        assert(after.keys == window.keys + seq![None::<PathBuf>]);
        lemma_key_prefix(window.keys, after.keys, path, window.keys.len() as int);
    }
}

/// A size changes the row it is for, and the shares of the level it is in, and
/// nothing else.
pub proof fn law_size_changes_one_row(
    window: ModelsView,
    path: PathBuf,
    parent: Option<PathBuf>,
    size: u64,
    size_human: Seq<char>,
    i: int,
)
    requires
        window.is_consistent(),
        0 <= i < window.items.len(),
        window.item_at(path) != Some(i),
    ensures
        ({
            let after = window.sized(path, parent, size, size_human);
            &&& after.items[i] == (ItemView { percent: after.items[i].percent, ..window.items[i] })
            &&& after.keys == window.keys
            &&& after.owners == window.owners
            &&& after.levels == window.levels
        }),
{
    lemma_key_in_range(window.keys, path, window.keys.len() as int);
}

/// The children of a row are asked for once: a row that has been expanded
/// gives nothing to list when it is expanded again.
pub proof fn law_children_are_asked_for_once(window: ModelsView, i: int)
    requires
        0 <= i < window.items.len(),
    ensures
        window.expanded(i).items[i].loaded,
        window.expanded(i).expanded(i) == window.expanded(i),
{
    assert(window.expanded(i).expanded(i).items =~= window.expanded(i).items);
}

/// The counters of the status bar only ever grow, by the directories of a
/// listing and by one for each size that comes in.
pub proof fn law_counters_only_grow(window: WindowView, msg: WorkerMsg)
    requires
        window.after(msg) is Some,
    ensures
        window.after(msg)->0.status.queued >= window.status.queued,
        window.after(msg)->0.status.sized == window.status.sized + if msg is Sized {
            1int
        } else {
            0int
        },
        !(msg is Enumerated) ==> window.after(msg)->0.status.queued == window.status.queued,
{
}

} // verus!
