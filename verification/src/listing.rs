//! Listing a directory's children without going into them.
use std::path::PathBuf;

use vstd::prelude::*;

use crate::model::Entry;
use crate::scan::name_of;
#[allow(unused_imports)]
use crate::order::lemma_mapped_multiset;
#[allow(unused_imports)]
use crate::outside::{path_file_name, path_text};
#[allow(unused_imports)]
use crate::scan::{found_entries, shown_name, Outcome};

verus! {

/// What `stat` says of a child.
#[derive(Debug, Clone, Copy)]
pub struct ChildMetadata {
    /// Whether the child is a directory.
    pub is_dir: bool,
    /// The length it claims.
    pub len: u64,
}

/// A child as the directory listing shows it, with its metadata where that
/// could be read.
#[derive(Debug)]
pub struct ListedChild {
    /// The child's path.
    pub path: PathBuf,
    /// Its metadata, or `None` where `stat` failed.
    pub metadata: Option<ChildMetadata>,
}

/// The size that a listing gives for a child: its length, and 0 for a
/// directory, whose total is still to be found.
pub open spec fn listed_size(metadata: ChildMetadata) -> u64 {
    if metadata.is_dir {
        0
    } else {
        metadata.len
    }
}

/// The entry shows the child with this path and metadata.
pub open spec fn shows(entry: Entry, path: PathBuf, metadata: ChildMetadata) -> bool {
    &&& entry.path == path
    &&& entry.name@ == shown_name(path)
    &&& entry.size_in_bytes == listed_size(metadata)
    &&& entry.is_dir == metadata.is_dir
}

/// The children whose metadata could be read, in their order.
pub open spec fn readable(children: Seq<ListedChild>) -> Seq<ListedChild>
    decreases children.len(),
{
    if children.len() == 0 {
        Seq::empty()
    } else if children.last().metadata is Some {
        readable(children.drop_last()).push(children.last())
    } else {
        readable(children.drop_last())
    }
}

/// The entry for a child of the listing.
pub fn listed_entry(path: &PathBuf, metadata: ChildMetadata) -> (entry: Entry)
    ensures
        shows(entry, *path, metadata),
{
    let size_in_bytes: u64 = if metadata.is_dir {
        0
    } else {
        metadata.len
    };
    Entry { path: path.clone(), name: name_of(path), size_in_bytes, is_dir: metadata.is_dir }
}

/// The entries for the children of a directory, in the order of the listing.
/// Children whose metadata cannot be read are left out: one denied sibling
/// does not hide the others.
pub fn enumerate_children(children: &Vec<ListedChild>) -> (entries: Vec<Entry>)
    ensures
        entries@.len() == readable(children@).len(),
        forall|i: int|
            0 <= i < entries@.len() ==> shows(
                #[trigger] entries@[i],
                readable(children@)[i].path,
                readable(children@)[i].metadata->0,
            ),
{
    let mut entries: Vec<Entry> = Vec::new();
    let mut i: usize = 0;
    while i < children.len()
        invariant
            i <= children.len(),
            entries@.len() == readable(children@.take(i as int)).len(),
            forall|k: int|
                0 <= k < entries@.len() ==> shows(
                    #[trigger] entries@[k],
                    readable(children@.take(i as int))[k].path,
                    readable(children@.take(i as int))[k].metadata->0,
                ),
        decreases children.len() - i,
    {
        proof {
            assert(children@.take(i + 1).drop_last() =~= children@.take(i as int));
        }
        if let Some(metadata) = children[i].metadata {
            entries.push(listed_entry(&children[i].path, metadata));
        }
        i += 1;
    }
    assert(children@.take(i as int) =~= children@);
    entries
}

/// What a listing and an analysis both say of a child: its path, its name, and
/// whether it is a directory.
pub open spec fn identity(entry: Entry) -> (PathBuf, Seq<char>, bool) {
    (entry.path, entry.name@, entry.is_dir)
}

/// The same of several.
pub open spec fn identities(entries: Seq<Entry>) -> Seq<(PathBuf, Seq<char>, bool)> {
    entries.map_values(|entry: Entry| identity(entry))
}

/// The entry is for this child.
pub open spec fn is_entry_for(entry: Entry, child: ListedChild) -> bool {
    &&& child.metadata is Some
    &&& identity(entry) == (child.path, shown_name(child.path), child.metadata->0.is_dir)
}

/// An analysis found of a child what its listing shows.
pub open spec fn agrees(outcome: Outcome, child: ListedChild) -> bool {
    match outcome {
        Outcome::Unreadable(path) => path == child.path && child.metadata is None,
        Outcome::Sized(entry, _) => is_entry_for(entry, child),
    }
}

proof fn lemma_same_children(children: Seq<ListedChild>, log: Seq<Outcome>)
    requires
        children.len() == log.len(),
        forall|i: int| 0 <= i < log.len() ==> agrees(#[trigger] log[i], children[i]),
    ensures
        found_entries(log).len() == readable(children).len(),
        forall|k: int|
            0 <= k < found_entries(log).len() ==> is_entry_for(
                #[trigger] found_entries(log)[k],
                readable(children)[k],
            ),
    decreases log.len(),
{
    if log.len() > 0 {
        let n = log.len() - 1;
        assert forall|i: int| 0 <= i < log.drop_last().len() implies agrees(
            #[trigger] log.drop_last()[i],
            children.drop_last()[i],
        ) by {
            assert(agrees(log[i], children[i]));
        }
        lemma_same_children(children.drop_last(), log.drop_last());
        assert(agrees(log[n], children[n]));
        let before = found_entries(log.drop_last());
        assert forall|k: int| 0 <= k < found_entries(log).len() implies is_entry_for(
            #[trigger] found_entries(log)[k],
            readable(children)[k],
        ) by {
            if k < before.len() {
                assert(found_entries(log)[k] == before[k]);
                assert(readable(children)[k] == readable(children.drop_last())[k]);
            }
        }
    }
}

/// A listing and an analysis of the same children agree: they have entries for
/// the same children, with the same paths, names and kinds. The listing has
/// them in the order in which they were looked at, the analysis in its own.
pub proof fn law_listing_agrees_with_analysis(
    children: Seq<ListedChild>,
    listing: Seq<Entry>,
    log: Seq<Outcome>,
    entries: Seq<Entry>,
)
    requires
        children.len() == log.len(),
        forall|i: int| 0 <= i < log.len() ==> agrees(#[trigger] log[i], children[i]),
        listing.len() == readable(children).len(),
        forall|i: int|
            0 <= i < listing.len() ==> shows(
                #[trigger] listing[i],
                readable(children)[i].path,
                readable(children)[i].metadata->0,
            ),
        entries.to_multiset() == found_entries(log).to_multiset(),
    ensures
        identities(listing) == identities(found_entries(log)),
        identities(listing).to_multiset() == identities(entries).to_multiset(),
{
    lemma_same_children(children, log);
    assert forall|k: int| 0 <= k < listing.len() implies #[trigger] identities(listing)[k]
        == identities(found_entries(log))[k] by {
        assert(shows(listing[k], readable(children)[k].path, readable(children)[k].metadata->0));
        assert(is_entry_for(found_entries(log)[k], readable(children)[k]));
    }
    assert(identities(listing) =~= identities(found_entries(log)));
    lemma_mapped_multiset(entries, found_entries(log), |entry: Entry| identity(entry));
}

/// Of the children of a directory just those are listed whose metadata could be
/// read, in their order.
pub proof fn law_only_the_unreadable_are_left_out(children: Seq<ListedChild>)
    ensures
        readable(children) == children.filter(|child: ListedChild| child.metadata is Some),
    decreases children.len(),
{
    reveal(Seq::filter);
    if children.len() > 0 {
        law_only_the_unreadable_are_left_out(children.drop_last());
    }
}

/// An entry of a listing has the path of its child, and is a directory where
/// the child is one. It is as large as the child claims to be, and a directory
/// counts for nothing as long as it has not been sized.
pub proof fn law_listed_entries_show_their_children(
    entry: Entry,
    path: PathBuf,
    metadata: ChildMetadata,
)
    requires
        shows(entry, path, metadata),
    ensures
        entry.path == path,
        entry.is_dir == metadata.is_dir,
        metadata.is_dir ==> entry.size_in_bytes == 0,
        !metadata.is_dir ==> entry.size_in_bytes == metadata.len,
        path_file_name(path) matches Some(name) ==> entry.name@ == name,
        path_file_name(path) is None ==> entry.name@ == path_text(path),
{
}

} // verus!
