//! The items of a tree: the metadata of files and the entries of directories.

use std::sync::Arc;

use vstd::prelude::*;
use vstd::std_specs::convert::{FromSpec, FromSpecImpl};

use super::key::{entry_key, metadata_key, Key, KeyKind, KeyView, KindView};
use super::lists::{IdList, Move, MoveList};
use crate::btree;
use crate::btree::Dimension;
use crate::id::Unique;

verus! {

/// The number that the file system gives a file.
#[derive(Copy, Clone, Debug, Eq, PartialEq, Structural, Ord, PartialOrd, Hash)]
pub struct Inode(pub u64);

/// What is known of a file when it is listed.
#[derive(Copy, Clone, Debug, Eq, PartialEq, Structural)]
pub struct Metadata {
    pub inode: Inode,
    pub is_dir: bool,
}

/// An item of a tree.
#[derive(Debug, Eq, PartialEq)]
pub enum Item {
    /// The metadata of the file `file_id`.
    Metadata { file_id: Unique, is_dir: bool, inode: Inode },
    /// An entry of the directory `file_id`, which names the file `child_id`. It is deleted once
    /// `deletions` holds an identifier.
    DirEntry {
        file_id: Unique,
        entry_id: Unique,
        child_id: Unique,
        name: Arc<Vec<u8>>,
        is_dir: bool,
        deletions: IdList,
        moves: MoveList,
    },
}

/// The file that has an inode.
#[derive(Copy, Clone, Debug, Eq, PartialEq, Structural)]
pub struct InodeToFileId {
    pub inode: Inode,
    pub file_id: Unique,
}

/// The model of an [`Item`].
pub enum ItemView {
    Metadata { file_id: Unique, is_dir: bool, inode: Inode },
    DirEntry {
        file_id: Unique,
        entry_id: Unique,
        child_id: Unique,
        name: Seq<u8>,
        is_dir: bool,
        deletions: Seq<Unique>,
        moves: Seq<Move>,
    },
}

impl ItemView {
    /// The file that the item belongs to.
    pub open spec fn file_id(self) -> Unique {
        match self {
            ItemView::Metadata { file_id, .. } => file_id,
            ItemView::DirEntry { file_id, .. } => file_id,
        }
    }

    /// Whether the item is about a directory.
    pub open spec fn is_dir(self) -> bool {
        match self {
            ItemView::Metadata { is_dir, .. } => is_dir,
            ItemView::DirEntry { is_dir, .. } => is_dir,
        }
    }

    /// The inode in the item, if it is metadata.
    pub open spec fn inode(self) -> Inode {
        self->Metadata_inode
    }

    /// The file that the item names, if it is a directory entry.
    pub open spec fn child_id(self) -> Unique {
        self->DirEntry_child_id
    }

    /// The name in the item, if it is a directory entry.
    pub open spec fn name(self) -> Seq<u8> {
        self->DirEntry_name
    }

    /// Whether the item is a directory entry that was deleted.
    pub open spec fn is_deleted(self) -> bool {
        self is DirEntry && self->DirEntry_deletions.len() > 0
    }

    /// The key of the item.
    pub open spec fn key(self) -> KeyView {
        match self {
            ItemView::Metadata { file_id, .. } => metadata_key(file_id),
            ItemView::DirEntry { file_id, is_dir, name, .. } => entry_key(file_id, is_dir, name),
        }
    }

    /// The directory entry with the identifiers `ids` for its deletions.
    pub open spec fn with_deletions(self, ids: Seq<Unique>) -> ItemView {
        match self {
            ItemView::Metadata { .. } => self,
            ItemView::DirEntry { file_id, entry_id, child_id, name, is_dir, moves, .. } => {
                ItemView::DirEntry {
                    file_id,
                    entry_id,
                    child_id,
                    name,
                    is_dir,
                    deletions: ids,
                    moves,
                }
            },
        }
    }

    /// The directory entry after the deletion `id`.
    pub open spec fn delete(self, id: Unique) -> ItemView {
        self.with_deletions(self->DirEntry_deletions.push(id))
    }
}

impl From<u64> for Inode {
    fn from(inode: u64) -> (result: Self)
        ensures
            result.0 == inode,
    {
        Inode(inode)
    }
}

/// An inode is the number that it is made from, also where [`Metadata::dir`] and [`Metadata::file`]
/// convert the number.
pub proof fn law_inode_number(n: u64)
    ensures
        <Inode as FromSpec<u64>>::from_spec(n).0 == n,
        forall|inode: Inode|
            #[trigger] call_ensures(<u64 as Into<Inode>>::into, (n,), inode) ==> inode.0 == n,
        forall|metadata: Metadata|
            #[trigger] call_ensures(Metadata::dir::<u64>, (n,), metadata) ==> metadata.is_dir
                && metadata.inode.0 == n,
        forall|metadata: Metadata|
            #[trigger] call_ensures(Metadata::file::<u64>, (n,), metadata) ==> !metadata.is_dir
                && metadata.inode.0 == n,
{
}

impl FromSpecImpl<u64> for Inode {
    open spec fn obeys_from_spec() -> bool {
        true
    }

    open spec fn from_spec(inode: u64) -> Inode {
        Inode(inode)
    }
}

impl Default for Inode {
    fn default() -> (inode: Self)
        ensures
            inode == Inode(0),
    {
        Inode(0)
    }
}

impl Dimension for Inode {
    open spec fn before(self, other: Self) -> bool {
        self.0 < other.0
    }

    fn is_before(&self, other: &Self) -> (b: bool) {
        self.0 < other.0
    }

    fn from_summary(summary: &Self) -> (dimension: &Self) {
        summary
    }

    fn add_assign(&mut self, other: &Self) {
        if self.0 < other.0 {
            *self = *other;
        }
    }

    fn add(self, other: &Self) -> (sum: Self) {
        if self.0 < other.0 {
            *other
        } else {
            self
        }
    }
}

impl Metadata {
    /// The metadata of a directory.
    pub fn dir<I: Into<Inode>>(inode: I) -> (metadata: Self)
        ensures
            metadata.is_dir,
            call_ensures(<I as Into<Inode>>::into, (inode,), metadata.inode),
    {
        Metadata { is_dir: true, inode: inode.into() }
    }

    /// The metadata of a file that is no directory.
    pub fn file<I: Into<Inode>>(inode: I) -> (metadata: Self)
        ensures
            !metadata.is_dir,
            call_ensures(<I as Into<Inode>>::into, (inode,), metadata.inode),
    {
        Metadata { is_dir: false, inode: inode.into() }
    }
}

impl View for Item {
    type V = ItemView;

    open spec fn view(&self) -> ItemView {
        match self {
            Item::Metadata { file_id, is_dir, inode } => ItemView::Metadata {
                file_id: *file_id,
                is_dir: *is_dir,
                inode: *inode,
            },
            Item::DirEntry { file_id, entry_id, child_id, name, is_dir, deletions, moves } => {
                ItemView::DirEntry {
                    file_id: *file_id,
                    entry_id: *entry_id,
                    child_id: *child_id,
                    name: name@,
                    is_dir: *is_dir,
                    deletions: deletions@,
                    moves: moves@,
                }
            },
        }
    }
}

impl Clone for Item {
    fn clone(&self) -> (copy: Self)
        ensures
            copy@ == self@,
    {
        match self {
            Item::Metadata { file_id, is_dir, inode } => Item::Metadata {
                file_id: *file_id,
                is_dir: *is_dir,
                inode: *inode,
            },
            Item::DirEntry { file_id, entry_id, child_id, name, is_dir, deletions, moves } => {
                Item::DirEntry {
                    file_id: *file_id,
                    entry_id: *entry_id,
                    child_id: *child_id,
                    name: name.clone(),
                    is_dir: *is_dir,
                    deletions: deletions.duplicate(),
                    moves: moves.duplicate(),
                }
            },
        }
    }
}

impl Item {
    /// [`Item::key`] in contracts.
    pub open spec fn key_spec(&self) -> Key {
        match self {
            Item::Metadata { file_id, .. } => Key { file_id: *file_id, kind: KeyKind::Metadata },
            Item::DirEntry { file_id, is_dir, name, .. } => Key {
                file_id: *file_id,
                kind: KeyKind::DirEntry { is_dir: *is_dir, name: *name },
            },
        }
    }

    /// The key of the item.
    pub fn key(&self) -> (key: Key)
        ensures
            key == self.key_spec(),
            key@ == self@.key(),
            match self@ {
                ItemView::Metadata { file_id, .. } => key.file_id == file_id
                    && key.kind@ is Metadata,
                ItemView::DirEntry { file_id, is_dir, name, .. } => key.file_id == file_id
                    && key.kind@ == (KindView::DirEntry { is_dir, name }),
            },
    {
        match self {
            Item::Metadata { file_id, .. } => Key::metadata(*file_id),
            Item::DirEntry { file_id, is_dir, name, .. } => {
                Key::dir_entry(*file_id, *is_dir, name.clone())
            },
        }
    }

    /// Whether the item is the metadata of a directory.
    pub fn is_dir_metadata(&self) -> (b: bool)
        ensures
            b == (self@ matches ItemView::Metadata { is_dir, .. } && is_dir),
    {
        match self {
            Item::Metadata { is_dir, .. } => *is_dir,
            _ => false,
        }
    }

    /// Whether the item is a directory entry.
    pub fn is_dir_entry(&self) -> (b: bool)
        ensures
            b == (self@ is DirEntry),
    {
        match self {
            Item::DirEntry { .. } => true,
            _ => false,
        }
    }

    /// Whether the item is a directory entry that was deleted.
    pub fn is_deleted(&self) -> (b: bool)
        ensures
            b == self@.is_deleted(),
            b == (self@ matches ItemView::DirEntry { deletions, .. } && deletions.len() > 0),
    {
        match self {
            Item::DirEntry { deletions, .. } => !deletions.is_empty(),
            _ => false,
        }
    }

    /// The deletions of a directory entry, to be added to.
    pub fn deletions_mut(&mut self) -> (deletions: &mut IdList)
        requires
            old(self)@ is DirEntry,
        ensures
            deletions@ == old(self)@->DirEntry_deletions,
            final(self)@ == old(self)@.with_deletions(final(deletions)@),
            final(self)@ is DirEntry,
            final(self)@->DirEntry_deletions == final(deletions)@,
            final(self)@->DirEntry_file_id == old(self)@->DirEntry_file_id,
            final(self)@->DirEntry_entry_id == old(self)@->DirEntry_entry_id,
            final(self)@->DirEntry_child_id == old(self)@->DirEntry_child_id,
            final(self)@->DirEntry_name == old(self)@->DirEntry_name,
            final(self)@->DirEntry_is_dir == old(self)@->DirEntry_is_dir,
            final(self)@->DirEntry_moves == old(self)@->DirEntry_moves,
    {
        match self {
            Item::DirEntry { deletions, .. } => deletions,
            _ => vstd::pervasive::unreached(),
        }
    }
}

impl btree::Item for Item {
    type Summary = Key;

    open spec fn summary(&self) -> Key {
        self.key_spec()
    }

    fn summarize(&self) -> (summary: Key) {
        self.key()
    }
}

impl btree::Item for InodeToFileId {
    type Summary = Inode;

    open spec fn summary(&self) -> Inode {
        self.inode
    }

    fn summarize(&self) -> (summary: Inode) {
        self.inode
    }
}

} // verus!
