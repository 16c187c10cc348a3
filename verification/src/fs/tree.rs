//! Trees.

use std::sync::Arc;

use vstd::prelude::*;

use super::cursor::{lemma_seek_index, view_items, Cursor};
use super::item::{InodeToFileId, Item, ItemView};
use super::key::{entry_key, metadata_key, Key};
use super::model::{listing, seek, well_formed};
use super::store::{same_nodes, Store};
use crate::btree;
use crate::btree::{copy_items, NodeStore, SeekBias};
use crate::id::{root_id, Unique};

verus! {

/// A directory tree: its items, and the files that have an inode.
pub struct Tree {
    pub items: btree::Tree<Item>,
    pub file_ids_by_inode: btree::Tree<InodeToFileId>,
}

/// Whether every file that the items speak of has an identifier that the store has issued.
pub open spec fn ids_issued<S: Store>(items: Seq<ItemView>, db: &S) -> bool {
    forall|p: int|
        0 <= p < items.len() ==> (db.issued((#[trigger] items[p]).file_id()) || items[p].file_id()
            == root_id()) && (items[p] is DirEntry ==> db.issued(items[p].child_id()))
}

impl Tree {
    /// The items of the tree.
    pub open spec fn contents<S: Store>(&self, db: &S) -> Seq<ItemView> {
        view_items(self.items.contents(&db.items()))
    }

    /// Whether reading the tree may fail with `error`.
    pub open spec fn may_fail<S: Store>(&self, db: &S, error: S::ReadError) -> bool {
        self.items.may_fail(&db.items(), error)
    }

    /// Whether the items make a tree, and the identifiers in them were issued.
    pub open spec fn wf<S: Store>(&self, db: &S) -> bool {
        well_formed(self.contents(db)) && ids_issued(self.contents(db), db)
    }

    /// The tree means the same in stores that answer alike.
    pub proof fn lemma_same_nodes<S: Store>(&self, a: &S, b: &S)
        requires
            same_nodes(&a.items(), &b.items()),
        ensures
            self.contents(a) == self.contents(b),
    {
        if let btree::Tree::Stored(id) = self.items {
            assert(a.items().node(id) == b.items().node(id));
        }
    }
}

/// Where a search for the directory `name` among the entries of `dir` ends.
pub open spec fn search(items: Seq<ItemView>, dir: Unique, name: Seq<u8>) -> int {
    seek(
        items,
        seek(items, 0, metadata_key(dir), SeekBias::Right),
        entry_key(dir, true, name),
        SeekBias::Left,
    )
}

/// The file that a search for the directory `name` among the entries of `dir` finds: that of the
/// entry at which the search ends, if it has the name.
pub open spec fn lookup_name(items: Seq<ItemView>, dir: Unique, name: Seq<u8>) -> Option<Unique> {
    let p = search(items, dir, name);
    if p < items.len() && items[p] is DirEntry && items[p].name() == name {
        Some(items[p].child_id())
    } else {
        None
    }
}

/// The file that a search from `dir` on finds, name by name.
pub open spec fn lookup(items: Seq<ItemView>, dir: Unique, path: Seq<Seq<u8>>) -> Option<Unique>
    decreases path.len(),
{
    if path.len() == 0 {
        Some(dir)
    } else {
        match lookup_name(items, dir, path[0]) {
            Some(id) => lookup(items, id, path.drop_first()),
            None => None,
        }
    }
}

/// The names in a path.
pub open spec fn path_names(path: Seq<Arc<Vec<u8>>>) -> Seq<Seq<u8>> {
    Seq::new(path.len(), |k: int| path[k]@)
}

/// Compares two names for equality.
fn same_name(a: &Vec<u8>, b: &Vec<u8>) -> (same: bool)
    ensures
        same == (a@ == b@),
{
    if a.len() != b.len() {
        return false;
    }
    let mut i: usize = 0;
    while i < a.len()
        invariant
            a.len() == b.len(),
            i <= a.len(),
            forall|k: int| 0 <= k < i ==> a[k] == b[k],
        decreases a.len() - i,
    {
        if a[i] != b[i] {
            return false;
        }
        i = i + 1;
    }
    assert(a@ =~= b@);
    true
}

impl Tree {
    /// The tree without entries.
    pub fn new() -> (tree: Self)
        ensures
            tree.is_new(),
    {
        Tree { items: btree::Tree::new(), file_ids_by_inode: btree::Tree::new() }
    }

    /// Whether the tree is in memory and holds nothing.
    pub open spec fn is_new(&self) -> bool {
        &&& self.items is Resident
        &&& self.items->Resident_0.items@.len() == 0
        &&& self.file_ids_by_inode is Resident
        &&& self.file_ids_by_inode->Resident_0.items@.len() == 0
    }

    /// A cursor at the first entry of the tree.
    pub fn cursor<S: Store>(&self, db: &S) -> (result: Result<Cursor, S::ReadError>)
        requires
            well_formed(self.contents(db)),
        ensures
            match result {
                Ok(cursor) => {
                    &&& cursor.wf(db)
                    &&& cursor.rest(db) == listing(self.contents(db))
                    &&& cursor.root() matches Some(root) ==> root.reads(self.items)
                },
                Err(error) => self.may_fail(db, error),
            },
    {
        Cursor::new(self, db)
    }

    /// The identifier of the file that a search for the names of `path` ends at. The search is for
    /// directories: each name is looked for where a directory of that name would be.
    pub fn id_for_path<S: Store>(&self, path: &Vec<Arc<Vec<u8>>>, db: &S) -> (result: Result<
        Option<Unique>,
        S::ReadError,
    >)
        ensures
            match result {
                Ok(id) => id == lookup(self.contents(db), root_id(), path_names(path@)),
                Err(error) => self.may_fail(db, error),
            },
    {
        let item_db = db.item_store();
        let ghost contents = self.items.contents(&db.items());
        let ghost items = self.contents(db);
        let ghost names = path_names(path@);
        let mut parent_file_id = Unique::default();
        let mut cursor = self.items.cursor();
        let mut i: usize = 0;
        assert(names.skip(0) =~= names);
        while i < path.len()
            invariant
                i <= path.len(),
                *item_db == db.items(),
                contents == self.items.contents(&db.items()),
                items == view_items(contents),
                items == self.contents(db),
                names == path_names(path@),
                cursor.root.reads(self.items),
                lookup(items, root_id(), names) == lookup(
                    items,
                    parent_file_id,
                    names.skip(i as int),
                ),
            decreases path.len() - i,
        {
            let name = path[i].clone();
            let key = Key::metadata(parent_file_id);
            cursor.seek(&key, SeekBias::Right, item_db)?;
            let ghost from = cursor.pos as int;
            let entry_key = Key::dir_entry(parent_file_id, true, name.clone());
            cursor.seek_forward(&entry_key, SeekBias::Left, item_db)?;
            proof {
                lemma_seek_index(contents, 0, key, SeekBias::Right);
                lemma_seek_index(contents, from, entry_key, SeekBias::Left);
                assert(cursor.pos == search(items, parent_file_id, name@));
                assert(names.skip(i as int)[0] == name@);
                assert(names.skip(i as int).drop_first() =~= names.skip(i + 1));
            }
            let item = cursor.item(item_db)?;
            match &item {
                Some(item) => {
                    assert(items[cursor.pos as int] == item@);
                    match &**item {
                        Item::DirEntry { name: entry_name, child_id, .. } => {
                            if same_name(&name, entry_name) {
                                parent_file_id = *child_id;
                            } else {
                                return Ok(None);
                            }
                        },
                        _ => {
                            return Ok(None);
                        },
                    }
                },
                None => {
                    return Ok(None);
                },
            }
            i = i + 1;
        }
        Ok(Some(parent_file_id))
    }

    /// The paths of all entries, in the order in which a cursor lists them. For a tree without
    /// entries it is the empty path alone.
    pub fn paths<S: Store>(&self, db: &S) -> (result: Result<Vec<Vec<Arc<Vec<u8>>>>, S::ReadError>)
        requires
            well_formed(self.contents(db)),
        ensures
            match result {
                Ok(paths) => {
                    let all = listing(self.contents(db));
                    if all.len() == 0 {
                        paths.len() == 1 && path_names(paths[0]@).len() == 0 && paths[0].len() == 0
                    } else {
                        &&& paths.len() == all.len()
                        &&& forall|i: int|
                            0 <= i < all.len() ==> path_names((#[trigger] paths[i])@) == all[i].path
                        &&& forall|i: int|
                            0 <= i < all.len() ==> (#[trigger] paths[i]).len() == all[i].path.len()
                        &&& forall|i: int, k: int|
                            0 <= i < all.len() && 0 <= k < all[i].path.len() ==> (
                            #[trigger] paths[i][k])@ == all[i].path[k]
                    }
                },
                Err(error) => self.may_fail(db, error),
            },
    {
        let mut paths: Vec<Vec<Arc<Vec<u8>>>> = Vec::new();
        let mut cursor = self.cursor(db)?;
        let ghost all = listing(self.contents(db));
        assert(all.skip(0) =~= all);
        loop
            invariant_except_break
                cursor.rest(db) == all.skip(paths.len() as int),
                paths.len() < all.len() || (paths.len() == 0 && all.len() == 0),
            invariant
                all == listing(self.contents(db)),
                cursor.wf(db),
                cursor.root() matches Some(root) ==> root.reads(self.items),
                forall|i: int|
                    0 <= i < paths.len() && i < all.len() ==> path_names((#[trigger] paths[i])@)
                        == all[i].path,
            ensures
                all.len() == 0 ==> paths.len() == 1 && path_names(paths[0]@).len() == 0,
                all.len() > 0 ==> paths.len() == all.len(),
            decreases all.len() - paths.len(),
        {
            let ghost n = paths.len() as int;
            proof {
                cursor.lemma_place(db);
                if n < all.len() {
                    assert(cursor.rest(db)[0] == all[n]);
                }
            }
            let path = cursor.path();
            let copy = copy_items(path, 0, path.len());
            assert(path_names(copy@) =~= cursor.names());
            paths.push(copy);
            let more = cursor.next(db)?;
            assert(all.len() > 0 ==> all.skip(n).skip(1) =~= all.skip(n + 1));
            if !more {
                break;
            }
        }
        Ok(paths)
    }
}

impl Clone for Tree {
    fn clone(&self) -> (copy: Self)
        ensures
            copy.items.same_as(self.items),
            copy.file_ids_by_inode.same_as(self.file_ids_by_inode),
    {
        Tree { items: self.items.clone(), file_ids_by_inode: self.file_ids_by_inode.clone() }
    }
}

} // verus!
