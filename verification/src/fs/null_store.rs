//! A store for trees that are held in memory.

use std::sync::Arc;

use vstd::prelude::*;

use super::item::{InodeToFileId, Item};
use super::store::Store;
use crate::btree::{Node, NodeId, NodeStore};
use crate::id::{root_id, Unique};

verus! {

/// A store that keeps no nodes, and counts identifiers up. Reading any node from it fails.
#[derive(Debug)]
pub struct NullStore {
    items: NullItems,
    inodes: NullInodes,
    next_id: Unique,
}

/// The nodes with items of a [`NullStore`]: none.
#[derive(Debug)]
pub struct NullItems;

/// The nodes with the files of inodes of a [`NullStore`]: none.
#[derive(Debug)]
pub struct NullInodes;

impl NullStore {
    /// A store whose identifiers start at `first`. All smaller ones are taken.
    pub fn new(first: Unique) -> (store: Self)
        requires
            first != root_id(),
        ensures
            forall|id: Unique| #[trigger] store.issued(id) <==> id.0 < first.0,
            store.supply() == u128::MAX - first.0,
    {
        NullStore { items: NullItems, inodes: NullInodes, next_id: first }
    }

    #[verifier::type_invariant]
    spec fn counts_from_one(&self) -> bool {
        self.next_id != root_id()
    }
}

impl NodeStore<Item> for NullItems {
    type ReadError = ();

    closed spec fn node(&self, id: NodeId) -> Node<Item> {
        arbitrary()
    }

    open spec fn may_fail(&self, id: NodeId, error: ()) -> bool {
        true
    }

    fn get(&self, id: NodeId) -> (result: Result<Arc<Node<Item>>, ()>)
        ensures
            result is Err,
    {
        Err(())
    }
}

impl NodeStore<InodeToFileId> for NullInodes {
    type ReadError = ();

    closed spec fn node(&self, id: NodeId) -> Node<InodeToFileId> {
        arbitrary()
    }

    open spec fn may_fail(&self, id: NodeId, error: ()) -> bool {
        true
    }

    fn get(&self, id: NodeId) -> (result: Result<Arc<Node<InodeToFileId>>, ()>)
        ensures
            result is Err,
    {
        Err(())
    }
}

impl Store for NullStore {
    type ReadError = ();

    type ItemStore = NullItems;

    type InodeToFileIdStore = NullInodes;

    closed spec fn items(&self) -> NullItems {
        self.items
    }

    closed spec fn inodes(&self) -> NullInodes {
        self.inodes
    }

    closed spec fn issued(&self, id: Unique) -> bool {
        id.0 < self.next_id.0
    }

    closed spec fn supply(&self) -> u128 {
        (u128::MAX - self.next_id.0) as u128
    }

    fn item_store(&self) -> (store: &NullItems) {
        &self.items
    }

    fn inode_to_file_id_store(&self) -> (store: &NullInodes) {
        &self.inodes
    }

    fn gen_id(&mut self) -> (id: Unique)
        ensures
            // The smallest identifier that is not taken.
            forall|other: Unique| !#[trigger] old(self).issued(other) ==> id.0 <= other.0,
    {
        proof {
            use_type_invariant(&*self);
        }
        let id = self.next_id;
        let mut next = id;
        next.inc();
        self.next_id = next;
        id
    }
}

} // verus!
