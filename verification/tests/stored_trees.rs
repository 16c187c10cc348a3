use std::collections::HashMap;
use std::sync::Arc;

use eon_fs::btree;
use eon_fs::btree::{Node, NodeId, NodeStore};
use eon_fs::fs::builder::Builder;
use eon_fs::fs::item::{InodeToFileId, Item, Metadata};
use eon_fs::fs::store::Store;
use eon_fs::fs::tree::Tree;
use eon_fs::id::Unique;

#[derive(Debug, PartialEq)]
struct Missing(NodeId);

struct Nodes {
    nodes: HashMap<NodeId, Arc<Node<Item>>>,
    offline: bool,
}

struct NoInodes;

struct MapStore {
    items: Nodes,
    inodes: NoInodes,
    next_id: u128,
}

// The functions that are there for contracts only are never called.
impl NodeStore<Item> for Nodes {
    type ReadError = Missing;

    fn node(&self, _id: NodeId) -> Node<Item> {
        unreachable!()
    }

    fn may_fail(&self, _id: NodeId, _error: Missing) -> bool {
        unreachable!()
    }

    fn get(&self, id: NodeId) -> Result<Arc<Node<Item>>, Missing> {
        if self.offline {
            Err(Missing(id))
        } else {
            self.nodes.get(&id).cloned().ok_or(Missing(id))
        }
    }
}

impl NodeStore<InodeToFileId> for NoInodes {
    type ReadError = Missing;

    fn node(&self, _id: NodeId) -> Node<InodeToFileId> {
        unreachable!()
    }

    fn may_fail(&self, _id: NodeId, _error: Missing) -> bool {
        unreachable!()
    }

    fn get(&self, id: NodeId) -> Result<Arc<Node<InodeToFileId>>, Missing> {
        Err(Missing(id))
    }
}

impl Store for MapStore {
    type ReadError = Missing;
    type ItemStore = Nodes;
    type InodeToFileIdStore = NoInodes;

    fn items(&self) -> Nodes {
        unreachable!()
    }

    fn inodes(&self) -> NoInodes {
        unreachable!()
    }

    fn issued(&self, _id: Unique) -> bool {
        unreachable!()
    }

    fn supply(&self) -> u128 {
        unreachable!()
    }

    fn item_store(&self) -> &Nodes {
        &self.items
    }

    fn inode_to_file_id_store(&self) -> &NoInodes {
        &self.inodes
    }

    fn gen_id(&mut self) -> Unique {
        let id = Unique(self.next_id);
        self.next_id += 1;
        id
    }
}

impl MapStore {
    fn new() -> Self {
        MapStore {
            items: Nodes { nodes: HashMap::new(), offline: false },
            inodes: NoInodes,
            next_id: 1,
        }
    }

    /// Moves the items of a tree into the store.
    fn keep(&mut self, tree: Tree, id: NodeId) -> Tree {
        match tree.items {
            btree::Tree::Resident(node) => {
                self.items.nodes.insert(id, Arc::new(node));
            }
            btree::Tree::Stored(_) => panic!("the tree is kept already"),
        }
        Tree { items: btree::Tree::Stored(id), file_ids_by_inode: tree.file_ids_by_inode }
    }
}

fn sample(db: &mut MapStore) -> Tree {
    let mut builder = Builder::new(Tree::new(), db).unwrap();
    builder.push(b"a".to_vec(), Metadata::dir(1), 1, db).unwrap();
    builder.push(b"b".to_vec(), Metadata::file(2), 2, db).unwrap();
    builder.push(b"c".to_vec(), Metadata::file(3), 1, db).unwrap();
    builder.tree(db).unwrap()
}

fn listed(tree: &Tree, db: &MapStore) -> Vec<Vec<Vec<u8>>> {
    let paths = tree.paths(db).unwrap();
    paths.iter().map(|path| path.iter().map(|name| name.to_vec()).collect()).collect()
}

#[test]
fn stored_tree_lists_its_entries() {
    let mut db = MapStore::new();
    let tree = sample(&mut db);
    let resident = listed(&tree, &db);
    let stored = db.keep(tree, NodeId(7));
    assert_eq!(listed(&stored, &db), resident);
    assert_eq!(resident.len(), 3);
}

#[test]
fn missing_node_is_reported() {
    let mut db = MapStore::new();
    let tree = Tree {
        items: btree::Tree::Stored(NodeId(9)),
        file_ids_by_inode: btree::Tree::new(),
    };
    assert_eq!(tree.cursor(&db).err(), Some(Missing(NodeId(9))));
    assert_eq!(tree.paths(&db).err(), Some(Missing(NodeId(9))));
    let path = vec![Arc::new(b"a".to_vec())];
    assert_eq!(tree.id_for_path(&path, &db).err(), Some(Missing(NodeId(9))));
    assert_eq!(Builder::new(tree.clone(), &db).err(), Some(Missing(NodeId(9))));

    let kept = sample(&mut db);
    let kept = db.keep(kept, NodeId(3));
    let mut cursor = kept.cursor(&db).unwrap();
    let mut builder = Builder::new(kept.clone(), &db).unwrap();
    let late = Builder::new(kept, &db).unwrap();
    db.items.offline = true;
    assert_eq!(cursor.metadata(&db).err(), Some(Missing(NodeId(3))));
    assert_eq!(cursor.dir_entry(&db).err(), Some(Missing(NodeId(3))));
    assert_eq!(cursor.file_id(&db), Err(Missing(NodeId(3))));
    assert_eq!(cursor.inode(&db), Err(Missing(NodeId(3))));
    assert_eq!(cursor.name(&db), Err(Missing(NodeId(3))));
    let other = Metadata::dir(5);
    assert_eq!(cursor.cmp_with_entry(&b"a".to_vec(), &other, &db), Err(Missing(NodeId(3))));
    let pushed = builder.push(b"a".to_vec(), Metadata::dir(1), 1, &mut db);
    assert_eq!(pushed, Err(Missing(NodeId(3))));
    assert_eq!(late.tree(&mut db).err(), Some(Missing(NodeId(3))));
    assert_eq!(cursor.next(&db), Err(Missing(NodeId(3))));
}

#[test]
fn missing_node_stops_next_sibling() {
    let mut db = MapStore::new();
    let tree = sample(&mut db);
    let tree = db.keep(tree, NodeId(4));
    let mut cursor = tree.cursor(&db).unwrap();
    db.items.offline = true;
    assert_eq!(cursor.next_sibling(&db), Err(Missing(NodeId(4))));
}

#[test]
fn nothing_is_read_at_the_end() {
    let mut db = MapStore::new();
    let tree = sample(&mut db);
    let tree = db.keep(tree, NodeId(6));
    let mut cursor = tree.cursor(&db).unwrap();
    while cursor.next(&db).unwrap() {}
    db.items.offline = true;
    assert_eq!(cursor.metadata(&db), Ok(None));
    assert_eq!(cursor.dir_entry(&db), Ok(None));
    assert_eq!(cursor.file_id(&db), Ok(None));
    assert_eq!(cursor.inode(&db), Ok(None));
    assert_eq!(cursor.name(&db), Ok(None));
    assert_eq!(cursor.next(&db), Ok(false));
    assert_eq!(cursor.next_sibling(&db), Ok(false));
    assert_eq!((cursor.depth(), cursor.path().len()), (0, 0));
}

#[test]
fn rebuilding_a_stored_tree_brings_it_into_memory() {
    let mut db = MapStore::new();
    let tree = sample(&mut db);
    let stored = db.keep(tree, NodeId(5));
    let mut builder = Builder::new(stored, &db).unwrap();
    builder.push(b"a".to_vec(), Metadata::dir(1), 1, &mut db).unwrap();
    builder.push(b"x".to_vec(), Metadata::dir(4), 1, &mut db).unwrap();
    let rebuilt = builder.tree(&mut db).unwrap();
    db.items.offline = true;
    assert_eq!(listed(&rebuilt, &db), vec![vec![b"a".to_vec()], vec![b"x".to_vec()]]);
}
