use std::collections::{HashMap, HashSet};
use std::sync::Arc;

use eon_fs::fs::builder::Builder;
use eon_fs::fs::item::Metadata;
use eon_fs::fs::null_store::NullStore;
use eon_fs::fs::tree::Tree;
use eon_fs::id::Unique;
use rand::{Rng, SeedableRng, StdRng};

const MAX_TEST_TREE_DEPTH: usize = 5;

#[derive(Clone)]
struct TestDir {
    name: String,
    inode: u64,
    dir_entries: Vec<TestDir>,
}

struct Move {
    dir: TestDir,
    old_path: Vec<String>,
    new_path: Option<Vec<String>>,
}

impl TestDir {
    fn gen<T: Rng>(rng: &mut T, next_inode: &mut u64, depth: usize) -> Self {
        let new_inode = *next_inode;
        *next_inode += 1;
        let name = gen_name(rng);
        let count = rng.gen_range(0, MAX_TEST_TREE_DEPTH - depth + 1);
        let mut tree = Self {
            name,
            inode: new_inode,
            dir_entries: (0..count).map(|_| Self::gen(rng, next_inode, depth + 1)).collect(),
        };
        tree.normalize_entries();
        tree
    }

    fn move_entry<T: Rng>(
        rng: &mut T,
        path: &mut Vec<String>,
        moves: &mut Vec<Move>,
    ) -> Option<TestDir> {
        let name = gen_name(rng);
        path.push(name.clone());
        let mut moved = None;
        let mut removes = moves.iter_mut().filter(|m| m.new_path.is_none()).collect::<Vec<_>>();
        if let Some(remove) = rng.choose_mut(&mut removes) {
            remove.new_path = Some(path.clone());
            let mut dir = remove.dir.clone();
            dir.name = name;
            moved = Some(dir);
        }
        path.pop();
        moved
    }

    fn mutate<T: Rng>(
        &mut self,
        rng: &mut T,
        path: &mut Vec<String>,
        next_inode: &mut u64,
        moves: &mut Vec<Move>,
        depth: usize,
    ) {
        path.push(self.name.clone());
        self.dir_entries.retain(|entry| {
            if rng.gen_weighted_bool(5) {
                let mut entry_path = path.clone();
                entry_path.push(entry.name.clone());
                moves.push(Move { dir: entry.clone(), old_path: entry_path, new_path: None });
                false
            } else {
                true
            }
        });
        for _ in 0..rng.gen_range(0, self.dir_entries.len() + 1) {
            rng.choose_mut(&mut self.dir_entries).unwrap().mutate(
                rng,
                path,
                next_inode,
                moves,
                depth + 1,
            );
        }
        if depth < MAX_TEST_TREE_DEPTH {
            for _ in 0..rng.gen_range(0, 5) {
                let moved_entry = if rng.gen_weighted_bool(4) {
                    Self::move_entry(rng, path, moves)
                } else {
                    None
                };
                if let Some(moved_entry) = moved_entry {
                    self.dir_entries.push(moved_entry);
                } else {
                    self.dir_entries.push(Self::gen(rng, next_inode, depth + 1));
                }
            }
        }
        self.normalize_entries();
        path.pop();
    }

    fn normalize_entries(&mut self) {
        let mut existing_names = HashSet::new();
        self.dir_entries.sort_by(|a, b| a.name.cmp(&b.name));
        self.dir_entries.retain(|entry| {
            if existing_names.contains(&entry.name) {
                false
            } else {
                existing_names.insert(entry.name.clone());
                true
            }
        });
    }

    fn paths(&self) -> Vec<String> {
        let mut cur_path = Vec::new();
        let mut paths = Vec::new();
        self.paths_recursive(&mut cur_path, &mut paths);
        paths
    }

    fn paths_recursive(&self, cur_path: &mut Vec<String>, paths: &mut Vec<String>) {
        cur_path.push(self.name.clone());
        paths.push(cur_path.join("/"));
        for dir in &self.dir_entries {
            dir.paths_recursive(cur_path, paths);
        }
        cur_path.pop();
    }

    /// The inode of the directory at the path.
    fn inode_at(&self, path: &[String]) -> Option<u64> {
        if path.first() != Some(&self.name) {
            None
        } else if path.len() == 1 {
            Some(self.inode)
        } else {
            self.dir_entries.iter().find_map(|entry| entry.inode_at(&path[1..]))
        }
    }

    fn build(&self, builder: &mut Builder, depth: usize, store: &mut NullStore) {
        let metadata = Metadata::dir(self.inode);
        builder.push(self.name.clone().into_bytes(), metadata, depth, store).unwrap();
        for dir in &self.dir_entries {
            dir.build(builder, depth + 1, store);
        }
    }
}

fn gen_name<T: Rng>(rng: &mut T) -> String {
    let mut name = String::new();
    for _ in 0..rng.gen_range(1, 4) {
        name.push(rng.gen_range(b'a', b'z' + 1).into());
    }
    name
}

/// The identifier and the inode under each path that the tree lists.
fn listed_files(tree: &Tree, store: &NullStore) -> HashMap<Vec<String>, (Unique, u64)> {
    let mut files = HashMap::new();
    let mut cursor = tree.cursor(store).unwrap();
    while let Some(id) = cursor.file_id(store).unwrap() {
        let path = cursor
            .path()
            .iter()
            .map(|name| String::from_utf8_lossy(name).into_owned())
            .collect();
        files.insert(path, (id, cursor.inode(store).unwrap().unwrap().0));
        cursor.next(store).unwrap();
    }
    files
}

fn listed_paths(tree: &Tree, store: &NullStore) -> Vec<String> {
    let paths = tree.paths(store).unwrap();
    paths
        .iter()
        .map(|path| {
            let names: Vec<String> = path
                .iter()
                .map(|name| String::from_utf8_lossy(name).into_owned())
                .collect();
            names.join("/")
        })
        .collect()
}

fn id_for_path(tree: &Tree, path: &[String], store: &NullStore) -> Option<Unique> {
    let names = path.iter().map(|name| Arc::new(name.clone().into_bytes())).collect();
    tree.id_for_path(&names, store).unwrap()
}

#[test]
fn test_builder_random() {
    let mut moved = 0;
    for seed in 0..100 {
        let mut rng = StdRng::from_seed(&[seed]);

        let mut store = NullStore::new(Unique(1));
        let mut next_inode = 0;

        let mut reference_tree = TestDir::gen(&mut rng, &mut next_inode, 0);
        let mut tree = Tree::new();
        let mut builder = Builder::new(tree.clone(), &store).unwrap();
        reference_tree.build(&mut builder, 1, &mut store);
        tree = builder.tree(&mut store).unwrap();
        assert_eq!(listed_paths(&tree, &store), reference_tree.paths());

        for _ in 0..5 {
            let mut moves = Vec::new();
            reference_tree.mutate(&mut rng, &mut Vec::new(), &mut next_inode, &mut moves, 0);

            let mut builder = Builder::new(tree.clone(), &store).unwrap();
            reference_tree.build(&mut builder, 1, &mut store);
            let new_tree = builder.tree(&mut store).unwrap();
            assert_eq!(listed_paths(&new_tree, &store), reference_tree.paths());

            let before = listed_files(&tree, &store);
            for m in moves {
                if let Some(new_path) = m.new_path {
                    let inode = m.dir.inode;
                    // It was there, unless it was made or moved a moment ago, and is here, unless
                    // it was moved on or its name was in use.
                    let was_there = before.get(&m.old_path).map_or(false, |file| file.1 == inode);
                    let is_here = reference_tree.inode_at(&new_path) == Some(inode);
                    if was_there && is_here {
                        moved += 1;
                        assert_eq!(
                            id_for_path(&new_tree, &new_path, &store),
                            id_for_path(&tree, &m.old_path, &store)
                        );
                    }
                }
            }

            // What was listed keeps its identifier, wherever it is now.
            for (path, (id, _)) in listed_files(&new_tree, &store) {
                let inode = reference_tree.inode_at(&path).unwrap();
                for (old_id, old_inode) in before.values() {
                    assert!(*old_inode != inode || *old_id == id);
                }
            }
            tree = new_tree;
        }
    }
    assert_eq!(moved, 986);
}
