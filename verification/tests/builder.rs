use std::sync::Arc;

use eon_fs::btree;
use eon_fs::fs::builder::Builder;
use eon_fs::fs::item::{Inode, Item, Metadata};
use eon_fs::fs::null_store::NullStore;
use eon_fs::fs::tree::Tree;
use eon_fs::id::Unique;

fn push(builder: &mut Builder, name: &str, metadata: Metadata, depth: usize, db: &mut NullStore) {
    builder.push(name.into(), metadata, depth, db).unwrap();
}

fn paths(tree: &Tree, db: &NullStore) -> Vec<String> {
    let join = |path: &Vec<Arc<Vec<u8>>>| {
        let names: Vec<String> =
            path.iter().map(|name| String::from_utf8_lossy(name).into_owned()).collect();
        names.join("/")
    };
    tree.paths(db).unwrap().iter().map(join).collect()
}

/// The identifiers and inodes that the tree lists, in order.
fn files(tree: &Tree, db: &NullStore) -> Vec<(Unique, Inode)> {
    let mut files = Vec::new();
    let mut cursor = tree.cursor(db).unwrap();
    while let Some(id) = cursor.file_id(db).unwrap() {
        files.push((id, cursor.inode(db).unwrap().unwrap()));
        cursor.next(db).unwrap();
    }
    files
}

fn items(tree: &Tree) -> &Vec<Arc<Item>> {
    match &tree.items {
        btree::Tree::Resident(node) => &node.items,
        btree::Tree::Stored(_) => panic!("the tree is in memory"),
    }
}

fn build(old: &Tree, entries: &[(&str, Metadata, usize)], db: &mut NullStore) -> Tree {
    let mut builder = Builder::new(old.clone(), db).unwrap();
    for (name, metadata, depth) in entries {
        push(&mut builder, name, *metadata, *depth, db);
    }
    builder.tree(db).unwrap()
}

fn dir(inode: u64) -> Metadata {
    Metadata::dir(inode)
}

fn file(inode: u64) -> Metadata {
    Metadata::file(inode)
}

#[test]
fn test_builder_basic() {
    let mut store = NullStore::new(Unique(1));
    let db = &mut store;
    let tree = Tree::new();
    let mut builder = Builder::new(tree, db).unwrap();
    push(&mut builder, "a", Metadata::dir(1), 1, db);
    push(&mut builder, "b", Metadata::dir(2), 2, db);
    push(&mut builder, "c", Metadata::dir(3), 3, db);
    push(&mut builder, "d", Metadata::dir(4), 3, db);
    push(&mut builder, "e", Metadata::file(5), 3, db);
    push(&mut builder, "f", Metadata::dir(6), 1, db);
    let tree = builder.tree(db).unwrap();
    assert_eq!(paths(&tree, db), ["a", "a/b", "a/b/c", "a/b/d", "a/b/e", "f"]);

    let mut builder = Builder::new(tree, db).unwrap();
    push(&mut builder, "a", Metadata::dir(1), 1, db);
    push(&mut builder, "b", Metadata::dir(2), 2, db);
    push(&mut builder, "c", Metadata::dir(3), 3, db);
    push(&mut builder, "c2", Metadata::dir(7), 3, db);
    push(&mut builder, "d", Metadata::dir(4), 3, db);
    push(&mut builder, "e", Metadata::file(5), 3, db);
    push(&mut builder, "b2", Metadata::dir(8), 2, db);
    push(&mut builder, "g", Metadata::dir(9), 3, db);
    push(&mut builder, "f", Metadata::dir(6), 1, db);
    let tree = builder.tree(db).unwrap();
    assert_eq!(
        paths(&tree, db),
        ["a", "a/b", "a/b/c", "a/b/c2", "a/b/d", "a/b/e", "a/b2", "a/b2/g", "f"]
    );

    let mut builder = Builder::new(tree, db).unwrap();
    push(&mut builder, "a", Metadata::dir(1), 1, db);
    push(&mut builder, "b", Metadata::dir(2), 2, db);
    push(&mut builder, "d", Metadata::dir(4), 3, db);
    push(&mut builder, "e", Metadata::file(5), 3, db);
    push(&mut builder, "f", Metadata::dir(6), 1, db);
    let tree = builder.tree(db).unwrap();
    assert_eq!(paths(&tree, db), ["a", "a/b", "a/b/d", "a/b/e", "f"]);
}

#[test]
fn empty_tree_has_the_empty_path() {
    let db = NullStore::new(Unique(1));
    let tree = Tree::new();
    assert_eq!(paths(&tree, &db), [""]);
    assert!(files(&tree, &db).is_empty());
}

#[test]
fn empty_builder_makes_an_empty_tree() {
    let mut db = NullStore::new(Unique(1));
    let tree = build(&Tree::new(), &[], &mut db);
    assert_eq!(paths(&tree, &db), [""]);
}

#[test]
fn depth_counts_open_directories() {
    let mut store = NullStore::new(Unique(1));
    let db = &mut store;
    let mut builder = Builder::new(Tree::new(), db).unwrap();
    assert_eq!(builder.depth(), 0);
    push(&mut builder, "a", dir(1), 1, db);
    assert_eq!(builder.depth(), 1);
    push(&mut builder, "b", dir(2), 2, db);
    assert_eq!(builder.depth(), 2);
    push(&mut builder, "c", dir(3), 3, db);
    assert_eq!(builder.depth(), 3);
    push(&mut builder, "d", dir(4), 1, db);
    assert_eq!(builder.depth(), 1);
}

#[test]
fn new_entries_get_new_identifiers() {
    let mut db = NullStore::new(Unique(10));
    let tree = build(&Tree::new(), &[("a", dir(1), 1), ("b", file(2), 2)], &mut db);
    assert_eq!(files(&tree, &db), [(Unique(10), Inode(1)), (Unique(11), Inode(2))]);
}

#[test]
fn kept_entries_keep_identifiers_and_inodes() {
    let mut db = NullStore::new(Unique(1));
    let tree = build(
        &Tree::new(),
        &[("a", dir(1), 1), ("b", dir(2), 2), ("x", file(3), 3), ("y", file(4), 1)],
        &mut db,
    );
    let before = files(&tree, &db);
    let tree = build(
        &tree,
        &[("a", dir(91), 1), ("b", dir(92), 2), ("w", file(5), 3), ("x", file(93), 3)],
        &mut db,
    );
    let after = files(&tree, &db);
    assert_eq!(paths(&tree, &db), ["a", "a/b", "a/b/w", "a/b/x"]);
    assert_eq!(after[0], before[0]);
    assert_eq!(after[1], before[1]);
    assert_eq!(after[3], before[2]);
    assert_eq!(after[2].1, Inode(5));
    assert!(before.iter().all(|file| file.0 != after[2].0));
}

#[test]
fn rebuilding_from_the_listing_changes_nothing() {
    let mut db = NullStore::new(Unique(1));
    let entries = [("a", dir(1), 1), ("b", dir(2), 2), ("c", file(3), 2), ("d", file(4), 1)];
    let tree = build(&Tree::new(), &entries, &mut db);
    let again = build(&tree, &entries, &mut db);
    assert_eq!(files(&again, &db), files(&tree, &db));
    assert_eq!(paths(&again, &db), paths(&tree, &db));
}

#[test]
fn a_directory_in_place_of_a_file_is_new() {
    let mut db = NullStore::new(Unique(1));
    let tree = build(&Tree::new(), &[("a", dir(1), 1), ("n", file(2), 2)], &mut db);
    let before = files(&tree, &db);
    let tree = build(&tree, &[("a", dir(1), 1), ("n", dir(2), 2)], &mut db);
    let after = files(&tree, &db);
    assert_eq!(paths(&tree, &db), ["a", "a/n"]);
    assert_eq!(after[0], before[0]);
    assert_ne!(after[1].0, before[1].0);
}

#[test]
fn removed_directories_take_their_entries_along() {
    let mut db = NullStore::new(Unique(1));
    let tree = build(
        &Tree::new(),
        &[("a", dir(1), 1), ("b", dir(2), 2), ("c", file(3), 3), ("d", dir(4), 2), ("e", dir(5), 1)],
        &mut db,
    );
    let tree = build(&tree, &[("a", dir(1), 1), ("d", dir(4), 2), ("e", dir(5), 1)], &mut db);
    assert_eq!(paths(&tree, &db), ["a", "a/d", "e"]);
    let tree = build(&tree, &[("a", dir(1), 1), ("b", dir(2), 2), ("d", dir(4), 2)], &mut db);
    assert_eq!(paths(&tree, &db), ["a", "a/b", "a/d"]);
}

#[test]
fn an_entry_can_come_back() {
    let mut db = NullStore::new(Unique(1));
    let with = [("a", dir(1), 1), ("m", file(2), 2)];
    let without = [("a", dir(1), 1)];
    let first = build(&Tree::new(), &with, &mut db);
    let tree = build(&first, &without, &mut db);
    assert_eq!(paths(&tree, &db), ["a"]);
    let tree = build(&tree, &with, &mut db);
    assert_eq!(paths(&tree, &db), ["a", "a/m"]);
    assert_ne!(files(&tree, &db)[1].0, files(&first, &db)[1].0);
}

#[test]
fn a_deleted_first_entry_is_not_listed() {
    let mut db = NullStore::new(Unique(1));
    let tree = build(&Tree::new(), &[("a", dir(1), 1), ("x", file(3), 2), ("b", dir(2), 1)], &mut db);
    let tree = build(&tree, &[("b", dir(2), 1)], &mut db);
    assert_eq!(paths(&tree, &db), ["b"]);
    assert!(items(&tree)[0].is_deleted());
    let tree = build(&tree, &[("A", dir(4), 1), ("b", dir(2), 1)], &mut db);
    assert_eq!(paths(&tree, &db), ["A", "b"]);
    let tree = build(&tree, &[], &mut db);
    assert_eq!(paths(&tree, &db), [""]);
    assert!(items(&tree).iter().all(|item| item.is_deleted() || !item.is_dir_entry()));
}

#[test]
fn a_deleted_first_entry_can_come_back() {
    let mut db = NullStore::new(Unique(1));
    let first = build(&Tree::new(), &[("a", dir(1), 1), ("b", dir(2), 1)], &mut db);
    let tree = build(&first, &[("b", dir(2), 1)], &mut db);
    let tree = build(&tree, &[("A", dir(4), 1), ("a", dir(1), 1), ("b", dir(2), 1)], &mut db);
    assert_eq!(paths(&tree, &db), ["A", "a", "b"]);
    assert_ne!(files(&tree, &db)[1].0, files(&first, &db)[0].0);
}

#[test]
fn no_item_is_lost() {
    let mut db = NullStore::new(Unique(1));
    let first = build(&Tree::new(), &[("a", dir(1), 1), ("x", file(3), 2), ("b", dir(2), 1)], &mut db);
    let tree = build(&first, &[("c", dir(1), 1), ("d", dir(2), 1)], &mut db);
    assert_eq!(paths(&tree, &db), ["c", "d"]);
    for item in items(&first) {
        let is_here = items(&tree).iter().any(|other| other.key() == item.key());
        assert!(is_here);
    }
    // The metadata of the three files, and five entries, three of them deleted.
    assert_eq!(items(&tree).len(), 8);
    assert_eq!(items(&tree).iter().filter(|item| item.is_deleted()).count(), 3);
}

#[test]
fn a_copy_of_a_deleted_entry_is_deleted() {
    let mut db = NullStore::new(Unique(1));
    let tree = build(&Tree::new(), &[("a", dir(1), 1), ("b", dir(2), 1)], &mut db);
    let entry = tree.cursor(&db).unwrap().dir_entry(&db).unwrap().unwrap();
    assert!(!entry.is_deleted());
    assert!(!entry.clone().is_deleted());
    let tree = build(&tree, &[("b", dir(2), 1)], &mut db);
    let entry = items(&tree)[0].clone();
    let copy = (*entry).clone();
    assert!(copy.is_deleted());
    assert!(copy.is_dir_entry());
    assert_eq!(copy, *entry);
    assert!(format!("{:?}", copy).contains("moves: MoveList { moves: [] }"));
}

#[test]
fn a_moved_directory_keeps_its_identifier() {
    let mut db = NullStore::new(Unique(1));
    let tree = build(&Tree::new(), &[("a", dir(1), 1), ("b", dir(2), 2), ("c", dir(3), 1)], &mut db);
    let before = files(&tree, &db);
    let tree = build(&tree, &[("a", dir(1), 1), ("c", dir(3), 1), ("b", dir(2), 2)], &mut db);
    let after = files(&tree, &db);
    assert_eq!(paths(&tree, &db), ["a", "c", "c/b"]);
    assert_eq!(after, [before[0], before[2], before[1]]);
}

#[test]
fn a_renamed_directory_keeps_its_identifier_and_takes_its_directories_along() {
    let mut db = NullStore::new(Unique(1));
    let old = [
        ("a", dir(1), 1),
        ("b", dir(2), 2),
        ("x", dir(3), 3),
        ("y", dir(4), 4),
        ("f", file(5), 3),
    ];
    let tree = build(&Tree::new(), &old, &mut db);
    let before = files(&tree, &db);
    let new = [
        ("a", dir(1), 1),
        ("c", dir(2), 2),
        ("x", dir(3), 3),
        ("y", dir(4), 4),
        ("z", dir(6), 3),
        ("f", file(5), 3),
    ];
    let tree = build(&tree, &new, &mut db);
    let after = files(&tree, &db);
    assert_eq!(paths(&tree, &db), ["a", "a/c", "a/c/x", "a/c/x/y", "a/c/z", "a/c/f"]);
    assert_eq!(after[..4], before[..4]);
    // A file that is no directory is not followed.
    assert_ne!(after[5].0, before[4].0);
    let again = build(&tree, &new, &mut db);
    assert_eq!(files(&again, &db), after);
    let back = build(&again, &old, &mut db);
    assert_eq!(paths(&back, &db), ["a", "a/b", "a/b/x", "a/b/x/y", "a/b/f"]);
    assert_eq!(files(&back, &db)[..4], before[..4]);
}

#[test]
fn the_first_directory_can_be_renamed() {
    let mut db = NullStore::new(Unique(1));
    let tree = build(&Tree::new(), &[("a", dir(1), 1), ("x", dir(2), 2), ("k", dir(3), 1)], &mut db);
    let before = files(&tree, &db);
    let tree = build(&tree, &[("b", dir(1), 1), ("x", dir(2), 2), ("k", dir(3), 1)], &mut db);
    assert_eq!(paths(&tree, &db), ["b", "b/x", "k"]);
    assert_eq!(files(&tree, &db), before);
    let tree = build(&tree, &[("k", dir(3), 1), ("z", dir(1), 1), ("x", dir(2), 2)], &mut db);
    assert_eq!(paths(&tree, &db), ["k", "z", "z/x"]);
    assert_eq!(files(&tree, &db), [before[2], before[0], before[1]]);
    let tree = build(&tree, &[("A", dir(3), 1), ("z", dir(1), 1), ("x", dir(2), 2)], &mut db);
    assert_eq!(paths(&tree, &db), ["A", "z", "z/x"]);
    assert_eq!(files(&tree, &db), [before[2], before[0], before[1]]);
}

#[test]
fn a_directory_can_change_places_with_its_parent() {
    let mut db = NullStore::new(Unique(1));
    let tree = build(&Tree::new(), &[("a", dir(1), 1), ("b", dir(2), 2)], &mut db);
    let before = files(&tree, &db);
    let tree = build(&tree, &[("b", dir(2), 1), ("a", dir(1), 2)], &mut db);
    assert_eq!(paths(&tree, &db), ["b", "b/a"]);
    assert_eq!(files(&tree, &db), [before[1], before[0]]);
}

#[test]
fn a_directory_whose_old_place_is_taken_keeps_its_identifier() {
    let mut db = NullStore::new(Unique(1));
    let tree = build(&Tree::new(), &[("a", dir(1), 1), ("b", dir(2), 2)], &mut db);
    let before = files(&tree, &db);
    let tree = build(&tree, &[("a", dir(1), 1), ("b", dir(9), 2), ("c", dir(2), 2)], &mut db);
    let after = files(&tree, &db);
    assert_eq!(paths(&tree, &db), ["a", "a/b", "a/c"]);
    assert_eq!(after[0], before[0]);
    assert_eq!(after[2], before[1]);
    assert_eq!(after[1].1, Inode(9));
    assert!(before.iter().all(|file| file.0 != after[1].0));
}

#[test]
fn a_directory_whose_new_place_was_taken_keeps_its_identifier() {
    let mut db = NullStore::new(Unique(1));
    let old = [("a", dir(1), 1), ("x", dir(3), 2), ("f", file(4), 2), ("b", dir(2), 1), ("x", dir(5), 2)];
    let tree = build(&Tree::new(), &old, &mut db);
    let before = files(&tree, &db);
    let tree = build(&tree, &[("b", dir(1), 1), ("x", dir(3), 2), ("f", file(4), 2)], &mut db);
    let after = files(&tree, &db);
    assert_eq!(paths(&tree, &db), ["b", "b/x", "b/f"]);
    assert_eq!(after[..2], before[..2]);
    assert!(before.iter().all(|file| file.0 != after[2].0));
}

#[test]
fn directories_can_change_places() {
    let mut db = NullStore::new(Unique(1));
    let old = [("a", dir(1), 1), ("x", dir(3), 2), ("b", dir(2), 1), ("x", dir(4), 2), ("y", dir(5), 2)];
    let tree = build(&Tree::new(), &old, &mut db);
    let before = files(&tree, &db);
    let new = [("a", dir(2), 1), ("x", dir(4), 2), ("y", dir(5), 2), ("b", dir(1), 1), ("x", dir(3), 2)];
    let tree = build(&tree, &new, &mut db);
    assert_eq!(paths(&tree, &db), ["a", "a/x", "a/y", "b", "b/x"]);
    let after = files(&tree, &db);
    assert_eq!(after, [before[2], before[3], before[4], before[0], before[1]]);
    let again = build(&tree, &new, &mut db);
    assert_eq!(files(&again, &db), after);
    let back = build(&again, &old, &mut db);
    assert_eq!(files(&back, &db), before);
}

#[test]
fn what_stays_below_another_directory_keeps_its_identifier() {
    let mut db = NullStore::new(Unique(1));
    let old = [("a", dir(1), 1), ("x", dir(7), 2), ("f", file(8), 2)];
    let tree = build(&Tree::new(), &old, &mut db);
    let before = files(&tree, &db);
    let new = [("a", dir(9), 1), ("x", dir(7), 2), ("f", file(8), 2), ("b", dir(1), 1)];
    let tree = build(&tree, &new, &mut db);
    let after = files(&tree, &db);
    assert_eq!(paths(&tree, &db), ["a", "a/x", "a/f", "b"]);
    assert_eq!(after[1], before[1]);
    assert_eq!(after[3], before[0]);
    assert!(before.iter().all(|file| file.0 != after[0].0 && file.0 != after[2].0));
}

#[test]
fn an_identifier_is_taken_over_once() {
    let mut db = NullStore::new(Unique(1));
    let tree = build(&Tree::new(), &[("a", dir(1), 1), ("b", dir(2), 2)], &mut db);
    let before = files(&tree, &db);
    let tree = build(&tree, &[("a", dir(1), 1), ("c", dir(2), 2), ("d", dir(2), 2)], &mut db);
    let after = files(&tree, &db);
    assert_eq!(after[1].0, before[1].0);
    assert!(before.iter().all(|file| file.0 != after[2].0));
}

#[test]
fn a_file_does_not_take_over_a_directory() {
    let mut db = NullStore::new(Unique(1));
    let tree = build(&Tree::new(), &[("a", dir(1), 1), ("b", dir(2), 2)], &mut db);
    let before = files(&tree, &db);
    let tree = build(&tree, &[("a", dir(1), 1), ("c", file(2), 2)], &mut db);
    assert!(before.iter().all(|file| file.0 != files(&tree, &db)[1].0));
}

#[test]
fn entries_pushed_out_of_order_are_sorted() {
    let mut db = NullStore::new(Unique(1));
    let tree = build(
        &Tree::new(),
        &[("z", file(1), 1), ("m", dir(2), 1), ("k", file(3), 2), ("c", dir(4), 1)],
        &mut db,
    );
    assert_eq!(paths(&tree, &db), ["c", "m", "m/k", "z"]);
}

#[test]
fn a_tree_can_be_rebuilt_out_of_order() {
    let mut db = NullStore::new(Unique(1));
    let tree = build(&Tree::new(), &[("a", dir(1), 1), ("b", dir(2), 1), ("x", file(3), 2)], &mut db);
    let before = files(&tree, &db);
    let tree = build(&tree, &[("b", dir(2), 1), ("x", file(3), 2), ("a", dir(1), 1)], &mut db);
    assert_eq!(paths(&tree, &db), ["a", "b", "b/x"]);
    assert_eq!(files(&tree, &db), before);
}

#[test]
fn what_is_pushed_into_a_file_is_not_listed() {
    let mut db = NullStore::new(Unique(1));
    let entries = [("f", file(1), 1), ("x", file(2), 2)];
    let tree = build(&Tree::new(), &entries, &mut db);
    assert_eq!(paths(&tree, &db), ["f"]);
    let again = build(&tree, &entries, &mut db);
    assert_eq!(paths(&again, &db), ["f"]);
    assert_eq!(files(&again, &db), files(&tree, &db));
}

#[test]
fn an_entry_that_is_pushed_twice_is_listed_twice() {
    let mut db = NullStore::new(Unique(1));
    let tree = build(&Tree::new(), &[("a", dir(1), 1), ("a", dir(2), 1)], &mut db);
    assert_eq!(paths(&tree, &db), ["a", "a"]);
    let keys: Vec<_> = items(&tree).iter().map(|item| item.key()).collect();
    assert!(keys.windows(2).all(|pair| !(pair[1] < pair[0])));
}

#[test]
fn the_old_tree_stays_as_it_was() {
    let mut db = NullStore::new(Unique(1));
    let tree = build(&Tree::new(), &[("a", dir(1), 1), ("b", dir(2), 2)], &mut db);
    let before = files(&tree, &db);
    let _ = build(&tree, &[("c", dir(3), 1)], &mut db);
    assert_eq!(files(&tree, &db), before);
    assert_eq!(paths(&tree, &db), ["a", "a/b"]);
}
