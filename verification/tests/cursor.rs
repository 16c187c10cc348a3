use std::cmp::Ordering;

use eon_fs::fs::builder::Builder;
use eon_fs::fs::cursor::Cursor;
use eon_fs::fs::item::{Inode, Metadata};
use eon_fs::fs::null_store::NullStore;
use eon_fs::fs::tree::Tree;
use eon_fs::id::Unique;

fn sample(db: &mut NullStore) -> Tree {
    let mut builder = Builder::new(Tree::new(), db).unwrap();
    let entries = [
        ("a", Metadata::dir(1), 1),
        ("b", Metadata::dir(2), 2),
        ("c", Metadata::file(3), 3),
        ("d", Metadata::file(4), 2),
        ("e", Metadata::dir(5), 1),
        ("f", Metadata::file(6), 1),
    ];
    for (name, metadata, depth) in entries {
        builder.push(name.into(), metadata, depth, db).unwrap();
    }
    builder.tree(db).unwrap()
}

fn path(cursor: &Cursor) -> Vec<Vec<u8>> {
    cursor.path().iter().map(|name| name.to_vec()).collect()
}

fn names(path: &[&str]) -> Vec<Vec<u8>> {
    path.iter().map(|name| name.as_bytes().to_vec()).collect()
}

#[test]
fn cursor_starts_at_the_first_entry() {
    let mut db = NullStore::new(Unique(1));
    let tree = sample(&mut db);
    let cursor = tree.cursor(&db).unwrap();
    assert_eq!(path(&cursor), names(&["a"]));
    assert_eq!(cursor.depth(), 1);
    assert_eq!(cursor.metadata(&db).unwrap(), Some(Metadata { inode: Inode(1), is_dir: true }));
    assert_eq!(cursor.inode(&db).unwrap(), Some(Inode(1)));
    assert_eq!(cursor.file_id(&db).unwrap(), Some(Unique(1)));
    assert_eq!(cursor.name(&db).unwrap().unwrap().to_vec(), b"a".to_vec());
    let entry = cursor.dir_entry(&db).unwrap().unwrap();
    assert!(entry.is_dir_entry() && !entry.is_dir_metadata() && !entry.is_deleted());
}

#[test]
fn next_goes_depth_first() {
    let mut db = NullStore::new(Unique(1));
    let tree = sample(&mut db);
    let mut cursor = tree.cursor(&db).unwrap();
    let mut steps = Vec::new();
    loop {
        steps.push((path(&cursor), cursor.depth(), cursor.inode(&db).unwrap()));
        if !cursor.next(&db).unwrap() {
            break;
        }
    }
    assert_eq!(
        steps,
        [
            (names(&["a"]), 1, Some(Inode(1))),
            (names(&["a", "b"]), 2, Some(Inode(2))),
            (names(&["a", "b", "c"]), 3, Some(Inode(3))),
            (names(&["a", "d"]), 2, Some(Inode(4))),
            (names(&["e"]), 1, Some(Inode(5))),
            (names(&["f"]), 1, Some(Inode(6))),
        ]
    );
}

#[test]
fn the_end_has_nothing() {
    let mut db = NullStore::new(Unique(1));
    let tree = sample(&mut db);
    let mut cursor = tree.cursor(&db).unwrap();
    while cursor.next(&db).unwrap() {}
    assert_eq!(cursor.depth(), 0);
    assert!(path(&cursor).is_empty());
    assert_eq!(cursor.metadata(&db).unwrap(), None);
    assert!(cursor.dir_entry(&db).unwrap().is_none());
    assert_eq!(cursor.file_id(&db).unwrap(), None);
    assert_eq!(cursor.inode(&db).unwrap(), None);
    assert_eq!(cursor.name(&db).unwrap(), None);
    assert!(!cursor.next(&db).unwrap());
    assert!(!cursor.next_sibling(&db).unwrap());
    let ordering = cursor.cmp_with_entry(&b"z".to_vec(), &Metadata::file(1), &db).unwrap();
    assert_eq!(ordering, Ordering::Greater);
}

#[test]
fn cursor_of_an_empty_tree_is_at_the_end() {
    let db = NullStore::new(Unique(1));
    let mut cursor = Cursor::new(&Tree::new(), &db).unwrap();
    assert_eq!(cursor.depth(), 0);
    assert!(!cursor.next(&db).unwrap());
}

#[test]
fn next_sibling_skips_what_lies_below() {
    let mut db = NullStore::new(Unique(1));
    let tree = sample(&mut db);
    let mut cursor = tree.cursor(&db).unwrap();
    assert!(cursor.next_sibling(&db).unwrap());
    assert_eq!(path(&cursor), names(&["e"]));
    assert!(cursor.next_sibling(&db).unwrap());
    assert_eq!(path(&cursor), names(&["f"]));
    assert!(!cursor.next_sibling(&db).unwrap());
    assert_eq!(cursor.depth(), 0);
}

#[test]
fn next_sibling_goes_up_from_the_last_entry() {
    let mut db = NullStore::new(Unique(1));
    let tree = sample(&mut db);
    let mut cursor = tree.cursor(&db).unwrap();
    cursor.next(&db).unwrap();
    assert_eq!(path(&cursor), names(&["a", "b"]));
    assert!(cursor.next_sibling(&db).unwrap());
    assert_eq!(path(&cursor), names(&["a", "d"]));
    assert!(!cursor.next_sibling(&db).unwrap());
    assert_eq!(path(&cursor), names(&["e"]));
}

#[test]
fn entries_compare_by_kind_and_name() {
    let mut db = NullStore::new(Unique(1));
    let tree = sample(&mut db);
    let mut cursor = tree.cursor(&db).unwrap();
    let compare = |cursor: &Cursor, name: &str, metadata: Metadata| {
        cursor.cmp_with_entry(&name.into(), &metadata, &db).unwrap()
    };
    assert_eq!(compare(&cursor, "a", Metadata::dir(9)), Ordering::Equal);
    assert_eq!(compare(&cursor, "b", Metadata::dir(9)), Ordering::Less);
    assert_eq!(compare(&cursor, "A", Metadata::dir(9)), Ordering::Greater);
    assert_eq!(compare(&cursor, "A", Metadata::file(9)), Ordering::Less);
    while cursor.depth() > 1 || cursor.inode(&db).unwrap() != Some(Inode(6)) {
        cursor.next(&db).unwrap();
    }
    assert_eq!(compare(&cursor, "f", Metadata::file(9)), Ordering::Equal);
    assert_eq!(compare(&cursor, "z", Metadata::dir(9)), Ordering::Greater);
}
