use std::sync::Arc;

use eon_fs::fs::builder::Builder;
use eon_fs::fs::item::Metadata;
use eon_fs::fs::null_store::NullStore;
use eon_fs::fs::tree::Tree;
use eon_fs::id::Unique;

fn build(old: Tree, entries: &[(&str, Metadata, usize)], db: &mut NullStore) -> Tree {
    let mut builder = Builder::new(old, db).unwrap();
    for (name, metadata, depth) in entries {
        builder.push((*name).into(), *metadata, *depth, db).unwrap();
    }
    builder.tree(db).unwrap()
}

fn id(tree: &Tree, path: &[&str], db: &NullStore) -> Option<Unique> {
    let path = path.iter().map(|name| Arc::new(name.as_bytes().to_vec())).collect();
    tree.id_for_path(&path, db).unwrap()
}

#[test]
fn the_empty_path_is_the_root_directory() {
    let db = NullStore::new(Unique(1));
    assert_eq!(id(&Tree::new(), &[], &db), Some(Unique::default()));
    assert_eq!(id(&Tree::new(), &["a"], &db), None);
}

#[test]
fn listed_directories_are_found() {
    let mut db = NullStore::new(Unique(1));
    let entries = [
        ("a", Metadata::dir(1), 1),
        ("b", Metadata::dir(2), 2),
        ("c", Metadata::dir(3), 3),
        ("b2", Metadata::dir(4), 2),
        ("z", Metadata::dir(5), 1),
    ];
    let tree = build(Tree::new(), &entries, &mut db);
    let mut cursor = tree.cursor(&db).unwrap();
    let mut count = 0;
    while let Some(file_id) = cursor.file_id(&db).unwrap() {
        assert_eq!(tree.id_for_path(cursor.path(), &db).unwrap(), Some(file_id));
        count += 1;
        cursor.next(&db).unwrap();
    }
    assert_eq!(count, 5);
    assert_eq!(id(&tree, &["a", "b", "c"], &db), Some(Unique(3)));
    assert_eq!(id(&tree, &["a", "b", "d"], &db), None);
    assert_eq!(id(&tree, &["b"], &db), None);
    assert_eq!(id(&tree, &["z", "a"], &db), None);
}

#[test]
fn files_are_found_only_where_a_directory_would_be() {
    let mut db = NullStore::new(Unique(1));
    let one = build(Tree::new(), &[("b", Metadata::file(1), 1)], &mut db);
    assert_eq!(id(&one, &["b"], &db), Some(Unique(1)));
    let two = [("a", Metadata::file(1), 1), ("b", Metadata::file(2), 1)];
    let two = build(Tree::new(), &two, &mut db);
    assert_eq!(id(&two, &["b"], &db), None);
}

#[test]
fn deleted_directories_are_still_found() {
    let mut db = NullStore::new(Unique(1));
    let entries = [("a", Metadata::dir(1), 1), ("b", Metadata::dir(2), 2)];
    let tree = build(Tree::new(), &entries, &mut db);
    let tree = build(tree, &entries[..1], &mut db);
    assert_eq!(tree.paths(&db).unwrap().len(), 1);
    assert_eq!(id(&tree, &["a", "b"], &db), Some(Unique(2)));
}
