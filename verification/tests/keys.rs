use std::cmp::Ordering;
use std::sync::Arc;

use eon_fs::btree::{Dimension, Item as TreeItem};
use eon_fs::fs::item::{Inode, InodeToFileId, Item, Metadata};
use eon_fs::fs::key::{Key, KeyKind};
use eon_fs::id::Unique;
use eon_fs::names::compare_names;

fn name(name: &str) -> Arc<Vec<u8>> {
    Arc::new(name.into())
}

#[test]
fn test_key_ordering() {
    assert!(
        Key::dir_entry(Unique::default(), true, Arc::new("z".into()))
            < Key::dir_entry(Unique::default(), false, Arc::new("a".into()))
    );
}

#[test]
fn keys_order_by_file_then_kind() {
    let keys = [
        Key::default(),
        Key::dir_entry(Unique(0), true, name("a")),
        Key::dir_entry(Unique(0), true, name("b")),
        Key::dir_entry(Unique(0), false, name("a")),
        Key::metadata(Unique(1)),
        Key::dir_entry(Unique(1), true, name("")),
        Key::dir_entry(Unique(1), false, name("")),
        Key::metadata(Unique(2)),
    ];
    for (i, a) in keys.iter().enumerate() {
        for (j, b) in keys.iter().enumerate() {
            assert_eq!(a.cmp(b), i.cmp(&j));
            assert_eq!(a.partial_cmp(b), Some(i.cmp(&j)));
            assert_eq!(a.is_before(b), i < j);
            assert_eq!(a == b, i == j);
        }
    }
}

#[test]
fn kinds_order_metadata_directories_files() {
    let dir = KeyKind::DirEntry { is_dir: true, name: name("z") };
    let file = KeyKind::DirEntry { is_dir: false, name: name("a") };
    assert_eq!(KeyKind::Metadata.cmp(&KeyKind::Metadata), Ordering::Equal);
    assert_eq!(KeyKind::Metadata.cmp(&dir), Ordering::Less);
    assert_eq!(file.cmp(&KeyKind::Metadata), Ordering::Greater);
    assert_eq!(dir.cmp(&file), Ordering::Less);
    assert_eq!(file.partial_cmp(&dir), Some(Ordering::Greater));
    assert_eq!(file.clone(), file);
}

#[test]
fn sums_of_keys_are_the_later_key() {
    let early = Key::metadata(Unique(3));
    let late = Key::dir_entry(Unique(3), true, name("a"));
    assert_eq!(Dimension::add(early.clone(), &late), late);
    assert_eq!(Dimension::add(late.clone(), &early), late);
    let mut sum = early.clone();
    sum.add_assign(&late);
    assert_eq!(sum, late);
    sum.add_assign(&early);
    assert_eq!(sum, late);
    assert_eq!(*Key::from_summary(&early), early);
}

#[test]
fn sums_of_inodes_are_the_later_inode() {
    assert_eq!(Dimension::add(Inode(3), &Inode(5)), Inode(5));
    assert_eq!(Dimension::add(Inode(5), &Inode(3)), Inode(5));
    let mut sum = Inode::default();
    sum.add_assign(&Inode(4));
    assert_eq!(sum, Inode(4));
    sum.add_assign(&Inode(2));
    assert_eq!(sum, Inode(4));
    assert_eq!(*Inode::from_summary(&sum), Inode(4));
    assert!(Inode(1).is_before(&Inode(2)));
    assert!(!Inode(2).is_before(&Inode(2)));
}

#[test]
fn names_compare_byte_by_byte() {
    let order = ["", "A", "a", "aa", "ab", "b", "\u{e9}"];
    for (i, a) in order.iter().enumerate() {
        for (j, b) in order.iter().enumerate() {
            assert_eq!(compare_names(&name(a), &name(b)), i.cmp(&j));
        }
    }
}

#[test]
fn metadata_holds_what_it_is_given() {
    let dir = Metadata::dir(7);
    assert_eq!((dir.inode, dir.is_dir), (Inode(7), true));
    let file = Metadata::file(Inode(8));
    assert_eq!((file.inode, file.is_dir), (Inode(8), false));
    assert_eq!(Inode::from(9), Inode(9));
}

#[test]
fn items_summarize_to_their_keys() {
    let item = Item::Metadata { file_id: Unique(4), is_dir: true, inode: Inode(1) };
    assert_eq!(item.key(), Key::metadata(Unique(4)));
    assert_eq!(item.summarize(), item.key());
    assert!(item.is_dir_metadata() && !item.is_dir_entry() && !item.is_deleted());
    let file = Item::Metadata { file_id: Unique(4), is_dir: false, inode: Inode(1) };
    assert!(!file.is_dir_metadata());
    let mapping = InodeToFileId { inode: Inode(6), file_id: Unique(2) };
    assert_eq!(mapping.summarize(), Inode(6));
}

#[test]
fn identifiers_count_up() {
    let mut id = Unique::default();
    assert_eq!(id, Unique(0));
    id.inc();
    assert_eq!(id, Unique(1));
}
