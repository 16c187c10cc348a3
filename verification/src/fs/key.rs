//! Keys of items: what orders the items of a tree.

use std::cmp::Ordering;
use std::sync::Arc;

use vstd::prelude::*;
use vstd::std_specs::cmp::{PartialOrdSpec, PartialOrdSpecImpl};

use crate::btree::Dimension;
use crate::id::{root_id, Unique};
use crate::names::{
    compare_names, law_name_order, lemma_name_lt_irreflexive, lemma_name_lt_total,
    lemma_name_lt_transitive, name_lt,
};

verus! {

/// What the key of an item says besides the file that the item belongs to.
#[derive(Debug, Eq, PartialEq)]
pub enum KeyKind {
    Metadata,
    DirEntry { is_dir: bool, name: Arc<Vec<u8>> },
}

/// The key of an item.
#[derive(Debug, Eq, PartialEq)]
pub struct Key {
    pub file_id: Unique,
    pub kind: KeyKind,
}

/// The model of a [`KeyKind`].
pub enum KindView {
    Metadata,
    DirEntry { is_dir: bool, name: Seq<u8> },
}

/// The model of a [`Key`].
pub struct KeyView {
    pub file_id: Unique,
    pub kind: KindView,
}

/// Whether kind `a` comes before kind `b`: the metadata first, then the directories by name, then
/// the files by name.
pub open spec fn kind_lt(a: KindView, b: KindView) -> bool {
    match (a, b) {
        (_, KindView::Metadata) => false,
        (KindView::Metadata, KindView::DirEntry { .. }) => true,
        (
            KindView::DirEntry { is_dir, name },
            KindView::DirEntry { is_dir: other_is_dir, name: other_name },
        ) => (is_dir && !other_is_dir) || (is_dir == other_is_dir && name_lt(name, other_name)),
    }
}

/// Whether key `a` comes before key `b`: by file, then by kind.
pub open spec fn key_lt(a: KeyView, b: KeyView) -> bool {
    a.file_id.0 < b.file_id.0 || (a.file_id == b.file_id && kind_lt(a.kind, b.kind))
}

/// The key of the metadata of a file.
pub open spec fn metadata_key(file_id: Unique) -> KeyView {
    KeyView { file_id, kind: KindView::Metadata }
}

/// The key of a directory entry.
pub open spec fn entry_key(file_id: Unique, is_dir: bool, name: Seq<u8>) -> KeyView {
    KeyView { file_id, kind: KindView::DirEntry { is_dir, name } }
}

/// How key `a` compares with key `b`.
pub open spec fn key_order(a: KeyView, b: KeyView) -> Ordering {
    if key_lt(a, b) {
        Ordering::Less
    } else if key_lt(b, a) {
        Ordering::Greater
    } else {
        Ordering::Equal
    }
}

/// How kind `a` compares with kind `b`.
pub open spec fn kind_order(a: KindView, b: KindView) -> Ordering {
    if kind_lt(a, b) {
        Ordering::Less
    } else if kind_lt(b, a) {
        Ordering::Greater
    } else {
        Ordering::Equal
    }
}

/// No kind comes before itself.
pub proof fn lemma_kind_lt_irreflexive(a: KindView)
    ensures
        !kind_lt(a, a),
{
    if let KindView::DirEntry { name, .. } = a {
        lemma_name_lt_irreflexive(name);
    }
}

/// The order of kinds is transitive.
pub proof fn lemma_kind_lt_transitive(a: KindView, b: KindView, c: KindView)
    requires
        kind_lt(a, b),
        kind_lt(b, c),
    ensures
        kind_lt(a, c),
{
    if let (
        KindView::DirEntry { is_dir: d1, name: n1 },
        KindView::DirEntry { is_dir: d2, name: n2 },
        KindView::DirEntry { is_dir: d3, name: n3 },
    ) = (a, b, c) {
        if d1 == d2 && d2 == d3 {
            lemma_name_lt_transitive(n1, n2, n3);
        }
    }
}

/// Of two kinds, one comes before the other unless they are equal.
pub proof fn lemma_kind_lt_total(a: KindView, b: KindView)
    ensures
        a == b || kind_lt(a, b) || kind_lt(b, a),
{
    if let (
        KindView::DirEntry { name: n1, .. },
        KindView::DirEntry { name: n2, .. },
    ) = (a, b) {
        lemma_name_lt_total(n1, n2);
    }
}

/// No key comes before itself.
pub proof fn lemma_key_lt_irreflexive(a: KeyView)
    ensures
        !key_lt(a, a),
{
    lemma_kind_lt_irreflexive(a.kind);
}

/// The order of keys is transitive.
pub proof fn lemma_key_lt_transitive(a: KeyView, b: KeyView, c: KeyView)
    requires
        key_lt(a, b),
        key_lt(b, c),
    ensures
        key_lt(a, c),
{
    if a.file_id == b.file_id && b.file_id == c.file_id {
        lemma_kind_lt_transitive(a.kind, b.kind, c.kind);
    }
}

/// Of two keys, one comes before the other unless they are equal.
pub proof fn lemma_key_lt_total(a: KeyView, b: KeyView)
    ensures
        a == b || key_lt(a, b) || key_lt(b, a),
{
    lemma_kind_lt_total(a.kind, b.kind);
}

/// Two keys never each come before the other.
pub proof fn lemma_key_lt_asymmetric(a: KeyView, b: KeyView)
    requires
        key_lt(a, b),
    ensures
        !key_lt(b, a),
{
    if key_lt(b, a) {
        lemma_key_lt_transitive(a, b, a);
        lemma_key_lt_irreflexive(a);
    }
}

/// No key comes before the default key.
pub proof fn lemma_default_key_is_first(a: KeyView)
    ensures
        !key_lt(a, metadata_key(root_id())),
{
}

/// Keys are ordered by the number of the file. Of the keys of one file, that of the metadata comes
/// first, and those of directories come before those of other files. Directories, and other files,
/// are ordered by the first byte in which their names differ, where a name that ends comes first.
pub proof fn law_key_order(a: KeyView, b: KeyView)
    ensures
        a.file_id.0 < b.file_id.0 ==> key_lt(a, b) && !key_lt(b, a),
        a.file_id == b.file_id ==> {
            match (a.kind, b.kind) {
                (KindView::Metadata, KindView::Metadata) => !key_lt(a, b) && !key_lt(b, a),
                (KindView::Metadata, KindView::DirEntry { .. }) => key_lt(a, b) && !key_lt(b, a),
                (KindView::DirEntry { .. }, KindView::Metadata) => key_lt(b, a) && !key_lt(a, b),
                (
                    KindView::DirEntry { is_dir: a_is_dir, name: a_name },
                    KindView::DirEntry { is_dir: b_is_dir, name: b_name },
                ) => if a_is_dir != b_is_dir {
                    key_lt(a, b) == a_is_dir && key_lt(b, a) == b_is_dir
                } else {
                    key_lt(a, b) <==> exists|k: int|
                        0 <= k <= a_name.len() && k < b_name.len() && #[trigger] a_name.take(k)
                            == b_name.take(k) && (k == a_name.len() || a_name[k] < b_name[k])
                },
            }
        },
        // Searching and comparing go by the same order.
        forall|x: Key, y: Key| x@ == a && y@ == b ==> #[trigger] x.before(y) == key_lt(a, b),
{
    if let (
        KindView::DirEntry { name: a_name, .. },
        KindView::DirEntry { name: b_name, .. },
    ) = (a.kind, b.kind) {
        law_name_order(a_name, b_name);
    }
}

/// Keys compare as less, equal or greater as one comes before the other, and as equal only if they
/// are. Kinds compare as the keys of one file do.
pub proof fn law_compare(a: KeyView, b: KeyView)
    ensures
        key_order(a, b) == Ordering::Less <==> key_lt(a, b),
        key_order(a, b) == Ordering::Equal <==> a == b,
        key_order(a, b) == Ordering::Greater <==> key_lt(b, a),
        a.file_id == b.file_id ==> kind_order(a.kind, b.kind) == key_order(a, b),
        a.file_id == b.file_id ==> (kind_lt(a.kind, b.kind) <==> key_lt(a, b)),
        // The operators go by the same order.
        forall|x: Key, y: Key|
            x@ == a && y@ == b ==> #[trigger] PartialOrdSpec::partial_cmp_spec(&x, &y) == Some(
                key_order(a, b),
            ),
        forall|x: KeyKind, y: KeyKind|
            x@ == a.kind && y@ == b.kind ==> #[trigger] PartialOrdSpec::partial_cmp_spec(&x, &y)
                == Some(kind_order(a.kind, b.kind)),
{
    lemma_key_lt_total(a, b);
    lemma_key_lt_irreflexive(a);
    if key_lt(a, b) {
        lemma_key_lt_asymmetric(a, b);
    }
}

impl View for KeyKind {
    type V = KindView;

    open spec fn view(&self) -> KindView {
        match self {
            KeyKind::Metadata => KindView::Metadata,
            KeyKind::DirEntry { is_dir, name } => KindView::DirEntry {
                is_dir: *is_dir,
                name: name@,
            },
        }
    }
}

impl View for Key {
    type V = KeyView;

    open spec fn view(&self) -> KeyView {
        KeyView { file_id: self.file_id, kind: self.kind@ }
    }
}

impl KeyKind {
    /// Compares two kinds.
    pub fn cmp(&self, other: &Self) -> (ordering: Ordering)
        ensures
            ordering == kind_order(self@, other@),
    {
        proof {
            lemma_kind_lt_irreflexive(self@);
            lemma_kind_lt_total(self@, other@);
            if kind_lt(self@, other@) && kind_lt(other@, self@) {
                lemma_kind_lt_transitive(self@, other@, self@);
            }
        }
        match (self, other) {
            (KeyKind::Metadata, KeyKind::Metadata) => Ordering::Equal,
            (KeyKind::Metadata, KeyKind::DirEntry { .. }) => Ordering::Less,
            (KeyKind::DirEntry { .. }, KeyKind::Metadata) => Ordering::Greater,
            (
                KeyKind::DirEntry { is_dir, name },
                KeyKind::DirEntry { is_dir: other_is_dir, name: other_name },
            ) => {
                if *is_dir && !*other_is_dir {
                    Ordering::Less
                } else if !*is_dir && *other_is_dir {
                    Ordering::Greater
                } else {
                    compare_names(name, other_name)
                }
            },
        }
    }
}

impl Key {
    /// The key of the metadata of a file.
    pub fn metadata(file_id: Unique) -> (key: Self)
        ensures
            key == (Key { file_id, kind: KeyKind::Metadata }),
            key@ == metadata_key(file_id),
    {
        Key { file_id, kind: KeyKind::Metadata }
    }

    /// The key of a directory entry.
    pub fn dir_entry(file_id: Unique, is_dir: bool, name: Arc<Vec<u8>>) -> (key: Self)
        ensures
            key == (Key { file_id, kind: KeyKind::DirEntry { is_dir, name } }),
            key@ == entry_key(file_id, is_dir, name@),
    {
        Key { file_id, kind: KeyKind::DirEntry { is_dir, name } }
    }

    /// Compares two keys.
    pub fn cmp(&self, other: &Self) -> (ordering: Ordering)
        ensures
            ordering == key_order(self@, other@),
    {
        if self.file_id.0 < other.file_id.0 {
            Ordering::Less
        } else if self.file_id.0 > other.file_id.0 {
            Ordering::Greater
        } else {
            self.kind.cmp(&other.kind)
        }
    }
}

impl Clone for KeyKind {
    fn clone(&self) -> (copy: Self)
        ensures
            copy == *self,
    {
        match self {
            KeyKind::Metadata => KeyKind::Metadata,
            KeyKind::DirEntry { is_dir, name } => KeyKind::DirEntry {
                is_dir: *is_dir,
                name: name.clone(),
            },
        }
    }
}

impl Clone for Key {
    fn clone(&self) -> (copy: Self)
        ensures
            copy == *self,
    {
        Key { file_id: self.file_id, kind: self.kind.clone() }
    }
}

impl Default for Key {
    fn default() -> (key: Self)
        ensures
            key@ == metadata_key(root_id()),
    {
        Key::metadata(Unique::default())
    }
}

impl PartialOrd for Key {
    fn partial_cmp(&self, other: &Self) -> (ordering: Option<Ordering>) {
        Some(self.cmp(other))
    }
}

impl PartialOrdSpecImpl for Key {
    open spec fn obeys_partial_cmp_spec() -> bool {
        true
    }

    open spec fn partial_cmp_spec(&self, other: &Self) -> Option<Ordering> {
        Some(key_order(self@, other@))
    }
}

impl PartialOrd for KeyKind {
    fn partial_cmp(&self, other: &Self) -> (ordering: Option<Ordering>) {
        Some(self.cmp(other))
    }
}

impl PartialOrdSpecImpl for KeyKind {
    open spec fn obeys_partial_cmp_spec() -> bool {
        true
    }

    open spec fn partial_cmp_spec(&self, other: &Self) -> Option<Ordering> {
        Some(kind_order(self@, other@))
    }
}

impl Dimension for Key {
    open spec fn before(self, other: Self) -> bool {
        key_lt(self@, other@)
    }

    fn is_before(&self, other: &Self) -> (b: bool) {
        self.lt(other)
    }

    fn from_summary(summary: &Self) -> (dimension: &Self) {
        summary
    }

    fn add_assign(&mut self, other: &Self) {
        if self.is_before(other) {
            *self = other.clone();
        }
    }

    fn add(self, other: &Self) -> (sum: Self) {
        if self.is_before(other) {
            other.clone()
        } else {
            self
        }
    }
}

} // verus!
