//! What holds of keys, of trees and of their listings as a whole.

use std::sync::Arc;

use vstd::prelude::*;

use super::item::{Inode, InodeToFileId, Item, ItemView};
use super::key::{
    entry_key, key_lt, kind_lt, lemma_key_lt_asymmetric, lemma_key_lt_irreflexive,
    lemma_key_lt_total, lemma_key_lt_transitive, metadata_key, KeyView, KindView,
};
use super::merge::{
    dropped, held, lemma_ancestor_over, matches_push, reconciled, traced, ChangeView, Origin,
};
use super::model::{
    ancestor, entry_kind, in_directory, is_entry, is_metadata_of, key_skips, layout, leads,
    lemma_child_metadata, lemma_seek, lemma_seek_ends, listing, metadata_pos, parent, placed,
    reaches, seek, sorted, trail, visible, visits, walk, walk_of, well_formed, Listed, Visit,
};
use super::pushes::{beside, fits, in_order, parent_id, under, up, Pushed};
use super::rebuild::{built, lemma_visit_keys, rendered};
use super::sort::rearranged;
use super::store::Store;
use super::tree::{lookup, lookup_name, path_names, search, Tree};
use super::walks::{lemma_listing, lemma_parent, lemma_walk_unique};
use crate::btree;
use crate::btree::{Dimension, SeekBias};
use crate::id::{root_id, Unique};
use crate::names::{law_name_order, name_lt};

verus! {

// --- Keys ---

/// The metadata of a file comes before its entries, its directories before its other files.
pub proof fn law_dirs_before_files(file_id: Unique, dir: Seq<u8>, file: Seq<u8>)
    ensures
        key_lt(metadata_key(file_id), entry_key(file_id, true, dir)),
        key_lt(entry_key(file_id, true, dir), entry_key(file_id, false, file)),
        key_lt(metadata_key(file_id), entry_key(file_id, false, file)),
{
}

/// The later of two keys, which is their sum.
pub open spec fn later_key(a: KeyView, b: KeyView) -> KeyView {
    if key_lt(a, b) {
        b
    } else {
        a
    }
}

/// The later of two inodes, which is their sum.
pub open spec fn later_inode(a: Inode, b: Inode) -> Inode {
    if a.0 < b.0 {
        b
    } else {
        a
    }
}

/// Keys can be summed up in any order and any number of times.
pub proof fn law_key_sums(a: KeyView, b: KeyView, c: KeyView)
    ensures
        later_key(a, a) == a,
        later_key(a, b) == later_key(b, a),
        later_key(later_key(a, b), c) == later_key(a, later_key(b, c)),
        !key_lt(later_key(a, b), a),
        !key_lt(later_key(a, b), b),
{
    lemma_key_lt_total(a, b);
    lemma_key_lt_total(b, c);
    lemma_key_lt_total(a, c);
    lemma_key_lt_irreflexive(a);
    lemma_key_lt_irreflexive(b);
    if key_lt(a, b) {
        lemma_key_lt_asymmetric(a, b);
        if key_lt(b, c) {
            lemma_key_lt_transitive(a, b, c);
        }
    }
    if key_lt(b, a) {
        lemma_key_lt_asymmetric(b, a);
        if key_lt(a, c) {
            lemma_key_lt_transitive(b, a, c);
        }
    }
    if key_lt(c, b) {
        lemma_key_lt_asymmetric(c, b);
        if key_lt(b, a) {
            lemma_key_lt_transitive(c, b, a);
            lemma_key_lt_asymmetric(c, a);
        }
    }
}

/// Inodes can be summed up in any order and any number of times.
pub proof fn law_inode_sums(a: Inode, b: Inode, c: Inode)
    ensures
        later_inode(a, a) == a,
        later_inode(a, b) == later_inode(b, a),
        later_inode(later_inode(a, b), c) == later_inode(a, later_inode(b, c)),
        later_inode(a, b).0 >= a.0,
        later_inode(a, b).0 >= b.0,
        a.before(b) <==> a.0 < b.0,
{
}

/// Items are searched by the files that they belong to, and by their kinds and names. The files of
/// inodes are searched by the inodes.
pub proof fn law_searched_by(item: Item, mapping: InodeToFileId)
    ensures
        btree::Item::summary(&item).file_id == match item {
            Item::Metadata { file_id, .. } => file_id,
            Item::DirEntry { file_id, .. } => file_id,
        },
        btree::Item::summary(&item).kind@ == match item@ {
            ItemView::Metadata { .. } => KindView::Metadata,
            ItemView::DirEntry { is_dir, name, .. } => KindView::DirEntry { is_dir, name },
        },
        btree::Item::summary(&mapping) == mapping.inode,
{
}

// --- Trees ---

/// The empty tree is a tree in any store, and lists nothing.
pub proof fn law_empty_tree<S: Store>(tree: Tree, db: &S)
    requires
        tree.is_new(),
    ensures
        tree.wf(db),
        listing(tree.contents(db)) == Seq::<Listed>::empty(),
{
    let items = tree.contents(db);
    let w = Seq::<Visit>::empty();
    assert(items =~= Seq::empty());
    assert(walk_of(items, w)) by {
        assert forall|p: int| #[trigger] visible(items, p) implies false by {}
    }
    lemma_walk_unique(items, w);
    assert(listing(items) =~= Seq::empty());
}

/// No file is listed twice.
pub proof fn law_listed_once(items: Seq<ItemView>, i: int, j: int)
    requires
        well_formed(items),
        0 <= i < j < listing(items).len(),
    ensures
        listing(items)[i].entry.child_id() != listing(items)[j].entry.child_id(),
{
    let w = walk(items);
    assert(walk_of(items, w));
    lemma_listing(items, i);
    lemma_listing(items, j);
    assert(items[w[i].pos].child_id() != items[w[j].pos].child_id());
}

/// Every entry is listed with the names on the way to it. It lies in the root directory, or in a
/// directory that is listed before it.
pub proof fn law_listed_in_directory(items: Seq<ItemView>, i: int)
    requires
        well_formed(items),
        0 <= i < listing(items).len(),
    ensures
        listing(items)[i].depth >= 1,
        listing(items)[i].path.len() == listing(items)[i].depth,
        listing(items)[i].path.last() == listing(items)[i].entry.name(),
        listing(items)[i].depth == 1 ==> listing(items)[i].entry.file_id() == root_id(),
        listing(items)[i].depth > 1 ==> exists|j: int|
            0 <= j < i && (#[trigger] listing(items)[j]).depth + 1 == listing(items)[i].depth
                && listing(items)[j].entry.is_dir() && listing(items)[j].entry.child_id()
                == listing(items)[i].entry.file_id() && listing(items)[j].path == listing(
                items,
            )[i].path.drop_last(),
{
    let w = walk(items);
    assert(walk_of(items, w));
    lemma_listing(items, i);
    assert(placed(items, w, i));
    assert(w[i].depth >= 1);
    let d = w[i].depth;
    assert(ancestor(w, i, d) == i);
    assert(trail(w, i, d)[d - 1] == w[i].pos);
    if d > 1 {
        lemma_parent(items, w, i);
        let j = ancestor(w, i, d - 1);
        lemma_listing(items, j);
        assert(listing(items)[j].path =~= listing(items)[i].path.drop_last()) by {
            let (a, b) = (listing(items)[j].path, listing(items)[i].path.drop_last());
            assert forall|k: int| 0 <= k < d - 1 implies #[trigger] a[k] == b[k] by {
                lemma_ancestor_over(w, j, i, k + 1);
                assert(trail(w, j, d - 1)[k] == trail(w, i, d)[k]);
            }
        }
    }
}

/// What is listed is an entry among the items, with the inode that is in the metadata of the file
/// that the entry names.
pub proof fn law_listed_item(items: Seq<ItemView>, i: int)
    requires
        well_formed(items),
        0 <= i < listing(items).len(),
    ensures
        listing(items)[i].entry is DirEntry,
        items.contains(listing(items)[i].entry),
        items.contains(
            ItemView::Metadata {
                file_id: listing(items)[i].entry->DirEntry_child_id,
                is_dir: listing(items)[i].entry->DirEntry_is_dir,
                inode: listing(items)[i].inode,
            },
        ),
{
    let w = walk(items);
    assert(walk_of(items, w));
    lemma_listing(items, i);
    let p = w[i].pos;
    assert(visible(items, p));
    lemma_child_metadata(items, p);
    let q = metadata_pos(items, items[p].child_id());
    assert(items[q] == (ItemView::Metadata {
        file_id: listing(items)[i].entry->DirEntry_child_id,
        is_dir: listing(items)[i].entry->DirEntry_is_dir,
        inode: listing(items)[i].inode,
    }));
    assert(items[p] == listing(items)[i].entry);
}

/// Entries are listed depth first: between a directory and what lies in it there is only what lies
/// below the directory.
pub proof fn law_listed_depth_first(items: Seq<ItemView>, i: int, k: int, j: int)
    requires
        well_formed(items),
        0 <= i < k <= j < listing(items).len(),
        listing(items)[i].entry.is_dir(),
        listing(items)[j].entry.file_id() == listing(items)[i].entry.child_id(),
    ensures
        listing(items)[j].depth == listing(items)[i].depth + 1,
        listing(items)[k].depth > listing(items)[i].depth,
        listing(items)[k].path.take(listing(items)[i].depth) == listing(items)[i].path,
{
    let w = walk(items);
    assert(walk_of(items, w));
    lemma_listing(items, i);
    lemma_listing(items, j);
    lemma_listing(items, k);
    assert(placed(items, w, j));
    assert(w[i].depth >= 1 && w[j].depth >= 1);
    if w[j].depth == 1 {
        assert(items[w[i].pos].child_id() != root_id());
    }
    let h = choose|h: int| #[trigger] parent(items, w, h, j);
    if h < i {
        assert(items[w[h].pos].child_id() != items[w[i].pos].child_id());
    } else if i < h {
        assert(items[w[i].pos].child_id() != items[w[h].pos].child_id());
    }
    assert forall|l: int| i < l <= j implies (#[trigger] w[l]).depth > w[i].depth by {}
    let d = w[i].depth;
    let (a, b) = (listing(items)[k].path, listing(items)[i].path);
    assert forall|e: int| 0 <= e < d implies #[trigger] a[e] == b[e] by {
        assert forall|l: int| i < l <= k implies (#[trigger] w[l]).depth > e + 1 by {}
        lemma_ancestor_over(w, i, k, e + 1);
        assert(trail(w, k, w[k].depth)[e] == trail(w, i, d)[e]);
    }
    assert(a.take(d) =~= b);
}

/// The entries of a directory are listed first the directories, then the files, each in the order
/// of their names, and no two of the same kind and name.
pub proof fn law_listed_in_order(items: Seq<ItemView>, i: int, j: int)
    requires
        well_formed(items),
        0 <= i < j < listing(items).len(),
        listing(items)[i].entry.file_id() == listing(items)[j].entry.file_id(),
    ensures
        kind_lt(entry_kind(listing(items)[i].entry), entry_kind(listing(items)[j].entry)),
        ({
            let (a, b) = (listing(items)[i].entry, listing(items)[j].entry);
            ||| a.is_dir() && !b.is_dir()
            ||| a.is_dir() == b.is_dir() && exists|k: int|
                0 <= k <= a.name().len() && k < b.name().len() && #[trigger] a.name().take(k)
                    == b.name().take(k) && (k == a.name().len() || a.name()[k] < b.name()[k])
        }),
{
    law_name_order(listing(items)[i].entry.name(), listing(items)[j].entry.name());
    let w = walk(items);
    assert(walk_of(items, w));
    lemma_listing(items, i);
    lemma_listing(items, j);
    assert(w[i].pos < w[j].pos);
    assert(visible(items, w[i].pos) && visible(items, w[j].pos));
    assert(leads(items, w[j].pos));
    assert(key_lt(items[w[i].pos].key(), items[w[j].pos].key()));
}

/// Every entry that is not deleted and lies in a directory that is listed, or in the root
/// directory, is listed itself.
pub proof fn law_all_listed(items: Seq<ItemView>, p: int)
    requires
        well_formed(items),
        0 <= p < items.len(),
        items[p] is DirEntry,
        items[p]->DirEntry_deletions.len() == 0,
        items[p].file_id() == root_id() || exists|i: int|
            0 <= i < listing(items).len() && (#[trigger] listing(items)[i]).entry.is_dir()
                && listing(items)[i].entry.child_id() == items[p].file_id(),
    ensures
        exists|i: int|
            0 <= i < listing(items).len() && #[trigger] listing(items)[i].entry == items[p],
{
    let w = walk(items);
    assert(walk_of(items, w));
    assert(visible(items, p));
    if items[p].file_id() != root_id() {
        let i = choose|i: int|
            0 <= i < listing(items).len() && (#[trigger] listing(items)[i]).entry.is_dir()
                && listing(items)[i].entry.child_id() == items[p].file_id();
        lemma_listing(items, i);
        assert(items[w[i].pos].child_id() == items[p].file_id());
    }
    assert(reaches(items, w, items[p].file_id()));
    assert(visits(w, p));
    let m = choose|m: int| 0 <= m < w.len() && (#[trigger] w[m]).pos == p;
    lemma_listing(items, m);
    assert(listing(items)[m].entry == items[p]);
}

/// No deleted entry is listed.
pub proof fn law_deleted_not_listed(items: Seq<ItemView>, i: int)
    requires
        well_formed(items),
        0 <= i < listing(items).len(),
    ensures
        !listing(items)[i].entry.is_deleted(),
        listing(items)[i].entry->DirEntry_deletions.len() == 0,
{
    let w = walk(items);
    assert(walk_of(items, w));
    lemma_listing(items, i);
    assert(visible(items, w[i].pos));
}

// --- Looking up paths ---

/// The names that are looked up are those in the path, one by one.
pub proof fn law_path_names(path: Seq<Arc<Vec<u8>>>, k: int)
    requires
        0 <= k < path.len(),
    ensures
        path_names(path).len() == path.len(),
        path_names(path)[k] == path[k]@,
{
}

/// A search for the key of a directory entry that leads ends there.
pub(crate) proof fn lemma_search(items: Seq<ItemView>, p: int)
    requires
        is_entry(items, p),
        leads(items, p),
        items[p].is_dir(),
    ensures
        search(items, items[p].file_id(), items[p].name()) == p,
        lookup_name(items, items[p].file_id(), items[p].name()) == Some(items[p].child_id()),
{
    let dir = items[p].file_id();
    let a = seek(items, 0, metadata_key(dir), SeekBias::Right);
    lemma_seek(items, 0, metadata_key(dir), SeekBias::Right);
    if p < a {
        assert(key_skips(items[p].key(), metadata_key(dir), SeekBias::Right));
    }
    lemma_key_lt_irreflexive(items[p].key());
    lemma_seek_ends(items, a, items[p].key(), SeekBias::Left, p);
}

/// A search ends at the first item that does not come before the directory looked for.
pub proof fn law_search(items: Seq<ItemView>, dir: Unique, name: Seq<u8>)
    requires
        sorted(items),
    ensures
        search(items, dir, name) == seek(items, 0, entry_key(dir, true, name), SeekBias::Left),
{
    let key = entry_key(dir, true, name);
    let a = seek(items, 0, metadata_key(dir), SeekBias::Right);
    let p = seek(items, a, key, SeekBias::Left);
    lemma_seek(items, 0, metadata_key(dir), SeekBias::Right);
    lemma_seek(items, a, key, SeekBias::Left);
    assert forall|k: int| 0 <= k < p implies key_skips(
        #[trigger] items[k].key(),
        key,
        SeekBias::Left,
    ) by {
        if k < a {
            let here = items[k].key();
            assert(key_skips(here, metadata_key(dir), SeekBias::Right));
            lemma_key_lt_total(here, metadata_key(dir));
            if here != metadata_key(dir) {
                lemma_key_lt_transitive(here, metadata_key(dir), key);
            }
        }
    }
    lemma_seek_ends(items, 0, key, SeekBias::Left, p);
}

/// What a search for a name in a directory finds is an entry of that directory with that name.
pub proof fn law_found_in_directory(items: Seq<ItemView>, dir: Unique, name: Seq<u8>)
    requires
        layout(items),
    ensures
        lookup_name(items, dir, name) matches Some(id) ==> exists|p: int| #[trigger]
            is_entry(items, p) && items[p].file_id() == dir && items[p].name() == name
                && items[p].child_id() == id,
{
    if lookup_name(items, dir, name) is Some {
        lemma_found_here(items, dir, name);
        assert(is_entry(items, search(items, dir, name)));
    }
}

/// What a search finds is the entry at which it ends, and that is one of the directory.
proof fn lemma_found_here(items: Seq<ItemView>, dir: Unique, name: Seq<u8>)
    requires
        layout(items),
        lookup_name(items, dir, name) is Some,
    ensures
        is_entry(items, search(items, dir, name)),
        items[search(items, dir, name)].file_id() == dir,
{
    law_search(items, dir, name);
    let key = entry_key(dir, true, name);
    let p = search(items, dir, name);
    lemma_seek(items, 0, key, SeekBias::Left);
    assert(is_entry(items, p));
    let f = items[p].file_id();
    if f != dir {
        // The metadata of a later directory would have come first.
        assert(!key_lt(items[p].key(), key));
        assert(in_directory(items, p));
        let q = choose|q: int| #[trigger] is_metadata_of(items, q, f);
        if q < p {
            assert(key_skips(items[q].key(), key, SeekBias::Left));
        } else {
            assert(!key_lt(items[q].key(), items[p].key()));
        }
    }
}

/// A search that finds a directory goes on from there.
pub(crate) proof fn lemma_lookup_push(
    items: Seq<ItemView>,
    dir: Unique,
    path: Seq<Seq<u8>>,
    found: Unique,
    name: Seq<u8>,
)
    requires
        lookup(items, dir, path) == Some(found),
    ensures
        lookup(items, dir, path.push(name)) == lookup_name(items, found, name),
    decreases path.len(),
{
    reveal_with_fuel(lookup, 2);
    let longer = path.push(name);
    if path.len() == 0 {
        assert(longer.drop_first() =~= Seq::empty());
        assert(longer[0] == name);
    } else {
        assert(longer[0] == path[0]);
        assert(longer.drop_first() =~= path.drop_first().push(name));
        let next = lookup_name(items, dir, path[0])->0;
        lemma_lookup_push(items, next, path.drop_first(), found, name);
    }
}

/// Whether an entry of the directory `dir` with the given name names `id`.
spec fn links(items: Seq<ItemView>, dir: Unique, name: Seq<u8>, id: Unique) -> bool {
    exists|p: int|
        0 <= p < items.len() && (#[trigger] items[p] matches ItemView::DirEntry {
            file_id,
            child_id,
            name: here,
            ..
        } && file_id == dir && here == name && child_id == id)
}

/// Looking up the empty path finds the root directory. If a path is found, its way on is that of
/// one more name: the first entry of the directory that is not the entry of another directory with
/// a smaller name is found if it has the name looked for, and nothing else is. Deleted entries
/// count like others. What is not found is not found with more names either.
pub proof fn law_lookup_step(items: Seq<ItemView>, path: Seq<Seq<u8>>, name: Seq<u8>, id: Unique)
    requires
        layout(items),
    ensures
        lookup(items, root_id(), Seq::empty()) == Some(root_id()),
        lookup(items, root_id(), path) is None ==> lookup(
            items,
            root_id(),
            path.push(name),
        ) is None,
        lookup(items, root_id(), path) matches Some(dir) ==> (lookup(
            items,
            root_id(),
            path.push(name),
        ) == Some(id) <==> exists|p: int|
            0 <= p < items.len() && (#[trigger] items[p] matches ItemView::DirEntry {
                file_id,
                child_id,
                name: here,
                ..
            } && file_id == dir && child_id == id && here == name && forall|q: int|
                0 <= q < p ==> (#[trigger] items[q] matches ItemView::DirEntry {
                    file_id: f,
                    is_dir,
                    name: other,
                    ..
                } ==> f == dir ==> is_dir && name_lt(other, name)))),
{
    if lookup(items, root_id(), path) is None {
        lemma_lookup_none(items, root_id(), path, name);
    } else {
        let dir = lookup(items, root_id(), path)->0;
        lemma_lookup_push(items, root_id(), path, dir, name);
        law_search(items, dir, name);
        let key = entry_key(dir, true, name);
        let s = search(items, dir, name);
        lemma_seek(items, 0, key, SeekBias::Left);
        if lookup_name(items, dir, name) == Some(id) {
            lemma_found_here(items, dir, name);
            assert(items[s] is DirEntry);
            assert forall|q: int| 0 <= q < s implies (
            #[trigger] items[q] matches ItemView::DirEntry { file_id: f, is_dir, name: other, .. }
                ==> f == dir ==> is_dir && name_lt(other, name)) by {
                assert(key_skips(items[q].key(), key, SeekBias::Left));
            }
        }
        if exists|p: int|
            0 <= p < items.len() && (#[trigger] items[p] matches ItemView::DirEntry {
                file_id,
                child_id,
                name: here,
                ..
            } && file_id == dir && child_id == id && here == name && forall|q: int|
                0 <= q < p ==> (#[trigger] items[q] matches ItemView::DirEntry {
                    file_id: f,
                    is_dir,
                    name: other,
                    ..
                } ==> f == dir ==> is_dir && name_lt(other, name))) {
            let p = choose|p: int|
                0 <= p < items.len() && (#[trigger] items[p] matches ItemView::DirEntry {
                    file_id,
                    child_id,
                    name: here,
                    ..
                } && file_id == dir && child_id == id && here == name && forall|q: int|
                    0 <= q < p ==> (#[trigger] items[q] matches ItemView::DirEntry {
                        file_id: f,
                        is_dir,
                        name: other,
                        ..
                    } ==> f == dir ==> is_dir && name_lt(other, name)));
            assert forall|k: int| 0 <= k < p implies key_skips(
                #[trigger] items[k].key(),
                key,
                SeekBias::Left,
            ) by {
                assert(!key_lt(items[p].key(), items[k].key()));
                assert(items[k] matches ItemView::DirEntry { file_id: f, is_dir, name: other, .. }
                    ==> f == dir ==> is_dir && name_lt(other, name));
            }
            lemma_key_lt_irreflexive(key);
            lemma_seek_ends(items, 0, key, SeekBias::Left, p);
        }
    }
}

/// What is not found is not found with more names either.
proof fn lemma_lookup_none(items: Seq<ItemView>, dir: Unique, path: Seq<Seq<u8>>, name: Seq<u8>)
    requires
        lookup(items, dir, path) is None,
    ensures
        lookup(items, dir, path.push(name)) is None,
    decreases path.len(),
{
    let longer = path.push(name);
    assert(longer[0] == path[0]);
    assert(longer.drop_first() =~= path.drop_first().push(name));
    if let Some(next) = lookup_name(items, dir, path[0]) {
        lemma_lookup_none(items, next, path.drop_first(), name);
    }
}

/// If the first names of a path are not found, the path is not found.
pub proof fn law_lookup_prefix(items: Seq<ItemView>, path: Seq<Seq<u8>>, n: int)
    requires
        0 <= n <= path.len(),
        lookup(items, root_id(), path.take(n)) is None,
    ensures
        lookup(items, root_id(), path) is None,
    decreases path.len() - n,
{
    if n < path.len() {
        lemma_lookup_none(items, root_id(), path.take(n), path[n]);
        assert(path.take(n).push(path[n]) =~= path.take(n + 1));
        law_lookup_prefix(items, path, n + 1);
    } else {
        assert(path.take(n) =~= path);
    }
}

/// A path that is found is one of entries, one for each name of the path: the first of the root
/// directory, each other of the directory that the one before it names. The last one names what is
/// found. The law gives the files on the way, the root directory first, and where the entries are.
pub proof fn law_lookup_chain(items: Seq<ItemView>, path: Seq<Seq<u8>>) -> (way: (
    Seq<Unique>,
    Seq<int>,
))
    requires
        layout(items),
        lookup(items, root_id(), path) is Some,
    ensures
        ({
            let (ids, at) = way;
            &&& ids.len() == path.len() + 1
            &&& at.len() == path.len()
            &&& ids[0] == root_id()
            &&& lookup(items, root_id(), path) == Some(ids.last())
            &&& forall|k: int|
                0 <= k < path.len() ==> 0 <= #[trigger] at[k] < items.len() && (
                items[at[k]] matches ItemView::DirEntry { file_id, child_id, name, .. } && file_id
                    == ids[k] && name == path[k] && child_id == ids[k + 1])
        }),
{
    let ids = lemma_lookup_chain(items, root_id(), path);
    let at = Seq::new(
        path.len(),
        |k: int|
            choose|p: int|
                0 <= p < items.len() && (#[trigger] items[p] matches ItemView::DirEntry {
                    file_id,
                    child_id,
                    name,
                    ..
                } && file_id == ids[k] && name == path[k] && child_id == ids[k + 1]),
    );
    assert forall|k: int| 0 <= k < path.len() implies 0 <= #[trigger] at[k] < items.len() && (
    items[at[k]] matches ItemView::DirEntry { file_id, child_id, name, .. } && file_id == ids[k]
        && name == path[k] && child_id == ids[k + 1]) by {
        assert(links(items, ids[k], path[k], ids[k + 1]));
    }
    (ids, at)
}

/// The files on the way from `dir` on.
proof fn lemma_lookup_chain(items: Seq<ItemView>, dir: Unique, path: Seq<Seq<u8>>) -> (ids: Seq<
    Unique,
>)
    requires
        layout(items),
        lookup(items, dir, path) is Some,
    ensures
        ids.len() == path.len() + 1,
        ids[0] == dir,
        lookup(items, dir, path) == Some(ids.last()),
        forall|k: int|
            0 <= k < path.len() ==> links(items, ids[k], #[trigger] path[k], ids[k + 1]),
    decreases path.len(),
{
    if path.len() == 0 {
        seq![dir]
    } else {
        let next = lookup_name(items, dir, path[0])->0;
        law_found_in_directory(items, dir, path[0]);
        let rest = lemma_lookup_chain(items, next, path.drop_first());
        let ids = seq![dir] + rest;
        assert(ids.last() == rest.last());
        assert forall|k: int| 0 <= k < path.len() implies links(
            items,
            ids[k],
            #[trigger] path[k],
            ids[k + 1],
        ) by {
            if k == 0 {
                let p = choose|p: int| #[trigger]
                    is_entry(items, p) && items[p].file_id() == dir && items[p].name() == path[0]
                        && items[p].child_id() == next;
                assert(items[p] is DirEntry);
            } else {
                assert(path.drop_first()[k - 1] == path[k]);
                assert(ids[k] == rest[k - 1] && ids[k + 1] == rest[k]);
            }
        }
        ids
    }
}

/// Looking up the path of a directory that is listed finds that directory.
pub proof fn law_directory_found(items: Seq<ItemView>, i: int)
    requires
        well_formed(items),
        0 <= i < listing(items).len(),
        listing(items)[i].entry.is_dir(),
    ensures
        lookup(items, root_id(), listing(items)[i].path) == Some(
            listing(items)[i].entry.child_id(),
        ),
    decreases i,
{
    let w = walk(items);
    assert(walk_of(items, w));
    lemma_listing(items, i);
    law_listed_in_directory(items, i);
    assert(visible(items, w[i].pos));
    lemma_search(items, w[i].pos);
    let here = listing(items)[i];
    let up_path = here.path.drop_last();
    if here.depth > 1 {
        let j = choose|j: int|
            0 <= j < i && (#[trigger] listing(items)[j]).depth + 1 == here.depth && listing(
                items,
            )[j].entry.is_dir() && listing(items)[j].entry.child_id() == here.entry.file_id()
                && listing(items)[j].path == up_path;
        law_directory_found(items, j);
    } else {
        assert(up_path =~= Seq::empty());
    }
    assert(here.path =~= up_path.push(here.entry.name()));
    lemma_lookup_push(items, root_id(), up_path, here.entry.file_id(), here.entry.name());
}

// --- Listing a tree again ---

/// Whether the pushes are those of the entries that are listed.
pub open spec fn relists(ps: Seq<Pushed>, list: Seq<Listed>) -> bool {
    &&& ps.len() == list.len()
    &&& forall|i: int|
        0 <= i < ps.len() ==> (#[trigger] ps[i]).depth == list[i].depth && ps[i].kind()
            == entry_kind(list[i].entry)
}

/// The listing of a tree is in the order in which a builder takes entries.
pub proof fn law_listing_is_in_order(items: Seq<ItemView>, ps: Seq<Pushed>)
    requires
        well_formed(items),
        relists(ps, listing(items)),
    ensures
        in_order(ps),
{
    let w = walk(items);
    assert(walk_of(items, w));
    assert forall|i: int| 0 <= i < ps.len() implies (#[trigger] ps[i]).depth == w[i].depth
        && ps[i].kind() == entry_kind(items[w[i].pos]) && w[i].depth >= 1 by {
        lemma_listing(items, i);
    }
    assert forall|i: int| 0 <= i < ps.len() implies #[trigger] fits(ps, i) by {
        assert(placed(items, w, i));
        assert(ps[i].depth == w[i].depth);
        if ps[i].depth != 1 {
            let j = choose|j: int| #[trigger] parent(items, w, j, i);
            assert(ps[j].depth == w[j].depth);
            assert forall|k: int| j < k < i implies (#[trigger] ps[k]).depth >= ps[i].depth by {
                assert(w[k].depth >= w[i].depth);
            }
            assert(under(ps, j, i));
        }
    }
    assert forall|i: int, j: int| #[trigger] beside(ps, i, j) && j < ps.len() implies kind_lt(
        ps[i].kind(),
        ps[j].kind(),
    ) by {
        assert(ps[i].depth == w[i].depth && ps[j].depth == w[j].depth);
        let d = w[i].depth;
        assert(placed(items, w, i) && placed(items, w, j));
        if d > 1 {
            assert forall|k: int| i < k <= j implies (#[trigger] w[k]).depth > d - 1 by {
                assert(ps[k].depth == w[k].depth);
            }
            lemma_ancestor_over(w, i, j, d - 1);
            lemma_parent(items, w, i);
            lemma_parent(items, w, j);
        }
        lemma_listing(items, i);
        lemma_listing(items, j);
        law_listed_in_order(items, i, j);
    }
}

/// The way up is the same in a listing and in the pushes of what it lists.
proof fn lemma_relisted_up(items: Seq<ItemView>, ps: Seq<Pushed>, i: int, d: int)
    requires
        well_formed(items),
        relists(ps, listing(items)),
        0 <= i < ps.len(),
    ensures
        up(ps, i, d) == ancestor(walk(items), i, d),
    decreases i,
{
    lemma_listing(items, i);
    assert(ps[i].depth == walk(items)[i].depth);
    if i > 0 {
        lemma_relisted_up(items, ps, i - 1, d);
    }
}

/// Pushes of what a tree lists find what they list.
proof fn lemma_relisted(
    items: Seq<ItemView>,
    j: int,
    ps: Seq<Pushed>,
    changes: Seq<ChangeView>,
    origins: Seq<Origin>,
    i: int,
)
    requires
        well_formed(items),
        reconciled(items, walk(items), j, ps, changes, origins),
        relists(ps, listing(items)),
        0 <= i < ps.len(),
    ensures
        ps[i].kept == Some(i),
    decreases i,
{
    let w = walk(items);
    assert(walk_of(items, w));
    lemma_listing(items, i);
    assert(ps[i].depth == w[i].depth && ps[i].kind() == entry_kind(items[w[i].pos]));
    assert(w[i].depth >= 1);
    assert(visible(items, w[i].pos));
    assert(placed(items, w, i));
    assert(parent_id(ps, i) == ps[i].parent);
    if w[i].depth > 1 {
        let d = w[i].depth - 1;
        lemma_relisted_up(items, ps, i, d);
        lemma_parent(items, w, i);
        let a = up(ps, i, d);
        lemma_relisted(items, j, ps, changes, origins, a);
        assert(matches_push(items[w[a].pos], ps[a]));
    }
    assert(items[w[i].pos].file_id() == ps[i].parent);
    assert(ps[i].kept is Some);
    let k = ps[i].kept->0;
    assert(matches_push(items[w[k].pos], ps[i]));
    assert(visible(items, w[k].pos));
    lemma_visit_keys(items, w, i, k);
}

/// What pushes of all that a tree lists lead to: nothing.
pub(crate) proof fn lemma_relisted_all(
    items: Seq<ItemView>,
    j: int,
    ps: Seq<Pushed>,
    changes: Seq<ChangeView>,
    origins: Seq<Origin>,
)
    requires
        well_formed(items),
        reconciled(items, walk(items), j, ps, changes, origins),
        relists(ps, listing(items)),
    ensures
        forall|i: int| 0 <= i < ps.len() ==> (#[trigger] ps[i]).kept == Some(i),
        j == walk(items).len(),
        changes.len() == 0,
{
    let w = walk(items);
    let n = ps.len() as int;
    assert forall|i: int| 0 <= i < n implies (#[trigger] ps[i]).kept == Some(i) by {
        lemma_relisted(items, j, ps, changes, origins, i);
    }
    if n > 0 {
        assert(ps[n - 1].kept == Some(n - 1));
    }
    if changes.len() > 0 {
        assert(traced(items, w, j, ps, changes[0], origins[0]));
        match origins[0] {
            Origin::Removed(k) => {
                assert(dropped(origins, k) != held(ps, k));
                assert(origins[0] == Origin::Removed(k));
                assert(ps[k].kept == Some(k));
            },
            Origin::Inserted(i) => {
                assert(ps[i].kept == Some(i));
            },
        }
    }
}

/// Without changes the items stay as they are.
pub proof fn law_no_changes(
    items: Seq<ItemView>,
    ids: Seq<Unique>,
    new: Seq<ItemView>,
    result: Seq<ItemView>,
)
    requires
        built(items, Seq::empty(), ids, new, result),
    ensures
        result == items,
{
    assert(rendered(Seq::<ChangeView>::empty(), ids, 0) =~= Seq::empty());
    let order = choose|order: Seq<int>|
        rearranged(
            rendered(Seq::<ChangeView>::empty(), ids, 0),
            new,
            order,
        );
    assert(new.len() == 0);
    assert(items.skip(0) =~= items);
}

} // verus!
