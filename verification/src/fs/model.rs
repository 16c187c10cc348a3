//! What the items of a tree mean: which entries they list, and in which order.
//!
//! The items are sorted by key, so the metadata of a directory is followed by its entries. A
//! cursor goes through the entries depth first. The order in which it does is a *walk*.

use vstd::prelude::*;

use super::item::{Inode, ItemView};
use super::key::{key_lt, lemma_key_lt_irreflexive, metadata_key, KeyView, KindView};
use crate::btree::SeekBias;
use crate::id::{root_id, Unique};

verus! {

/// Whether a seek for `target` goes past an item with the given key.
pub open spec fn key_skips(key: KeyView, target: KeyView, bias: SeekBias) -> bool {
    match bias {
        SeekBias::Left => key_lt(key, target),
        SeekBias::Right => !key_lt(target, key),
    }
}

/// The first position at or after `from` whose item a seek for `target` does not go past.
pub open spec fn seek(items: Seq<ItemView>, from: int, target: KeyView, bias: SeekBias) -> int
    decreases items.len() - from,
{
    if from >= items.len() {
        items.len() as int
    } else if key_skips(items[from].key(), target, bias) {
        seek(items, from + 1, target, bias)
    } else {
        from
    }
}

/// Where a seek for the metadata of the file `id` ends.
pub open spec fn metadata_pos(items: Seq<ItemView>, id: Unique) -> int {
    seek(items, 0, metadata_key(id), SeekBias::Left)
}

/// The inode in the metadata of the file `id`.
pub open spec fn inode_of(items: Seq<ItemView>, id: Unique) -> Inode {
    items[metadata_pos(items, id)].inode()
}

/// Whether there is a directory entry at `p`.
pub open spec fn is_entry(items: Seq<ItemView>, p: int) -> bool {
    0 <= p < items.len() && items[p] is DirEntry
}

/// Whether there is a directory entry at `p` that a cursor stops at: one that is not deleted.
pub open spec fn visible(items: Seq<ItemView>, p: int) -> bool {
    is_entry(items, p) && !items[p].is_deleted()
}

/// Whether the metadata of the file `id` is at `p`.
pub open spec fn is_metadata_of(items: Seq<ItemView>, p: int, id: Unique) -> bool {
    0 <= p < items.len() && items[p] is Metadata && items[p].file_id() == id
}

/// Whether the items before `p` all have smaller keys than the item at `p`.
pub open spec fn leads(items: Seq<ItemView>, p: int) -> bool {
    forall|q: int| 0 <= q < p ==> key_lt(#[trigger] items[q].key(), items[p].key())
}

/// Whether the items are in the order of their keys.
pub open spec fn sorted(items: Seq<ItemView>) -> bool {
    forall|p: int, q: int|
        0 <= p < q < items.len() ==> !key_lt(#[trigger] items[q].key(), #[trigger] items[p].key())
}

/// Whether the metadata of the file that the entry at `p` names is there and agrees with it.
pub open spec fn names_file(items: Seq<ItemView>, p: int) -> bool {
    exists|q: int| #[trigger]
        is_metadata_of(items, q, items[p].child_id()) && items[q].is_dir() == items[p].is_dir()
}

/// Whether the metadata of the directory that the entry at `p` belongs to is there. The root
/// directory has none.
pub open spec fn in_directory(items: Seq<ItemView>, p: int) -> bool {
    items[p].file_id() == root_id() || exists|q: int| #[trigger]
        is_metadata_of(items, q, items[p].file_id())
}

/// How an entry sorts among the entries of its directory.
pub open spec fn entry_kind(entry: ItemView) -> KindView {
    KindView::DirEntry { is_dir: entry.is_dir(), name: entry.name() }
}

/// How the items of a tree are laid out.
pub open spec fn layout(items: Seq<ItemView>) -> bool {
    &&& sorted(items)
    &&& forall|p: int| #[trigger] is_entry(items, p) ==> names_file(items, p)
    &&& forall|p: int| #[trigger] is_entry(items, p) ==> in_directory(items, p)
    &&& forall|p: int| #[trigger] visible(items, p) ==> leads(items, p)
    &&& forall|p: int|
        0 <= p < items.len() && #[trigger] items[p] is Metadata ==> leads(items, p)
            && items[p].file_id() != root_id()
}

/// An entry in a walk: the position of its item, and how deep it lies. The entries of the root
/// directory have depth one.
pub struct Visit {
    pub pos: int,
    pub depth: int,
}

/// Whether the visit at `j` is to the directory that the visit at `i` lies in.
pub open spec fn parent(items: Seq<ItemView>, w: Seq<Visit>, j: int, i: int) -> bool {
    &&& 0 <= j < i
    &&& w[j].depth + 1 == w[i].depth
    &&& items[w[j].pos].child_id() == items[w[i].pos].file_id()
    &&& items[w[j].pos].is_dir()
    &&& forall|k: int| j < k < i ==> (#[trigger] w[k]).depth >= w[i].depth
}

/// Whether the visit at `i` is to an entry of the root directory, or of a directory that was
/// visited and not left since.
pub open spec fn placed(items: Seq<ItemView>, w: Seq<Visit>, i: int) -> bool {
    if w[i].depth == 1 {
        items[w[i].pos].file_id() == root_id()
    } else {
        exists|j: int| #[trigger] parent(items, w, j, i)
    }
}

/// Whether the walk visits the directory `id`.
pub open spec fn reaches(items: Seq<ItemView>, w: Seq<Visit>, id: Unique) -> bool {
    id == root_id() || exists|i: int|
        0 <= i < w.len() && items[(#[trigger] w[i]).pos].child_id() == id
            && items[w[i].pos].is_dir()
}

/// Whether the walk visits the entry at `p`.
pub open spec fn visits(w: Seq<Visit>, p: int) -> bool {
    exists|m: int| 0 <= m < w.len() && (#[trigger] w[m]).pos == p
}

/// Whether `w` lists entries that can be reached from the root directory, depth first, the entries
/// of each directory in the order of their positions.
pub open spec fn tour(items: Seq<ItemView>, w: Seq<Visit>) -> bool {
    &&& forall|i: int|
        0 <= i < w.len() ==> visible(items, (#[trigger] w[i]).pos) && w[i].depth >= 1
            && items[w[i].pos].child_id() != root_id()
    &&& forall|i: int| 0 <= i < w.len() ==> #[trigger] placed(items, w, i)
    &&& forall|i: int, j: int|
        #![trigger w[i], w[j]]
        0 <= i < j < w.len() ==> items[w[i].pos].child_id() != items[w[j].pos].child_id()
    &&& forall|i: int, j: int|
        #![trigger w[i], w[j]]
        0 <= i < j < w.len() && items[w[i].pos].file_id() == items[w[j].pos].file_id() ==> w[i].pos
            < w[j].pos
}

/// Whether `w` lists all entries that can be reached from the root directory, depth first, the
/// entries of each directory in the order of their positions.
pub open spec fn walk_of(items: Seq<ItemView>, w: Seq<Visit>) -> bool {
    &&& tour(items, w)
    &&& forall|p: int| #[trigger]
        visible(items, p) && reaches(items, w, items[p].file_id()) ==> visits(w, p)
}

/// Whether the items make a tree that a cursor can walk through.
pub open spec fn well_formed(items: Seq<ItemView>) -> bool {
    layout(items) && exists|w: Seq<Visit>| walk_of(items, w)
}

/// The walk through the items.
pub open spec fn walk(items: Seq<ItemView>) -> Seq<Visit> {
    choose|w: Seq<Visit>| walk_of(items, w)
}

/// The last visit up to `i` that is at depth `d` or above.
pub open spec fn ancestor(w: Seq<Visit>, i: int, d: int) -> int
    decreases i,
{
    if i <= 0 || w[i].depth <= d {
        i
    } else {
        ancestor(w, i - 1, d)
    }
}

/// The first `n` of the positions of the entries that lead to the visit at `i`.
pub open spec fn trail(w: Seq<Visit>, i: int, n: int) -> Seq<int> {
    Seq::new(n as nat, |k: int| w[ancestor(w, i, k + 1)].pos)
}

/// The positions that a cursor holds at the visit `i`: those of the entries that lead to it, its
/// own, and that of the metadata of the file it names.
pub open spec fn stack_at(items: Seq<ItemView>, w: Seq<Visit>, i: int) -> Seq<int> {
    trail(w, i, w[i].depth).push(metadata_pos(items, items[w[i].pos].child_id()))
}

/// The first position at or after `from` that holds no deleted entry.
pub open spec fn next_entry(items: Seq<ItemView>, from: int) -> int
    decreases items.len() - from,
{
    if from < items.len() && items[from].is_deleted() {
        next_entry(items, from + 1)
    } else {
        from
    }
}

/// Whether entries of a directory may follow the item.
pub open spec fn opens(item: ItemView) -> bool {
    item is DirEntry || item.is_dir()
}

/// The positions that a cursor holds after one step from the positions `stack`.
pub open spec fn advance(items: Seq<ItemView>, stack: Seq<int>) -> Seq<int>
    decreases stack.len(),
{
    if stack.len() == 0 {
        stack
    } else {
        let q = next_entry(items, stack.last() + 1);
        if opens(items[stack.last()]) && is_entry(items, q) {
            stack.drop_last().push(q).push(metadata_pos(items, items[q].child_id()))
        } else {
            advance(items, stack.drop_last())
        }
    }
}

/// What a cursor lists at a visit.
pub struct Listed {
    pub depth: int,
    /// The names on the way from the root directory, the entry's own name last.
    pub path: Seq<Seq<u8>>,
    pub entry: ItemView,
    pub inode: Inode,
}

/// The names of the entries at the given positions.
pub open spec fn names_at(items: Seq<ItemView>, positions: Seq<int>) -> Seq<Seq<u8>> {
    Seq::new(positions.len(), |k: int| items[positions[k]].name())
}

/// What a cursor lists at the visit `i` of the walk `w`.
pub open spec fn listed(items: Seq<ItemView>, w: Seq<Visit>, i: int) -> Listed {
    Listed {
        depth: w[i].depth,
        path: names_at(items, trail(w, i, w[i].depth)),
        entry: items[w[i].pos],
        inode: inode_of(items, items[w[i].pos].child_id()),
    }
}

/// What a cursor lists on its way through the items.
pub open spec fn listing(items: Seq<ItemView>) -> Seq<Listed> {
    Seq::new(walk(items).len(), |i: int| listed(items, walk(items), i))
}

// --- Seeking ---

/// What [`seek`] says.
pub proof fn lemma_seek(items: Seq<ItemView>, from: int, target: KeyView, bias: SeekBias)
    requires
        0 <= from <= items.len(),
    ensures
        from <= seek(items, from, target, bias) <= items.len(),
        forall|k: int|
            from <= k < seek(items, from, target, bias) ==> key_skips(
                #[trigger] items[k].key(),
                target,
                bias,
            ),
        seek(items, from, target, bias) < items.len() ==> !key_skips(
            items[seek(items, from, target, bias)].key(),
            target,
            bias,
        ),
    decreases items.len() - from,
{
    if from < items.len() && key_skips(items[from].key(), target, bias) {
        lemma_seek(items, from + 1, target, bias);
    }
}

/// A seek ends at `p` if it goes past all before `p`, and not past `p`.
pub proof fn lemma_seek_ends(
    items: Seq<ItemView>,
    from: int,
    target: KeyView,
    bias: SeekBias,
    p: int,
)
    requires
        0 <= from <= p <= items.len(),
        forall|k: int| from <= k < p ==> key_skips(#[trigger] items[k].key(), target, bias),
        p < items.len() ==> !key_skips(items[p].key(), target, bias),
    ensures
        seek(items, from, target, bias) == p,
{
    lemma_seek(items, from, target, bias);
    let r = seek(items, from, target, bias);
    if r < p {
        assert(key_skips(items[r].key(), target, bias));
    } else if p < r {
        assert(key_skips(items[p].key(), target, bias));
    }
}

/// A seek for the key of an item that all before it come before ends at that item.
pub proof fn lemma_seek_leading(items: Seq<ItemView>, p: int)
    requires
        0 <= p < items.len(),
        leads(items, p),
    ensures
        seek(items, 0, items[p].key(), SeekBias::Left) == p,
{
    lemma_key_lt_irreflexive(items[p].key());
    lemma_seek_ends(items, 0, items[p].key(), SeekBias::Left, p);
}

/// The metadata of a file is where a seek for it ends.
pub proof fn lemma_metadata_pos(items: Seq<ItemView>, p: int, id: Unique)
    requires
        layout(items),
        is_metadata_of(items, p, id),
    ensures
        metadata_pos(items, id) == p,
{
    assert(items[p] is Metadata);
    lemma_seek_leading(items, p);
}

/// Every entry leads to the metadata of the file that it names.
pub proof fn lemma_child_metadata(items: Seq<ItemView>, p: int)
    requires
        layout(items),
        is_entry(items, p),
    ensures
        is_metadata_of(items, metadata_pos(items, items[p].child_id()), items[p].child_id()),
        items[metadata_pos(items, items[p].child_id())].is_dir() == items[p].is_dir(),
{
    assert(names_file(items, p));
    let q = choose|q: int| #[trigger]
        is_metadata_of(items, q, items[p].child_id()) && items[q].is_dir() == items[p].is_dir();
    lemma_metadata_pos(items, q, items[p].child_id());
}

// --- Runs of entries ---

/// What [`next_entry`] says.
pub proof fn lemma_next_entry(items: Seq<ItemView>, from: int)
    requires
        0 <= from <= items.len(),
    ensures
        from <= next_entry(items, from) <= items.len(),
        forall|k: int|
            from <= k < next_entry(items, from) ==> (#[trigger] items[k]).is_deleted(),
        next_entry(items, from) < items.len() ==> !items[next_entry(items, from)].is_deleted(),
    decreases items.len() - from,
{
    if from < items.len() && items[from].is_deleted() {
        lemma_next_entry(items, from + 1);
    }
}

/// The item that entries of the directory `id` may follow.
pub open spec fn heads(items: Seq<ItemView>, p: int, id: Unique) -> bool {
    0 <= p < items.len() && items[p].file_id() == id
}

/// An entry that follows an item of the directory `id` with only entries between belongs to that
/// directory.
proof fn lemma_run(items: Seq<ItemView>, p: int, q: int, id: Unique)
    requires
        layout(items),
        heads(items, p, id),
        p < q < items.len(),
        forall|k: int| p < k <= q ==> #[trigger] items[k] is DirEntry,
    ensures
        items[q].file_id() == id,
{
    let d = items[q].file_id();
    assert(items[q] is DirEntry);
    if d != id {
        assert(!key_lt(items[q].key(), items[p].key()));
        assert(d.0 > id.0);
        assert(is_entry(items, q));
        assert(in_directory(items, q));
        let m = choose|m: int| #[trigger] is_metadata_of(items, m, d);
        if m > q {
            assert(!key_lt(items[m].key(), items[q].key()));
        }
        if m < p {
            assert(!key_lt(items[p].key(), items[m].key()));
        }
        assert(p < m < q);
        assert(items[m] is DirEntry);
    }
}

/// The position after an item of the directory `id` at which a cursor goes on is that of the next
/// entry of the directory that is not deleted.
pub proof fn lemma_next_in_run(items: Seq<ItemView>, p: int, id: Unique)
    requires
        layout(items),
        heads(items, p, id),
    ensures
        p < next_entry(items, p + 1) <= items.len(),
        is_entry(items, next_entry(items, p + 1)) ==> items[next_entry(items, p + 1)].file_id()
            == id && !items[next_entry(items, p + 1)].is_deleted(),
        forall|x: int|
            p < x && #[trigger] is_entry(items, x) && !items[x].is_deleted() && items[x].file_id()
                == id ==> is_entry(items, next_entry(items, p + 1)) && next_entry(items, p + 1)
                <= x,
{
    lemma_next_entry(items, p + 1);
    let q = next_entry(items, p + 1);
    if is_entry(items, q) {
        assert forall|k: int| p < k <= q implies #[trigger] items[k] is DirEntry by {
            if k < q {
                assert(items[k].is_deleted());
            }
        }
        lemma_run(items, p, q, id);
    }
    assert forall|x: int|
        p < x && #[trigger] is_entry(items, x) && !items[x].is_deleted() && items[x].file_id()
            == id implies is_entry(items, q) && q <= x by {
        if x < q {
            assert(items[x].is_deleted());
        }
        if !is_entry(items, q) {
            assert(q < x);
            assert(items[q] is Metadata);
            assert(!key_lt(items[x].key(), items[q].key()));
            assert(!key_lt(items[q].key(), items[p].key()));
            assert(items[q].file_id() == id);
            assert(leads(items, q));
            assert(key_lt(items[p].key(), items[q].key()));
        }
    }
}

/// The first item that is not a deleted entry is the first entry of the root directory that is
/// not deleted, if there is one.
pub proof fn lemma_first_entry(items: Seq<ItemView>)
    requires
        layout(items),
    ensures
        0 <= next_entry(items, 0) <= items.len(),
        is_entry(items, next_entry(items, 0)) ==> visible(items, next_entry(items, 0))
            && items[next_entry(items, 0)].file_id() == root_id(),
        forall|x: int| #[trigger]
            visible(items, x) && items[x].file_id() == root_id() ==> is_entry(
                items,
                next_entry(items, 0),
            ) && next_entry(items, 0) <= x,
{
    lemma_next_entry(items, 0);
    let q = next_entry(items, 0);
    if is_entry(items, q) {
        assert(in_directory(items, q));
        let f = items[q].file_id();
        if f != root_id() {
            let m = choose|m: int| #[trigger] is_metadata_of(items, m, f);
            if m < q {
                assert(items[m].is_deleted());
            } else {
                assert(!key_lt(items[m].key(), items[q].key()));
            }
        }
    }
    assert forall|x: int| #[trigger]
        visible(items, x) && items[x].file_id() == root_id() implies is_entry(items, q) && q
        <= x by {
        if x < q {
            assert(items[x].is_deleted());
        }
        if !is_entry(items, q) {
            assert(items[q] is Metadata);
            assert(!key_lt(items[x].key(), items[q].key()));
        }
    }
}

} // verus!
