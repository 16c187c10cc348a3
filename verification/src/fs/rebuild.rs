//! The items that a builder makes of the changes it has collected.

use vstd::prelude::*;

use super::item::ItemView;
use super::key::{
    key_lt, lemma_key_lt_irreflexive, lemma_key_lt_total, lemma_key_lt_transitive,
};
use super::merge::{knows, matches_push, ChangeView, Origin};
use super::model::{
    layout, leads, lemma_seek, lemma_seek_leading, sorted, visible, walk_of, Visit,
};
use super::moves::{accounted, resolved};
use super::overlay::{item_lt, lemma_slot_from, overlay, slot, slot_end};
use super::pushes::Pushed;
use super::sort::{covers, ordered, rearranged, sorted_from};
use crate::btree::SeekBias;
use crate::id::Unique;

verus! {

/// The items that a change makes. The identifier is that of the new entry, or of the deletion.
pub open spec fn render(change: ChangeView, id: Unique) -> Seq<ItemView> {
    match change {
        ChangeView::Insert { file_id, name, is_dir, child_id, child_inode } => seq![
            ItemView::Metadata { file_id: child_id, is_dir, inode: child_inode },
            ItemView::DirEntry {
                file_id,
                entry_id: id,
                child_id,
                name,
                is_dir,
                deletions: Seq::empty(),
                moves: Seq::empty(),
            },
        ],
        ChangeView::Remove { entry, .. } => seq![entry.delete(id)],
        ChangeView::Move { file_id, name, is_dir, child_id } => seq![
            ItemView::DirEntry {
                file_id,
                entry_id: id,
                child_id,
                name,
                is_dir,
                deletions: Seq::empty(),
                moves: Seq::empty(),
            },
        ],
    }
}

/// The items that the first `n` changes make.
pub open spec fn rendered(changes: Seq<ChangeView>, ids: Seq<Unique>, n: int) -> Seq<ItemView>
    decreases n,
{
    if n <= 0 {
        Seq::empty()
    } else {
        rendered(changes, ids, n - 1) + render(changes[n - 1], ids[n - 1])
    }
}

/// Whether the changes, with the given identifiers, turn the old items into `result`.
pub open spec fn built(
    items: Seq<ItemView>,
    changes: Seq<ChangeView>,
    ids: Seq<Unique>,
    new: Seq<ItemView>,
    result: Seq<ItemView>,
) -> bool {
    &&& ids.len() == changes.len()
    &&& sorted_from(rendered(changes, ids, changes.len() as int), new)
    &&& result == overlay(items, 0, new, 0)
}

// --- What the new items are ---

/// Whether the item is the metadata of a pushed file.
pub open spec fn is_meta(p: Pushed, item: ItemView) -> bool {
    item == (ItemView::Metadata { file_id: p.id, is_dir: p.is_dir, inode: p.inode })
}

/// Whether the item is the new entry of a pushed file.
pub open spec fn is_new(p: Pushed, item: ItemView) -> bool {
    item is DirEntry && matches_push(item, p) && !item.is_deleted() && item->DirEntry_moves.len()
        == 0
}

/// Whether the item is the old entry, deleted once more: it has one more identifier behind those
/// of its deletions, and is the same in all else.
pub open spec fn is_removal(old: ItemView, item: ItemView) -> bool {
    &&& old is DirEntry
    &&& item is DirEntry
    &&& item->DirEntry_file_id == old->DirEntry_file_id
    &&& item->DirEntry_entry_id == old->DirEntry_entry_id
    &&& item->DirEntry_child_id == old->DirEntry_child_id
    &&& item->DirEntry_name == old->DirEntry_name
    &&& item->DirEntry_is_dir == old->DirEntry_is_dir
    &&& item->DirEntry_moves == old->DirEntry_moves
    &&& item->DirEntry_deletions.len() == old->DirEntry_deletions.len() + 1
    &&& item->DirEntry_deletions.drop_last() == old->DirEntry_deletions
}

/// What a deletion makes of an entry.
proof fn lemma_delete(entry: ItemView, id: Unique)
    requires
        entry is DirEntry,
    ensures
        is_removal(entry, entry.delete(id)),
        entry.delete(id)->DirEntry_deletions.last() == id,
{
    let deletions = entry->DirEntry_deletions;
    assert(deletions.push(id).drop_last() =~= deletions);
}

/// Whether the item was made for the given reason.
pub open spec fn piece(
    items: Seq<ItemView>,
    w: Seq<Visit>,
    ps: Seq<Pushed>,
    origin: Origin,
    item: ItemView,
) -> bool {
    match origin {
        Origin::Removed(k) => is_removal(items[w[k].pos], item),
        Origin::Inserted(i) => is_new(ps[i], item) || (is_meta(ps[i], item) && !knows(
            items,
            ps[i].id,
        )),
    }
}

/// Whether the item was made for one of the first `n` reasons.
pub open spec fn sourced(
    items: Seq<ItemView>,
    w: Seq<Visit>,
    ps: Seq<Pushed>,
    origins: Seq<Origin>,
    n: int,
    item: ItemView,
) -> bool {
    exists|x: int| 0 <= x < n && piece(items, w, ps, #[trigger] origins[x], item)
}

/// Whether the metadata of a pushed file is among the new items.
pub open spec fn has_meta(new: Seq<ItemView>, p: Pushed) -> bool {
    exists|t: int| 0 <= t < new.len() && is_meta(p, #[trigger] new[t])
}

/// Whether the new entry of a pushed file is among the new items.
pub open spec fn has_new(new: Seq<ItemView>, p: Pushed) -> bool {
    exists|t: int| 0 <= t < new.len() && is_new(p, #[trigger] new[t])
}

/// Whether the old entry, deleted, is among the new items.
pub open spec fn has_removal(new: Seq<ItemView>, old: ItemView) -> bool {
    exists|t: int| 0 <= t < new.len() && is_removal(old, #[trigger] new[t])
}

/// Whether the items hold what was made for the given reason.
pub open spec fn served(
    items: Seq<ItemView>,
    w: Seq<Visit>,
    ps: Seq<Pushed>,
    origin: Origin,
    new: Seq<ItemView>,
) -> bool {
    match origin {
        Origin::Removed(k) => has_removal(new, items[w[k].pos]),
        Origin::Inserted(i) => has_new(new, ps[i]) && (has_meta(new, ps[i]) || knows(
            items,
            ps[i].id,
        )),
    }
}

/// Visits are to different keys.
pub proof fn lemma_visit_keys(items: Seq<ItemView>, w: Seq<Visit>, k: int, l: int)
    requires
        layout(items),
        walk_of(items, w),
        0 <= k < w.len(),
        0 <= l < w.len(),
        items[w[k].pos].key() == items[w[l].pos].key(),
    ensures
        k == l,
{
    let (p, q) = (w[k].pos, w[l].pos);
    assert(visible(items, p) && visible(items, q));
    lemma_key_lt_irreflexive(items[p].key());
    assert(leads(items, p) && leads(items, q));
    if p < q {
        assert(key_lt(items[p].key(), items[q].key()));
    } else if q < p {
        assert(key_lt(items[q].key(), items[p].key()));
    }
    if k < l {
        assert(items[w[k].pos].child_id() != items[w[l].pos].child_id());
    } else if l < k {
        assert(items[w[l].pos].child_id() != items[w[k].pos].child_id());
    }
}

/// Whether two items have different keys, or one of them is deleted and the other is not.
pub open spec fn apart(a: ItemView, b: ItemView) -> bool {
    a.key() != b.key() || a.is_deleted() != b.is_deleted()
}

/// Items that were made for different reasons are apart.
proof fn lemma_pieces_apart(
    items: Seq<ItemView>,
    w: Seq<Visit>,
    ps: Seq<Pushed>,
    changes: Seq<ChangeView>,
    origins: Seq<Origin>,
    x: int,
    y: int,
    a: ItemView,
    b: ItemView,
)
    requires
        layout(items),
        walk_of(items, w),
        resolved(items, w, ps, changes, origins),
        0 <= x < y < origins.len(),
        piece(items, w, ps, origins[x], a),
        piece(items, w, ps, origins[y], b),
    ensures
        apart(a, b),
{
    assert(accounted(items, w, ps, changes[x], origins[x]));
    assert(accounted(items, w, ps, changes[y], origins[y]));
    assert(origins[x] != origins[y]);
    match (origins[x], origins[y]) {
        (Origin::Removed(k), Origin::Removed(l)) => {
            if a.key() == b.key() {
                lemma_visit_keys(items, w, k, l);
            }
        },
        (Origin::Inserted(i), Origin::Inserted(j)) => {
            if a.key() == b.key() {
                assert(i != j);
                let (lo, hi) = if i < j {
                    (i, j)
                } else {
                    (j, i)
                };
                assert(ps[lo].id != ps[hi].id);
                if is_new(ps[i], a) && is_new(ps[j], b) {
                    assert(ps[lo].kind() != ps[hi].kind());
                }
            }
        },
        _ => {},
    }
}

/// What the first `n` changes make.
proof fn lemma_rendered(
    items: Seq<ItemView>,
    w: Seq<Visit>,
    ps: Seq<Pushed>,
    changes: Seq<ChangeView>,
    origins: Seq<Origin>,
    ids: Seq<Unique>,
    n: int,
)
    requires
        layout(items),
        walk_of(items, w),
        resolved(items, w, ps, changes, origins),
        ids.len() == changes.len(),
        0 <= n <= changes.len(),
    ensures
        forall|u: int|
            0 <= u < rendered(changes, ids, n).len() ==> sourced(
                items,
                w,
                ps,
                origins,
                n,
                #[trigger] rendered(changes, ids, n)[u],
            ),
        forall|x: int|
            0 <= x < n ==> served(
                items,
                w,
                ps,
                #[trigger] origins[x],
                rendered(changes, ids, n),
            ),
        forall|u: int, v: int|
            0 <= u < v < rendered(changes, ids, n).len() ==> apart(
                #[trigger] rendered(changes, ids, n)[u],
                #[trigger] rendered(changes, ids, n)[v],
            ),
    decreases n,
{
    if n > 0 {
        lemma_rendered(items, w, ps, changes, origins, ids, n - 1);
        let before = rendered(changes, ids, n - 1);
        let more = render(changes[n - 1], ids[n - 1]);
        let all = rendered(changes, ids, n);
        let m = before.len() as int;
        assert(all == before + more);
        let origin = origins[n - 1];
        assert(accounted(items, w, ps, changes[n - 1], origin));
        if let Origin::Removed(k) = origin {
            assert(visible(items, w[k].pos));
            lemma_delete(items[w[k].pos], ids[n - 1]);
        }
        assert forall|v: int| 0 <= v < more.len() implies piece(
            items,
            w,
            ps,
            origin,
            #[trigger] more[v],
        ) by {}
        assert forall|u: int| 0 <= u < all.len() implies sourced(
            items,
            w,
            ps,
            origins,
            n,
            #[trigger] all[u],
        ) by {
            if u < m {
                assert(all[u] == before[u]);
                let x = choose|x: int|
                    0 <= x < n - 1 && piece(items, w, ps, #[trigger] origins[x], before[u]);
                assert(piece(items, w, ps, origins[x], all[u]));
            } else {
                assert(all[u] == more[u - m]);
                assert(piece(items, w, ps, origins[n - 1], all[u]));
            }
        }
        assert forall|x: int| 0 <= x < n implies served(
            items,
            w,
            ps,
            #[trigger] origins[x],
            all,
        ) by {
            if x < n - 1 {
                assert(served(items, w, ps, origins[x], before));
                lemma_served_more(items, w, ps, origins[x], before, more);
            } else {
                assert(all[m] == more[0]);
                if let Origin::Inserted(i) = origin {
                    if knows(items, ps[i].id) {
                        assert(is_new(ps[i], all[m]));
                    } else {
                        assert(all[m + 1] == more[1]);
                        assert(is_meta(ps[i], all[m]));
                        assert(is_new(ps[i], all[m + 1]));
                    }
                } else if let Origin::Removed(k) = origin {
                    assert(is_removal(items[w[k].pos], all[m]));
                }
            }
        }
        assert forall|u: int, v: int| 0 <= u < v < all.len() implies apart(
            #[trigger] all[u],
            #[trigger] all[v],
        ) by {
            if v < m {
                assert(all[u] == before[u] && all[v] == before[v]);
            } else {
                assert(all[v] == more[v - m]);
                if u < m {
                    assert(all[u] == before[u]);
                    let x = choose|x: int|
                        0 <= x < n - 1 && piece(items, w, ps, #[trigger] origins[x], before[u]);
                    lemma_pieces_apart(
                        items,
                        w,
                        ps,
                        changes,
                        origins,
                        x,
                        n - 1,
                        all[u],
                        all[v],
                    );
                } else {
                    assert(all[u] == more[u - m]);
                }
            }
        }
    }
}

/// More items serve what fewer served.
proof fn lemma_served_more(
    items: Seq<ItemView>,
    w: Seq<Visit>,
    ps: Seq<Pushed>,
    origin: Origin,
    before: Seq<ItemView>,
    more: Seq<ItemView>,
)
    requires
        served(items, w, ps, origin, before),
    ensures
        served(items, w, ps, origin, before + more),
{
    let all = before + more;
    match origin {
        Origin::Removed(k) => {
            let t = choose|t: int|
                0 <= t < before.len() && is_removal(items[w[k].pos], #[trigger] before[t]);
            assert(is_removal(items[w[k].pos], all[t]));
        },
        Origin::Inserted(i) => {
            if !knows(items, ps[i].id) {
                let t = choose|t: int|
                    0 <= t < before.len() && is_meta(ps[i], #[trigger] before[t]);
                assert(is_meta(ps[i], all[t]));
            }
            let u = choose|u: int| 0 <= u < before.len() && is_new(ps[i], #[trigger] before[u]);
            assert(is_new(ps[i], all[u]));
        },
    }
}

/// What holds of the new items, in the order of their keys.
pub open spec fn patch(
    items: Seq<ItemView>,
    w: Seq<Visit>,
    ps: Seq<Pushed>,
    origins: Seq<Origin>,
    new: Seq<ItemView>,
) -> bool {
    &&& forall|t: int|
        0 <= t < new.len() ==> sourced(
            items,
            w,
            ps,
            origins,
            origins.len() as int,
            #[trigger] new[t],
        )
    &&& forall|x: int|
        0 <= x < origins.len() ==> served(items, w, ps, #[trigger] origins[x], new)
    &&& forall|t: int, u: int|
        #![trigger new[t], new[u]]
        0 <= t < u < new.len() ==> item_lt(new[t], new[u])
}

/// The new items, once they are sorted.
pub proof fn lemma_patch(
    items: Seq<ItemView>,
    w: Seq<Visit>,
    ps: Seq<Pushed>,
    changes: Seq<ChangeView>,
    origins: Seq<Origin>,
    ids: Seq<Unique>,
    new: Seq<ItemView>,
)
    requires
        layout(items),
        walk_of(items, w),
        resolved(items, w, ps, changes, origins),
        ids.len() == changes.len(),
        sorted_from(rendered(changes, ids, changes.len() as int), new),
    ensures
        patch(items, w, ps, origins, new),
{
    let n = changes.len() as int;
    let all = rendered(changes, ids, n);
    lemma_rendered(items, w, ps, changes, origins, ids, n);
    let order = choose|order: Seq<int>| rearranged(all, new, order);
    assert forall|t: int| 0 <= t < new.len() implies sourced(
        items,
        w,
        ps,
        origins,
        n,
        #[trigger] new[t],
    ) by {
        assert(new[t] == all[order[t]]);
    }
    assert forall|t: int, u: int|
        #![trigger new[t], new[u]]
        0 <= t < u < new.len() implies item_lt(new[t], new[u]) by {
        assert(order[t] != order[u]);
        assert(new[t] == all[order[t]] && new[u] == all[order[u]]);
        assert(apart(new[t], new[u])) by {
            if order[t] < order[u] {
                assert(apart(all[order[t]], all[order[u]]));
            } else {
                assert(apart(all[order[u]], all[order[t]]));
            }
        }
        assert(!item_lt(new[u], new[t]));
        lemma_key_lt_total(new[t].key(), new[u].key());
    }
    assert forall|x: int| 0 <= x < origins.len() implies served(
        items,
        w,
        ps,
        #[trigger] origins[x],
        new,
    ) by {
        assert(served(items, w, ps, origins[x], all));
        match origins[x] {
            Origin::Removed(k) => {
                let u = choose|u: int|
                    0 <= u < all.len() && is_removal(items[w[k].pos], #[trigger] all[u]);
                lemma_covered(all, new, order, u);
                let t = choose|t: int| 0 <= t < new.len() && #[trigger] new[t] == all[u];
                assert(is_removal(items[w[k].pos], new[t]));
            },
            Origin::Inserted(i) => {
                if !knows(items, ps[i].id) {
                    let u = choose|u: int| 0 <= u < all.len() && is_meta(ps[i], #[trigger] all[u]);
                    lemma_covered(all, new, order, u);
                    let t = choose|t: int| 0 <= t < new.len() && #[trigger] new[t] == all[u];
                    assert(is_meta(ps[i], new[t]));
                }
                let v = choose|v: int| 0 <= v < all.len() && is_new(ps[i], #[trigger] all[v]);
                lemma_covered(all, new, order, v);
                let t = choose|t: int| 0 <= t < new.len() && #[trigger] new[t] == all[v];
                assert(is_new(ps[i], new[t]));
            },
        }
    }
}

/// Every item is found again after it was moved.
proof fn lemma_covered(from: Seq<ItemView>, to: Seq<ItemView>, order: Seq<int>, u: int)
    requires
        rearranged(from, to, order),
        0 <= u < from.len(),
    ensures
        exists|t: int| 0 <= t < to.len() && #[trigger] to[t] == from[u],
{
    assert(covers(order, u));
    let t = choose|t: int| 0 <= t < order.len() && #[trigger] order[t] == u;
    assert(to[t] == from[u]);
}

// --- The identifiers of new entries and deletions ---

/// The identifier that was issued for the item: that of the entry, or of its last deletion.
pub open spec fn mark(item: ItemView) -> Unique {
    if item.is_deleted() {
        item->DirEntry_deletions.last()
    } else {
        item->DirEntry_entry_id
    }
}

/// Whether the entry was made by the change: it is new, or it is the one that the change deletes.
pub open spec fn marked_by(change: ChangeView, id: Unique, item: ItemView) -> bool {
    &&& mark(item) == id
    &&& if change is Remove {
        is_removal(change->Remove_entry, item)
    } else {
        item->DirEntry_deletions.len() == 0 && item->DirEntry_moves.len() == 0 && enters(
            change,
            item,
        )
    }
}

/// Whether the entry is the one that the change puts into a directory.
pub open spec fn enters(change: ChangeView, item: ItemView) -> bool {
    match change {
        ChangeView::Insert { file_id, name, is_dir, child_id, .. }
        | ChangeView::Move { file_id, name, is_dir, child_id } => {
            &&& item->DirEntry_file_id == file_id
            &&& item->DirEntry_name == name
            &&& item->DirEntry_is_dir == is_dir
            &&& item->DirEntry_child_id == child_id
        },
        ChangeView::Remove { .. } => false,
    }
}

/// Which of the first `n` changes made which entry: no two entries were made by the same one.
pub proof fn lemma_marks(changes: Seq<ChangeView>, ids: Seq<Unique>, n: int) -> (owners: Seq<int>)
    requires
        0 <= n <= changes.len(),
        forall|x: int|
            0 <= x < changes.len() && (#[trigger] changes[x]) is Remove
                ==> changes[x]->Remove_entry is DirEntry,
    ensures
        owners.len() == rendered(changes, ids, n).len(),
        forall|u: int|
            0 <= u < owners.len() && rendered(changes, ids, n)[u] is DirEntry ==> 0
                <= #[trigger] owners[u] < n && marked_by(
                changes[owners[u]],
                ids[owners[u]],
                rendered(changes, ids, n)[u],
            ),
        forall|u: int, v: int|
            #![trigger owners[u], owners[v]]
            0 <= u < v < owners.len() && rendered(changes, ids, n)[u] is DirEntry && rendered(
                changes,
                ids,
                n,
            )[v] is DirEntry ==> owners[u] != owners[v],
    decreases n,
{
    if n <= 0 {
        Seq::empty()
    } else {
        let before = lemma_marks(changes, ids, n - 1);
        let (first, more) = (rendered(changes, ids, n - 1), render(changes[n - 1], ids[n - 1]));
        let all = rendered(changes, ids, n);
        let m = first.len() as int;
        let owners = before + Seq::new(more.len(), |v: int| n - 1);
        assert(all == first + more);
        if changes[n - 1] is Remove {
            lemma_delete(changes[n - 1]->Remove_entry, ids[n - 1]);
        }
        assert forall|u: int| 0 <= u < owners.len() && all[u] is DirEntry implies 0
            <= #[trigger] owners[u] < n && marked_by(
            changes[owners[u]],
            ids[owners[u]],
            all[u],
        ) && (u < m ==> owners[u] < n - 1) by {
            if u < m {
                assert(all[u] == first[u] && owners[u] == before[u]);
            } else {
                assert(all[u] == more[u - m]);
            }
        }
        assert forall|u: int, v: int|
            #![trigger owners[u], owners[v]]
            0 <= u < v < owners.len() && all[u] is DirEntry && all[v] is DirEntry implies owners[u]
            != owners[v] by {
            if v < m {
                assert(all[u] == first[u] && owners[u] == before[u]);
                assert(all[v] == first[v] && owners[v] == before[v]);
            } else if u >= m {
                assert(all[u] == more[u - m] && all[v] == more[v - m]);
            }
        }
        owners
    }
}

/// What a deletion makes is among what the first `n` changes make.
pub proof fn lemma_removal_rendered(
    changes: Seq<ChangeView>,
    ids: Seq<Unique>,
    n: int,
    x: int,
) -> (u: int)
    requires
        0 <= x < n,
        changes[x] is Remove,
        changes[x]->Remove_entry is DirEntry,
    ensures
        0 <= u < rendered(changes, ids, n).len(),
        is_removal(changes[x]->Remove_entry, rendered(changes, ids, n)[u]),
        rendered(changes, ids, n)[u]->DirEntry_deletions.last() == ids[x],
    decreases n,
{
    let before = rendered(changes, ids, n - 1);
    if x < n - 1 {
        lemma_removal_rendered(changes, ids, n - 1, x)
    } else {
        lemma_delete(changes[x]->Remove_entry, ids[x]);
        before.len() as int
    }
}

/// Every change makes an entry, which has the identifier of the change.
pub proof fn lemma_mark_rendered(
    changes: Seq<ChangeView>,
    ids: Seq<Unique>,
    n: int,
    x: int,
) -> (u: int)
    requires
        0 <= x < n,
        changes[x] is Remove ==> changes[x]->Remove_entry is DirEntry,
    ensures
        0 <= u < rendered(changes, ids, n).len(),
        rendered(changes, ids, n)[u] is DirEntry,
        mark(rendered(changes, ids, n)[u]) == ids[x],
    decreases n,
{
    let (before, more) = (rendered(changes, ids, n - 1), render(changes[n - 1], ids[n - 1]));
    let m = before.len() as int;
    if x < n - 1 {
        let u = lemma_mark_rendered(changes, ids, n - 1, x);
        assert(rendered(changes, ids, n)[u] == before[u]);
        u
    } else if changes[x] is Insert {
        assert(rendered(changes, ids, n)[m + 1] == more[1]);
        m + 1
    } else {
        if changes[x] is Remove {
            lemma_delete(changes[x]->Remove_entry, ids[x]);
        }
        assert(rendered(changes, ids, n)[m] == more[0]);
        m
    }
}

/// The entry of a new file, or of a directory that was moved, is among what the changes make.
pub proof fn lemma_entry_rendered(
    changes: Seq<ChangeView>,
    ids: Seq<Unique>,
    n: int,
    x: int,
) -> (u: int)
    requires
        0 <= x < n,
        !(changes[x] is Remove),
    ensures
        0 <= u < rendered(changes, ids, n).len(),
        rendered(changes, ids, n)[u] is DirEntry,
        rendered(changes, ids, n)[u]->DirEntry_deletions.len() == 0,
        enters(changes[x], rendered(changes, ids, n)[u]),
        changes[x] matches ChangeView::Insert { is_dir, child_id, child_inode, .. } ==> rendered(
            changes,
            ids,
            n,
        ).contains(ItemView::Metadata { file_id: child_id, is_dir, inode: child_inode }),
    decreases n,
{
    let (before, more) = (rendered(changes, ids, n - 1), render(changes[n - 1], ids[n - 1]));
    let m = before.len() as int;
    if x < n - 1 {
        let u = lemma_entry_rendered(changes, ids, n - 1, x);
        assert(rendered(changes, ids, n)[u] == before[u]);
        if let ChangeView::Insert { is_dir, child_id, child_inode, .. } = changes[x] {
            let item = ItemView::Metadata { file_id: child_id, is_dir, inode: child_inode };
            let v = choose|v: int| 0 <= v < before.len() && before[v] == item;
            assert(rendered(changes, ids, n)[v] == item);
        }
        u
    } else if changes[x] is Insert {
        assert(rendered(changes, ids, n)[m] == more[0]);
        assert(rendered(changes, ids, n)[m + 1] == more[1]);
        m + 1
    } else {
        assert(rendered(changes, ids, n)[m] == more[0]);
        m
    }
}

/// Metadata among what the first `n` changes make is that of a new file.
pub proof fn lemma_metadata_rendered(
    changes: Seq<ChangeView>,
    ids: Seq<Unique>,
    n: int,
    u: int,
) -> (x: int)
    requires
        0 <= n <= changes.len(),
        forall|x: int|
            0 <= x < changes.len() && (#[trigger] changes[x]) is Remove
                ==> changes[x]->Remove_entry is DirEntry,
        0 <= u < rendered(changes, ids, n).len(),
        rendered(changes, ids, n)[u] is Metadata,
    ensures
        0 <= x < n,
        changes[x] is Insert,
        rendered(changes, ids, n)[u] == (ItemView::Metadata {
            file_id: changes[x]->Insert_child_id,
            is_dir: changes[x]->Insert_is_dir,
            inode: changes[x]->Insert_child_inode,
        }),
    decreases n,
{
    let (before, more) = (rendered(changes, ids, n - 1), render(changes[n - 1], ids[n - 1]));
    let m = before.len() as int;
    if u < m {
        assert(rendered(changes, ids, n)[u] == before[u]);
        lemma_metadata_rendered(changes, ids, n - 1, u)
    } else {
        assert(rendered(changes, ids, n)[u] == more[u - m]);
        assert(changes[n - 1] is Remove ==> changes[n - 1]->Remove_entry is DirEntry);
        n - 1
    }
}

// --- No item is lost ---

/// Whether the old item is among the items, or the old entry, deleted, is.
pub open spec fn survives(old: ItemView, items: Seq<ItemView>) -> bool {
    exists|a: int|
        0 <= a < items.len() && ((#[trigger] items[a]) == old || is_removal(old, items[a]))
}

/// Whether every deletion among the changes is that of the entry at a visit, and each visit has at
/// most one.
pub open spec fn removes_visits(
    items: Seq<ItemView>,
    w: Seq<Visit>,
    changes: Seq<ChangeView>,
    origins: Seq<Origin>,
) -> bool {
    &&& origins.len() == changes.len()
    &&& forall|x: int|
        0 <= x < changes.len() && (#[trigger] changes[x]) is Remove ==> (
        origins[x] matches Origin::Removed(k) && 0 <= k < w.len() && changes[x]->Remove_entry
            == items[w[k].pos])
    &&& forall|x: int, y: int|
        #![trigger origins[x], origins[y]]
        0 <= x < y < origins.len() ==> origins[x] != origins[y]
}

/// Whether the item is the deleted entry at a visit for one of the first `n` reasons.
spec fn deletes_visit(
    items: Seq<ItemView>,
    w: Seq<Visit>,
    origins: Seq<Origin>,
    n: int,
    item: ItemView,
) -> bool {
    exists|x: int|
        0 <= x < n && (#[trigger] origins[x] matches Origin::Removed(k) && 0 <= k < w.len()
            && is_removal(items[w[k].pos], item))
}

/// The deleted entries that the first `n` changes make are those at different visits.
proof fn lemma_rendered_deleted(
    items: Seq<ItemView>,
    w: Seq<Visit>,
    changes: Seq<ChangeView>,
    origins: Seq<Origin>,
    ids: Seq<Unique>,
    n: int,
)
    requires
        layout(items),
        walk_of(items, w),
        removes_visits(items, w, changes, origins),
        0 <= n <= changes.len(),
    ensures
        forall|u: int|
            0 <= u < rendered(changes, ids, n).len() && (#[trigger] rendered(
                changes,
                ids,
                n,
            )[u]).is_deleted() ==> deletes_visit(
                items,
                w,
                origins,
                n,
                rendered(changes, ids, n)[u],
            ),
        forall|u: int, v: int|
            0 <= u < v < rendered(changes, ids, n).len() && (#[trigger] rendered(
                changes,
                ids,
                n,
            )[u]).is_deleted() && (#[trigger] rendered(changes, ids, n)[v]).is_deleted()
                ==> rendered(changes, ids, n)[u].key() != rendered(changes, ids, n)[v].key(),
    decreases n,
{
    if n > 0 {
        lemma_rendered_deleted(items, w, changes, origins, ids, n - 1);
        let before = rendered(changes, ids, n - 1);
        let more = render(changes[n - 1], ids[n - 1]);
        let all = rendered(changes, ids, n);
        let m = before.len() as int;
        assert(all == before + more);
        let k = origins[n - 1]->Removed_0;
        if changes[n - 1] is Remove {
            assert(visible(items, w[k].pos));
            lemma_delete(items[w[k].pos], ids[n - 1]);
        }
        assert forall|v: int| m <= v < all.len() && (#[trigger] all[v]).is_deleted() implies
            changes[n - 1] is Remove && is_removal(items[w[k].pos], all[v]) && v == m by {
            assert(all[v] == more[v - m]);
        }
        assert forall|u: int| 0 <= u < all.len() && (#[trigger] all[u]).is_deleted() implies
            deletes_visit(items, w, origins, n, all[u]) by {
            if u < m {
                assert(all[u] == before[u]);
                let x = choose|x: int|
                    0 <= x < n - 1 && (#[trigger] origins[x] matches Origin::Removed(l) && 0 <= l
                        < w.len() && is_removal(items[w[l].pos], before[u]));
                assert(origins[x] is Removed);
            } else {
                assert(origins[n - 1] is Removed);
            }
        }
        assert forall|u: int, v: int|
            0 <= u < v < all.len() && (#[trigger] all[u]).is_deleted() && (
            #[trigger] all[v]).is_deleted() implies all[u].key() != all[v].key() by {
            if v < m {
                assert(all[u] == before[u] && all[v] == before[v]);
            } else {
                assert(v == m);
                assert(all[u] == before[u]);
                let x = choose|x: int|
                    0 <= x < n - 1 && (#[trigger] origins[x] matches Origin::Removed(l) && 0 <= l
                        < w.len() && is_removal(items[w[l].pos], before[u]));
                if all[u].key() == all[v].key() {
                    lemma_visit_keys(items, w, k, origins[x]->Removed_0);
                    assert(origins[x] != origins[n - 1]);
                }
            }
        }
    }
}

/// No old item is lost, whatever was pushed: it is in the new tree as it was, or it is an entry and
/// deleted there.
pub proof fn lemma_nothing_lost(
    items: Seq<ItemView>,
    w: Seq<Visit>,
    changes: Seq<ChangeView>,
    origins: Seq<Origin>,
    ids: Seq<Unique>,
    new: Seq<ItemView>,
    q: int,
)
    requires
        layout(items),
        walk_of(items, w),
        removes_visits(items, w, changes, origins),
        sorted_from(rendered(changes, ids, changes.len() as int), new),
        0 <= q < items.len(),
    ensures
        survives(items[q], overlay(items, 0, new, 0)),
        (forall|x: int|
            0 <= x < origins.len() ==> (#[trigger] origins[x] matches Origin::Removed(k)
                ==> w[k].pos != q)) ==> overlay(items, 0, new, 0).contains(items[q]),
{
    let n = changes.len() as int;
    let all = rendered(changes, ids, n);
    lemma_rendered_deleted(items, w, changes, origins, ids, n);
    let order = choose|order: Seq<int>| rearranged(all, new, order);
    assert forall|t: int| 0 <= t < new.len() && (#[trigger] new[t]).is_deleted() implies slot(
        items,
        0,
        new[t],
    ) < items.len() && is_removal(items[slot(items, 0, new[t])], new[t]) && (exists|x: int|
        0 <= x < n && (#[trigger] origins[x] matches Origin::Removed(k) && w[k].pos == slot(
            items,
            0,
            new[t],
        ))) by {
        assert(new[t] == all[order[t]]);
        let x = choose|x: int|
            0 <= x < n && (#[trigger] origins[x] matches Origin::Removed(k) && 0 <= k < w.len()
                && is_removal(items[w[k].pos], new[t]));
        let p = w[origins[x]->Removed_0].pos;
        assert(visible(items, p));
        lemma_seek_leading(items, p);
    }
    assert forall|t: int, u: int|
        #![trigger new[t], new[u]]
        0 <= t < u < new.len() && new[t].is_deleted() && new[u].is_deleted() implies new[t].key()
        != new[u].key() by {
        assert(order[t] != order[u]);
        assert(new[t] == all[order[t]] && new[u] == all[order[u]]);
        if order[t] < order[u] {
            assert(all[order[t]].key() != all[order[u]].key());
        } else {
            assert(all[order[u]].key() != all[order[t]].key());
        }
    }
    assert forall|t: int| 0 <= t < new.len() implies 0 <= slot(items, 0, #[trigger] new[t]) by {
        lemma_seek(items, 0, new[t].key(), SeekBias::Left);
    }
    lemma_kept_in_overlay(items, 0, new, 0, q);
}

/// Old items from `from` on are in the overlay from there on, or deleted.
proof fn lemma_kept_in_overlay(
    items: Seq<ItemView>,
    from: int,
    new: Seq<ItemView>,
    t: int,
    q: int,
)
    requires
        sorted(items),
        ordered(new),
        forall|u: int|
            0 <= u < new.len() && (#[trigger] new[u]).is_deleted() ==> slot(items, 0, new[u])
                < items.len() && is_removal(items[slot(items, 0, new[u])], new[u]),
        forall|u: int, v: int|
            #![trigger new[u], new[v]]
            0 <= u < v < new.len() && new[u].is_deleted() && new[v].is_deleted() ==> new[u].key()
                != new[v].key(),
        0 <= t <= new.len(),
        0 <= from <= q < items.len(),
        forall|u: int| t <= u < new.len() ==> from <= slot(items, 0, #[trigger] new[u]),
    ensures
        survives(items[q], overlay(items, from, new, t)),
        (forall|u: int|
            0 <= u < new.len() && (#[trigger] new[u]).is_deleted() ==> slot(items, 0, new[u]) != q)
            ==> overlay(items, from, new, t).contains(items[q]),
    decreases new.len() - t,
{
    let all = overlay(items, from, new, t);
    if t >= new.len() {
        assert(all[q - from] == items[q]);
    } else {
        let at = slot(items, from, new[t]);
        lemma_slot_from(items, from, new[t]);
        lemma_seek(items, from, new[t].key(), SeekBias::Left);
        let next = slot_end(items, at, new[t]);
        let tail = overlay(items, next, new, t + 1);
        let n = at - from;
        if q < at {
            assert(all[q - from] == items[q]);
        } else if q < next {
            assert(all[n] == new[t]);
            assert(new[t].is_deleted() && slot(items, 0, new[t]) == q);
            assert(is_removal(items[q], all[n]));
        } else {
            assert forall|u: int| t + 1 <= u < new.len() implies next <= slot(
                items,
                0,
                #[trigger] new[u],
            ) by {
                lemma_next_slot(items, new, t, u);
            }
            lemma_kept_in_overlay(items, next, new, t + 1, q);
            let a = choose|a: int|
                0 <= a < tail.len() && ((#[trigger] tail[a]) == items[q] || is_removal(
                    items[q],
                    tail[a],
                ));
            assert(all[a + n + 1] == tail[a]);
            if tail.contains(items[q]) {
                let b = choose|b: int| 0 <= b < tail.len() && tail[b] == items[q];
                assert(all[b + n + 1] == items[q]);
            }
        }
    }
}

/// Later new items do not go before earlier ones, nor in the place that an earlier one took.
proof fn lemma_next_slot(items: Seq<ItemView>, new: Seq<ItemView>, t: int, u: int)
    requires
        ordered(new),
        0 <= t < u < new.len(),
        forall|v: int|
            0 <= v < new.len() && (#[trigger] new[v]).is_deleted() ==> slot(items, 0, new[v])
                < items.len() && is_removal(items[slot(items, 0, new[v])], new[v]),
        new[t].is_deleted() && new[u].is_deleted() ==> new[t].key() != new[u].key(),
    ensures
        slot_end(items, slot(items, 0, new[t]), new[t]) <= slot(items, 0, new[u]),
{
    let (r, x) = (slot(items, 0, new[t]), slot(items, 0, new[u]));
    lemma_seek(items, 0, new[t].key(), SeekBias::Left);
    lemma_seek(items, 0, new[u].key(), SeekBias::Left);
    assert(!item_lt(new[u], new[t]));
    lemma_key_lt_total(new[t].key(), new[u].key());
    if x < r {
        assert(key_lt(items[x].key(), new[t].key()));
        if new[t].key() != new[u].key() {
            lemma_key_lt_transitive(items[x].key(), new[t].key(), new[u].key());
        }
    } else if x == r && new[t].is_deleted() {
        assert(items[r].key() == new[t].key());
        assert(!key_lt(items[x].key(), new[u].key()));
    }
}

} // verus!
