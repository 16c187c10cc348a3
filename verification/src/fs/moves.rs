//! Directories that were moved.
//!
//! A directory that is pushed where the old tree has none gets a new identifier first. Once all is
//! pushed, it is known which entries of the old tree are to be deleted. A pushed directory then
//! takes over the identifier of a deleted one that had the same inode: it was moved.

use vstd::prelude::*;

use super::item::{Inode, ItemView};
use super::merge::{
    dropped, held, knows, matches_push, recorded, traced, tracked_to, ChangeView, Origin,
};
use super::model::{inode_of, layout, visible, walk_of, Visit};
use super::pushes::{
    all_housed, holds_nothing, housed, in_order, lemma_same_entries, lemma_up, nested, parent_id,
    proper, same_entries, up, Pushed,
};
use crate::id::{root_id, Unique};

verus! {

/// Whether the change deletes the entry of a directory with the given inode.
pub open spec fn frees(change: ChangeView, inode: Inode) -> bool {
    change matches ChangeView::Remove { entry, inode: old_inode } && entry.is_dir() && old_inode
        == inode
}

/// Whether the change `x` inserts a directory, and the change before it deletes the entry of one
/// with the same inode.
pub open spec fn takes_back(changes: Seq<ChangeView>, x: int) -> bool {
    &&& 0 < x < changes.len()
    &&& changes[x] is Insert
    &&& changes[x]->Insert_is_dir
    &&& frees(changes[x - 1], changes[x]->Insert_child_inode)
}

/// The first change from `from` on that deletes the entry of a directory with the given inode, that
/// no change was given yet, and that is not for the change behind it.
pub open spec fn first_free(
    changes: Seq<ChangeView>,
    claims: Seq<Option<int>>,
    inode: Inode,
    from: int,
) -> Option<int>
    decreases changes.len() - from,
{
    if from >= changes.len() {
        None
    } else if frees(changes[from], inode) && !takes_back(changes, from + 1) && !claims.contains(
        Some(from),
    ) {
        Some(from)
    } else {
        first_free(changes, claims, inode, from + 1)
    }
}

/// For each of the first `n` changes, the deletion that it undoes by moving a directory, if any.
pub open spec fn claims(changes: Seq<ChangeView>, n: int) -> Seq<Option<int>>
    decreases n,
{
    if n <= 0 {
        Seq::empty()
    } else {
        let before = claims(changes, n - 1);
        before.push(
            match changes[n - 1] {
                ChangeView::Insert { is_dir: true, child_inode, .. } => if takes_back(
                    changes,
                    n - 1,
                ) {
                    Some(n - 2)
                } else {
                    first_free(changes, before, child_inode, 0)
                },
                _ => None,
            },
        )
    }
}

/// The identifier for which `id` stood until it was known which directories were moved, looked for
/// from the change `x` on.
pub open spec fn renamed(
    changes: Seq<ChangeView>,
    claims: Seq<Option<int>>,
    id: Unique,
    x: int,
) -> Unique
    decreases changes.len() - x,
{
    if x >= changes.len() {
        id
    } else if changes[x] is Insert && changes[x]->Insert_child_id == id {
        match claims[x] {
            Some(y) => changes[y]->Remove_entry.child_id(),
            None => id,
        }
    } else {
        renamed(changes, claims, id, x + 1)
    }
}

/// The identifier that a file has in the new tree, if it has `id` while the changes are collected.
pub open spec fn settled_id(changes: Seq<ChangeView>, id: Unique) -> Unique {
    renamed(changes, claims(changes, changes.len() as int), id, 0)
}

/// A change, once it is known which directories were moved.
pub open spec fn settled_change(changes: Seq<ChangeView>, x: int) -> ChangeView {
    match changes[x] {
        ChangeView::Insert { file_id, name, is_dir, child_id, child_inode } => {
            match claims(changes, changes.len() as int)[x] {
                Some(y) => ChangeView::Move {
                    file_id: settled_id(changes, file_id),
                    name,
                    is_dir,
                    child_id: changes[y]->Remove_entry.child_id(),
                },
                None => ChangeView::Insert {
                    file_id: settled_id(changes, file_id),
                    name,
                    is_dir,
                    child_id,
                    child_inode,
                },
            }
        },
        _ => changes[x],
    }
}

/// The changes, once it is known which directories were moved.
pub open spec fn settled(changes: Seq<ChangeView>) -> Seq<ChangeView> {
    Seq::new(changes.len(), |x: int| settled_change(changes, x))
}

/// The pushes with the identifiers that they have in the new tree.
pub open spec fn settled_pushes(ps: Seq<Pushed>, changes: Seq<ChangeView>) -> Seq<Pushed> {
    Seq::new(
        ps.len(),
        |i: int|
            Pushed {
                parent: settled_id(changes, ps[i].parent),
                id: settled_id(changes, ps[i].id),
                ..ps[i]
            },
    )
}

/// Whether the push takes over the identifier of the entry at the visit `k`.
pub open spec fn takes(
    items: Seq<ItemView>,
    w: Seq<Visit>,
    origins: Seq<Origin>,
    p: Pushed,
    k: int,
) -> bool {
    &&& 0 <= k < w.len()
    &&& dropped(origins, k)
    &&& items[w[k].pos].child_id() == p.id
    &&& items[w[k].pos].is_dir()
    &&& p.is_dir
    &&& inode_of(items, p.id) == p.inode
}

/// The change that a push leads to that did not find its entry.
pub open spec fn push_change(items: Seq<ItemView>, p: Pushed) -> ChangeView {
    if knows(items, p.id) {
        ChangeView::Move { file_id: p.parent, name: p.name, is_dir: p.is_dir, child_id: p.id }
    } else {
        ChangeView::Insert {
            file_id: p.parent,
            name: p.name,
            is_dir: p.is_dir,
            child_id: p.id,
            child_inode: p.inode,
        }
    }
}

/// Whether a settled change was made for the given reason.
pub open spec fn accounted(
    items: Seq<ItemView>,
    w: Seq<Visit>,
    ps: Seq<Pushed>,
    change: ChangeView,
    origin: Origin,
) -> bool {
    match origin {
        Origin::Removed(k) => 0 <= k < w.len() && change is Remove && change->Remove_entry
            == items[w[k].pos],
        Origin::Inserted(i) => 0 <= i < ps.len() && ps[i].kept is None && change == push_change(
            items,
            ps[i],
        ),
    }
}

/// What holds of the pushes and of the changes made for them, once the walk through the old tree
/// has come to its end and it is known which directories were moved.
pub open spec fn resolved(
    items: Seq<ItemView>,
    w: Seq<Visit>,
    ps: Seq<Pushed>,
    changes: Seq<ChangeView>,
    origins: Seq<Origin>,
) -> bool {
    &&& proper(items, ps)
    // Every push that found its entry agrees with it.
    &&& forall|i: int|
        0 <= i < ps.len() ==> ((#[trigger] ps[i]).kept matches Some(k) ==> 0 <= k < w.len()
            && matches_push(items[w[k].pos], ps[i]))
    // Every entry was pushed or is to be deleted, and not both.
    &&& forall|k: int| 0 <= k < w.len() ==> #[trigger] dropped(origins, k) != held(ps, k)
    // Every change has its reason, and every reason its change.
    &&& origins.len() == changes.len()
    &&& forall|x: int|
        0 <= x < origins.len() ==> accounted(items, w, ps, changes[x], #[trigger] origins[x])
    &&& forall|x: int, y: int|
        #![trigger origins[x], origins[y]]
        0 <= x < y < origins.len() ==> origins[x] != origins[y]
    &&& forall|i: int|
        0 <= i < ps.len() && (#[trigger] ps[i]).kept is None ==> recorded(origins, i)
    // No two pushes name the same file. A push that did not find its entry names a new file, or a
    // directory whose entry is to be deleted.
    &&& forall|a: int, b: int|
        #![trigger ps[a], ps[b]]
        0 <= a < b < ps.len() ==> ps[a].id != ps[b].id
    &&& forall|i: int| 0 <= i < ps.len() ==> (#[trigger] ps[i]).id != root_id()
    &&& forall|i: int|
        0 <= i < ps.len() && (#[trigger] ps[i]).kept is None && knows(items, ps[i].id) ==> (
        exists|k: int| #[trigger] takes(items, w, origins, ps[i], k))
}

/// What [`first_free`] finds.
pub proof fn lemma_first_free(
    changes: Seq<ChangeView>,
    claims: Seq<Option<int>>,
    inode: Inode,
    from: int,
)
    requires
        0 <= from,
    ensures
        first_free(changes, claims, inode, from) matches Some(y) ==> from <= y < changes.len()
            && frees(changes[y], inode) && !takes_back(changes, y + 1) && !claims.contains(Some(y)),
        first_free(changes, claims, inode, from) is None ==> forall|y: int|
            from <= y < changes.len() && frees(#[trigger] changes[y], inode) ==> takes_back(
                changes,
                y + 1,
            ) || claims.contains(Some(y)),
    decreases changes.len() - from,
{
    if from < changes.len() {
        lemma_first_free(changes, claims, inode, from + 1);
    }
}

/// What [`claims`] says.
pub proof fn lemma_claims(changes: Seq<ChangeView>, n: int)
    requires
        0 <= n <= changes.len(),
    ensures
        claims(changes, n).len() == n,
        forall|x: int|
            0 <= x < n ==> (#[trigger] claims(changes, n)[x] matches Some(y) ==> 0 <= y
                < changes.len() && changes[x] is Insert && changes[x]->Insert_is_dir && frees(
                changes[y],
                changes[x]->Insert_child_inode,
            ) && (takes_back(changes, y + 1) ==> y + 1 == x)),
        forall|x: int, z: int|
            0 <= x < z < n && #[trigger] claims(changes, n)[x] is Some ==> claims(changes, n)[x]
                != #[trigger] claims(changes, n)[z],
        // A directory that takes back what was deleted just before is given that.
        forall|x: int|
            0 <= x < n && takes_back(changes, x) ==> #[trigger] claims(changes, n)[x] == Some(
                x - 1,
            ),
        // A directory is given none only if all that it might be given are taken.
        forall|x: int, y: int|
            0 <= x < n && changes[x] is Insert && changes[x]->Insert_is_dir && #[trigger] claims(
                changes,
                n,
            )[x] is None && 0 <= y < changes.len() && frees(
                #[trigger] changes[y],
                changes[x]->Insert_child_inode,
            ) ==> takes_back(changes, y + 1) || claims(changes, n).take(x).contains(Some(y)),
    decreases n,
{
    if n > 0 {
        lemma_claims(changes, n - 1);
        let (before, all) = (claims(changes, n - 1), claims(changes, n));
        assert forall|x: int| 0 <= x < n - 1 implies #[trigger] all[x] == before[x] by {}
        if changes[n - 1] is Insert {
            lemma_first_free(changes, before, changes[n - 1]->Insert_child_inode, 0);
        }
        assert forall|x: int, z: int|
            0 <= x < z < n && #[trigger] all[x] is Some implies all[x] != #[trigger] all[z] by {
            assert(all[x] == before[x]);
            if z < n - 1 {
                assert(all[z] == before[z]);
            } else {
                assert(before.contains(before[x]));
            }
        }
        assert forall|x: int, y: int|
            0 <= x < n && changes[x] is Insert && changes[x]->Insert_is_dir
                && #[trigger] all[x] is None && 0 <= y < changes.len() && frees(
                #[trigger] changes[y],
                changes[x]->Insert_child_inode,
            ) implies takes_back(changes, y + 1) || all.take(x).contains(Some(y)) by {
            if x < n - 1 {
                assert(all[x] == before[x]);
                assert(all.take(x) =~= before.take(x));
            } else {
                assert(all.take(x) =~= before);
            }
        }
    }
}

/// Whether no two of the changes insert the same file.
spec fn inserts_differ(changes: Seq<ChangeView>) -> bool {
    forall|x: int, y: int|
        #![trigger changes[x], changes[y]]
        0 <= x < y < changes.len() && changes[x] is Insert && changes[y] is Insert
            ==> changes[x]->Insert_child_id != changes[y]->Insert_child_id
}

/// A file that is inserted gets the identifier that its change was given.
proof fn lemma_renamed_insert(
    changes: Seq<ChangeView>,
    claims: Seq<Option<int>>,
    x: int,
    from: int,
)
    requires
        inserts_differ(changes),
        0 <= from <= x < changes.len(),
        changes[x] is Insert,
    ensures
        renamed(changes, claims, changes[x]->Insert_child_id, from) == match claims[x] {
            Some(y) => changes[y]->Remove_entry.child_id(),
            None => changes[x]->Insert_child_id,
        },
    decreases x - from,
{
    if from < x {
        assert(!(changes[from] is Insert && changes[from]->Insert_child_id
            == changes[x]->Insert_child_id));
        lemma_renamed_insert(changes, claims, x, from + 1);
    }
}

/// Other files keep their identifiers.
proof fn lemma_renamed_other(
    changes: Seq<ChangeView>,
    claims: Seq<Option<int>>,
    id: Unique,
    from: int,
)
    requires
        0 <= from,
        forall|x: int|
            0 <= x < changes.len() && (#[trigger] changes[x]) is Insert
                ==> changes[x]->Insert_child_id != id,
    ensures
        renamed(changes, claims, id, from) == id,
    decreases changes.len() - from,
{
    if from < changes.len() {
        lemma_renamed_other(changes, claims, id, from + 1);
    }
}

/// What holds while the pushes are matched with the walk, once the walk has come to its end.
pub open spec fn finished(
    items: Seq<ItemView>,
    w: Seq<Visit>,
    ps: Seq<Pushed>,
    changes: Seq<ChangeView>,
    origins: Seq<Origin>,
) -> bool {
    &&& layout(items)
    &&& walk_of(items, w)
    &&& tracked_to(items, w, w.len() as int, ps, changes, origins)
}

/// The reason of a change.
proof fn lemma_traced(
    items: Seq<ItemView>,
    w: Seq<Visit>,
    ps: Seq<Pushed>,
    changes: Seq<ChangeView>,
    origins: Seq<Origin>,
    x: int,
)
    requires
        finished(items, w, ps, changes, origins),
        0 <= x < changes.len(),
    ensures
        traced(items, w, w.len() as int, ps, changes[x], origins[x]),
{
    assert(traced(items, w, w.len() as int, ps, changes[x], origins[x]));
}

/// The changes of different pushes insert different files.
proof fn lemma_inserts_differ(
    items: Seq<ItemView>,
    w: Seq<Visit>,
    ps: Seq<Pushed>,
    changes: Seq<ChangeView>,
    origins: Seq<Origin>,
)
    requires
        finished(items, w, ps, changes, origins),
    ensures
        inserts_differ(changes),
{
    assert forall|x: int, y: int|
        #![trigger changes[x], changes[y]]
        0 <= x < y < changes.len() && changes[x] is Insert && changes[y] is Insert implies
        changes[x]->Insert_child_id != changes[y]->Insert_child_id by {
        lemma_traced(items, w, ps, changes, origins, x);
        lemma_traced(items, w, ps, changes, origins, y);
        assert(origins[x] != origins[y]);
        let (i, j) = (origins[x]->Inserted_0, origins[y]->Inserted_0);
        if i < j {
            assert(ps[i].id != ps[j].id);
        } else {
            assert(ps[j].id != ps[i].id);
        }
    }
}

/// Files that the old tree knows, and the root directory, keep their identifiers.
pub proof fn lemma_known_id(
    items: Seq<ItemView>,
    w: Seq<Visit>,
    ps: Seq<Pushed>,
    changes: Seq<ChangeView>,
    origins: Seq<Origin>,
    id: Unique,
)
    requires
        finished(items, w, ps, changes, origins),
        knows(items, id) || id == root_id(),
    ensures
        settled_id(changes, id) == id,
{
    assert forall|x: int| 0 <= x < changes.len() && (#[trigger] changes[x]) is Insert implies
        changes[x]->Insert_child_id != id by {
        lemma_traced(items, w, ps, changes, origins, x);
        let i = origins[x]->Inserted_0;
        assert(ps[i].kept is None);
        assert(!knows(items, ps[i].id));
        assert(ps[i].id != root_id());
    }
    lemma_renamed_other(changes, claims(changes, changes.len() as int), id, 0);
}

/// The identifier of a push that did not find its entry: its own, or that of a directory whose
/// entry is to be deleted.
pub proof fn lemma_settled_id(
    items: Seq<ItemView>,
    w: Seq<Visit>,
    ps: Seq<Pushed>,
    changes: Seq<ChangeView>,
    origins: Seq<Origin>,
    i: int,
) -> (x: int)
    requires
        finished(items, w, ps, changes, origins),
        0 <= i < ps.len(),
        ps[i].kept is None,
    ensures
        0 <= x < changes.len(),
        origins[x] == Origin::Inserted(i),
        changes[x] is Insert,
        changes[x]->Insert_child_id == ps[i].id,
        changes[x]->Insert_is_dir == ps[i].is_dir,
        changes[x]->Insert_child_inode == ps[i].inode,
        claims(changes, changes.len() as int).len() == changes.len(),
        match claims(changes, changes.len() as int)[x] {
            Some(y) => {
                &&& 0 <= y < changes.len()
                &&& origins[y] matches Origin::Removed(k) && takes(
                    items,
                    w,
                    origins,
                    settled_pushes(ps, changes)[i],
                    k,
                )
                &&& settled_id(changes, ps[i].id) == changes[y]->Remove_entry.child_id()
                &&& knows(items, settled_id(changes, ps[i].id))
            },
            None => settled_id(changes, ps[i].id) == ps[i].id,
        },
{
    assert(recorded(origins, i));
    let x = choose|x: int| 0 <= x < origins.len() && #[trigger] origins[x] == Origin::Inserted(i);
    lemma_traced(items, w, ps, changes, origins, x);
    let n = changes.len() as int;
    lemma_claims(changes, n);
    lemma_inserts_differ(items, w, ps, changes, origins);
    lemma_renamed_insert(changes, claims(changes, n), x, 0);
    if let Some(y) = claims(changes, n)[x] {
        lemma_traced(items, w, ps, changes, origins, y);
        let k = origins[y]->Removed_0;
        assert(dropped(origins, k));
        assert(visible(items, w[k].pos));
        assert(knows(items, items[w[k].pos].child_id()));
    }
    x
}

/// No two pushes have the same identifier in the new tree.
proof fn lemma_settled_ids_differ(
    items: Seq<ItemView>,
    w: Seq<Visit>,
    ps: Seq<Pushed>,
    changes: Seq<ChangeView>,
    origins: Seq<Origin>,
    a: int,
    b: int,
)
    requires
        finished(items, w, ps, changes, origins),
        0 <= a < ps.len(),
        0 <= b < ps.len(),
        a != b,
        ps[a].kept is None,
    ensures
        settled_id(changes, ps[a].id) != settled_id(changes, ps[b].id),
{
    let n = changes.len() as int;
    let x = lemma_settled_id(items, w, ps, changes, origins, a);
    let c = claims(changes, n);
    if a < b {
        assert(ps[a].id != ps[b].id);
    } else {
        assert(ps[b].id != ps[a].id);
    }
    if ps[b].kept is None {
        let z = lemma_settled_id(items, w, ps, changes, origins, b);
        assert(!knows(items, ps[a].id) && !knows(items, ps[b].id));
        if c[x] is Some && c[z] is Some {
            lemma_claims(changes, n);
            assert(x != z);
            assert(c[x] != c[z]);
            let (y, u) = (c[x]->0, c[z]->0);
            if y < u {
                assert(origins[y] != origins[u]);
            } else {
                assert(origins[u] != origins[y]);
            }
            let (k, l) = (origins[y]->Removed_0, origins[u]->Removed_0);
            if k < l {
                assert(items[w[k].pos].child_id() != items[w[l].pos].child_id());
            } else {
                assert(items[w[l].pos].child_id() != items[w[k].pos].child_id());
            }
        }
    } else {
        let l = ps[b].kept->0;
        assert(matches_push(items[w[l].pos], ps[b]));
        assert(visible(items, w[l].pos));
        assert(knows(items, ps[b].id));
        lemma_known_id(items, w, ps, changes, origins, ps[b].id);
        if let Some(y) = c[x] {
            let k = origins[y]->Removed_0;
            assert(held(ps, l));
            assert(dropped(origins, l) != held(ps, l));
            if k < l {
                assert(items[w[k].pos].child_id() != items[w[l].pos].child_id());
            } else if l < k {
                assert(items[w[l].pos].child_id() != items[w[k].pos].child_id());
            }
        } else {
            assert(!knows(items, ps[a].id));
        }
    }
}

/// No two pushes have the same identifier in the new tree, and none has that of the root directory.
proof fn lemma_settled_apart(
    items: Seq<ItemView>,
    w: Seq<Visit>,
    ps: Seq<Pushed>,
    changes: Seq<ChangeView>,
    origins: Seq<Origin>,
)
    requires
        finished(items, w, ps, changes, origins),
    ensures
        forall|a: int, b: int|
            #![trigger ps[a], ps[b]]
            0 <= a < b < ps.len() ==> settled_id(changes, ps[a].id) != settled_id(
                changes,
                ps[b].id,
            ),
        forall|i: int|
            0 <= i < ps.len() ==> settled_id(changes, (#[trigger] ps[i]).id) != root_id(),
{
    let n = changes.len() as int;
    assert forall|a: int, b: int|
        #![trigger ps[a], ps[b]]
        0 <= a < b < ps.len() implies settled_id(changes, ps[a].id) != settled_id(
        changes,
        ps[b].id,
    ) by {
        if ps[a].kept is None {
            lemma_settled_ids_differ(items, w, ps, changes, origins, a, b);
        } else if ps[b].kept is None {
            lemma_settled_ids_differ(items, w, ps, changes, origins, b, a);
        } else {
            lemma_kept_id(items, w, ps, changes, origins, a);
            lemma_kept_id(items, w, ps, changes, origins, b);
            assert(ps[a].id != ps[b].id);
        }
    }
    assert forall|i: int| 0 <= i < ps.len() implies settled_id(changes, (#[trigger] ps[i]).id)
        != root_id() by {
        assert(ps[i].id != root_id());
        if ps[i].kept is None {
            let x = lemma_settled_id(items, w, ps, changes, origins, i);
            if let Some(y) = claims(changes, n)[x] {
                let k = origins[y]->Removed_0;
                assert(items[w[k].pos].child_id() != root_id());
            }
        } else {
            lemma_kept_id(items, w, ps, changes, origins, i);
        }
    }
}

/// A push that found its entry keeps its identifier, and so does the directory that it lies in.
pub proof fn lemma_kept_id(
    items: Seq<ItemView>,
    w: Seq<Visit>,
    ps: Seq<Pushed>,
    changes: Seq<ChangeView>,
    origins: Seq<Origin>,
    i: int,
)
    requires
        finished(items, w, ps, changes, origins),
        0 <= i < ps.len(),
        ps[i].kept is Some,
    ensures
        settled_id(changes, ps[i].id) == ps[i].id,
        settled_id(changes, ps[i].parent) == ps[i].parent,
        knows(items, ps[i].id),
{
    let k = ps[i].kept->0;
    assert(matches_push(items[w[k].pos], ps[i]));
    assert(visible(items, w[k].pos));
    assert(knows(items, ps[i].id));
    assert(knows(items, ps[i].parent));
    lemma_known_id(items, w, ps, changes, origins, ps[i].id);
    lemma_known_id(items, w, ps, changes, origins, ps[i].parent);
}

/// A file that is no directory keeps the identifier that it was given when it was pushed.
proof fn lemma_file_keeps_id(
    items: Seq<ItemView>,
    w: Seq<Visit>,
    ps: Seq<Pushed>,
    changes: Seq<ChangeView>,
    origins: Seq<Origin>,
    i: int,
)
    requires
        finished(items, w, ps, changes, origins),
        0 <= i < ps.len(),
        !ps[i].is_dir,
    ensures
        settled_id(changes, ps[i].id) == ps[i].id,
{
    if ps[i].kept is Some {
        lemma_kept_id(items, w, ps, changes, origins, i);
    } else {
        let x = lemma_settled_id(items, w, ps, changes, origins, i);
        lemma_claims(changes, changes.len() as int);
    }
}

/// The pushes are proper once it is known which directories were moved.
proof fn lemma_settled_proper(
    items: Seq<ItemView>,
    w: Seq<Visit>,
    ps: Seq<Pushed>,
    changes: Seq<ChangeView>,
    origins: Seq<Origin>,
)
    requires
        finished(items, w, ps, changes, origins),
        proper(items, ps),
    ensures
        proper(items, settled_pushes(ps, changes)),
{
    let qs = settled_pushes(ps, changes);
    lemma_settled_apart(items, w, ps, changes, origins);
    lemma_known_id(items, w, ps, changes, origins, root_id());
    assert forall|i: int| 0 <= i < qs.len() implies #[trigger] nested(items, qs, i) by {
        assert(nested(items, ps, i));
        if ps[i].parent != root_id() {
            let h = choose|h: int|
                0 <= h < i && (#[trigger] ps[h]).id == ps[i].parent && (ps[h].is_dir
                    || holds_nothing(items, ps[h].id));
            assert(qs[h].id == qs[i].parent);
            if !ps[h].is_dir {
                lemma_file_keeps_id(items, w, ps, changes, origins, h);
            }
        }
    }
    assert forall|i: int, j: int|
        #![trigger qs[i], qs[j]]
        0 <= i < j < qs.len() && qs[i].parent == qs[j].parent implies qs[i].kind()
        != qs[j].kind() by {
        assert(nested(items, ps, i) && nested(items, ps, j));
        assert(ps[i].parent == ps[j].parent) by {
            if ps[i].parent != root_id() && ps[j].parent != root_id() {
                let g = choose|g: int|
                    0 <= g < i && (#[trigger] ps[g]).id == ps[i].parent;
                let h = choose|h: int|
                    0 <= h < j && (#[trigger] ps[h]).id == ps[j].parent;
                if g < h {
                    assert(settled_id(changes, ps[g].id) != settled_id(changes, ps[h].id));
                } else if h < g {
                    assert(settled_id(changes, ps[h].id) != settled_id(changes, ps[g].id));
                }
            } else if ps[i].parent != root_id() {
                let g = choose|g: int|
                    0 <= g < i && (#[trigger] ps[g]).id == ps[i].parent;
                assert(settled_id(changes, ps[g].id) != root_id());
            } else if ps[j].parent != root_id() {
                let h = choose|h: int|
                    0 <= h < j && (#[trigger] ps[h]).id == ps[j].parent;
                assert(settled_id(changes, ps[h].id) != root_id());
            }
        }
        assert(ps[i].kind() != ps[j].kind());
    }
}

/// What was put in directories is in directories once it is known which directories were moved.
pub proof fn lemma_settled_housed(
    items: Seq<ItemView>,
    w: Seq<Visit>,
    ps: Seq<Pushed>,
    changes: Seq<ChangeView>,
    origins: Seq<Origin>,
)
    requires
        finished(items, w, ps, changes, origins),
        all_housed(ps),
    ensures
        all_housed(settled_pushes(ps, changes)),
{
    let qs = settled_pushes(ps, changes);
    lemma_known_id(items, w, ps, changes, origins, root_id());
    assert forall|i: int| 0 <= i < qs.len() implies #[trigger] housed(qs, i) by {
        assert(housed(ps, i));
        if ps[i].parent != root_id() {
            let h = choose|h: int|
                0 <= h < i && (#[trigger] ps[h]).id == ps[i].parent && ps[h].is_dir;
            assert(qs[h].id == qs[i].parent && qs[h].is_dir);
        }
    }
}

/// Pushes that came in order are in order once it is known which directories were moved.
pub proof fn lemma_settled_in_order(
    items: Seq<ItemView>,
    w: Seq<Visit>,
    ps: Seq<Pushed>,
    changes: Seq<ChangeView>,
    origins: Seq<Origin>,
)
    requires
        finished(items, w, ps, changes, origins),
        in_order(ps),
        forall|i: int| 0 <= i < ps.len() ==> #[trigger] parent_id(ps, i) == ps[i].parent,
    ensures
        same_entries(ps, settled_pushes(ps, changes)),
        in_order(settled_pushes(ps, changes)),
        forall|i: int|
            0 <= i < ps.len() ==> #[trigger] parent_id(settled_pushes(ps, changes), i)
                == settled_pushes(ps, changes)[i].parent,
{
    let qs = settled_pushes(ps, changes);
    lemma_same_entries(ps, qs);
    assert forall|i: int| 0 <= i < ps.len() implies #[trigger] parent_id(qs, i) == qs[i].parent by {
        assert(parent_id(ps, i) == ps[i].parent);
        assert(ps[i].depth >= 1);
        if ps[i].depth == 1 {
            lemma_known_id(items, w, ps, changes, origins, root_id());
        } else {
            let d = ps[i].depth - 1;
            lemma_up(ps, i, d);
            assert(up(qs, i, d) == up(ps, i, d));
        }
    }
}

/// What is known of the pushes and the changes, once it is known which directories were moved.
pub proof fn lemma_resolved(
    items: Seq<ItemView>,
    w: Seq<Visit>,
    ps: Seq<Pushed>,
    changes: Seq<ChangeView>,
    origins: Seq<Origin>,
)
    requires
        finished(items, w, ps, changes, origins),
        proper(items, ps),
    ensures
        resolved(items, w, settled_pushes(ps, changes), settled(changes), origins),
{
    let (qs, cs) = (settled_pushes(ps, changes), settled(changes));
    let n = changes.len() as int;
    lemma_claims(changes, n);
    lemma_settled_proper(items, w, ps, changes, origins);
    lemma_settled_apart(items, w, ps, changes, origins);
    assert forall|i: int| 0 <= i < qs.len() implies ((#[trigger] qs[i]).kept matches Some(k) ==> 0
        <= k < w.len() && matches_push(items[w[k].pos], qs[i])) by {
        assert(ps[i].kept == qs[i].kept);
        if let Some(k) = ps[i].kept {
            assert(matches_push(items[w[k].pos], ps[i]));
            lemma_kept_id(items, w, ps, changes, origins, i);
        }
    }
    assert forall|k: int| 0 <= k < w.len() implies #[trigger] dropped(origins, k) != held(
        qs,
        k,
    ) by {
        assert(dropped(origins, k) != held(ps, k));
        if held(ps, k) {
            let i = choose|i: int| 0 <= i < ps.len() && (#[trigger] ps[i]).kept == Some(k);
            assert(qs[i].kept == Some(k));
        }
        if held(qs, k) {
            let i = choose|i: int| 0 <= i < qs.len() && (#[trigger] qs[i]).kept == Some(k);
            assert(ps[i].kept == Some(k));
        }
    }
    assert forall|x: int| 0 <= x < origins.len() implies accounted(
        items,
        w,
        qs,
        cs[x],
        #[trigger] origins[x],
    ) by {
        lemma_traced(items, w, ps, changes, origins, x);
        if let Origin::Inserted(i) = origins[x] {
            let z = lemma_settled_id(items, w, ps, changes, origins, i);
            if z < x {
                assert(origins[z] != origins[x]);
            } else if x < z {
                assert(origins[x] != origins[z]);
            }
            assert(!knows(items, ps[i].id));
        }
    }
    assert forall|i: int| 0 <= i < qs.len() && (#[trigger] qs[i]).kept is None implies recorded(
        origins,
        i,
    ) by {
        assert(ps[i].kept is None);
    }
    assert forall|a: int, b: int|
        #![trigger qs[a], qs[b]]
        0 <= a < b < qs.len() implies qs[a].id != qs[b].id by {
        assert(settled_id(changes, ps[a].id) != settled_id(changes, ps[b].id));
    }
    assert forall|i: int| 0 <= i < qs.len() implies (#[trigger] qs[i]).id != root_id() by {
        assert(settled_id(changes, ps[i].id) != root_id());
    }
    assert forall|i: int|
        0 <= i < qs.len() && (#[trigger] qs[i]).kept is None && knows(items, qs[i].id) implies (
    exists|k: int| #[trigger] takes(items, w, origins, qs[i], k)) by {
        let x = lemma_settled_id(items, w, ps, changes, origins, i);
        assert(ps[i].kept is None);
        assert(!knows(items, ps[i].id));
        let y = claims(changes, n)[x]->0;
        assert(takes(items, w, origins, qs[i], origins[y]->Removed_0));
    }
}

} // verus!
