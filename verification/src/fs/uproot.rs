//! Directories whose place another one took.
//!
//! A push finds the entry that the old tree has under the same name. If it is of a directory with
//! another inode, it may be that the one that was there has gone to another place, or that the one
//! that is there now has come from another place. Such a push, and all that was pushed below it, is
//! *uprooted* once all is pushed: it does not keep the entry that it found, and gets a new
//! identifier until it is known where it comes from.

use vstd::prelude::*;

use super::changes::{change_views, is_freeing, removes_entries, ItemChange};
use super::item::{Inode, Item, ItemView};
use super::merge::{
    dropped, held, knows, matches_push, pushed_id, recorded, rooted, traced, ChangeView, Origin,
};
use super::model::{inode_of, visible, Listed, Visit};
use super::moves::{finished, frees};
use super::pushes::{
    all_housed, holds_nothing, housed, in_order, lemma_same_entries, lemma_up, nested, parent_id,
    proper, same_entries, up, Pushed,
};
use super::store::{issues_all, lemma_issues_more, Store};
use crate::id::{root_id, Unique};

verus! {

/// Whether the push is of a directory that stayed where it was: it found an entry with the inode
/// that was pushed.
pub open spec fn stays(p: Pushed, old: Seq<Listed>) -> bool {
    p.is_dir && (p.kept matches Some(k) && old[k].inode == p.inode)
}

/// Whether the push is of a directory with the given inode that did not stay.
pub open spec fn arrives_with(p: Pushed, old: Seq<Listed>, inode: Inode) -> bool {
    p.is_dir && p.inode == inode && !stays(p, old)
}

/// Whether a directory with the given inode was pushed, and did not stay.
pub open spec fn arrives(ps: Seq<Pushed>, old: Seq<Listed>, inode: Inode) -> bool {
    exists|i: int| 0 <= i < ps.len() && arrives_with(#[trigger] ps[i], old, inode)
}

/// Whether the push found the entry of a directory with the given inode that did not stay.
pub open spec fn departs_from(p: Pushed, old: Seq<Listed>, inode: Inode) -> bool {
    p.is_dir && !stays(p, old) && (p.kept matches Some(k) && old[k].inode == inode)
}

/// Whether a directory with the given inode was listed, and did not stay.
pub open spec fn departs(
    ps: Seq<Pushed>,
    old: Seq<Listed>,
    changes: Seq<ChangeView>,
    inode: Inode,
) -> bool {
    ||| exists|i: int| 0 <= i < ps.len() && departs_from(#[trigger] ps[i], old, inode)
    ||| exists|x: int| 0 <= x < changes.len() && frees(#[trigger] changes[x], inode)
}

/// Whether the push `i` is of a directory that took the place of another one: the one that was
/// there arrived elsewhere, or this one comes from elsewhere.
pub open spec fn intrudes(
    ps: Seq<Pushed>,
    old: Seq<Listed>,
    changes: Seq<ChangeView>,
    i: int,
) -> bool {
    &&& ps[i].is_dir
    &&& ps[i].kept matches Some(k) && {
        &&& !stays(ps[i], old)
        &&& arrives(ps, old, old[k].inode) || departs(ps, old, changes, ps[i].inode)
    }
}

/// Whether `id` is one of the pushes that are marked.
pub open spec fn marked(ps: Seq<Pushed>, marks: Seq<bool>, id: Unique) -> bool {
    exists|h: int| 0 <= h < marks.len() && #[trigger] marks[h] && ps[h].id == id
}

/// Which of the first `n` pushes are uprooted: those that took the place of another directory, and
/// those that lie in one that is uprooted.
pub open spec fn uprooted(
    ps: Seq<Pushed>,
    old: Seq<Listed>,
    changes: Seq<ChangeView>,
    n: int,
) -> Seq<bool>
    decreases n,
{
    if n <= 0 {
        Seq::empty()
    } else {
        let before = uprooted(ps, old, changes, n - 1);
        before.push(
            intrudes(ps, old, changes, n - 1) || marked(ps, before, ps[n - 1].parent),
        )
    }
}

/// How many of the first `n` pushes are marked though they found their entries.
pub open spec fn count_marked(ps: Seq<Pushed>, marks: Seq<bool>, n: int) -> nat
    decreases n,
{
    if n <= 0 {
        0
    } else {
        count_marked(ps, marks, n - 1) + if marks[n - 1] && ps[n - 1].kept is Some {
            1nat
        } else {
            0nat
        }
    }
}

/// Whether the pushes that are uprooted though they found their entries, and no others, are given
/// new identifiers.
pub open spec fn suits(
    ps: Seq<Pushed>,
    old: Seq<Listed>,
    changes: Seq<ChangeView>,
    fresh: Seq<Option<Unique>>,
) -> bool {
    &&& fresh.len() == ps.len()
    &&& forall|i: int|
        0 <= i < ps.len() ==> (#[trigger] fresh[i] is Some <==> uprooted(
            ps,
            old,
            changes,
            ps.len() as int,
        )[i] && ps[i].kept is Some)
}

/// The first `n` of the new identifiers.
pub open spec fn handed(fresh: Seq<Option<Unique>>, n: int) -> Seq<Unique>
    decreases n,
{
    if n <= 0 {
        Seq::empty()
    } else {
        match fresh[n - 1] {
            Some(id) => handed(fresh, n - 1).push(id),
            None => handed(fresh, n - 1),
        }
    }
}

/// The identifier that the file `id` is given, looked for from the push `h` on.
pub open spec fn regiven(
    ps: Seq<Pushed>,
    fresh: Seq<Option<Unique>>,
    id: Unique,
    h: int,
) -> Unique
    decreases ps.len() - h,
{
    if h >= ps.len() {
        id
    } else if ps[h].id == id && fresh[h] is Some {
        fresh[h]->0
    } else {
        regiven(ps, fresh, id, h + 1)
    }
}

/// The pushes after some are uprooted: those do not keep the entries that they found.
pub open spec fn uprooted_pushes(ps: Seq<Pushed>, fresh: Seq<Option<Unique>>) -> Seq<Pushed> {
    Seq::new(
        ps.len(),
        |i: int|
            Pushed {
                parent: regiven(ps, fresh, ps[i].parent, 0),
                id: match fresh[i] {
                    Some(id) => id,
                    None => ps[i].id,
                },
                kept: match fresh[i] {
                    Some(_) => None,
                    None => ps[i].kept,
                },
                ..ps[i]
            },
    )
}

/// A change after some pushes are uprooted.
pub open spec fn relocated(
    ps: Seq<Pushed>,
    fresh: Seq<Option<Unique>>,
    change: ChangeView,
) -> ChangeView {
    match change {
        ChangeView::Insert { file_id, name, is_dir, child_id, child_inode } => ChangeView::Insert {
            file_id: regiven(ps, fresh, file_id, 0),
            name,
            is_dir,
            child_id,
            child_inode,
        },
        _ => change,
    }
}

/// The changes for the push `i`, if it does not keep the entry that it found: that entry is
/// deleted, and another one inserted.
pub open spec fn replanted_one(
    ps: Seq<Pushed>,
    old: Seq<Listed>,
    fresh: Seq<Option<Unique>>,
    i: int,
) -> Seq<ChangeView> {
    match fresh[i] {
        Some(id) => seq![
            ChangeView::Remove { entry: old[ps[i].kept->0].entry, inode: old[ps[i].kept->0].inode },
            ChangeView::Insert {
                file_id: regiven(ps, fresh, ps[i].parent, 0),
                name: ps[i].name,
                is_dir: ps[i].is_dir,
                child_id: id,
                child_inode: ps[i].inode,
            },
        ],
        None => Seq::empty(),
    }
}

/// The changes for those of the first `n` pushes that do not keep the entries that they found.
pub open spec fn replanted(
    ps: Seq<Pushed>,
    old: Seq<Listed>,
    fresh: Seq<Option<Unique>>,
    n: int,
) -> Seq<ChangeView>
    decreases n,
{
    if n <= 0 {
        Seq::empty()
    } else {
        replanted(ps, old, fresh, n - 1) + replanted_one(ps, old, fresh, n - 1)
    }
}

/// The changes after some pushes are uprooted.
pub open spec fn uprooted_changes(
    ps: Seq<Pushed>,
    old: Seq<Listed>,
    changes: Seq<ChangeView>,
    fresh: Seq<Option<Unique>>,
) -> Seq<ChangeView> {
    Seq::new(changes.len(), |x: int| relocated(ps, fresh, changes[x])) + replanted(
        ps,
        old,
        fresh,
        ps.len() as int,
    )
}

/// Why the changes in [`replanted`] are made.
spec fn reasons(ps: Seq<Pushed>, fresh: Seq<Option<Unique>>, n: int) -> Seq<Origin>
    decreases n,
{
    if n <= 0 {
        Seq::empty()
    } else if fresh[n - 1] is Some {
        reasons(ps, fresh, n - 1).push(Origin::Removed(ps[n - 1].kept->0)).push(
            Origin::Inserted(n - 1),
        )
    } else {
        reasons(ps, fresh, n - 1)
    }
}

/// Whether the new identifiers are new to the items and the pushes, and all different.
pub open spec fn all_new(
    items: Seq<ItemView>,
    ps: Seq<Pushed>,
    fresh: Seq<Option<Unique>>,
) -> bool {
    &&& forall|i: int|
        0 <= i < fresh.len() ==> (#[trigger] fresh[i] matches Some(id) ==> id != root_id()
            && !knows(items, id) && !pushed_id(ps, id))
    &&& forall|i: int, j: int|
        #![trigger fresh[i], fresh[j]]
        0 <= i < j < fresh.len() && fresh[i] is Some ==> fresh[i] != fresh[j]
}

/// What the old tree lists at the visits of the walk.
pub open spec fn lists_walk(items: Seq<ItemView>, w: Seq<Visit>, old: Seq<Listed>) -> bool {
    &&& old.len() == w.len()
    &&& forall|k: int|
        0 <= k < w.len() ==> (#[trigger] old[k]).entry == items[w[k].pos] && old[k].inode
            == inode_of(items, items[w[k].pos].child_id())
}

/// What [`uprooted`] says.
pub proof fn lemma_uprooted(
    ps: Seq<Pushed>,
    old: Seq<Listed>,
    changes: Seq<ChangeView>,
    n: int,
)
    requires
        0 <= n,
    ensures
        uprooted(ps, old, changes, n).len() == n,
        forall|i: int|
            0 <= i < n ==> #[trigger] uprooted(ps, old, changes, n)[i] == (intrudes(
                ps,
                old,
                changes,
                i,
            ) || marked(ps, uprooted(ps, old, changes, n).take(i), ps[i].parent)),
    decreases n,
{
    if n > 0 {
        lemma_uprooted(ps, old, changes, n - 1);
        let (before, all) = (uprooted(ps, old, changes, n - 1), uprooted(ps, old, changes, n));
        assert forall|i: int| 0 <= i < n implies #[trigger] all[i] == (intrudes(
            ps,
            old,
            changes,
            i,
        ) || marked(ps, all.take(i), ps[i].parent)) by {
            if i < n - 1 {
                assert(all[i] == before[i]);
                assert(all.take(i) =~= before.take(i));
            } else {
                assert(all.take(i) =~= before);
            }
        }
    }
}

/// A push that takes the place of another directory does not keep the entry that it found.
pub proof fn lemma_intruder(
    ps: Seq<Pushed>,
    old: Seq<Listed>,
    changes: Seq<ChangeView>,
    fresh: Seq<Option<Unique>>,
    i: int,
)
    requires
        suits(ps, old, changes, fresh),
        0 <= i < ps.len(),
        intrudes(ps, old, changes, i),
    ensures
        fresh[i] is Some,
{
    lemma_uprooted(ps, old, changes, ps.len() as int);
    assert(uprooted(ps, old, changes, ps.len() as int)[i]);
}

/// If no push takes the place of another directory, none is uprooted.
pub proof fn lemma_no_intruder(
    ps: Seq<Pushed>,
    old: Seq<Listed>,
    changes: Seq<ChangeView>,
    n: int,
)
    requires
        0 <= n <= ps.len(),
        forall|i: int| 0 <= i < ps.len() ==> !#[trigger] intrudes(ps, old, changes, i),
    ensures
        forall|i: int| 0 <= i < n ==> !#[trigger] uprooted(ps, old, changes, n)[i],
        uprooted(ps, old, changes, n).len() == n,
    decreases n,
{
    if n > 0 {
        lemma_no_intruder(ps, old, changes, n - 1);
        assert(!intrudes(ps, old, changes, n - 1));
    }
}

/// Without new identifiers nothing changes.
pub proof fn lemma_none_uprooted(
    ps: Seq<Pushed>,
    old: Seq<Listed>,
    changes: Seq<ChangeView>,
    fresh: Seq<Option<Unique>>,
)
    requires
        fresh.len() == ps.len(),
        forall|i: int| 0 <= i < ps.len() ==> #[trigger] fresh[i] is None,
    ensures
        uprooted_changes(ps, old, changes, fresh) == changes,
        uprooted_pushes(ps, fresh) == ps,
        handed(fresh, ps.len() as int) == Seq::<Unique>::empty(),
{
    assert forall|id: Unique| #[trigger] regiven(ps, fresh, id, 0) == id by {
        lemma_regiven_other(ps, fresh, id, 0);
    }
    lemma_none_replanted(ps, old, fresh, ps.len() as int);
    assert(uprooted_changes(ps, old, changes, fresh) =~= changes);
    assert(uprooted_pushes(ps, fresh) =~= ps);
}

/// Without new identifiers nothing is planted elsewhere.
proof fn lemma_none_replanted(
    ps: Seq<Pushed>,
    old: Seq<Listed>,
    fresh: Seq<Option<Unique>>,
    n: int,
)
    requires
        0 <= n <= fresh.len(),
        forall|i: int| 0 <= i < fresh.len() ==> #[trigger] fresh[i] is None,
    ensures
        replanted(ps, old, fresh, n) == Seq::<ChangeView>::empty(),
        handed(fresh, n) == Seq::<Unique>::empty(),
    decreases n,
{
    if n > 0 {
        lemma_none_replanted(ps, old, fresh, n - 1);
        assert(fresh[n - 1] is None);
        assert(replanted(ps, old, fresh, n) =~= Seq::empty());
    }
}

/// A file that is given no new identifier keeps its own.
pub proof fn lemma_regiven_other(
    ps: Seq<Pushed>,
    fresh: Seq<Option<Unique>>,
    id: Unique,
    from: int,
)
    requires
        0 <= from,
        forall|h: int|
            0 <= h < ps.len() && (#[trigger] ps[h]).id == id ==> fresh[h] is None,
    ensures
        regiven(ps, fresh, id, from) == id,
    decreases ps.len() - from,
{
    if from < ps.len() {
        assert(ps[from].id == id ==> fresh[from] is None);
        lemma_regiven_other(ps, fresh, id, from + 1);
    }
}

/// The identifier that the push `h` is given.
pub proof fn lemma_regiven(ps: Seq<Pushed>, fresh: Seq<Option<Unique>>, h: int, from: int)
    requires
        forall|a: int, b: int|
            #![trigger ps[a], ps[b]]
            0 <= a < b < ps.len() ==> ps[a].id != ps[b].id,
        0 <= from <= h < ps.len(),
    ensures
        regiven(ps, fresh, ps[h].id, from) == match fresh[h] {
            Some(id) => id,
            None => ps[h].id,
        },
    decreases h - from,
{
    if from < h {
        assert(ps[from].id != ps[h].id);
        lemma_regiven(ps, fresh, h, from + 1);
    } else if fresh[h] is None {
        assert forall|g: int| 0 <= g < ps.len() && (#[trigger] ps[g]).id == ps[h].id implies
            fresh[g] is None by {
            if g < h {
                assert(ps[g].id != ps[h].id);
            } else if h < g {
                assert(ps[h].id != ps[g].id);
            }
        }
        lemma_regiven_other(ps, fresh, ps[h].id, from);
    }
}

/// Whether a change in [`replanted`] was made for the given reason.
spec fn replants(
    ps: Seq<Pushed>,
    old: Seq<Listed>,
    fresh: Seq<Option<Unique>>,
    n: int,
    change: ChangeView,
    origin: Origin,
) -> bool {
    match origin {
        Origin::Removed(k) => exists|i: int|
            0 <= i < n && #[trigger] fresh[i] is Some && ps[i].kept->0 == k && change
                == replanted_one(ps, old, fresh, i)[0],
        Origin::Inserted(i) => 0 <= i < n && fresh[i] is Some && change == replanted_one(
            ps,
            old,
            fresh,
            i,
        )[1],
    }
}

/// Whether the reason stands there, behind the deletion of the entry that the push found.
spec fn replanted_at(ps: Seq<Pushed>, os: Seq<Origin>, i: int, x: int) -> bool {
    &&& 0 < x < os.len()
    &&& os[x] == Origin::Inserted(i)
    &&& os[x - 1] == Origin::Removed(ps[i].kept->0)
}

/// What [`replanted`] and [`reasons`] say.
proof fn lemma_replanted(
    ps: Seq<Pushed>,
    old: Seq<Listed>,
    fresh: Seq<Option<Unique>>,
    n: int,
)
    requires
        0 <= n <= ps.len(),
        fresh.len() == ps.len(),
        forall|i: int, j: int|
            #![trigger fresh[i], fresh[j]]
            0 <= i < j < ps.len() && fresh[i] is Some && fresh[j] is Some ==> ps[i].kept->0
                != ps[j].kept->0,
    ensures
        reasons(ps, fresh, n).len() == replanted(ps, old, fresh, n).len(),
        replanted(ps, old, fresh, n).len() <= 2 * n,
        forall|x: int|
            0 <= x < reasons(ps, fresh, n).len() ==> replants(
                ps,
                old,
                fresh,
                n,
                replanted(ps, old, fresh, n)[x],
                #[trigger] reasons(ps, fresh, n)[x],
            ),
        forall|x: int, y: int|
            #![trigger reasons(ps, fresh, n)[x], reasons(ps, fresh, n)[y]]
            0 <= x < y < reasons(ps, fresh, n).len() ==> reasons(ps, fresh, n)[x] != reasons(
                ps,
                fresh,
                n,
            )[y],
        forall|i: int|
            0 <= i < n && #[trigger] fresh[i] is Some ==> exists|x: int| #[trigger]
                replanted_at(ps, reasons(ps, fresh, n), i, x),
    decreases n,
{
    if n > 0 {
        lemma_replanted(ps, old, fresh, n - 1);
        let (cs, os) = (replanted(ps, old, fresh, n - 1), reasons(ps, fresh, n - 1));
        let (cs2, os2) = (replanted(ps, old, fresh, n), reasons(ps, fresh, n));
        let m = os.len() as int;
        assert forall|x: int| 0 <= x < m implies #[trigger] os2[x] == os[x] && cs2[x]
            == cs[x] by {}
        assert forall|x: int| 0 <= x < os2.len() implies replants(
            ps,
            old,
            fresh,
            n,
            cs2[x],
            #[trigger] os2[x],
        ) by {
            if x < m {
                assert(replants(ps, old, fresh, n - 1, cs[x], os[x]));
                if let Origin::Removed(k) = os[x] {
                    let i = choose|i: int|
                        0 <= i < n - 1 && #[trigger] fresh[i] is Some && ps[i].kept->0 == k && cs[x]
                            == replanted_one(ps, old, fresh, i)[0];
                    assert(fresh[i] is Some);
                }
            } else {
                assert(fresh[n - 1] is Some);
                assert(cs2[x] == replanted_one(ps, old, fresh, n - 1)[x - m]);
            }
        }
        assert forall|x: int, y: int|
            #![trigger os2[x], os2[y]]
            0 <= x < y < os2.len() implies os2[x] != os2[y] by {
            if y < m {
                assert(os2[x] == os[x] && os2[y] == os[y]);
            } else if x < m {
                assert(os2[x] == os[x]);
                assert(replants(ps, old, fresh, n - 1, cs[x], os[x]));
                assert(fresh[n - 1] is Some);
                if let Origin::Removed(k) = os[x] {
                    let i = choose|i: int|
                        0 <= i < n - 1 && #[trigger] fresh[i] is Some && ps[i].kept->0 == k && cs[x]
                            == replanted_one(ps, old, fresh, i)[0];
                    assert(ps[i].kept->0 != ps[n - 1].kept->0);
                }
            }
        }
        assert forall|i: int| 0 <= i < n && #[trigger] fresh[i] is Some implies exists|x: int|
            #[trigger] replanted_at(ps, os2, i, x) by {
            if i < n - 1 {
                let x = choose|x: int| #[trigger] replanted_at(ps, os, i, x);
                assert(os2[x] == os[x] && os2[x - 1] == os[x - 1]);
                assert(replanted_at(ps, os2, i, x));
            } else {
                assert(replanted_at(ps, os2, i, m + 1));
            }
        }
    }
}

/// The reasons of the changes after some pushes are uprooted.
pub closed spec fn uprooted_origins(
    ps: Seq<Pushed>,
    fresh: Seq<Option<Unique>>,
    origins: Seq<Origin>,
) -> Seq<Origin> {
    origins + reasons(ps, fresh, ps.len() as int)
}

/// What is known before pushes are uprooted.
pub open spec fn uprooting(
    items: Seq<ItemView>,
    w: Seq<Visit>,
    ps: Seq<Pushed>,
    old: Seq<Listed>,
    changes: Seq<ChangeView>,
    origins: Seq<Origin>,
    fresh: Seq<Option<Unique>>,
) -> bool {
    &&& finished(items, w, ps, changes, origins)
    &&& lists_walk(items, w, old)
    &&& suits(ps, old, changes, fresh)
    &&& all_new(items, ps, fresh)
}

/// A push that keeps its entry lies where it lay.
proof fn lemma_keeps_parent(
    items: Seq<ItemView>,
    w: Seq<Visit>,
    ps: Seq<Pushed>,
    old: Seq<Listed>,
    changes: Seq<ChangeView>,
    origins: Seq<Origin>,
    fresh: Seq<Option<Unique>>,
    i: int,
)
    requires
        uprooting(items, w, ps, old, changes, origins, fresh),
        0 <= i < ps.len(),
        ps[i].kept is Some,
        fresh[i] is None,
    ensures
        uprooted_pushes(ps, fresh)[i] == ps[i],
{
    let n = ps.len() as int;
    let marks = uprooted(ps, old, changes, n);
    lemma_uprooted(ps, old, changes, n);
    assert(!marks[i]);
    let f = ps[i].parent;
    assert forall|h: int| 0 <= h < n && (#[trigger] ps[h]).id == f implies fresh[h] is None by {
        assert(ps[h].id != root_id());
        assert(rooted(ps, i));
        let g = choose|g: int| 0 <= g < i && (#[trigger] ps[g]).id == f;
        if g < h {
            assert(ps[g].id != ps[h].id);
        } else if h < g {
            assert(ps[h].id != ps[g].id);
        }
        if fresh[h] is Some {
            assert(marks[h]);
            assert(marks.take(i)[h]);
            assert(marked(ps, marks.take(i), f));
        }
    }
    lemma_regiven_other(ps, fresh, f, 0);
}

/// No two pushes found the same entry.
proof fn lemma_kept_differ(
    items: Seq<ItemView>,
    w: Seq<Visit>,
    ps: Seq<Pushed>,
    changes: Seq<ChangeView>,
    origins: Seq<Origin>,
    i: int,
    j: int,
)
    requires
        finished(items, w, ps, changes, origins),
        0 <= i < ps.len(),
        0 <= j < ps.len(),
        i != j,
        ps[i].kept is Some,
    ensures
        ps[i].kept != ps[j].kept,
{
    if ps[i].kept == ps[j].kept {
        let k = ps[i].kept->0;
        assert(matches_push(items[w[k].pos], ps[i]));
        assert(matches_push(items[w[k].pos], ps[j]));
        if i < j {
            assert(ps[i].id != ps[j].id);
        } else {
            assert(ps[j].id != ps[i].id);
        }
    }
}

/// What [`lemma_replanted`] says of the pushes that are uprooted.
proof fn lemma_replanting(
    items: Seq<ItemView>,
    w: Seq<Visit>,
    ps: Seq<Pushed>,
    old: Seq<Listed>,
    changes: Seq<ChangeView>,
    origins: Seq<Origin>,
    fresh: Seq<Option<Unique>>,
)
    requires
        uprooting(items, w, ps, old, changes, origins, fresh),
    ensures
        reasons(ps, fresh, ps.len() as int).len() == replanted(
            ps,
            old,
            fresh,
            ps.len() as int,
        ).len(),
        forall|x: int|
            0 <= x < reasons(ps, fresh, ps.len() as int).len() ==> replants(
                ps,
                old,
                fresh,
                ps.len() as int,
                replanted(ps, old, fresh, ps.len() as int)[x],
                #[trigger] reasons(ps, fresh, ps.len() as int)[x],
            ),
        forall|x: int, y: int|
            #![trigger reasons(ps, fresh, ps.len() as int)[x], reasons(ps, fresh, ps.len() as int)[y]]
            0 <= x < y < reasons(ps, fresh, ps.len() as int).len() ==> reasons(
                ps,
                fresh,
                ps.len() as int,
            )[x] != reasons(ps, fresh, ps.len() as int)[y],
        forall|i: int|
            0 <= i < ps.len() && #[trigger] fresh[i] is Some ==> exists|x: int| #[trigger]
                replanted_at(ps, reasons(ps, fresh, ps.len() as int), i, x),
{
    assert forall|i: int, j: int|
        #![trigger fresh[i], fresh[j]]
        0 <= i < j < ps.len() && fresh[i] is Some && fresh[j] is Some implies ps[i].kept->0
        != ps[j].kept->0 by {
        lemma_kept_differ(items, w, ps, changes, origins, i, j);
    }
    lemma_replanted(ps, old, fresh, ps.len() as int);
}

/// Which entries are to be deleted after some pushes are uprooted.
proof fn lemma_uprooted_dropped(
    items: Seq<ItemView>,
    w: Seq<Visit>,
    ps: Seq<Pushed>,
    old: Seq<Listed>,
    changes: Seq<ChangeView>,
    origins: Seq<Origin>,
    fresh: Seq<Option<Unique>>,
    k: int,
)
    requires
        uprooting(items, w, ps, old, changes, origins, fresh),
        0 <= k < w.len(),
    ensures
        dropped(uprooted_origins(ps, fresh, origins), k) != held(uprooted_pushes(ps, fresh), k),
{
    let n = ps.len() as int;
    let (qs, os, more) = (
        uprooted_pushes(ps, fresh),
        uprooted_origins(ps, fresh, origins),
        reasons(ps, fresh, n),
    );
    let m = origins.len() as int;
    lemma_replanting(items, w, ps, old, changes, origins, fresh);
    assert(dropped(origins, k) != held(ps, k));
    assert forall|i: int| 0 <= i < n && (#[trigger] qs[i]).kept == Some(k) implies ps[i].kept
        == Some(k) && fresh[i] is None by {}
    if dropped(origins, k) {
        let x = choose|x: int| 0 <= x < m && #[trigger] origins[x] == Origin::Removed(k);
        assert(os[x] == Origin::Removed(k));
        if held(qs, k) {
            let i = choose|i: int| 0 <= i < n && (#[trigger] qs[i]).kept == Some(k);
            assert(ps[i].kept == Some(k));
        }
    } else {
        let i = choose|i: int| 0 <= i < n && (#[trigger] ps[i]).kept == Some(k);
        if fresh[i] is Some {
            let x = choose|x: int| #[trigger] replanted_at(ps, more, i, x);
            assert(os[m + x - 1] == more[x - 1]);
            assert(dropped(os, k));
            if held(qs, k) {
                let j = choose|j: int| 0 <= j < n && (#[trigger] qs[j]).kept == Some(k);
                assert(ps[j].kept == Some(k));
                lemma_kept_differ(items, w, ps, changes, origins, i, j);
            }
        } else {
            assert(qs[i].kept == Some(k));
            if dropped(os, k) {
                let x = choose|x: int| 0 <= x < os.len() && #[trigger] os[x] == Origin::Removed(k);
                if x < m {
                    assert(origins[x] == Origin::Removed(k));
                } else {
                    assert(more[x - m] == os[x]);
                    assert(replants(ps, old, fresh, n, replanted(ps, old, fresh, n)[x - m], more[x
                        - m]));
                    let j = choose|j: int|
                        0 <= j < n && #[trigger] fresh[j] is Some && ps[j].kept->0 == k
                            && replanted(ps, old, fresh, n)[x - m] == replanted_one(
                            ps,
                            old,
                            fresh,
                            j,
                        )[0];
                    lemma_kept_differ(items, w, ps, changes, origins, j, i);
                }
            }
        }
    }
}

/// What is known of the pushes and the changes after some are uprooted.
pub proof fn lemma_uprooting(
    items: Seq<ItemView>,
    w: Seq<Visit>,
    ps: Seq<Pushed>,
    old: Seq<Listed>,
    changes: Seq<ChangeView>,
    origins: Seq<Origin>,
    fresh: Seq<Option<Unique>>,
)
    requires
        uprooting(items, w, ps, old, changes, origins, fresh),
    ensures
        finished(
            items,
            w,
            uprooted_pushes(ps, fresh),
            uprooted_changes(ps, old, changes, fresh),
            uprooted_origins(ps, fresh, origins),
        ),
{
    let n = ps.len() as int;
    let m = origins.len() as int;
    let j = w.len() as int;
    let (qs, cs, os) = (
        uprooted_pushes(ps, fresh),
        uprooted_changes(ps, old, changes, fresh),
        uprooted_origins(ps, fresh, origins),
    );
    let (added, more) = (replanted(ps, old, fresh, n), reasons(ps, fresh, n));
    lemma_replanting(items, w, ps, old, changes, origins, fresh);
    assert forall|x: int| 0 <= x < m implies #[trigger] os[x] == origins[x] && cs[x] == relocated(
        ps,
        fresh,
        changes[x],
    ) by {}
    assert forall|x: int| m <= x < os.len() implies #[trigger] os[x] == more[x - m] && cs[x]
        == added[x - m] by {}
    assert forall|i: int| 0 <= i < n implies #[trigger] rooted(qs, i) by {
        assert(rooted(ps, i));
        lemma_regiven_parent(ps, fresh, i);
    }
    assert forall|i: int| 0 <= i < n implies ((#[trigger] qs[i]).kept matches Some(k) ==> 0 <= k < j
        && matches_push(items[w[k].pos], qs[i])) by {
        if qs[i].kept is Some {
            assert(ps[i].kept == qs[i].kept && fresh[i] is None);
            lemma_keeps_parent(items, w, ps, old, changes, origins, fresh, i);
        }
    }
    assert forall|k: int| 0 <= k < j implies #[trigger] dropped(os, k) != held(qs, k) by {
        lemma_uprooted_dropped(items, w, ps, old, changes, origins, fresh, k);
    }
    assert forall|x: int| 0 <= x < os.len() implies traced(
        items,
        w,
        j,
        qs,
        cs[x],
        #[trigger] os[x],
    ) by {
        if x < m {
            assert(traced(items, w, j, ps, changes[x], origins[x]));
            if let Origin::Inserted(i) = origins[x] {
                assert(ps[i].kept is None);
                assert(fresh[i] is None);
                assert(qs[i].kept is None);
            }
        } else {
            assert(replants(ps, old, fresh, n, added[x - m], more[x - m]));
            match more[x - m] {
                Origin::Removed(k) => {
                    let i = choose|i: int|
                        0 <= i < n && #[trigger] fresh[i] is Some && ps[i].kept->0 == k && added[x
                            - m] == replanted_one(ps, old, fresh, i)[0];
                    assert(ps[i].kept == Some(k));
                    assert(old[k].entry == items[w[k].pos]);
                },
                Origin::Inserted(i) => {
                    assert(qs[i].kept is None);
                },
            }
        }
    }
    assert forall|x: int, y: int|
        #![trigger os[x], os[y]]
        0 <= x < y < os.len() implies os[x] != os[y] by {
        if y < m {
            assert(origins[x] != origins[y]);
        } else if x >= m {
            assert(more[x - m] != more[y - m]);
        } else {
            assert(traced(items, w, j, ps, changes[x], origins[x]));
            assert(replants(ps, old, fresh, n, added[y - m], more[y - m]));
            match more[y - m] {
                Origin::Removed(k) => {
                    let i = choose|i: int|
                        0 <= i < n && #[trigger] fresh[i] is Some && ps[i].kept->0 == k && added[y
                            - m] == replanted_one(ps, old, fresh, i)[0];
                    assert(ps[i].kept == Some(k));
                    assert(held(ps, k));
                    if origins[x] == Origin::Removed(k) {
                        assert(dropped(origins, k));
                        assert(dropped(origins, k) != held(ps, k));
                    }
                },
                Origin::Inserted(i) => {
                    assert(ps[i].kept is Some);
                },
            }
        }
    }
    assert forall|i: int| 0 <= i < n && (#[trigger] qs[i]).kept is None implies recorded(os, i) by {
        if fresh[i] is Some {
            let x = choose|x: int| #[trigger] replanted_at(ps, more, i, x);
            assert(os[m + x] == more[x]);
        } else {
            assert(ps[i].kept is None);
            let x = choose|x: int| 0 <= x < m && #[trigger] origins[x] == Origin::Inserted(i);
            assert(os[x] == Origin::Inserted(i));
        }
    }
    assert forall|a: int, b: int|
        #![trigger qs[a], qs[b]]
        0 <= a < b < n implies qs[a].id != qs[b].id by {
        lemma_ids_differ(items, ps, fresh, a, b);
    }
    assert forall|i: int| 0 <= i < n implies (#[trigger] qs[i]).id != root_id() by {
        assert(ps[i].id != root_id());
        assert(fresh[i] matches Some(id) ==> id != root_id());
    }
    assert forall|i: int| 0 <= i < n && (#[trigger] qs[i]).kept is None implies !knows(
        items,
        qs[i].id,
    ) by {
        assert(fresh[i] matches Some(id) ==> !knows(items, id));
        if fresh[i] is None {
            assert(ps[i].kept is None);
        }
    }
}

/// No two pushes have the same identifier after some are given new ones.
proof fn lemma_ids_differ(
    items: Seq<ItemView>,
    ps: Seq<Pushed>,
    fresh: Seq<Option<Unique>>,
    a: int,
    b: int,
)
    requires
        all_new(items, ps, fresh),
        fresh.len() == ps.len(),
        forall|a: int, b: int|
            #![trigger ps[a], ps[b]]
            0 <= a < b < ps.len() ==> ps[a].id != ps[b].id,
        0 <= a < b < ps.len(),
    ensures
        uprooted_pushes(ps, fresh)[a].id != uprooted_pushes(ps, fresh)[b].id,
{
    assert(ps[a].id != ps[b].id);
    if fresh[a] is Some {
        assert(fresh[a] != fresh[b]);
        assert(!pushed_id(ps, fresh[a]->0));
    }
    if fresh[b] is Some {
        assert(!pushed_id(ps, fresh[b]->0));
    }
}

/// What a push is put in after some are given new identifiers.
proof fn lemma_regiven_parent(ps: Seq<Pushed>, fresh: Seq<Option<Unique>>, i: int)
    requires
        forall|a: int, b: int|
            #![trigger ps[a], ps[b]]
            0 <= a < b < ps.len() ==> ps[a].id != ps[b].id,
        forall|a: int| 0 <= a < ps.len() ==> (#[trigger] ps[a]).id != root_id(),
        0 <= i < ps.len(),
        rooted(ps, i),
    ensures
        ps[i].parent == root_id() ==> uprooted_pushes(ps, fresh)[i].parent == root_id(),
        forall|h: int|
            0 <= h < ps.len() && (#[trigger] ps[h]).id == ps[i].parent ==> uprooted_pushes(
                ps,
                fresh,
            )[h].id == uprooted_pushes(ps, fresh)[i].parent,
        rooted(uprooted_pushes(ps, fresh), i),
{
    let qs = uprooted_pushes(ps, fresh);
    if ps[i].parent == root_id() {
        lemma_regiven_other(ps, fresh, root_id(), 0);
    }
    assert forall|h: int| 0 <= h < ps.len() && (#[trigger] ps[h]).id == ps[i].parent implies
        qs[h].id == qs[i].parent by {
        lemma_regiven(ps, fresh, h, 0);
    }
    if ps[i].parent != root_id() {
        let h = choose|h: int| 0 <= h < i && (#[trigger] ps[h]).id == ps[i].parent;
        assert(qs[h].id == qs[i].parent);
    }
}

/// Proper pushes are proper after some are uprooted.
pub proof fn lemma_uprooted_proper(
    items: Seq<ItemView>,
    w: Seq<Visit>,
    ps: Seq<Pushed>,
    old: Seq<Listed>,
    changes: Seq<ChangeView>,
    origins: Seq<Origin>,
    fresh: Seq<Option<Unique>>,
)
    requires
        uprooting(items, w, ps, old, changes, origins, fresh),
        proper(items, ps),
    ensures
        proper(items, uprooted_pushes(ps, fresh)),
{
    let qs = uprooted_pushes(ps, fresh);
    let n = ps.len() as int;
    lemma_uprooting(items, w, ps, old, changes, origins, fresh);
    assert forall|i: int| 0 <= i < n implies #[trigger] nested(items, qs, i) by {
        assert(nested(items, ps, i));
        assert(rooted(ps, i));
        lemma_regiven_parent(ps, fresh, i);
        if ps[i].parent != root_id() {
            let h = choose|h: int|
                0 <= h < i && (#[trigger] ps[h]).id == ps[i].parent && (ps[h].is_dir
                    || holds_nothing(items, ps[h].id));
            assert(qs[h].id == qs[i].parent && qs[h].is_dir == ps[h].is_dir);
            if fresh[h] is Some {
                assert(!knows(items, fresh[h]->0));
                assert forall|q: int| #[trigger] visible(items, q) implies items[q].file_id()
                    != qs[h].id by {}
            }
        }
    }
    assert forall|i: int, j: int|
        #![trigger qs[i], qs[j]]
        0 <= i < j < n && qs[i].parent == qs[j].parent implies qs[i].kind() != qs[j].kind() by {
        assert(rooted(ps, i) && rooted(ps, j));
        lemma_regiven_parent(ps, fresh, i);
        lemma_regiven_parent(ps, fresh, j);
        assert(ps[i].parent == ps[j].parent) by {
            if ps[i].parent != root_id() && ps[j].parent != root_id() {
                let g = choose|g: int| 0 <= g < i && (#[trigger] ps[g]).id == ps[i].parent;
                let h = choose|h: int| 0 <= h < j && (#[trigger] ps[h]).id == ps[j].parent;
                if g < h {
                    assert(qs[g].id != qs[h].id);
                } else if h < g {
                    assert(qs[h].id != qs[g].id);
                }
            } else if ps[i].parent != root_id() {
                let g = choose|g: int| 0 <= g < i && (#[trigger] ps[g]).id == ps[i].parent;
                assert(qs[g].id != root_id());
            } else if ps[j].parent != root_id() {
                let h = choose|h: int| 0 <= h < j && (#[trigger] ps[h]).id == ps[j].parent;
                assert(qs[h].id != root_id());
            }
        }
        assert(ps[i].kind() != ps[j].kind());
    }
}

/// What was put in directories is in directories after some pushes are uprooted.
pub proof fn lemma_uprooted_housed(
    items: Seq<ItemView>,
    w: Seq<Visit>,
    ps: Seq<Pushed>,
    old: Seq<Listed>,
    changes: Seq<ChangeView>,
    origins: Seq<Origin>,
    fresh: Seq<Option<Unique>>,
)
    requires
        uprooting(items, w, ps, old, changes, origins, fresh),
        all_housed(ps),
    ensures
        all_housed(uprooted_pushes(ps, fresh)),
{
    let qs = uprooted_pushes(ps, fresh);
    assert forall|i: int| 0 <= i < ps.len() implies #[trigger] housed(qs, i) by {
        assert(housed(ps, i));
        assert(rooted(ps, i));
        lemma_regiven_parent(ps, fresh, i);
        if ps[i].parent != root_id() {
            let h = choose|h: int|
                0 <= h < i && (#[trigger] ps[h]).id == ps[i].parent && ps[h].is_dir;
            assert(qs[h].id == qs[i].parent && qs[h].is_dir);
        }
    }
}

/// Pushes that came in order are in order after some are uprooted.
pub proof fn lemma_uprooted_in_order(
    items: Seq<ItemView>,
    w: Seq<Visit>,
    ps: Seq<Pushed>,
    old: Seq<Listed>,
    changes: Seq<ChangeView>,
    origins: Seq<Origin>,
    fresh: Seq<Option<Unique>>,
)
    requires
        uprooting(items, w, ps, old, changes, origins, fresh),
        in_order(ps),
        forall|i: int| 0 <= i < ps.len() ==> #[trigger] parent_id(ps, i) == ps[i].parent,
    ensures
        same_entries(ps, uprooted_pushes(ps, fresh)),
        in_order(uprooted_pushes(ps, fresh)),
        forall|i: int|
            0 <= i < ps.len() ==> #[trigger] parent_id(uprooted_pushes(ps, fresh), i)
                == uprooted_pushes(ps, fresh)[i].parent,
{
    let qs = uprooted_pushes(ps, fresh);
    lemma_same_entries(ps, qs);
    assert forall|i: int| 0 <= i < ps.len() implies #[trigger] parent_id(qs, i)
        == qs[i].parent by {
        assert(parent_id(ps, i) == ps[i].parent);
        assert(ps[i].depth >= 1);
        assert(rooted(ps, i));
        lemma_regiven_parent(ps, fresh, i);
        if ps[i].depth > 1 {
            let d = ps[i].depth - 1;
            lemma_up(ps, i, d);
            assert(up(qs, i, d) == up(ps, i, d));
            assert(ps[up(ps, i, d)].id == ps[i].parent);
        }
    }
}

/// Where the change for a push stands that does not keep the entry that it found: behind the
/// deletion of that entry.
pub proof fn lemma_replanted_behind(
    items: Seq<ItemView>,
    w: Seq<Visit>,
    ps: Seq<Pushed>,
    old: Seq<Listed>,
    changes: Seq<ChangeView>,
    origins: Seq<Origin>,
    fresh: Seq<Option<Unique>>,
    i: int,
) -> (x: int)
    requires
        uprooting(items, w, ps, old, changes, origins, fresh),
        0 <= i < ps.len(),
        fresh[i] is Some,
    ensures
        0 < x < uprooted_origins(ps, fresh, origins).len(),
        uprooted_origins(ps, fresh, origins)[x] == Origin::Inserted(i),
        uprooted_origins(ps, fresh, origins)[x - 1] == Origin::Removed(ps[i].kept->0),
{
    let more = reasons(ps, fresh, ps.len() as int);
    let os = uprooted_origins(ps, fresh, origins);
    let m = origins.len() as int;
    lemma_replanting(items, w, ps, old, changes, origins, fresh);
    let x = choose|x: int| #[trigger] replanted_at(ps, more, i, x);
    assert(os[m + x] == more[x] && os[m + x - 1] == more[x - 1]);
    m + x
}

// --- What a builder keeps of its pushes, and what it does with it ---

/// The entry that a push found.
pub struct Found {
    pub name: Vec<u8>,
    pub entry: Item,
    pub inode: Inode,
}

/// What a builder keeps of a push.
pub struct PushRecord {
    pub is_dir: bool,
    pub inode: Inode,
    pub parent: Unique,
    pub id: Unique,
    pub found: Option<Found>,
}

/// Whether a record is that of a push.
pub open spec fn records_push(r: PushRecord, p: Pushed, old: Seq<Listed>) -> bool {
    &&& r.is_dir == p.is_dir
    &&& r.inode == p.inode
    &&& r.parent == p.parent
    &&& r.id == p.id
    &&& match r.found {
        Some(found) => p.kept matches Some(k) && found.name@ == p.name && found.entry@
            == old[k].entry && found.inode == old[k].inode && found.entry@ is DirEntry,
        None => p.kept is None,
    }
}

/// Whether the records are those of the pushes.
pub open spec fn records(rs: Seq<PushRecord>, ps: Seq<Pushed>, old: Seq<Listed>) -> bool {
    &&& rs.len() == ps.len()
    &&& forall|i: int| 0 <= i < rs.len() ==> records_push(#[trigger] rs[i], ps[i], old)
}

/// Decides [`stays`].
fn is_staying(r: &PushRecord) -> (b: bool)
    ensures
        forall|p: Pushed, old: Seq<Listed>| #[trigger]
            records_push(*r, p, old) ==> b == stays(p, old),
{
    match &r.found {
        Some(found) => r.is_dir && found.inode == r.inode,
        None => false,
    }
}

/// Decides [`arrives`].
fn is_arriving(
    rs: &Vec<PushRecord>,
    inode: Inode,
    ps: Ghost<Seq<Pushed>>,
    old: Ghost<Seq<Listed>>,
) -> (b: bool)
    requires
        records(rs@, ps@, old@),
    ensures
        b == arrives(ps@, old@, inode),
{
    let mut i: usize = 0;
    while i < rs.len()
        invariant
            i <= rs.len(),
            records(rs@, ps@, old@),
            forall|h: int| 0 <= h < i ==> !arrives_with(#[trigger] ps@[h], old@, inode),
        decreases rs.len() - i,
    {
        assert(records_push(rs[i as int], ps@[i as int], old@));
        if rs[i].is_dir && rs[i].inode == inode && !is_staying(&rs[i]) {
            assert(arrives_with(ps@[i as int], old@, inode));
            return true;
        }
        i = i + 1;
    }
    false
}

/// Decides [`departs`].
fn is_departing(
    rs: &Vec<PushRecord>,
    changes: &Vec<ItemChange>,
    inode: Inode,
    ps: Ghost<Seq<Pushed>>,
    old: Ghost<Seq<Listed>>,
) -> (b: bool)
    requires
        records(rs@, ps@, old@),
    ensures
        b == departs(ps@, old@, change_views(changes@), inode),
{
    let ghost views = change_views(changes@);
    let mut i: usize = 0;
    while i < rs.len()
        invariant
            i <= rs.len(),
            records(rs@, ps@, old@),
            views == change_views(changes@),
            forall|h: int| 0 <= h < i ==> !departs_from(#[trigger] ps@[h], old@, inode),
        decreases rs.len() - i,
    {
        assert(records_push(rs[i as int], ps@[i as int], old@));
        let is_here = match &rs[i].found {
            Some(found) => found.inode == inode,
            None => false,
        };
        if rs[i].is_dir && is_here && !is_staying(&rs[i]) {
            assert(departs_from(ps@[i as int], old@, inode));
            return true;
        }
        i = i + 1;
    }
    let mut x: usize = 0;
    while x < changes.len()
        invariant
            x <= changes.len(),
            views == change_views(changes@),
            forall|y: int| 0 <= y < x ==> !frees(#[trigger] views[y], inode),
        decreases changes.len() - x,
    {
        assert(views[x as int] == changes[x as int]@);
        if is_freeing(&changes[x], inode) {
            assert(frees(views[x as int], inode));
            return true;
        }
        x = x + 1;
    }
    false
}

/// Decides [`marked`].
fn is_marked(
    rs: &Vec<PushRecord>,
    marks: &Vec<bool>,
    id: Unique,
    ps: Ghost<Seq<Pushed>>,
    old: Ghost<Seq<Listed>>,
) -> (b: bool)
    requires
        records(rs@, ps@, old@),
        marks.len() <= rs.len(),
    ensures
        b == marked(ps@, marks@, id),
{
    let mut h: usize = 0;
    while h < marks.len()
        invariant
            h <= marks.len() <= rs.len(),
            records(rs@, ps@, old@),
            forall|g: int| 0 <= g < h && #[trigger] marks@[g] ==> ps@[g].id != id,
        decreases marks.len() - h,
    {
        assert(records_push(rs[h as int], ps@[h as int], old@));
        if marks[h] && rs[h].id == id {
            assert(marks@[h as int]);
            return true;
        }
        h = h + 1;
    }
    false
}

/// Finds out which pushes are uprooted.
fn find_uprooted(
    rs: &Vec<PushRecord>,
    changes: &Vec<ItemChange>,
    ps: Ghost<Seq<Pushed>>,
    old: Ghost<Seq<Listed>>,
) -> (marks: Vec<bool>)
    requires
        records(rs@, ps@, old@),
    ensures
        marks@ == uprooted(ps@, old@, change_views(changes@), ps@.len() as int),
        marks.len() == rs.len(),
{
    let ghost views = change_views(changes@);
    let mut marks: Vec<bool> = Vec::new();
    assert(marks@ =~= uprooted(ps@, old@, views, 0));
    let mut i: usize = 0;
    while i < rs.len()
        invariant
            i <= rs.len(),
            records(rs@, ps@, old@),
            views == change_views(changes@),
            marks.len() == i,
            marks@ == uprooted(ps@, old@, views, i as int),
        decreases rs.len() - i,
    {
        let ghost before = marks@;
        assert(records_push(rs[i as int], ps@[i as int], old@));
        let intrudes_here = match &rs[i].found {
            Some(found) => rs[i].is_dir && !is_staying(&rs[i]) && (is_arriving(
                rs,
                found.inode,
                ps,
                old,
            ) || is_departing(rs, changes, rs[i].inode, ps, old)),
            None => false,
        };
        assert(intrudes_here == intrudes(ps@, old@, views, i as int));
        let mark = intrudes_here || is_marked(rs, &marks, rs[i].parent, ps, old);
        marks.push(mark);
        i = i + 1;
        assert(marks@ =~= before.push(mark));
    }
    marks
}

/// The identifier that a file is given.
fn regive(
    rs: &Vec<PushRecord>,
    fresh: &Vec<Option<Unique>>,
    id: Unique,
    ps: Ghost<Seq<Pushed>>,
    old: Ghost<Seq<Listed>>,
) -> (result: Unique)
    requires
        records(rs@, ps@, old@),
        fresh.len() == rs.len(),
    ensures
        result == regiven(ps@, fresh@, id, 0),
{
    let mut h: usize = 0;
    while h < rs.len()
        invariant
            h <= rs.len(),
            records(rs@, ps@, old@),
            fresh.len() == rs.len(),
            regiven(ps@, fresh@, id, 0) == regiven(ps@, fresh@, id, h as int),
        decreases rs.len() - h,
    {
        assert(records_push(rs[h as int], ps@[h as int], old@));
        if rs[h].id == id {
            if let Some(other) = fresh[h] {
                return other;
            }
        }
        h = h + 1;
    }
    id
}

/// What [`handed`] says of fewer pushes.
proof fn lemma_handed_prefix(fresh: Seq<Option<Unique>>, more: Seq<Option<Unique>>, n: int)
    requires
        0 <= n <= fresh.len(),
        n <= more.len(),
        forall|i: int| 0 <= i < n ==> #[trigger] fresh[i] == more[i],
    ensures
        handed(fresh, n) == handed(more, n),
        handed(fresh, n).len() <= n,
    decreases n,
{
    if n > 0 {
        assert(fresh[n - 1] == more[n - 1]);
        lemma_handed_prefix(fresh, more, n - 1);
    }
}

/// The new identifiers are among those that are handed out, each once.
pub proof fn lemma_handed(fresh: Seq<Option<Unique>>, n: int)
    requires
        0 <= n <= fresh.len(),
    ensures
        forall|i: int|
            0 <= i < n ==> (#[trigger] fresh[i] matches Some(id) ==> {
                &&& 0 <= handed(fresh, i).len() < handed(fresh, n).len()
                &&& handed(fresh, n)[handed(fresh, i).len() as int] == id
            }),
        forall|i: int, j: int|
            #![trigger handed(fresh, i), handed(fresh, j)]
            0 <= i < j <= n && fresh[i] is Some ==> handed(fresh, i).len() < handed(
                fresh,
                j,
            ).len(),
    decreases n,
{
    if n > 0 {
        lemma_handed(fresh, n - 1);
        let (before, all) = (handed(fresh, n - 1), handed(fresh, n));
        assert(before.len() <= all.len());
        assert forall|i: int| 0 <= i < n implies (#[trigger] fresh[i] matches Some(id) ==> {
            &&& 0 <= handed(fresh, i).len() < all.len()
            &&& all[handed(fresh, i).len() as int] == id
        }) by {
            if i < n - 1 && fresh[i] is Some {
                assert(before[handed(fresh, i).len() as int] == fresh[i]->0);
            }
        }
        assert forall|i: int, j: int|
            #![trigger handed(fresh, i), handed(fresh, j)]
            0 <= i < j <= n && fresh[i] is Some implies handed(fresh, i).len() < handed(
            fresh,
            j,
        ).len() by {
            if j == n && i < n - 1 {
                assert(handed(fresh, i).len() < handed(fresh, n - 1).len());
            }
        }
    }
}

/// Of fewer pushes no more are marked.
proof fn lemma_count_marked(ps: Seq<Pushed>, marks: Seq<bool>, m: int, n: int)
    requires
        0 <= m <= n,
    ensures
        count_marked(ps, marks, m) <= count_marked(ps, marks, n),
    decreases n,
{
    if m < n {
        lemma_count_marked(ps, marks, m, n - 1);
    }
}

/// Gives new identifiers to the pushes that do not keep the entries that they found.
fn hand_out<S: Store>(
    rs: &Vec<PushRecord>,
    marks: &Vec<bool>,
    ps: Ghost<Seq<Pushed>>,
    old_listing: Ghost<Seq<Listed>>,
    db: &mut S,
) -> (fresh: Vec<Option<Unique>>)
    requires
        records(rs@, ps@, old_listing@),
        marks.len() == rs.len(),
        old(db).supply() >= count_marked(ps@, marks@, rs.len() as int),
    ensures
        fresh.len() == rs.len(),
        forall|i: int|
            0 <= i < rs.len() ==> (#[trigger] fresh@[i] is Some <==> marks@[i]
                && ps@[i].kept is Some),
        issues_all(&*old(db), &*final(db), handed(fresh@, rs.len() as int)),
        handed(fresh@, rs.len() as int).len() == count_marked(ps@, marks@, rs.len() as int),
{
    let mut fresh: Vec<Option<Unique>> = Vec::new();
    let mut i: usize = 0;
    assert(issues_all(&*old(db), &*db, handed(fresh@, 0)));
    while i < rs.len()
        invariant
            i <= rs.len(),
            records(rs@, ps@, old_listing@),
            marks.len() == rs.len(),
            old(db).supply() >= count_marked(ps@, marks@, rs.len() as int),
            fresh.len() == i,
            forall|h: int|
                0 <= h < i ==> (#[trigger] fresh@[h] is Some <==> marks@[h]
                    && ps@[h].kept is Some),
            issues_all(&*old(db), &*db, handed(fresh@, i as int)),
            handed(fresh@, i as int).len() == count_marked(ps@, marks@, i as int),
        decreases rs.len() - i,
    {
        let ghost before = fresh@;
        let ghost last = *db;
        proof {
            assert(records_push(rs@[i as int], ps@[i as int], old_listing@));
            lemma_count_marked(ps@, marks@, i + 1, rs.len() as int);
        }
        let found = match &rs[i].found {
            Some(_) => true,
            None => false,
        };
        if marks[i] && found {
            let id = db.gen_id();
            fresh.push(Some(id));
            proof {
                lemma_handed_prefix(before, fresh@, i as int);
                lemma_issues_more(&*old(db), &last, &*db, handed(before, i as int), id);
            }
        } else {
            fresh.push(None);
            proof {
                lemma_handed_prefix(before, fresh@, i as int);
            }
        }
        i = i + 1;
    }
    fresh
}

/// Finds out which pushes are uprooted, and makes the changes say so.
pub(crate) fn uproot<S: Store>(
    rs: Vec<PushRecord>,
    changes: Vec<ItemChange>,
    ps: Ghost<Seq<Pushed>>,
    old_listing: Ghost<Seq<Listed>>,
    db: &mut S,
) -> (result: (Vec<ItemChange>, Ghost<Seq<Option<Unique>>>))
    requires
        records(rs@, ps@, old_listing@),
        removes_entries(changes@),
        old(db).supply() >= count_marked(
            ps@,
            uprooted(ps@, old_listing@, change_views(changes@), ps@.len() as int),
            ps@.len() as int,
        ),
    ensures
        suits(ps@, old_listing@, change_views(changes@), result.1@),
        issues_all(&*old(db), &*final(db), handed(result.1@, ps@.len() as int)),
        handed(result.1@, ps@.len() as int).len() == count_marked(
            ps@,
            uprooted(ps@, old_listing@, change_views(changes@), ps@.len() as int),
            ps@.len() as int,
        ),
        change_views(result.0@) == uprooted_changes(
            ps@,
            old_listing@,
            change_views(changes@),
            result.1@,
        ),
        removes_entries(result.0@),
        result.0.len() == changes.len() + 2 * handed(result.1@, ps@.len() as int).len(),
{
    let ghost views = change_views(changes@);
    let ghost list = old_listing@;
    let ghost pushes = ps@;
    let marks = find_uprooted(&rs, &changes, ps, old_listing);
    let fresh = hand_out(&rs, &marks, ps, old_listing, db);
    let ghost given = fresh@;
    proof {
        assert forall|i: int| 0 <= i < pushes.len() implies (#[trigger] given[i] is Some
            <==> uprooted(pushes, list, views, pushes.len() as int)[i]
            && pushes[i].kept is Some) by {
            assert(given[i] is Some <==> marks@[i] && pushes[i].kept is Some);
        }
    }
    let mut result: Vec<ItemChange> = Vec::new();
    for change in it: changes
        invariant
            it.seq() == changes@,
            records(rs@, pushes, list),
            ps@ == pushes,
            old_listing@ == list,
            fresh.len() == rs.len(),
            fresh@ == given,
            removes_entries(changes@),
            removes_entries(result@),
            views == change_views(changes@),
            result.len() == it.index(),
            forall|z: int|
                0 <= z < result.len() ==> #[trigger] result[z]@ == relocated(
                    pushes,
                    given,
                    views[z],
                ),
    {
        let ghost n = it.index();
        assert(views[n] == change@);
        assert(changes[n]@ == change@);
        let ghost before = result@;
        let moved = match change {
            ItemChange::InsertDirEntry { file_id, name, is_dir, child_id, child_inode } => {
                ItemChange::InsertDirEntry {
                    file_id: regive(&rs, &fresh, file_id, ps, old_listing),
                    name,
                    is_dir,
                    child_id,
                    child_inode,
                }
            },
            other => other,
        };
        result.push(moved);
        assert forall|z: int| 0 <= z < result.len() && #[trigger] result[z]@ is Remove implies
            result[z]@->Remove_entry is DirEntry by {
            if z < n {
                assert(result[z] == before[z]);
            }
        }
    }
    let ghost first = change_views(result@);
    assert(first =~= Seq::new(views.len(), |x: int| relocated(pushes, given, views[x])));
    let mut parents: Vec<Unique> = Vec::new();
    let mut i: usize = 0;
    while i < rs.len()
        invariant
            i <= rs.len(),
            records(rs@, pushes, list),
            ps@ == pushes,
            old_listing@ == list,
            fresh.len() == rs.len(),
            fresh@ == given,
            parents.len() == i,
            forall|h: int|
                0 <= h < i ==> #[trigger] parents@[h] == regiven(
                    pushes,
                    given,
                    pushes[h].parent,
                    0,
                ),
        decreases rs.len() - i,
    {
        assert(records_push(rs[i as int], pushes[i as int], list));
        parents.push(regive(&rs, &fresh, rs[i].parent, ps, old_listing));
        i = i + 1;
    }
    let mut h: usize = 0;
    assert(first + replanted(pushes, list, given, 0) =~= first);
    for record in it: rs
        invariant
            it.seq() == rs@,
            h == it.index(),
            records(rs@, pushes, list),
            fresh.len() == rs.len(),
            parents.len() == rs.len(),
            fresh@ == given,
            forall|g: int|
                0 <= g < rs.len() ==> #[trigger] parents@[g] == regiven(
                    pushes,
                    given,
                    pushes[g].parent,
                    0,
                ),
            forall|g: int|
                0 <= g < rs.len() && #[trigger] given[g] is Some ==> pushes[g].kept is Some,
            removes_entries(result@),
            change_views(result@) == first + replanted(pushes, list, given, h as int),
            first.len() == changes.len(),
            result.len() == changes.len() + 2 * handed(given, h as int).len(),
    {
        assert(records_push(record, pushes[h as int], list));
        assert(record == rs@[h as int]);
        let ghost before = result@;
        let ghost earlier = replanted(pushes, list, given, h as int);
        assert(given[h as int] is Some ==> record.found is Some);
        if let Some(id) = fresh[h] {
            if let Some(found) = record.found {
                result.push(ItemChange::RemoveDirEntry { entry: found.entry, inode: found.inode });
                result.push(
                    ItemChange::InsertDirEntry {
                        file_id: parents[h],
                        name: found.name,
                        is_dir: record.is_dir,
                        child_id: id,
                        child_inode: record.inode,
                    },
                );
            }
        }
        proof {
            let one = replanted_one(pushes, list, given, h as int);
            assert(parents@[h as int] == regiven(pushes, given, pushes[h as int].parent, 0));
            assert(change_views(result@) =~= change_views(before) + one);
            assert(first + (earlier + one) =~= (first + earlier) + one);
            assert forall|z: int| 0 <= z < result.len() && #[trigger] result[z]@ is Remove implies
                result[z]@->Remove_entry is DirEntry by {
                if z < before.len() {
                    assert(result[z] == before[z]);
                }
            }
        }
        h = h + 1;
    }
    (result, Ghost(given))
}

} // verus!
