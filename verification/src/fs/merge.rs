//! How pushed entries are matched with the walk through the old tree.

use vstd::prelude::*;

use super::item::{Inode, ItemView};
use super::key::{
    key_lt, kind_lt, lemma_kind_lt_irreflexive, lemma_kind_lt_total, lemma_kind_lt_transitive,
    KindView,
};
use super::model::{ancestor, entry_kind, inode_of, parent, placed, sorted, visible, walk_of, Visit};
use super::pushes::{
    beside, fits, in_order, lemma_in_order_prefix, lemma_push_step_down, lemma_up, lemma_up_prefix,
    parent_id, under, up, Pushed,
};
use super::walks::{lemma_ancestor, lemma_parent, lemma_step_down};
use crate::id::{root_id, Unique};

verus! {

/// A change to the items of a tree.
pub enum ChangeView {
    /// A new entry for a new file.
    Insert {
        file_id: Unique,
        name: Seq<u8>,
        is_dir: bool,
        child_id: Unique,
        child_inode: Inode,
    },
    /// The deletion of an entry.
    Remove { entry: ItemView, inode: Inode },
    /// A new entry for a directory that the tree knows.
    Move { file_id: Unique, name: Seq<u8>, is_dir: bool, child_id: Unique },
}

/// Why a change was made.
pub enum Origin {
    /// The entry at this visit of the walk was not pushed.
    Removed(int),
    /// The entry of this push was not found.
    Inserted(int),
}

/// Whether the items speak of the file `id`.
pub open spec fn knows(items: Seq<ItemView>, id: Unique) -> bool {
    exists|p: int|
        0 <= p < items.len() && ((#[trigger] items[p]).file_id() == id || (items[p] is DirEntry
            && items[p].child_id() == id))
}

/// Whether the push was answered with the entry.
pub open spec fn matches_push(entry: ItemView, p: Pushed) -> bool {
    &&& entry.file_id() == p.parent
    &&& entry.child_id() == p.id
    &&& entry.is_dir() == p.is_dir
    &&& entry.name() == p.name
}

/// Whether the entry at the visit `k` is to be deleted.
pub open spec fn dropped(origins: Seq<Origin>, k: int) -> bool {
    exists|x: int| 0 <= x < origins.len() && #[trigger] origins[x] == Origin::Removed(k)
}

/// Whether the entry at the visit `k` was pushed.
pub open spec fn held(ps: Seq<Pushed>, k: int) -> bool {
    exists|i: int| 0 <= i < ps.len() && (#[trigger] ps[i]).kept == Some(k)
}

/// Whether there is a change for the push `i`.
pub open spec fn recorded(origins: Seq<Origin>, i: int) -> bool {
    exists|x: int| 0 <= x < origins.len() && #[trigger] origins[x] == Origin::Inserted(i)
}

/// Whether a change was made for the given reason.
pub open spec fn traced(
    items: Seq<ItemView>,
    w: Seq<Visit>,
    j: int,
    ps: Seq<Pushed>,
    change: ChangeView,
    origin: Origin,
) -> bool {
    match origin {
        Origin::Removed(k) => 0 <= k < j && change == (ChangeView::Remove {
            entry: items[w[k].pos],
            inode: inode_of(items, items[w[k].pos].child_id()),
        }),
        Origin::Inserted(i) => 0 <= i < ps.len() && ps[i].kept is None && change == (
        ChangeView::Insert {
            file_id: ps[i].parent,
            name: ps[i].name,
            is_dir: ps[i].is_dir,
            child_id: ps[i].id,
            child_inode: ps[i].inode,
        }),
    }
}

/// Whether the file `id` was pushed.
pub open spec fn pushed_id(ps: Seq<Pushed>, id: Unique) -> bool {
    exists|i: int| 0 <= i < ps.len() && (#[trigger] ps[i]).id == id
}

/// Whether the push `i` was put in the root directory, or in what was pushed before.
pub open spec fn rooted(ps: Seq<Pushed>, i: int) -> bool {
    ps[i].parent == root_id() || exists|h: int| 0 <= h < i && (#[trigger] ps[h]).id == ps[i].parent
}

/// What holds of the pushes and of the changes made for them, in whatever order they came, once the
/// walk through the old tree was followed up to the visit `j`.
pub open spec fn tracked_to(
    items: Seq<ItemView>,
    w: Seq<Visit>,
    j: int,
    ps: Seq<Pushed>,
    changes: Seq<ChangeView>,
    origins: Seq<Origin>,
) -> bool {
    &&& 0 <= j <= w.len()
    &&& forall|i: int| 0 <= i < ps.len() ==> #[trigger] rooted(ps, i)
    // Every push that found its entry agrees with it.
    &&& forall|i: int|
        0 <= i < ps.len() ==> ((#[trigger] ps[i]).kept matches Some(k) ==> 0 <= k < j
            && matches_push(items[w[k].pos], ps[i]))
    // Every entry up to here was pushed or is to be deleted, and not both.
    &&& forall|k: int| 0 <= k < j ==> #[trigger] dropped(origins, k) != held(ps, k)
    // Every change has its reason, and every reason its change.
    &&& origins.len() == changes.len()
    &&& forall|x: int|
        0 <= x < origins.len() ==> traced(items, w, j, ps, changes[x], #[trigger] origins[x])
    &&& forall|x: int, y: int|
        #![trigger origins[x], origins[y]]
        0 <= x < y < origins.len() ==> origins[x] != origins[y]
    &&& forall|i: int|
        0 <= i < ps.len() && (#[trigger] ps[i]).kept is None ==> recorded(origins, i)
    // No two pushes name the same file, and a push that did not find its entry names a new one.
    &&& forall|a: int, b: int|
        #![trigger ps[a], ps[b]]
        0 <= a < b < ps.len() ==> ps[a].id != ps[b].id
    &&& forall|i: int| 0 <= i < ps.len() ==> (#[trigger] ps[i]).id != root_id()
    &&& forall|i: int|
        0 <= i < ps.len() && (#[trigger] ps[i]).kept is None ==> !knows(items, ps[i].id)
}

/// What holds besides of pushes that came in order.
pub open spec fn reconciled(
    items: Seq<ItemView>,
    w: Seq<Visit>,
    j: int,
    ps: Seq<Pushed>,
    changes: Seq<ChangeView>,
    origins: Seq<Origin>,
) -> bool {
    &&& tracked_to(items, w, j, ps, changes, origins)
    &&& in_order(ps)
    // Every push knows the directory that it lies in.
    &&& forall|i: int| 0 <= i < ps.len() ==> #[trigger] parent_id(ps, i) == ps[i].parent
    // Every push that found its entry found it at its own depth.
    &&& forall|i: int|
        0 <= i < ps.len() ==> ((#[trigger] ps[i]).kept matches Some(k) ==> w[k].depth
            == ps[i].depth)
    // A push that did not find its entry has no entry to be found.
    &&& forall|i: int, k: int|
        #![trigger ps[i], w[k]]
        0 <= i < ps.len() && ps[i].kept is None && 0 <= k < w.len() ==> !(
        items[w[k].pos].file_id() == ps[i].parent && entry_kind(items[w[k].pos]) == ps[i].kind())
}

/// The directory in which entries of depth `d` are being listed.
pub open spec fn dir_at(stack: Seq<Unique>, d: int) -> Unique {
    if d == 1 {
        root_id()
    } else {
        stack[d - 2]
    }
}

/// Whether the directories on the way to the next visit are being listed.
pub open spec fn ahead(
    items: Seq<ItemView>,
    w: Seq<Visit>,
    j: int,
    stack: Seq<Unique>,
) -> bool {
    &&& j < w.len() ==> w[j].depth - 1 <= stack.len()
    &&& j < w.len() ==> forall|e: int|
        0 <= e < w[j].depth - 1 ==> #[trigger] stack[e]
            == items[w[ancestor(w, j, e + 1)].pos].child_id()
}

/// Whether the directories that are being listed were pushed.
pub open spec fn stacked(ps: Seq<Pushed>, stack: Seq<Unique>) -> bool {
    forall|e: int| 0 <= e < stack.len() ==> pushed_id(ps, #[trigger] stack[e])
}

/// What holds besides of the directories that are being listed if the pushes came in order.
pub open spec fn opened(
    items: Seq<ItemView>,
    w: Seq<Visit>,
    j: int,
    ps: Seq<Pushed>,
    stack: Seq<Unique>,
) -> bool {
    // They are those on the way to the last push.
    &&& stack.len() == if ps.len() == 0 {
        0
    } else {
        ps[ps.len() - 1].depth
    }
    &&& forall|e: int|
        0 <= e < stack.len() ==> #[trigger] stack[e] == ps[up(ps, ps.len() - 1, e + 1)].id
    // The directories on the way to the next visit are among them.
    &&& ahead(items, w, j, stack)
    // Entries that were visited in them do not come after the last push there.
    &&& forall|k: int, d: int|
        #![trigger w[k], dir_at(stack, d)]
        0 <= k < j && 1 <= d <= stack.len() && items[w[k].pos].file_id() == dir_at(stack, d)
            ==> !kind_lt(ps[up(ps, ps.len() - 1, d)].kind(), entry_kind(items[w[k].pos]))
    &&& forall|k: int|
        0 <= k < j ==> items[(#[trigger] w[k]).pos].file_id() != dir_at(
            stack,
            stack.len() as int + 1,
        )
}

/// At the start nothing was pushed.
pub proof fn lemma_start(items: Seq<ItemView>, w: Seq<Visit>)
    requires
        walk_of(items, w),
    ensures
        reconciled(items, w, 0, Seq::empty(), Seq::empty(), Seq::empty()),
        opened(items, w, 0, Seq::empty(), Seq::empty()),
        stacked(Seq::empty(), Seq::empty()),
{
    if w.len() > 0 {
        assert(placed(items, w, 0));
        if w[0].depth != 1 {
            let j = choose|j: int| #[trigger] parent(items, w, j, 0);
        }
    }
}

/// The next entry of the walk is passed over.
pub proof fn lemma_track_remove(
    items: Seq<ItemView>,
    w: Seq<Visit>,
    j: int,
    ps: Seq<Pushed>,
    changes: Seq<ChangeView>,
    origins: Seq<Origin>,
    inode: Inode,
)
    requires
        tracked_to(items, w, j, ps, changes, origins),
        j < w.len(),
        inode == inode_of(items, items[w[j].pos].child_id()),
    ensures
        tracked_to(
            items,
            w,
            j + 1,
            ps,
            changes.push(ChangeView::Remove { entry: items[w[j].pos], inode }),
            origins.push(Origin::Removed(j)),
        ),
{
    let change = ChangeView::Remove { entry: items[w[j].pos], inode };
    let (cs, os) = (changes.push(change), origins.push(Origin::Removed(j)));
    assert forall|k: int| 0 <= k < j + 1 implies #[trigger] dropped(os, k) != held(ps, k) by {
        if k == j {
            assert(os[origins.len() as int] == Origin::Removed(j));
            if held(ps, j) {
                let i = choose|i: int| 0 <= i < ps.len() && (#[trigger] ps[i]).kept == Some(j);
            }
        } else {
            assert(dropped(origins, k) != held(ps, k));
            if dropped(origins, k) {
                let x = choose|x: int|
                    0 <= x < origins.len() && #[trigger] origins[x] == Origin::Removed(k);
                assert(os[x] == Origin::Removed(k));
            }
            if dropped(os, k) {
                let x = choose|x: int|
                    0 <= x < os.len() && #[trigger] os[x] == Origin::Removed(k);
                assert(origins[x] == Origin::Removed(k));
            }
        }
    }
    assert forall|x: int| 0 <= x < os.len() implies traced(
        items,
        w,
        j + 1,
        ps,
        cs[x],
        #[trigger] os[x],
    ) by {
        if x < origins.len() {
            assert(os[x] == origins[x] && cs[x] == changes[x]);
            assert(traced(items, w, j, ps, changes[x], origins[x]));
        }
    }
    assert forall|x: int, y: int|
        #![trigger os[x], os[y]]
        0 <= x < y < os.len() implies os[x] != os[y] by {
        assert(os[x] == origins[x]);
        if y < origins.len() {
            assert(os[y] == origins[y]);
        } else {
            assert(traced(items, w, j, ps, changes[x], origins[x]));
        }
    }
    assert forall|i: int| 0 <= i < ps.len() && (#[trigger] ps[i]).kept is None implies recorded(
        os,
        i,
    ) by {
        let x = choose|x: int|
            0 <= x < origins.len() && #[trigger] origins[x] == Origin::Inserted(i);
        assert(os[x] == Origin::Inserted(i));
    }
}

/// The next entry of the walk is passed over, and the pushes came in order.
pub proof fn lemma_remove(
    items: Seq<ItemView>,
    w: Seq<Visit>,
    j: int,
    ps: Seq<Pushed>,
    changes: Seq<ChangeView>,
    origins: Seq<Origin>,
    inode: Inode,
)
    requires
        reconciled(items, w, j, ps, changes, origins),
        j < w.len(),
        inode == inode_of(items, items[w[j].pos].child_id()),
    ensures
        reconciled(
            items,
            w,
            j + 1,
            ps,
            changes.push(ChangeView::Remove { entry: items[w[j].pos], inode }),
            origins.push(Origin::Removed(j)),
        ),
{
    lemma_track_remove(items, w, j, ps, changes, origins, inode);
}

/// The visits over which a walk stays below depth `d` do not change the way up to that depth.
pub proof fn lemma_ancestor_over(w: Seq<Visit>, lo: int, hi: int, d: int)
    requires
        0 <= lo <= hi < w.len(),
        forall|k: int| lo < k <= hi ==> (#[trigger] w[k]).depth > d,
    ensures
        ancestor(w, hi, d) == ancestor(w, lo, d),
    decreases hi - lo,
{
    if lo < hi {
        assert(w[hi].depth > d);
        lemma_ancestor_over(w, lo, hi - 1, d);
    }
}

/// Entries of the directory in which entries of depth `d` are being listed have that depth, and
/// the directory was visited before.
proof fn lemma_listed_depth(
    items: Seq<ItemView>,
    w: Seq<Visit>,
    j: int,
    ps: Seq<Pushed>,
    changes: Seq<ChangeView>,
    origins: Seq<Origin>,
    stack: Seq<Unique>,
    d: int,
    k: int,
)
    requires
        walk_of(items, w),
        reconciled(items, w, j, ps, changes, origins),
        opened(items, w, j, ps, stack),
        1 <= d <= stack.len() + 1,
        0 <= k < w.len(),
        items[w[k].pos].file_id() == dir_at(stack, d),
    ensures
        w[k].depth == d,
        d > 1 ==> ancestor(w, k, d - 1) < j,
{
    assert(w[k].depth >= 1);
    assert(visible(items, w[k].pos));
    assert(placed(items, w, k));
    if w[k].depth > 1 {
        lemma_parent(items, w, k);
        let a = ancestor(w, k, w[k].depth - 1);
        assert(items[w[a].pos].child_id() == items[w[k].pos].file_id());
        if d == 1 {
            assert(items[w[a].pos].child_id() != root_id());
        } else {
            let q = up(ps, ps.len() - 1, d - 1);
            assert(stack[d - 2] == ps[q].id);
            assert(ps.len() > 0);
            lemma_up(ps, ps.len() - 1, d - 1);
            assert(ps[q].depth == d - 1);
            if ps[q].kept is None {
                assert(items[w[k].pos].file_id() == ps[q].id);
                assert(knows(items, ps[q].id));
            } else {
                let b = ps[q].kept->0;
                assert(matches_push(items[w[b].pos], ps[q]));
                assert(items[w[b].pos].child_id() == items[w[a].pos].child_id());
                if a < b {
                    assert(items[w[a].pos].child_id() != items[w[b].pos].child_id());
                } else if b < a {
                    assert(items[w[b].pos].child_id() != items[w[a].pos].child_id());
                }
            }
        }
    } else if d > 1 {
        let q = up(ps, ps.len() - 1, d - 1);
        assert(stack[d - 2] == ps[q].id);
        lemma_up(ps, ps.len() - 1, d - 1);
        assert(ps[q].id != root_id());
    }
}

/// The directories on the way to the visit at which the walk stops are being listed.
proof fn lemma_stop(
    items: Seq<ItemView>,
    w: Seq<Visit>,
    j0: int,
    j1: int,
    stack: Seq<Unique>,
    depth: int,
)
    requires
        walk_of(items, w),
        ahead(items, w, j0, stack),
        0 <= j0 <= j1 < w.len(),
        forall|k: int| j0 <= k < j1 ==> (#[trigger] w[k]).depth >= depth,
        w[j1].depth <= depth,
    ensures
        ahead(items, w, j1, stack),
        w[j1].depth == depth ==> items[w[j1].pos].file_id() == dir_at(stack, depth),
{
    if j0 < j1 {
        assert(w[j0].depth >= depth);
    }
    assert forall|e: int| 0 <= e < w[j1].depth - 1 implies #[trigger] stack[e]
        == items[w[ancestor(w, j1, e + 1)].pos].child_id() by {
        assert(w[j0].depth >= w[j1].depth);
        assert forall|k: int| j0 < k <= j1 implies (#[trigger] w[k]).depth > e + 1 by {}
        lemma_ancestor_over(w, j0, j1, e + 1);
    }
    if w[j1].depth == depth {
        assert(placed(items, w, j1));
        if depth > 1 {
            lemma_parent(items, w, j1);
            assert(stack[depth - 2] == items[w[ancestor(w, j1, depth - 1)].pos].child_id());
        }
    }
}

/// What a push adds to the directories that are being listed.
pub open spec fn push_dir(stack: Seq<Unique>, depth: int, id: Unique) -> Seq<Unique> {
    stack.take(depth - 1).push(id)
}

/// What a push of any depth adds to the directories that are being listed.
pub open spec fn open_after(stack: Seq<Unique>, depth: int, id: Unique) -> Seq<Unique> {
    if depth - 1 <= stack.len() {
        stack.take(depth - 1).push(id)
    } else {
        stack.push(id)
    }
}

/// The directories on the way to the next visit are still being listed after a push.
pub proof fn lemma_ahead_after(
    items: Seq<ItemView>,
    w: Seq<Visit>,
    j0: int,
    j1: int,
    jn: int,
    stack: Seq<Unique>,
    depth: int,
    kind: KindView,
    id: Unique,
)
    requires
        walk_of(items, w),
        ahead(items, w, j0, stack),
        0 <= j0 <= j1 <= w.len(),
        depth >= 1,
        passed(items, w, j0, j1, depth, kind),
        ({
            ||| jn == j1 && missed(items, w, j1, depth, kind)
            ||| jn == j1 + 1 && found(items, w, j1, depth, kind) && id
                == items[w[j1].pos].child_id()
        }),
    ensures
        ahead(items, w, jn, open_after(stack, depth, id)),
        jn == j1 + 1 ==> depth - 1 <= stack.len() && items[w[j1].pos].file_id() == dir_at(
            stack,
            depth,
        ),
{
    let st = open_after(stack, depth, id);
    if j1 < w.len() {
        lemma_stop(items, w, j0, j1, stack, depth);
    }
    if jn < w.len() {
        if jn == j1 + 1 {
            lemma_step_down(items, w, j1);
        }
        assert(w[jn].depth - 1 <= st.len());
        assert forall|e: int| 0 <= e < w[jn].depth - 1 implies #[trigger] st[e]
            == items[w[ancestor(w, jn, e + 1)].pos].child_id() by {
            if jn == j1 {
                assert(st[e] == stack[e]);
            } else {
                assert(ancestor(w, jn, e + 1) == ancestor(w, j1, e + 1));
                if e < depth - 1 {
                    assert(st[e] == stack[e]);
                } else {
                    assert(ancestor(w, j1, depth) == j1);
                }
            }
        }
    }
}

/// The directories that are being listed after a push were pushed.
pub proof fn lemma_stacked_after(ps: Seq<Pushed>, p: Pushed, stack: Seq<Unique>, depth: int)
    requires
        stacked(ps, stack),
        depth >= 1,
    ensures
        stacked(ps.push(p), open_after(stack, depth, p.id)),
{
    let (qs, st) = (ps.push(p), open_after(stack, depth, p.id));
    assert forall|e: int| 0 <= e < st.len() implies pushed_id(qs, #[trigger] st[e]) by {
        if e < st.len() - 1 {
            assert(st[e] == stack[e]);
            assert(pushed_id(ps, stack[e]));
            let i = choose|i: int| 0 <= i < ps.len() && (#[trigger] ps[i]).id == stack[e];
            assert(qs[i].id == st[e]);
        } else {
            assert(qs[ps.len() as int].id == st[e]);
        }
    }
}

/// The way up from a new push.
pub proof fn lemma_up_from_new(ps: Seq<Pushed>, p: Pushed)
    requires
        in_order(ps.push(p)),
    ensures
        ps.len() == 0 ==> p.depth == 1,
        ps.len() > 0 ==> 1 <= p.depth <= ps[ps.len() - 1].depth + 1,
        up(ps.push(p), ps.len() as int, p.depth) == ps.len(),
        forall|d: int|
            1 <= d < p.depth ==> #[trigger] up(ps.push(p), ps.len() as int, d) == up(
                ps,
                ps.len() - 1,
                d,
            ),
        ps.len() > 0 && p.depth <= ps[ps.len() - 1].depth ==> kind_lt(
            ps[up(ps, ps.len() - 1, p.depth)].kind(),
            p.kind(),
        ),
{
    let qs = ps.push(p);
    let n = ps.len() as int;
    assert(qs[n] == p);
    assert(p.depth >= 1);
    lemma_in_order_prefix(ps, p);
    if n == 0 {
        assert(fits(qs, 0));
        if p.depth != 1 {
            let j = choose|j: int| #[trigger] under(qs, j, 0);
        }
    } else {
        assert(qs[n - 1] == ps[n - 1]);
        lemma_push_step_down(qs, n - 1);
        assert forall|d: int| 1 <= d < p.depth implies #[trigger] up(qs, n, d) == up(
            ps,
            n - 1,
            d,
        ) by {
            assert forall|k: int| 0 <= k <= n - 1 implies #[trigger] qs[k] == ps[k] by {}
            lemma_up_prefix(qs, ps, n - 1, d);
        }
        if p.depth <= ps[n - 1].depth {
            let a = up(ps, n - 1, p.depth);
            lemma_up(ps, n - 1, p.depth);
            assert(beside(qs, a, n)) by {
                assert(qs[a] == ps[a]);
                assert forall|k: int| a < k < n implies (#[trigger] qs[k]).depth >= qs[a].depth by {
                    assert(qs[k] == ps[k]);
                }
            }
            assert(qs[a] == ps[a]);
        }
    }
}

/// Whether the visits from `j0` up to `j1` come before an entry of the given depth and kind that is
/// pushed next.
pub open spec fn passed(
    items: Seq<ItemView>,
    w: Seq<Visit>,
    j0: int,
    j1: int,
    depth: int,
    kind: KindView,
) -> bool {
    forall|k: int|
        j0 <= k < j1 ==> (#[trigger] w[k]).depth > depth || (w[k].depth == depth && kind_lt(
            entry_kind(items[w[k].pos]),
            kind,
        ))
}

/// Whether a push that stops the walk at the visit `j` finds no entry there.
pub open spec fn missed(
    items: Seq<ItemView>,
    w: Seq<Visit>,
    j: int,
    depth: int,
    kind: KindView,
) -> bool {
    j < w.len() ==> w[j].depth < depth || (w[j].depth == depth && kind_lt(
        kind,
        entry_kind(items[w[j].pos]),
    ))
}

/// Whether a push that stops the walk at the visit `j` finds its entry there.
pub open spec fn found(
    items: Seq<ItemView>,
    w: Seq<Visit>,
    j: int,
    depth: int,
    kind: KindView,
) -> bool {
    j < w.len() && w[j].depth == depth && entry_kind(items[w[j].pos]) == kind
}

/// Entries that were visited in the directory of a new push do not come after it.
proof fn lemma_not_after(
    items: Seq<ItemView>,
    w: Seq<Visit>,
    j0: int,
    j1: int,
    ps: Seq<Pushed>,
    changes: Seq<ChangeView>,
    origins: Seq<Origin>,
    stack: Seq<Unique>,
    p: Pushed,
    k: int,
)
    requires
        walk_of(items, w),
        reconciled(items, w, j0, ps, changes, origins),
        opened(items, w, j0, ps, stack),
        0 <= j0 <= j1 <= w.len(),
        passed(items, w, j0, j1, p.depth, p.kind()),
        in_order(ps.push(p)),
        0 <= k < j1,
        items[w[k].pos].file_id() == dir_at(stack, p.depth),
    ensures
        kind_lt(entry_kind(items[w[k].pos]), p.kind()),
{
    lemma_up_from_new(ps, p);
    if k < j0 {
        if p.depth <= stack.len() {
            let last = ps[up(ps, ps.len() - 1, p.depth)].kind();
            let kind = entry_kind(items[w[k].pos]);
            assert(!kind_lt(last, kind));
            lemma_kind_lt_total(last, kind);
            if last != kind {
                lemma_kind_lt_transitive(kind, last, p.kind());
            }
        } else {
            assert(p.depth == stack.len() + 1);
        }
    } else {
        lemma_listed_depth(items, w, j0, ps, changes, origins, stack, p.depth, k);
    }
}

/// The directories that are being listed after a push.
proof fn lemma_opened_after(
    items: Seq<ItemView>,
    w: Seq<Visit>,
    j0: int,
    j1: int,
    jn: int,
    ps: Seq<Pushed>,
    changes: Seq<ChangeView>,
    origins: Seq<Origin>,
    stack: Seq<Unique>,
    p: Pushed,
)
    requires
        walk_of(items, w),
        reconciled(items, w, j0, ps, changes, origins),
        opened(items, w, j0, ps, stack),
        0 <= j0 <= j1 <= w.len(),
        passed(items, w, j0, j1, p.depth, p.kind()),
        in_order(ps.push(p)),
        ({
            ||| jn == j1 && missed(items, w, j1, p.depth, p.kind()) && !knows(items, p.id)
            ||| jn == j1 + 1 && found(items, w, j1, p.depth, p.kind()) && p.id
                == items[w[j1].pos].child_id()
        }),
    ensures
        opened(items, w, jn, ps.push(p), push_dir(stack, p.depth, p.id)),
{
    let qs = ps.push(p);
    let n = ps.len() as int;
    let depth = p.depth;
    let st = push_dir(stack, depth, p.id);
    lemma_up_from_new(ps, p);
    assert(qs[n] == p);
    assert(depth <= stack.len() + 1);
    assert(st.len() == depth);
    assert(st[depth - 1] == p.id);
    assert forall|e: int| 0 <= e < st.len() implies #[trigger] st[e] == qs[up(qs, n, e + 1)].id by {
        if e < depth - 1 {
            assert(st[e] == stack[e]);
            lemma_in_order_prefix(ps, p);
            assert(up(qs, n, e + 1) == up(ps, n - 1, e + 1));
            lemma_up(ps, n - 1, e + 1);
            assert(qs[up(ps, n - 1, e + 1)] == ps[up(ps, n - 1, e + 1)]);
        }
    }
    lemma_ahead_after(items, w, j0, j1, jn, stack, depth, p.kind(), p.id);
    assert(st == open_after(stack, depth, p.id));
    assert forall|k: int, d: int|
        #![trigger w[k], dir_at(st, d)]
        0 <= k < jn && 1 <= d <= st.len() && items[w[k].pos].file_id() == dir_at(
            st,
            d,
        ) implies !kind_lt(qs[up(qs, n, d)].kind(), entry_kind(items[w[k].pos])) by {
        assert(dir_at(st, d) == dir_at(stack, d));
        lemma_listed_depth(items, w, j0, ps, changes, origins, stack, d, k);
        if d < depth {
            assert(up(qs, n, d) == up(ps, n - 1, d));
            lemma_in_order_prefix(ps, p);
            lemma_up(ps, n - 1, d);
            assert(qs[up(qs, n, d)] == ps[up(ps, n - 1, d)]);
            assert(k < j0);
        } else if k < j1 {
            lemma_not_after(items, w, j0, j1, ps, changes, origins, stack, p, k);
            let kind = entry_kind(items[w[k].pos]);
            if kind_lt(p.kind(), kind) {
                lemma_kind_lt_transitive(p.kind(), kind, p.kind());
                lemma_kind_lt_irreflexive(p.kind());
            }
        } else {
            lemma_kind_lt_irreflexive(p.kind());
        }
    }
    assert forall|k: int| 0 <= k < jn implies items[(#[trigger] w[k]).pos].file_id() != dir_at(
        st,
        st.len() as int + 1,
    ) by {
        assert(dir_at(st, st.len() as int + 1) == p.id);
        assert(visible(items, w[k].pos));
        if items[w[k].pos].file_id() == p.id {
            if jn == j1 {
                assert(knows(items, p.id));
            } else {
                assert(placed(items, w, k));
                assert(items[w[j1].pos].child_id() != root_id());
                lemma_parent(items, w, k);
                let a = ancestor(w, k, w[k].depth - 1);
                assert(items[w[a].pos].child_id() == items[w[j1].pos].child_id());
                assert(a < k);
                assert(a < j1);
            }
        }
    }
}

/// The parents of the pushes after one more.
proof fn lemma_parents_after(ps: Seq<Pushed>, p: Pushed, stack: Seq<Unique>)
    requires
        in_order(ps.push(p)),
        forall|i: int| 0 <= i < ps.len() ==> #[trigger] parent_id(ps, i) == ps[i].parent,
        stack.len() == if ps.len() == 0 {
            0
        } else {
            ps[ps.len() - 1].depth
        },
        forall|e: int|
            0 <= e < stack.len() ==> #[trigger] stack[e] == ps[up(ps, ps.len() - 1, e + 1)].id,
        p.parent == dir_at(stack, p.depth),
    ensures
        forall|i: int|
            0 <= i < ps.len() + 1 ==> #[trigger] parent_id(ps.push(p), i) == ps.push(p)[i].parent,
{
    let qs = ps.push(p);
    let n = ps.len() as int;
    lemma_up_from_new(ps, p);
    lemma_in_order_prefix(ps, p);
    assert forall|i: int| 0 <= i < n + 1 implies #[trigger] parent_id(qs, i) == qs[i].parent by {
        if i < n {
            assert(parent_id(ps, i) == ps[i].parent);
            assert(qs[i] == ps[i]);
            assert(ps[i].depth >= 1);
            if ps[i].depth > 1 {
                let d = ps[i].depth - 1;
                assert forall|k: int| 0 <= k <= i implies #[trigger] qs[k] == ps[k] by {}
                lemma_up_prefix(qs, ps, i, d);
                lemma_up(ps, i, d);
                assert(qs[up(ps, i, d)] == ps[up(ps, i, d)]);
            }
        } else if p.depth > 1 {
            let d = p.depth - 1;
            assert(up(qs, n, d) == up(ps, n - 1, d));
            lemma_up(ps, n - 1, d);
            assert(stack[d - 1] == ps[up(ps, n - 1, d)].id);
            assert(qs[up(ps, n - 1, d)] == ps[up(ps, n - 1, d)]);
        }
    }
}

/// A push that does not find its entry where the walk stops has none to be found.
proof fn lemma_nothing_to_find(
    items: Seq<ItemView>,
    w: Seq<Visit>,
    j0: int,
    j1: int,
    ps: Seq<Pushed>,
    changes: Seq<ChangeView>,
    origins: Seq<Origin>,
    stack: Seq<Unique>,
    p: Pushed,
    k: int,
)
    requires
        sorted(items),
        walk_of(items, w),
        reconciled(items, w, j0, ps, changes, origins),
        opened(items, w, j0, ps, stack),
        0 <= j0 <= j1 <= w.len(),
        passed(items, w, j0, j1, p.depth, p.kind()),
        missed(items, w, j1, p.depth, p.kind()),
        in_order(ps.push(p)),
        0 <= k < w.len(),
        items[w[k].pos].file_id() == dir_at(stack, p.depth),
    ensures
        entry_kind(items[w[k].pos]) != p.kind(),
{
    lemma_up_from_new(ps, p);
    lemma_kind_lt_irreflexive(p.kind());
    if k < j1 {
        lemma_not_after(items, w, j0, j1, ps, changes, origins, stack, p, k);
    } else {
        lemma_listed_depth(items, w, j0, ps, changes, origins, stack, p.depth, k);
        lemma_stop(items, w, j0, j1, stack, p.depth);
        assert(visible(items, w[j1].pos) && visible(items, w[k].pos));
        if w[j1].depth < p.depth {
            assert(w[j1].depth >= 1);
            lemma_ancestor(items, w, k, p.depth - 1);
            let a = ancestor(w, k, p.depth - 1);
            assert(a < j1);
            assert(w[j1].depth > p.depth - 1);
        } else if k > j1 {
            assert(w[j1].pos < w[k].pos);
            assert(!key_lt(items[w[k].pos].key(), items[w[j1].pos].key()));
        }
    }
}

/// A push after which a new entry is to be inserted.
pub proof fn lemma_track_insert(
    items: Seq<ItemView>,
    w: Seq<Visit>,
    j: int,
    ps: Seq<Pushed>,
    changes: Seq<ChangeView>,
    origins: Seq<Origin>,
    p: Pushed,
)
    requires
        tracked_to(items, w, j, ps, changes, origins),
        p.parent == root_id() || pushed_id(ps, p.parent),
        p.kept is None,
        p.id != root_id(),
        !knows(items, p.id),
        !pushed_id(ps, p.id),
    ensures
        tracked_to(
            items,
            w,
            j,
            ps.push(p),
            changes.push(
                ChangeView::Insert {
                    file_id: p.parent,
                    name: p.name,
                    is_dir: p.is_dir,
                    child_id: p.id,
                    child_inode: p.inode,
                },
            ),
            origins.push(Origin::Inserted(ps.len() as int)),
        ),
{
    let change = ChangeView::Insert {
        file_id: p.parent,
        name: p.name,
        is_dir: p.is_dir,
        child_id: p.id,
        child_inode: p.inode,
    };
    let n = ps.len() as int;
    let (qs, cs, os) = (ps.push(p), changes.push(change), origins.push(Origin::Inserted(n)));
    lemma_rooted_after(ps, p);
    assert forall|k: int| 0 <= k < j implies #[trigger] dropped(os, k) != held(qs, k) by {
        assert(dropped(origins, k) != held(ps, k));
        if dropped(origins, k) {
            let x = choose|x: int|
                0 <= x < origins.len() && #[trigger] origins[x] == Origin::Removed(k);
            assert(os[x] == Origin::Removed(k));
            if held(qs, k) {
                let i = choose|i: int| 0 <= i < qs.len() && (#[trigger] qs[i]).kept == Some(k);
                assert(ps[i] == qs[i]);
            }
        } else {
            let i = choose|i: int| 0 <= i < ps.len() && (#[trigger] ps[i]).kept == Some(k);
            assert(qs[i] == ps[i]);
            if dropped(os, k) {
                let x = choose|x: int|
                    0 <= x < os.len() && #[trigger] os[x] == Origin::Removed(k);
                assert(origins[x] == os[x]);
            }
        }
    }
    assert forall|x: int| 0 <= x < os.len() implies traced(
        items,
        w,
        j,
        qs,
        cs[x],
        #[trigger] os[x],
    ) by {
        if x < origins.len() {
            assert(os[x] == origins[x] && cs[x] == changes[x]);
            assert(traced(items, w, j, ps, changes[x], origins[x]));
            if let Origin::Inserted(i) = origins[x] {
                assert(qs[i] == ps[i]);
            }
        }
    }
    assert forall|x: int, y: int|
        #![trigger os[x], os[y]]
        0 <= x < y < os.len() implies os[x] != os[y] by {
        assert(os[x] == origins[x]);
        if y < origins.len() {
            assert(os[y] == origins[y]);
        } else {
            assert(traced(items, w, j, ps, changes[x], origins[x]));
        }
    }
    assert forall|i: int| 0 <= i < qs.len() && (#[trigger] qs[i]).kept is None implies recorded(
        os,
        i,
    ) by {
        if i < n {
            assert(ps[i] == qs[i]);
            let x = choose|x: int|
                0 <= x < origins.len() && #[trigger] origins[x] == Origin::Inserted(i);
            assert(os[x] == Origin::Inserted(i));
        } else {
            assert(os[origins.len() as int] == Origin::Inserted(n));
        }
    }
    assert forall|a: int, b: int|
        #![trigger qs[a], qs[b]]
        0 <= a < b < qs.len() implies qs[a].id != qs[b].id by {
        assert(qs[a] == ps[a]);
        if b < n {
            assert(qs[b] == ps[b]);
        }
    }
}

/// Every push is put in the root directory, or in what was pushed before.
proof fn lemma_rooted_after(ps: Seq<Pushed>, p: Pushed)
    requires
        forall|i: int| 0 <= i < ps.len() ==> #[trigger] rooted(ps, i),
        p.parent == root_id() || pushed_id(ps, p.parent),
    ensures
        forall|i: int| 0 <= i < ps.len() + 1 ==> #[trigger] rooted(ps.push(p), i),
{
    let qs = ps.push(p);
    assert forall|i: int| 0 <= i < ps.len() + 1 implies #[trigger] rooted(qs, i) by {
        if i < ps.len() {
            assert(rooted(ps, i));
            assert(qs[i] == ps[i]);
            if ps[i].parent != root_id() {
                let h = choose|h: int| 0 <= h < i && (#[trigger] ps[h]).id == ps[i].parent;
                assert(qs[h].id == qs[i].parent);
            }
        } else if p.parent != root_id() {
            let h = choose|h: int| 0 <= h < ps.len() && (#[trigger] ps[h]).id == p.parent;
            assert(qs[h].id == qs[i].parent);
        }
    }
}

/// A push that finds its entry at the visit `j`.
pub proof fn lemma_track_keep(
    items: Seq<ItemView>,
    w: Seq<Visit>,
    j: int,
    ps: Seq<Pushed>,
    changes: Seq<ChangeView>,
    origins: Seq<Origin>,
    p: Pushed,
)
    requires
        walk_of(items, w),
        tracked_to(items, w, j, ps, changes, origins),
        j < w.len(),
        p.parent == root_id() || pushed_id(ps, p.parent),
        p.kept == Some(j),
        matches_push(items[w[j].pos], p),
    ensures
        tracked_to(items, w, j + 1, ps.push(p), changes, origins),
{
    let n = ps.len() as int;
    let qs = ps.push(p);
    assert(qs[n] == p);
    lemma_rooted_after(ps, p);
    assert(visible(items, w[j].pos));
    assert forall|i: int| 0 <= i < qs.len() implies ((#[trigger] qs[i]).kept matches Some(k) ==> 0
        <= k < j + 1 && matches_push(items[w[k].pos], qs[i])) by {
        if i < n {
            assert(qs[i] == ps[i]);
        }
    }
    assert forall|k: int| 0 <= k < j + 1 implies #[trigger] dropped(origins, k) != held(
        qs,
        k,
    ) by {
        if k == j {
            assert(qs[n].kept == Some(k));
            if dropped(origins, k) {
                let x = choose|x: int|
                    0 <= x < origins.len() && #[trigger] origins[x] == Origin::Removed(k);
                assert(traced(items, w, j, ps, changes[x], origins[x]));
            }
        } else {
            assert(dropped(origins, k) != held(ps, k));
            if held(ps, k) {
                let i = choose|i: int| 0 <= i < ps.len() && (#[trigger] ps[i]).kept == Some(k);
                assert(qs[i] == ps[i]);
            }
            if held(qs, k) {
                let i = choose|i: int| 0 <= i < qs.len() && (#[trigger] qs[i]).kept == Some(k);
                assert(qs[i] == ps[i]);
            }
        }
    }
    assert forall|x: int| 0 <= x < origins.len() implies traced(
        items,
        w,
        j + 1,
        qs,
        changes[x],
        #[trigger] origins[x],
    ) by {
        assert(traced(items, w, j, ps, changes[x], origins[x]));
        if let Origin::Inserted(i) = origins[x] {
            assert(qs[i] == ps[i]);
        }
    }
    assert forall|i: int| 0 <= i < qs.len() && (#[trigger] qs[i]).kept is None implies recorded(
        origins,
        i,
    ) by {
        assert(ps[i] == qs[i]);
    }
    assert forall|a: int, b: int|
        #![trigger qs[a], qs[b]]
        0 <= a < b < qs.len() implies qs[a].id != qs[b].id by {
        assert(qs[a] == ps[a]);
        if b < n {
            assert(qs[b] == ps[b]);
        } else if ps[a].kept is None {
            assert(knows(items, p.id));
        } else {
            let k = ps[a].kept->0;
            assert(matches_push(items[w[k].pos], ps[a]));
            assert(items[w[k].pos].child_id() != items[w[j].pos].child_id());
        }
    }
    assert forall|i: int| 0 <= i < qs.len() implies (#[trigger] qs[i]).id != root_id() by {
        if i < n {
            assert(qs[i] == ps[i]);
        } else {
            assert(items[w[j].pos].child_id() != root_id());
        }
    }
    assert forall|i: int|
        0 <= i < qs.len() && (#[trigger] qs[i]).kept is None implies !knows(items, qs[i].id) by {
        assert(qs[i] == ps[i]);
    }
}

/// A push after which a new entry is to be inserted, and the pushes came in order.
pub proof fn lemma_insert(
    items: Seq<ItemView>,
    w: Seq<Visit>,
    j0: int,
    j1: int,
    ps: Seq<Pushed>,
    old_changes: Seq<ChangeView>,
    old_origins: Seq<Origin>,
    changes: Seq<ChangeView>,
    origins: Seq<Origin>,
    stack: Seq<Unique>,
    p: Pushed,
)
    requires
        sorted(items),
        walk_of(items, w),
        reconciled(items, w, j0, ps, old_changes, old_origins),
        opened(items, w, j0, ps, stack),
        reconciled(items, w, j1, ps, changes, origins),
        0 <= j0 <= j1 <= w.len(),
        passed(items, w, j0, j1, p.depth, p.kind()),
        missed(items, w, j1, p.depth, p.kind()),
        in_order(ps.push(p)),
        p.parent == dir_at(stack, p.depth),
        p.parent == root_id() || pushed_id(ps, p.parent),
        p.kept is None,
        p.id != root_id(),
        !knows(items, p.id),
        !pushed_id(ps, p.id),
    ensures
        reconciled(
            items,
            w,
            j1,
            ps.push(p),
            changes.push(
                ChangeView::Insert {
                    file_id: p.parent,
                    name: p.name,
                    is_dir: p.is_dir,
                    child_id: p.id,
                    child_inode: p.inode,
                },
            ),
            origins.push(Origin::Inserted(ps.len() as int)),
        ),
        opened(items, w, j1, ps.push(p), push_dir(stack, p.depth, p.id)),
{
    let n = ps.len() as int;
    let qs = ps.push(p);
    lemma_track_insert(items, w, j1, ps, changes, origins, p);
    lemma_opened_after(items, w, j0, j1, j1, ps, old_changes, old_origins, stack, p);
    lemma_parents_after(ps, p, stack);
    assert forall|i: int| 0 <= i < qs.len() implies ((#[trigger] qs[i]).kept matches Some(k)
        ==> w[k].depth == qs[i].depth) by {
        if i < n {
            assert(qs[i] == ps[i]);
        }
    }
    assert forall|i: int, k: int|
        #![trigger qs[i], w[k]]
        0 <= i < qs.len() && qs[i].kept is None && 0 <= k < w.len() implies !(
    items[w[k].pos].file_id() == qs[i].parent && entry_kind(items[w[k].pos]) == qs[i].kind()) by {
        if i < n {
            assert(qs[i] == ps[i]);
        } else if items[w[k].pos].file_id() == p.parent {
            lemma_nothing_to_find(
                items,
                w,
                j0,
                j1,
                ps,
                old_changes,
                old_origins,
                stack,
                p,
                k,
            );
        }
    }
}

/// A push that finds its entry, and the pushes came in order.
pub proof fn lemma_keep(
    items: Seq<ItemView>,
    w: Seq<Visit>,
    j0: int,
    j1: int,
    ps: Seq<Pushed>,
    old_changes: Seq<ChangeView>,
    old_origins: Seq<Origin>,
    changes: Seq<ChangeView>,
    origins: Seq<Origin>,
    stack: Seq<Unique>,
    p: Pushed,
)
    requires
        sorted(items),
        walk_of(items, w),
        reconciled(items, w, j0, ps, old_changes, old_origins),
        opened(items, w, j0, ps, stack),
        reconciled(items, w, j1, ps, changes, origins),
        0 <= j0 <= j1 <= w.len(),
        passed(items, w, j0, j1, p.depth, p.kind()),
        found(items, w, j1, p.depth, p.kind()),
        in_order(ps.push(p)),
        p.parent == dir_at(stack, p.depth),
        p.parent == root_id() || pushed_id(ps, p.parent),
        p.kept == Some(j1),
        matches_push(items[w[j1].pos], p),
    ensures
        reconciled(items, w, j1 + 1, ps.push(p), changes, origins),
        opened(items, w, j1 + 1, ps.push(p), push_dir(stack, p.depth, p.id)),
{
    let n = ps.len() as int;
    let qs = ps.push(p);
    assert(qs[n] == p);
    lemma_track_keep(items, w, j1, ps, changes, origins, p);
    lemma_opened_after(items, w, j0, j1, j1 + 1, ps, old_changes, old_origins, stack, p);
    lemma_parents_after(ps, p, stack);
    assert forall|i: int| 0 <= i < qs.len() implies ((#[trigger] qs[i]).kept matches Some(k)
        ==> w[k].depth == qs[i].depth) by {
        if i < n {
            assert(qs[i] == ps[i]);
        }
    }
    assert forall|i: int, k: int|
        #![trigger qs[i], w[k]]
        0 <= i < qs.len() && qs[i].kept is None && 0 <= k < w.len() implies !(
    items[w[k].pos].file_id() == qs[i].parent && entry_kind(items[w[k].pos]) == qs[i].kind()) by {
        assert(qs[i] == ps[i]);
    }
}

} // verus!
