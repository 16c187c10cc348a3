//! How a cursor's steps follow the walk through the items.

use vstd::prelude::*;

use super::item::ItemView;
use super::key::key_lt;
use super::model::{
    advance, ancestor, heads, is_entry, layout, leads, lemma_child_metadata, lemma_first_entry,
    lemma_next_in_run, listed, listing, metadata_pos, next_entry, opens, parent, placed, reaches,
    stack_at, tour, trail, visible, visits, walk, walk_of, well_formed, Visit,
};
use crate::id::root_id;

verus! {

/// A walk goes down by at most one directory at a time.
pub proof fn lemma_step_down(items: Seq<ItemView>, w: Seq<Visit>, i: int)
    requires
        tour(items, w),
        0 <= i,
        i + 1 < w.len(),
    ensures
        w[i + 1].depth <= w[i].depth + 1,
{
    assert(placed(items, w, i + 1));
    assert(w[i].depth >= 1);
    if w[i + 1].depth != 1 {
        let j = choose|j: int| #[trigger] parent(items, w, j, i + 1);
        if j < i {
            assert(w[i].depth >= w[i + 1].depth);
        }
    }
}

/// Every directory on the way to a visit was visited, and not left since.
pub proof fn lemma_ancestor(items: Seq<ItemView>, w: Seq<Visit>, i: int, d: int)
    requires
        tour(items, w),
        0 <= i < w.len(),
        1 <= d <= w[i].depth,
    ensures
        0 <= ancestor(w, i, d) <= i,
        w[ancestor(w, i, d)].depth == d,
        forall|k: int| ancestor(w, i, d) < k <= i ==> (#[trigger] w[k]).depth > d,
    decreases i,
{
    if i > 0 && w[i].depth > d {
        lemma_step_down(items, w, i - 1);
        lemma_ancestor(items, w, i - 1, d);
    } else if i == 0 {
        assert(placed(items, w, 0));
        if w[0].depth != 1 {
            let j = choose|j: int| #[trigger] parent(items, w, j, 0);
        }
    }
}

/// The directory that a visit lies in is the ancestor one step above it.
pub proof fn lemma_parent(items: Seq<ItemView>, w: Seq<Visit>, i: int)
    requires
        tour(items, w),
        0 <= i < w.len(),
        w[i].depth > 1,
    ensures
        parent(items, w, ancestor(w, i, w[i].depth - 1), i),
{
    assert(placed(items, w, i));
    let j = choose|j: int| #[trigger] parent(items, w, j, i);
    let d = w[i].depth - 1;
    lemma_ancestor(items, w, i, d);
    let a = ancestor(w, i, d);
    if j < a {
        assert(w[a].depth >= w[i].depth);
    } else if a < j {
        assert(w[j].depth > d);
    }
}

/// Visits in the same directory are at the same depth, and below the same visit.
pub proof fn lemma_siblings(items: Seq<ItemView>, w: Seq<Visit>, i: int, j: int)
    requires
        tour(items, w),
        0 <= i < w.len(),
        0 <= j < w.len(),
        items[w[i].pos].file_id() == items[w[j].pos].file_id(),
    ensures
        w[i].depth == w[j].depth,
        w[i].depth > 1 ==> ancestor(w, i, w[i].depth - 1) == ancestor(w, j, w[i].depth - 1),
{
    assert(placed(items, w, i) && placed(items, w, j));
    if w[i].depth > 1 {
        lemma_parent(items, w, i);
    }
    if w[j].depth > 1 {
        lemma_parent(items, w, j);
    }
    if w[i].depth > 1 && w[j].depth > 1 {
        let (a, b) = (ancestor(w, i, w[i].depth - 1), ancestor(w, j, w[j].depth - 1));
        if a != b {
            assert(items[w[a].pos].child_id() == items[w[b].pos].child_id());
            if a < b {
                assert(w[a].depth + 1 == w[i].depth);
            }
        }
    } else if w[i].depth > 1 {
        let a = ancestor(w, i, w[i].depth - 1);
        assert(items[w[a].pos].child_id() != root_id());
    } else if w[j].depth > 1 {
        let b = ancestor(w, j, w[j].depth - 1);
        assert(items[w[b].pos].child_id() != root_id());
    }
}

/// The entry with which a walk goes down into the directory at the visit `i`.
proof fn lemma_goes_down(items: Seq<ItemView>, w: Seq<Visit>, i: int, q: int)
    requires
        walk_of(items, w),
        0 <= i < w.len(),
        items[w[i].pos].is_dir(),
        visible(items, q),
        items[q].file_id() == items[w[i].pos].child_id(),
        forall|x: int| #[trigger]
            visible(items, x) && items[x].file_id() == items[q].file_id() ==> q <= x,
    ensures
        i + 1 < w.len(),
        w[i + 1].pos == q,
        w[i + 1].depth == w[i].depth + 1,
{
    assert(reaches(items, w, items[q].file_id())) by {
        assert(items[w[i].pos].child_id() == items[q].file_id());
    }
    assert(visits(w, q));
    let m = choose|m: int| 0 <= m < w.len() && (#[trigger] w[m]).pos == q;
    assert(placed(items, w, m));
    assert(w[i].depth >= 1);
    assert(items[w[i].pos].child_id() != root_id());
    assert(w[m].depth > 1);
    lemma_parent(items, w, m);
    let a = ancestor(w, m, w[m].depth - 1);
    if a < i {
        assert(items[w[a].pos].child_id() != items[w[i].pos].child_id());
    } else if i < a {
        assert(items[w[i].pos].child_id() != items[w[a].pos].child_id());
    }
    assert(a == i);
    if m > i + 1 {
        assert(w[i + 1].depth >= w[m].depth);
        lemma_step_down(items, w, i);
        lemma_parent(items, w, i + 1);
        let b = ancestor(w, i + 1, w[i].depth);
        lemma_ancestor(items, w, i + 1, w[i].depth);
        if b < i {
            assert(w[i].depth > w[i].depth);
        }
        assert(b == i);
        assert(visible(items, w[i + 1].pos));
        assert(w[i + 1].pos < w[m].pos);
    }
}

/// The entry with which a walk goes on at depth `d` after the visit `i`.
proof fn lemma_goes_on(items: Seq<ItemView>, w: Seq<Visit>, i: int, d: int, q: int)
    requires
        walk_of(items, w),
        0 <= i < w.len(),
        1 <= d <= w[i].depth,
        i + 1 < w.len() ==> w[i + 1].depth <= d,
        visible(items, q),
        w[ancestor(w, i, d)].pos < q,
        items[q].file_id() == items[w[ancestor(w, i, d)].pos].file_id(),
        forall|x: int| #[trigger]
            visible(items, x) && items[x].file_id() == items[q].file_id()
                && w[ancestor(w, i, d)].pos < x ==> q <= x,
    ensures
        i + 1 < w.len(),
        w[i + 1].pos == q,
        w[i + 1].depth == d,
{
    lemma_ancestor(items, w, i, d);
    let a = ancestor(w, i, d);
    assert(placed(items, w, a));
    assert(reaches(items, w, items[q].file_id())) by {
        if d > 1 {
            lemma_parent(items, w, a);
            let b = ancestor(w, a, d - 1);
            assert(items[w[b].pos].child_id() == items[q].file_id());
        }
    }
    assert(visits(w, q));
    let m = choose|m: int| 0 <= m < w.len() && (#[trigger] w[m]).pos == q;
    lemma_siblings(items, w, a, m);
    assert(w[m].depth == d);
    if m < a {
        assert(w[m].pos < w[a].pos);
    }
    assert(m > a);
    if m <= i {
        assert(w[m].depth > d);
    }
    assert(m > i);
    if m > i + 1 {
        // The visit after `i` lies in the same directory, before `q`.
        if d > 1 {
            lemma_parent(items, w, m);
            let b = ancestor(w, m, d - 1);
            lemma_parent(items, w, a);
            assert(b == ancestor(w, a, d - 1));
            assert(w[i + 1].depth >= w[m].depth);
            lemma_parent(items, w, i + 1);
            lemma_ancestor(items, w, i + 1, d - 1);
            let c = ancestor(w, i + 1, d - 1);
            if b < c {
                assert(w[c].depth >= w[m].depth);
            } else if c < b {
                assert(w[b].depth > d - 1);
            }
            assert(b == c);
        } else {
            assert(w[i + 1].depth >= 1);
            assert(placed(items, w, i + 1));
            assert(placed(items, w, m));
        }
        assert(items[w[i + 1].pos].file_id() == items[q].file_id());
        assert(visible(items, w[i + 1].pos));
        assert(w[a].pos < w[i + 1].pos);
        assert(w[i + 1].pos < w[m].pos);
    }
}

/// The way up to depth `d` is the same for a visit and for the one before it.
pub proof fn lemma_trail_unchanged(w: Seq<Visit>, i: int, n: int)
    requires
        0 <= i,
        i + 1 < w.len(),
        0 <= n < w[i + 1].depth,
    ensures
        trail(w, i + 1, n) == trail(w, i, n),
{
    assert(trail(w, i + 1, n) =~= trail(w, i, n));
}

/// A cursor that has gone up to depth `d` after the visit `i` steps to the next visit.
pub proof fn lemma_advance_up(items: Seq<ItemView>, w: Seq<Visit>, i: int, d: int)
    requires
        layout(items),
        walk_of(items, w),
        0 <= i < w.len(),
        0 <= d <= w[i].depth,
        i + 1 < w.len() ==> w[i + 1].depth <= d,
    ensures
        advance(items, trail(w, i, d)) == if i + 1 < w.len() {
            stack_at(items, w, i + 1)
        } else {
            Seq::empty()
        },
    decreases d,
{
    let stack = trail(w, i, d);
    if d == 0 {
        if i + 1 < w.len() {
            assert(w[i + 1].depth >= 1);
        }
        assert(stack =~= Seq::empty());
    } else {
        lemma_ancestor(items, w, i, d);
        let a = ancestor(w, i, d);
        let p = w[a].pos;
        let id = items[p].file_id();
        assert(visible(items, p));
        assert(stack.last() == p);
        assert(stack.drop_last() =~= trail(w, i, d - 1));
        assert(heads(items, p, id));
        lemma_next_in_run(items, p, id);
        let q = next_entry(items, p + 1);
        if is_entry(items, q) {
            assert(visible(items, q));
            assert forall|x: int| #[trigger]
                visible(items, x) && items[x].file_id() == items[q].file_id() && p < x implies q
                <= x by {
                assert(is_entry(items, x));
            }
            lemma_goes_on(items, w, i, d, q);
            lemma_trail_unchanged(w, i, d - 1);
            assert(trail(w, i + 1, d) =~= trail(w, i, d - 1).push(q)) by {
                assert(ancestor(w, i + 1, d) == i + 1);
                let (new, old) = (trail(w, i + 1, d), trail(w, i, d - 1));
                assert forall|k: int| 0 <= k < d - 1 implies #[trigger] new[k] == old[k] by {
                    assert(trail(w, i + 1, d - 1)[k] == old[k]);
                }
            }
        } else {
            if i + 1 < w.len() && w[i + 1].depth == d {
                // The next visit would be to a later entry of the same directory.
                assert(placed(items, w, a) && placed(items, w, i + 1));
                if d > 1 {
                    lemma_parent(items, w, a);
                    lemma_parent(items, w, i + 1);
                    let (b, c) = (ancestor(w, a, d - 1), ancestor(w, i + 1, d - 1));
                    lemma_ancestor(items, w, i + 1, d - 1);
                    lemma_ancestor(items, w, a, d - 1);
                    if c > a {
                        assert(w[c].depth > d);
                    }
                    if b < c {
                        assert(w[c].depth > d - 1);
                    } else if c < b {
                        assert(w[b].depth > d - 1);
                    }
                    assert(b == c);
                }
                assert(items[w[i + 1].pos].file_id() == id);
                assert(p < w[i + 1].pos);
                assert(visible(items, w[i + 1].pos));
                assert(is_entry(items, w[i + 1].pos));
            }
            lemma_advance_up(items, w, i, d - 1);
        }
    }
}

/// One step of a cursor leads from the visit `i` to the visit after it, or to the end.
pub proof fn lemma_advance(items: Seq<ItemView>, w: Seq<Visit>, i: int)
    requires
        layout(items),
        walk_of(items, w),
        0 <= i < w.len(),
    ensures
        advance(items, stack_at(items, w, i)) == if i + 1 < w.len() {
            stack_at(items, w, i + 1)
        } else {
            Seq::empty()
        },
{
    let stack = stack_at(items, w, i);
    let p = w[i].pos;
    assert(visible(items, p));
    let id = items[p].child_id();
    lemma_child_metadata(items, p);
    let m = metadata_pos(items, id);
    assert(w[i].depth >= 1);
    assert(stack.last() == m);
    assert(stack.drop_last() =~= trail(w, i, w[i].depth));
    assert(heads(items, m, id));
    lemma_next_in_run(items, m, id);
    let q = next_entry(items, m + 1);
    assert(id != root_id());
    // Entries of the directory lie behind its metadata.
    assert forall|x: int| #[trigger]
        visible(items, x) && items[x].file_id() == id implies m < x && !items[x].is_deleted() by {
        assert(items[m] is Metadata);
        if x < m {
            assert(leads(items, m));
            assert(key_lt(items[x].key(), items[m].key()));
        }
    }
    if opens(items[m]) && is_entry(items, q) {
        assert(visible(items, q));
        assert forall|x: int| #[trigger]
            visible(items, x) && items[x].file_id() == items[q].file_id() implies q <= x by {
            assert(is_entry(items, x));
        }
        lemma_goes_down(items, w, i, q);
        lemma_trail_unchanged(w, i, w[i].depth);
        assert(trail(w, i + 1, w[i + 1].depth) =~= trail(w, i, w[i].depth).push(q)) by {
            assert(ancestor(w, i + 1, w[i + 1].depth) == i + 1);
            let (new, old) = (trail(w, i + 1, w[i + 1].depth), trail(w, i, w[i].depth));
            assert forall|k: int| 0 <= k < w[i].depth implies #[trigger] new[k] == old[k] by {
                assert(trail(w, i + 1, w[i].depth)[k] == old[k]);
            }
        }
        assert(advance(items, stack) == stack.drop_last().push(q).push(
            metadata_pos(items, items[q].child_id()),
        ));
    } else {
        if i + 1 < w.len() {
            lemma_step_down(items, w, i);
            if w[i + 1].depth == w[i].depth + 1 {
                lemma_parent(items, w, i + 1);
                assert(ancestor(w, i + 1, w[i].depth) == i);
                assert(visible(items, w[i + 1].pos));
                assert(is_entry(items, w[i + 1].pos));
            }
        }
        lemma_advance_up(items, w, i, w[i].depth);
    }
}

/// A walk starts at the first entry that is not deleted.
pub proof fn lemma_walk_start(items: Seq<ItemView>, w: Seq<Visit>)
    requires
        layout(items),
        walk_of(items, w),
    ensures
        !is_entry(items, next_entry(items, 0)) ==> w.len() == 0,
        is_entry(items, next_entry(items, 0)) ==> w.len() > 0 && w[0] == (Visit {
            pos: next_entry(items, 0),
            depth: 1,
        }),
{
    lemma_first_entry(items);
    let q = next_entry(items, 0);
    if w.len() > 0 {
        assert(placed(items, w, 0));
        if w[0].depth != 1 {
            let j = choose|j: int| #[trigger] parent(items, w, j, 0);
        }
        assert(visible(items, w[0].pos));
    }
    if is_entry(items, q) {
        assert(visible(items, q) && reaches(items, w, items[q].file_id()));
        assert(visits(w, q));
        let m = choose|m: int| 0 <= m < w.len() && (#[trigger] w[m]).pos == q;
        if m > 0 {
            assert(w[0].pos < w[m].pos);
        }
    }
}

/// Two walks through the same items agree.
proof fn lemma_walks_agree(items: Seq<ItemView>, w: Seq<Visit>, v: Seq<Visit>, n: int)
    requires
        layout(items),
        walk_of(items, w),
        walk_of(items, v),
        0 <= n <= w.len(),
    ensures
        n <= v.len(),
        forall|k: int| 0 <= k < n ==> #[trigger] w[k] == v[k],
    decreases n,
{
    lemma_walk_start(items, w);
    lemma_walk_start(items, v);
    if n > 1 {
        let i = n - 2;
        lemma_walks_agree(items, w, v, n - 1);
        lemma_advance(items, w, i);
        lemma_advance(items, v, i);
        assert(w[i] == v[i]);
        assert(stack_at(items, w, i) =~= stack_at(items, v, i)) by {
            let (tw, tv) = (trail(w, i, w[i].depth), trail(v, i, w[i].depth));
            assert forall|k: int| 0 <= k < w[i].depth implies #[trigger] tw[k] == tv[k] by {
                lemma_ancestors_agree(w, v, i, k + 1);
                lemma_ancestor(items, w, i, k + 1);
            }
        }
        assert(stack_at(items, w, i + 1).len() > 0);
        assert(i + 1 < v.len());
        let (s, t) = (stack_at(items, w, i + 1), stack_at(items, v, i + 1));
        assert(s == t);
        assert(w[i + 1].depth >= 1 && v[i + 1].depth >= 1);
        assert(w[i + 1].depth == v[i + 1].depth);
        let d = w[i + 1].depth;
        assert(s[d - 1] == trail(w, i + 1, d)[d - 1]);
        assert(t[d - 1] == trail(v, i + 1, d)[d - 1]);
        assert(ancestor(w, i + 1, d) == i + 1);
        assert(ancestor(v, i + 1, d) == i + 1);
    }
}

/// The way up depends only on what was visited before.
proof fn lemma_ancestors_agree(w: Seq<Visit>, v: Seq<Visit>, i: int, d: int)
    requires
        0 <= i < w.len(),
        i < v.len(),
        forall|k: int| 0 <= k <= i ==> #[trigger] w[k] == v[k],
    ensures
        ancestor(w, i, d) == ancestor(v, i, d),
    decreases i,
{
    assert(w[i] == v[i]);
    if i > 0 {
        lemma_ancestors_agree(w, v, i - 1, d);
    }
}

/// The items determine the walk through them.
pub proof fn lemma_walk_unique(items: Seq<ItemView>, w: Seq<Visit>)
    requires
        layout(items),
        walk_of(items, w),
    ensures
        well_formed(items),
        walk(items) == w,
{
    let v = walk(items);
    assert(walk_of(items, v));
    lemma_walks_agree(items, w, v, w.len() as int);
    lemma_walks_agree(items, v, w, v.len() as int);
    assert(v =~= w);
}

/// What [`listing`] says at the position `i`.
pub proof fn lemma_listing(items: Seq<ItemView>, i: int)
    requires
        well_formed(items),
        0 <= i < walk(items).len(),
    ensures
        walk_of(items, walk(items)),
        listing(items).len() == walk(items).len(),
        listing(items)[i] == listed(items, walk(items), i),
{
}

} // verus!
