//! What a builder is told: the entries of a directory tree, listed depth first.

use vstd::prelude::*;

use super::item::{Inode, ItemView};
use super::key::{kind_lt, lemma_kind_lt_irreflexive, KindView};
use super::model::visible;
use crate::id::{root_id, Unique};

verus! {

/// An entry that was pushed to a builder.
pub struct Pushed {
    pub depth: int,
    pub name: Seq<u8>,
    pub is_dir: bool,
    pub inode: Inode,
    /// The directory that the entry was put in.
    pub parent: Unique,
    /// The file that the entry names. A directory that was moved, or that took the place of
    /// another, has another identifier in the new tree.
    pub id: Unique,
    /// Which visit of the walk through the old tree the entry was found at, if it was.
    pub kept: Option<int>,
}

impl Pushed {
    /// How the entry sorts among the entries of its directory.
    pub open spec fn kind(self) -> KindView {
        KindView::DirEntry { is_dir: self.is_dir, name: self.name }
    }
}

/// Whether the entry at `j` is the directory that the entry at `i` lies in.
pub open spec fn under(ps: Seq<Pushed>, j: int, i: int) -> bool {
    &&& 0 <= j < i
    &&& ps[j].depth + 1 == ps[i].depth
    &&& ps[j].is_dir
    &&& forall|k: int| j < k < i ==> (#[trigger] ps[k]).depth >= ps[i].depth
}

/// Whether the entry at `i` lies in the root directory, or in a directory listed before it and
/// not left since.
pub open spec fn fits(ps: Seq<Pushed>, i: int) -> bool {
    ps[i].depth == 1 || exists|j: int| #[trigger] under(ps, j, i)
}

/// Whether the entries at `i` and `j` lie in the same directory, the one at `i` first.
pub open spec fn beside(ps: Seq<Pushed>, i: int, j: int) -> bool {
    &&& 0 <= i < j
    &&& ps[i].depth == ps[j].depth
    &&& forall|k: int| i < k < j ==> (#[trigger] ps[k]).depth >= ps[i].depth
}

/// Whether the entries are listed as a walk through a directory tree lists them: depth first, and
/// in each directory first the directories, then the files, each in the order of their names.
pub open spec fn in_order(ps: Seq<Pushed>) -> bool {
    &&& forall|i: int| 0 <= i < ps.len() ==> (#[trigger] ps[i]).depth >= 1
    &&& forall|i: int| 0 <= i < ps.len() ==> #[trigger] fits(ps, i)
    &&& forall|i: int, j: int| #[trigger]
        beside(ps, i, j) && j < ps.len() ==> kind_lt(ps[i].kind(), ps[j].kind())
}

/// The last entry up to `i` that is at depth `d` or above.
pub open spec fn up(ps: Seq<Pushed>, i: int, d: int) -> int
    decreases i,
{
    if i <= 0 || ps[i].depth <= d {
        i
    } else {
        up(ps, i - 1, d)
    }
}

/// The identifier of the directory that the entry at `i` lies in.
pub open spec fn parent_id(ps: Seq<Pushed>, i: int) -> Unique {
    if ps[i].depth == 1 {
        root_id()
    } else {
        ps[up(ps, i, ps[i].depth - 1)].id
    }
}

/// The names on the way to the entry at `i`, its own name last.
pub open spec fn pushed_path(ps: Seq<Pushed>, i: int) -> Seq<Seq<u8>> {
    Seq::new(ps[i].depth as nat, |k: int| ps[up(ps, i, k + 1)].name)
}

/// A listing goes down by at most one directory at a time.
pub proof fn lemma_push_step_down(ps: Seq<Pushed>, i: int)
    requires
        in_order(ps),
        0 <= i,
        i + 1 < ps.len(),
    ensures
        ps[i + 1].depth <= ps[i].depth + 1,
{
    assert(fits(ps, i + 1));
    assert(ps[i].depth >= 1);
    if ps[i + 1].depth != 1 {
        let j = choose|j: int| #[trigger] under(ps, j, i + 1);
        if j < i {
            assert(ps[i].depth >= ps[i + 1].depth);
        }
    }
}

/// What [`up`] says.
pub proof fn lemma_up(ps: Seq<Pushed>, i: int, d: int)
    requires
        in_order(ps),
        0 <= i < ps.len(),
        1 <= d <= ps[i].depth,
    ensures
        0 <= up(ps, i, d) <= i,
        ps[up(ps, i, d)].depth == d,
        forall|k: int| up(ps, i, d) < k <= i ==> (#[trigger] ps[k]).depth > d,
    decreases i,
{
    if i > 0 && ps[i].depth > d {
        lemma_push_step_down(ps, i - 1);
        lemma_up(ps, i - 1, d);
    } else if i == 0 {
        assert(fits(ps, 0));
        if ps[0].depth != 1 {
            let j = choose|j: int| #[trigger] under(ps, j, 0);
        }
    }
}

/// The directory that an entry lies in is the one a step up.
pub proof fn lemma_under(ps: Seq<Pushed>, i: int)
    requires
        in_order(ps),
        0 <= i < ps.len(),
        ps[i].depth > 1,
    ensures
        under(ps, up(ps, i, ps[i].depth - 1), i),
{
    assert(fits(ps, i));
    let j = choose|j: int| #[trigger] under(ps, j, i);
    let d = ps[i].depth - 1;
    lemma_up(ps, i, d);
    let a = up(ps, i, d);
    if j < a {
        assert(ps[a].depth >= ps[i].depth);
    } else if a < j {
        assert(ps[j].depth > d);
    }
}

/// Above the directory that an entry lies in, the way up is that of the directory.
pub proof fn lemma_up_above(ps: Seq<Pushed>, i: int, j: int, d: int)
    requires
        0 <= j <= i < ps.len(),
        forall|k: int| j < k <= i ==> (#[trigger] ps[k]).depth > d,
    ensures
        up(ps, i, d) == up(ps, j, d),
    decreases i - j,
{
    if j < i {
        assert(ps[i].depth > d);
        lemma_up_above(ps, i - 1, j, d);
    }
}

/// The path of an entry is that of the directory that it lies in, and its name.
pub proof fn lemma_path_above(ps: Seq<Pushed>, i: int, j: int)
    requires
        0 <= i < ps.len(),
        ps[i].depth >= 1,
        ps[i].depth > 1 ==> under(ps, j, i),
    ensures
        pushed_path(ps, i).len() == ps[i].depth,
        pushed_path(ps, i) == if ps[i].depth > 1 {
            pushed_path(ps, j)
        } else {
            Seq::empty()
        }.push(ps[i].name),
{
    let (path, d) = (pushed_path(ps, i), ps[i].depth);
    assert(up(ps, i, d) == i);
    let above = if d > 1 {
        pushed_path(ps, j)
    } else {
        Seq::empty()
    };
    assert forall|k: int| 0 <= k < d - 1 implies #[trigger] path[k] == above[k] by {
        assert forall|l: int| j < l <= i implies (#[trigger] ps[l]).depth > k + 1 by {}
        lemma_up_above(ps, i, j, k + 1);
    }
    assert(path =~= above.push(ps[i].name));
}

/// The path of a push is one of names: that of the directory pushed last before it a step further
/// up, and its own. All that was pushed in between lies at least as deep.
pub proof fn law_pushed_path(ps: Seq<Pushed>, i: int)
    requires
        in_order(ps),
        0 <= i < ps.len(),
    ensures
        pushed_path(ps, i).len() == ps[i].depth,
        pushed_path(ps, i).last() == ps[i].name,
        ps[i].depth > 1 ==> exists|j: int|
            0 <= j < i && (#[trigger] ps[j]).is_dir && ps[j].depth + 1 == ps[i].depth
                && pushed_path(ps, j) == pushed_path(ps, i).drop_last() && forall|k: int|
                j < k < i ==> (#[trigger] ps[k]).depth >= ps[i].depth,
{
    assert(ps[i].depth >= 1);
    let j = up(ps, i, ps[i].depth - 1);
    if ps[i].depth > 1 {
        lemma_under(ps, i);
    }
    lemma_path_above(ps, i, j);
    assert(pushed_path(ps, i).drop_last() =~= if ps[i].depth > 1 {
        pushed_path(ps, j)
    } else {
        Seq::empty()
    });
    assert(ps[i].depth > 1 ==> ps[j].is_dir);
}

/// The way up depends only on what was pushed before.
pub proof fn lemma_up_prefix(ps: Seq<Pushed>, qs: Seq<Pushed>, i: int, d: int)
    requires
        0 <= i < ps.len(),
        i < qs.len(),
        forall|k: int| 0 <= k <= i ==> #[trigger] ps[k] == qs[k],
    ensures
        up(ps, i, d) == up(qs, i, d),
    decreases i,
{
    assert(ps[i] == qs[i]);
    if i > 0 {
        lemma_up_prefix(ps, qs, i - 1, d);
    }
}

/// What was pushed first is in order if all of it is.
pub proof fn lemma_in_order_prefix(ps: Seq<Pushed>, p: Pushed)
    requires
        in_order(ps.push(p)),
    ensures
        in_order(ps),
{
    let qs = ps.push(p);
    assert forall|i: int| 0 <= i < ps.len() implies (#[trigger] ps[i]).depth >= 1 by {
        assert(qs[i] == ps[i]);
    }
    assert forall|i: int| 0 <= i < ps.len() implies #[trigger] fits(ps, i) by {
        assert(fits(qs, i));
        assert(qs[i] == ps[i]);
        if ps[i].depth != 1 {
            let j = choose|j: int| #[trigger] under(qs, j, i);
            assert(qs[j] == ps[j]);
            assert forall|k: int| j < k < i implies (#[trigger] ps[k]).depth >= ps[i].depth by {
                assert(qs[k] == ps[k]);
            }
            assert(under(ps, j, i));
        }
    }
    assert forall|i: int, j: int| #[trigger] beside(ps, i, j) && j < ps.len() implies kind_lt(
        ps[i].kind(),
        ps[j].kind(),
    ) by {
        assert(qs[i] == ps[i] && qs[j] == ps[j]);
        assert forall|k: int| i < k < j implies (#[trigger] qs[k]).depth >= qs[i].depth by {
            assert(qs[k] == ps[k]);
        }
        assert(beside(qs, i, j));
    }
}

/// Entries with the same parent lie beside each other, if no two entries name the same file.
pub proof fn lemma_same_parent(ps: Seq<Pushed>, i: int, j: int)
    requires
        in_order(ps),
        forall|a: int, b: int|
            #![trigger ps[a], ps[b]]
            0 <= a < b < ps.len() ==> ps[a].id != ps[b].id,
        forall|a: int| 0 <= a < ps.len() ==> (#[trigger] ps[a]).id != root_id(),
        0 <= i < j < ps.len(),
        parent_id(ps, i) == parent_id(ps, j),
    ensures
        beside(ps, i, j),
{
    assert(ps[i].depth >= 1 && ps[j].depth >= 1);
    if ps[i].depth > 1 {
        lemma_under(ps, i);
        lemma_up(ps, i, ps[i].depth - 1);
    }
    if ps[j].depth > 1 {
        lemma_under(ps, j);
        lemma_up(ps, j, ps[j].depth - 1);
    }
    if ps[i].depth > 1 && ps[j].depth > 1 {
        let (a, b) = (up(ps, i, ps[i].depth - 1), up(ps, j, ps[j].depth - 1));
        assert(ps[a].id == ps[b].id);
        assert(a == b);
    } else if ps[i].depth == 1 && ps[j].depth == 1 {
        assert forall|k: int| i < k < j implies (#[trigger] ps[k]).depth >= ps[i].depth by {}
    } else if ps[i].depth > 1 {
        let a = up(ps, i, ps[i].depth - 1);
        assert(ps[a].id != root_id());
    } else {
        let b = up(ps, j, ps[j].depth - 1);
        assert(ps[b].id != root_id());
    }
}

/// Whether no entry that is not deleted belongs to the file `id`.
pub open spec fn holds_nothing(items: Seq<ItemView>, id: Unique) -> bool {
    forall|q: int| #[trigger] visible(items, q) ==> items[q].file_id() != id
}

/// Whether the push `i` was put in the root directory, in a directory that was pushed before, or in
/// another file that was pushed before and that holds nothing in the old tree.
pub open spec fn nested(items: Seq<ItemView>, ps: Seq<Pushed>, i: int) -> bool {
    ps[i].parent == root_id() || exists|h: int|
        0 <= h < i && (#[trigger] ps[h]).id == ps[i].parent && (ps[h].is_dir || holds_nothing(
            items,
            ps[h].id,
        ))
}

/// Whether no two pushes of the same kind and name were put in the same directory, and none in a
/// file that is no directory but holds something in the old tree.
pub open spec fn proper(items: Seq<ItemView>, ps: Seq<Pushed>) -> bool {
    &&& forall|i: int| 0 <= i < ps.len() ==> #[trigger] nested(items, ps, i)
    &&& forall|i: int, j: int|
        #![trigger ps[i], ps[j]]
        0 <= i < j < ps.len() && ps[i].parent == ps[j].parent ==> ps[i].kind() != ps[j].kind()
}

/// Whether the push `i` was put in the root directory, or in a directory that was pushed before.
pub open spec fn housed(ps: Seq<Pushed>, i: int) -> bool {
    ps[i].parent == root_id() || exists|h: int|
        0 <= h < i && (#[trigger] ps[h]).id == ps[i].parent && ps[h].is_dir
}

/// Whether all pushes were put in directories.
pub open spec fn all_housed(ps: Seq<Pushed>) -> bool {
    forall|i: int| 0 <= i < ps.len() ==> #[trigger] housed(ps, i)
}

/// Pushes that came in order are proper, if each was put in the directory that it lies in and no
/// two name the same file.
pub proof fn lemma_proper(items: Seq<ItemView>, ps: Seq<Pushed>)
    requires
        in_order(ps),
        forall|a: int, b: int|
            #![trigger ps[a], ps[b]]
            0 <= a < b < ps.len() ==> ps[a].id != ps[b].id,
        forall|a: int| 0 <= a < ps.len() ==> (#[trigger] ps[a]).id != root_id(),
        forall|i: int| 0 <= i < ps.len() ==> #[trigger] parent_id(ps, i) == ps[i].parent,
    ensures
        proper(items, ps),
{
    assert forall|i: int| 0 <= i < ps.len() implies #[trigger] nested(items, ps, i) by {
        assert(parent_id(ps, i) == ps[i].parent);
        assert(ps[i].depth >= 1);
        if ps[i].depth > 1 {
            lemma_under(ps, i);
            let h = up(ps, i, ps[i].depth - 1);
            assert(ps[h].id == ps[i].parent);
        }
    }
    assert forall|i: int, j: int|
        #![trigger ps[i], ps[j]]
        0 <= i < j < ps.len() && ps[i].parent == ps[j].parent implies ps[i].kind()
        != ps[j].kind() by {
        assert(parent_id(ps, i) == ps[i].parent && parent_id(ps, j) == ps[j].parent);
        lemma_same_parent(ps, i, j);
        lemma_kind_lt_irreflexive(ps[i].kind());
    }
}

/// Whether the pushes are of the same entries.
pub open spec fn same_entries(ps: Seq<Pushed>, qs: Seq<Pushed>) -> bool {
    &&& ps.len() == qs.len()
    &&& forall|i: int|
        #![trigger ps[i]]
        #![trigger qs[i]]
        0 <= i < ps.len() ==> ps[i].depth == qs[i].depth && ps[i].name == qs[i].name
            && ps[i].is_dir == qs[i].is_dir
}

/// The order and the way up depend on the entries only.
pub proof fn lemma_same_entries(ps: Seq<Pushed>, qs: Seq<Pushed>)
    requires
        same_entries(ps, qs),
        in_order(ps),
    ensures
        in_order(qs),
        forall|i: int, d: int|
            0 <= i < ps.len() ==> #[trigger] up(qs, i, d) == up(ps, i, d),
{
    assert forall|i: int| 0 <= i < qs.len() implies (#[trigger] qs[i]).depth >= 1 by {
        assert(ps[i].depth >= 1);
    }
    assert forall|i: int| 0 <= i < qs.len() implies #[trigger] fits(qs, i) by {
        assert(fits(ps, i));
        assert(ps[i].depth == qs[i].depth);
        if ps[i].depth != 1 {
            let j = choose|j: int| #[trigger] under(ps, j, i);
            assert(ps[j].depth == qs[j].depth);
            assert forall|k: int| j < k < i implies (#[trigger] qs[k]).depth >= qs[i].depth by {
                assert(ps[k].depth >= ps[i].depth);
            }
            assert(under(qs, j, i));
        }
    }
    assert forall|i: int, j: int| #[trigger] beside(qs, i, j) && j < qs.len() implies kind_lt(
        qs[i].kind(),
        qs[j].kind(),
    ) by {
        assert(ps[i].depth == qs[i].depth && ps[j].depth == qs[j].depth);
        assert forall|k: int| i < k < j implies (#[trigger] ps[k]).depth >= ps[i].depth by {
            assert(qs[k].depth >= qs[i].depth);
        }
        assert(beside(ps, i, j));
    }
    assert forall|i: int, d: int| 0 <= i < ps.len() implies #[trigger] up(qs, i, d) == up(
        ps,
        i,
        d,
    ) by {
        lemma_same_up(ps, qs, i, d);
    }
}

/// Paths depend on the entries only.
pub proof fn lemma_same_paths(ps: Seq<Pushed>, qs: Seq<Pushed>, i: int)
    requires
        same_entries(ps, qs),
        in_order(ps),
        0 <= i < ps.len(),
    ensures
        pushed_path(qs, i) == pushed_path(ps, i),
{
    let (a, b) = (pushed_path(ps, i), pushed_path(qs, i));
    assert(ps[i].depth == qs[i].depth);
    assert forall|k: int| 0 <= k < ps[i].depth implies #[trigger] b[k] == a[k] by {
        lemma_same_up(ps, qs, i, k + 1);
        lemma_up(ps, i, k + 1);
        assert(ps[up(ps, i, k + 1)].name == qs[up(ps, i, k + 1)].name);
    }
    assert(b =~= a);
}

/// The way up depends on the entries only.
proof fn lemma_same_up(ps: Seq<Pushed>, qs: Seq<Pushed>, i: int, d: int)
    requires
        same_entries(ps, qs),
        0 <= i < ps.len(),
    ensures
        up(qs, i, d) == up(ps, i, d),
    decreases i,
{
    assert(ps[i].depth == qs[i].depth);
    if i > 0 {
        lemma_same_up(ps, qs, i - 1, d);
    }
}

} // verus!
