//! When items can be walked through: if no directory lies below itself.

use vstd::prelude::*;

use super::item::ItemView;
use super::model::{
    ancestor, layout, parent, placed, reaches, tour, visible, visits, walk_of, well_formed, Visit,
};
use super::walks::{lemma_parent, lemma_step_down};
use crate::id::{root_id, Unique};

verus! {

/// The last visit before `n` to an entry of the directory `id` that stands before `p`, or -1.
spec fn last_before(items: Seq<ItemView>, w: Seq<Visit>, id: Unique, p: int, n: int) -> int
    decreases n,
{
    if n <= 0 {
        -1
    } else if items[w[n - 1].pos].file_id() == id && w[n - 1].pos < p {
        n - 1
    } else {
        last_before(items, w, id, p, n - 1)
    }
}

/// What [`last_before`] says.
proof fn lemma_last_before(items: Seq<ItemView>, w: Seq<Visit>, id: Unique, p: int, n: int)
    requires
        0 <= n <= w.len(),
    ensures
        -1 <= last_before(items, w, id, p, n) < n,
        last_before(items, w, id, p, n) >= 0 ==> items[w[last_before(
            items,
            w,
            id,
            p,
            n,
        )].pos].file_id() == id && w[last_before(items, w, id, p, n)].pos < p,
        forall|k: int|
            last_before(items, w, id, p, n) < k < n && items[(#[trigger] w[k]).pos].file_id() == id
                ==> w[k].pos >= p,
    decreases n,
{
    if n > 0 {
        lemma_last_before(items, w, id, p, n - 1);
    }
}

/// The first visit from `from` on that is at depth `d` or above.
spec fn left_at(w: Seq<Visit>, from: int, d: int) -> int
    decreases w.len() - from,
{
    if from < w.len() && w[from].depth > d {
        left_at(w, from + 1, d)
    } else {
        from
    }
}

/// What [`left_at`] says.
proof fn lemma_left_at(w: Seq<Visit>, from: int, d: int)
    requires
        0 <= from <= w.len(),
    ensures
        from <= left_at(w, from, d) <= w.len(),
        forall|k: int| from <= k < left_at(w, from, d) ==> (#[trigger] w[k]).depth > d,
        left_at(w, from, d) < w.len() ==> w[left_at(w, from, d)].depth <= d,
    decreases w.len() - from,
{
    if from < w.len() && w[from].depth > d {
        lemma_left_at(w, from + 1, d);
    }
}

/// Whether one more entry of the directory at the visit `j`, or of the root directory if `j` is -1,
/// can be visited at `t`.
spec fn opening(items: Seq<ItemView>, w: Seq<Visit>, p: int, j: int, d: int, t: int) -> bool {
    &&& -1 <= j < t <= w.len()
    &&& j < 0 ==> d == 1 && items[p].file_id() == root_id()
    &&& j >= 0 ==> d == w[j].depth + 1 && items[w[j].pos].child_id() == items[p].file_id()
        && items[w[j].pos].is_dir()
    &&& forall|k: int| j < k < t ==> (#[trigger] w[k]).depth >= d
    &&& t < w.len() ==> w[t].depth <= d
    &&& forall|k: int|
        0 <= k < t && items[(#[trigger] w[k]).pos].file_id() == items[p].file_id() ==> w[k].pos < p
    &&& forall|k: int|
        t <= k < w.len() && items[(#[trigger] w[k]).pos].file_id() == items[p].file_id()
            ==> w[k].pos > p
}

/// Visits to entries of a directory come behind the visit to the directory, one step deeper.
proof fn lemma_behind(items: Seq<ItemView>, w: Seq<Visit>, j: int, k: int)
    requires
        tour(items, w),
        -1 <= j < w.len(),
        0 <= k < w.len(),
        j < 0 ==> items[w[k].pos].file_id() == root_id(),
        j >= 0 ==> items[w[j].pos].child_id() == items[w[k].pos].file_id(),
    ensures
        j < k,
        w[k].depth == if j < 0 {
            1
        } else {
            w[j].depth + 1
        },
        forall|l: int| j < l < k ==> (#[trigger] w[l]).depth >= w[k].depth,
{
    assert(placed(items, w, k));
    assert(w[k].depth >= 1);
    if w[k].depth > 1 {
        lemma_parent(items, w, k);
        let a = ancestor(w, k, w[k].depth - 1);
        assert(items[w[a].pos].child_id() != root_id());
        if a < j {
            assert(items[w[a].pos].child_id() != items[w[j].pos].child_id());
        } else if 0 <= j < a {
            assert(items[w[j].pos].child_id() != items[w[a].pos].child_id());
        }
    } else {
        if j >= 0 {
            assert(items[w[j].pos].child_id() != root_id());
        }
        assert forall|l: int| j < l < k implies (#[trigger] w[l]).depth >= w[k].depth by {}
    }
}

/// Where one more entry of a directory that is reached is to be visited.
proof fn lemma_opening(items: Seq<ItemView>, w: Seq<Visit>, p: int) -> (at: (int, int, int))
    requires
        tour(items, w),
        reaches(items, w, items[p].file_id()),
        !visits(w, p),
    ensures
        opening(items, w, p, at.0, at.1, at.2),
{
    let f = items[p].file_id();
    let j = if f == root_id() {
        -1
    } else {
        choose|j: int|
            0 <= j < w.len() && items[(#[trigger] w[j]).pos].child_id() == f
                && items[w[j].pos].is_dir()
    };
    let d = if j < 0 {
        1
    } else {
        w[j].depth + 1
    };
    let n = w.len() as int;
    lemma_last_before(items, w, f, p, n);
    let b = last_before(items, w, f, p, n);
    if b >= 0 {
        lemma_behind(items, w, j, b);
        lemma_left_at(w, b + 1, d);
        let t = left_at(w, b + 1, d);
        assert forall|k: int| j < k < t implies (#[trigger] w[k]).depth >= d by {}
        assert forall|k: int|
            0 <= k < t && items[(#[trigger] w[k]).pos].file_id() == f implies w[k].pos < p by {
            lemma_behind(items, w, j, k);
            if k < b {
                assert(w[k].pos < w[b].pos);
            }
        }
        (j, d, t)
    } else {
        let t = j + 1;
        if t < n {
            if j >= 0 {
                lemma_step_down(items, w, j);
            } else {
                assert(placed(items, w, 0));
                if w[0].depth != 1 {
                    let i = choose|i: int| #[trigger] parent(items, w, i, 0);
                }
            }
        }
        assert forall|k: int|
            0 <= k < t && items[(#[trigger] w[k]).pos].file_id() == f implies w[k].pos < p by {
            lemma_behind(items, w, j, k);
        }
        (j, d, t)
    }
}

/// One more entry is visited.
proof fn lemma_one_more(items: Seq<ItemView>, w: Seq<Visit>, p: int) -> (v: Seq<Visit>)
    requires
        tour(items, w),
        visible(items, p),
        reaches(items, w, items[p].file_id()),
        items[p].child_id() != root_id(),
        forall|i: int|
            0 <= i < w.len() ==> items[(#[trigger] w[i]).pos].child_id() != items[p].child_id(),
    ensures
        tour(items, v),
        forall|q: int| #[trigger] visits(v, q) == (visits(w, q) || q == p),
{
    let (j, d, t) = lemma_opening(items, w, p);
    let new = Visit { pos: p, depth: d };
    let v = w.insert(t, new);
    assert forall|i: int| 0 <= i < w.len() implies #[trigger] w[i] == v[if i < t {
        i
    } else {
        i + 1
    }] by {}
    assert forall|i: int| 0 <= i < v.len() && i != t implies #[trigger] v[i] == w[if i < t {
        i
    } else {
        i - 1
    }] by {}
    assert(v[t] == new);
    assert forall|i: int| 0 <= i < v.len() implies #[trigger] placed(items, v, i) by {
        if i == t {
            if d != 1 {
                assert(w[j].depth >= 1);
                assert(v[j] == w[j]);
                assert forall|k: int| j < k < t implies (#[trigger] v[k]).depth >= d by {
                    assert(v[k] == w[k]);
                }
                assert(parent(items, v, j, t));
            } else if j >= 0 {
                assert(w[j].depth >= 1);
            }
        } else {
            let k = if i < t {
                i
            } else {
                i - 1
            };
            assert(v[i] == w[k]);
            assert(placed(items, w, k));
            if w[k].depth != 1 {
                let a = choose|a: int| #[trigger] parent(items, w, a, k);
                let b = if a < t {
                    a
                } else {
                    a + 1
                };
                assert(v[b] == w[a]);
                assert forall|l: int| b < l < i implies (#[trigger] v[l]).depth >= v[i].depth by {
                    if l == t {
                        if t < k {
                            assert(w[t].depth >= w[k].depth);
                        }
                    } else {
                        let m = if l < t {
                            l
                        } else {
                            l - 1
                        };
                        assert(v[l] == w[m]);
                        assert(w[m].depth >= w[k].depth);
                    }
                }
                assert(parent(items, v, b, i));
            }
        }
    }
    assert forall|i: int| 0 <= i < v.len() implies visible(items, (#[trigger] v[i]).pos)
        && v[i].depth >= 1 && items[v[i].pos].child_id() != root_id() by {
        if i == t {
            if j >= 0 {
                assert(w[j].depth >= 1);
            }
        }
    }
    assert forall|q: int| #[trigger] visits(v, q) == (visits(w, q) || q == p) by {
        if visits(w, q) {
            let i = choose|i: int| 0 <= i < w.len() && (#[trigger] w[i]).pos == q;
            assert(v[if i < t {
                i
            } else {
                i + 1
            }].pos == q);
        }
        if q == p {
            assert(v[t].pos == q);
        }
        if visits(v, q) && q != p {
            let i = choose|i: int| 0 <= i < v.len() && (#[trigger] v[i]).pos == q;
            assert(w[if i < t {
                i
            } else {
                i - 1
            }].pos == q);
        }
    }
    v
}

/// Whether the entry at `p` names one of the first `n` of the files.
spec fn names_one(items: Seq<ItemView>, files: Seq<Unique>, n: int, p: int) -> bool {
    exists|i: int| 0 <= i < n && items[p].child_id() == #[trigger] files[i]
}

/// Whether the entry at `p` lies in the root directory or in one of the files, and names a file
/// that stands behind that one.
pub open spec fn goes_forward(items: Seq<ItemView>, files: Seq<Unique>, p: int) -> bool {
    exists|i: int|
        0 <= i < files.len() && items[p].child_id() == #[trigger] files[i] && (
        items[p].file_id() == root_id() || files.take(i).contains(items[p].file_id()))
}

/// Whether `id` is the root directory, or one of the files, and a directory.
pub open spec fn opens_one(items: Seq<ItemView>, files: Seq<Unique>, id: Unique) -> bool {
    id == root_id() || (files.contains(id) && exists|p: int| #[trigger]
        visible(items, p) && items[p].child_id() == id && items[p].is_dir())
}

/// Whether the files can stand in a row such that every entry of one of them names a later one, and
/// no other entry names the same.
pub open spec fn lined_up(items: Seq<ItemView>, files: Seq<Unique>) -> bool {
    &&& forall|i: int, j: int|
        #![trigger files[i], files[j]]
        0 <= i < j < files.len() ==> files[i] != files[j]
    &&& forall|i: int| 0 <= i < files.len() ==> #[trigger] files[i] != root_id()
    &&& forall|p: int| #[trigger]
        visible(items, p) && opens_one(items, files, items[p].file_id()) ==> goes_forward(
            items,
            files,
            p,
        )
    &&& forall|p: int, q: int| #[trigger]
        visible(items, p) && #[trigger] visible(items, q) && opens_one(
            items,
            files,
            items[p].file_id(),
        ) && opens_one(items, files, items[q].file_id()) && items[p].child_id()
            == items[q].child_id() ==> p == q
}

/// The entries that name the first `n` of the files, visited.
proof fn lemma_tour(items: Seq<ItemView>, files: Seq<Unique>, n: int) -> (w: Seq<Visit>)
    requires
        lined_up(items, files),
        0 <= n <= files.len(),
    ensures
        tour(items, w),
        forall|i: int| 0 <= i < w.len() ==> names_one(items, files, n, (#[trigger] w[i]).pos),
        forall|p: int| #[trigger]
            visible(items, p) && reaches(items, w, items[p].file_id()) && names_one(
                items,
                files,
                n,
                p,
            ) ==> visits(w, p),
    decreases n,
{
    if n == 0 {
        Seq::empty()
    } else {
        let w = lemma_tour(items, files, n - 1);
        let c = files[n - 1];
        if exists|p: int| #[trigger]
            visible(items, p) && reaches(items, w, items[p].file_id()) && items[p].child_id() == c {
            let p = choose|p: int| #[trigger]
                visible(items, p) && reaches(items, w, items[p].file_id()) && items[p].child_id()
                    == c;
            assert forall|i: int| 0 <= i < w.len() implies items[(#[trigger] w[i]).pos].child_id()
                != items[p].child_id() by {
                let k = choose|k: int|
                    0 <= k < n - 1 && items[w[i].pos].child_id() == #[trigger] files[k];
                assert(files[k] != files[n - 1]);
            }
            let v = lemma_one_more(items, w, p);
            assert forall|i: int| 0 <= i < v.len() implies names_one(
                items,
                files,
                n,
                (#[trigger] v[i]).pos,
            ) by {
                let q = v[i].pos;
                assert(visits(v, q));
                if q == p {
                    assert(items[q].child_id() == files[n - 1]);
                } else {
                    let k = choose|k: int| 0 <= k < w.len() && (#[trigger] w[k]).pos == q;
                    lemma_names_more(items, files, n - 1, q);
                }
            }
            assert forall|q: int| #[trigger]
                visible(items, q) && reaches(items, v, items[q].file_id()) && names_one(
                    items,
                    files,
                    n,
                    q,
                ) implies visits(v, q) by {
                lemma_covered(items, files, n, w, v, p, q);
            }
            v
        } else {
            assert forall|i: int| 0 <= i < w.len() implies names_one(
                items,
                files,
                n,
                (#[trigger] w[i]).pos,
            ) by {
                lemma_names_more(items, files, n - 1, w[i].pos);
            }
            assert forall|q: int| #[trigger]
                visible(items, q) && reaches(items, w, items[q].file_id()) && names_one(
                    items,
                    files,
                    n,
                    q,
                ) implies visits(w, q) by {
                let k = choose|k: int| 0 <= k < n && items[q].child_id() == #[trigger] files[k];
                assert(k < n - 1);
                assert(names_one(items, files, n - 1, q));
            }
            w
        }
    }
}

/// An entry that names one of some files names one of more.
proof fn lemma_names_more(items: Seq<ItemView>, files: Seq<Unique>, n: int, p: int)
    requires
        names_one(items, files, n, p),
    ensures
        names_one(items, files, n + 1, p),
{
    let k = choose|k: int| 0 <= k < n && items[p].child_id() == #[trigger] files[k];
    assert(items[p].child_id() == files[k]);
}

/// After one more visit, all entries that are reached are visited.
proof fn lemma_covered(
    items: Seq<ItemView>,
    files: Seq<Unique>,
    n: int,
    w: Seq<Visit>,
    v: Seq<Visit>,
    p: int,
    q: int,
)
    requires
        lined_up(items, files),
        0 < n <= files.len(),
        tour(items, w),
        tour(items, v),
        visible(items, p),
        items[p].child_id() == files[n - 1],
        reaches(items, w, items[p].file_id()),
        forall|x: int| #[trigger] visits(v, x) == (visits(w, x) || x == p),
        forall|i: int| 0 <= i < w.len() ==> names_one(items, files, n - 1, (#[trigger] w[i]).pos),
        forall|x: int| #[trigger]
            visible(items, x) && reaches(items, w, items[x].file_id()) && names_one(
                items,
                files,
                n - 1,
                x,
            ) ==> visits(w, x),
        visible(items, q),
        reaches(items, v, items[q].file_id()),
        names_one(items, files, n, q),
    ensures
        visits(v, q),
{
    let f = items[q].file_id();
    let k = choose|k: int| 0 <= k < n && items[q].child_id() == #[trigger] files[k];
    lemma_reached_file(items, files, n - 1, w, items[p].file_id());
    if f != root_id() {
        let i = choose|i: int|
            0 <= i < v.len() && items[(#[trigger] v[i]).pos].child_id() == f
                && items[v[i].pos].is_dir();
        assert(visits(v, v[i].pos));
        if v[i].pos == p {
            // What lies in the new directory names later files only.
            assert(files[n - 1] == f);
            assert(opens_one(items, files, f)) by {
                assert(visible(items, p) && items[p].child_id() == f && items[p].is_dir());
            }
            assert(goes_forward(items, files, q));
            let l = choose|l: int|
                0 <= l < files.len() && items[q].child_id() == #[trigger] files[l]
                    && files.take(l).contains(f);
            let m = choose|m: int| 0 <= m < l && files.take(l)[m] == f;
            assert(files[m] == files[n - 1]);
            assert(files[l] == files[k]);
            assert(m == n - 1) by {
                if m < n - 1 {
                    assert(files[m] != files[n - 1]);
                } else if n - 1 < m {
                    assert(files[n - 1] != files[m]);
                }
            }
            assert(l == k) by {
                if l < k {
                    assert(files[l] != files[k]);
                } else if k < l {
                    assert(files[k] != files[l]);
                }
            }
        } else {
            let m = choose|m: int| 0 <= m < w.len() && (#[trigger] w[m]).pos == v[i].pos;
            assert(items[w[m].pos].child_id() == f);
        }
    }
    if q != p {
        assert(reaches(items, w, f));
        lemma_reached_file(items, files, n - 1, w, f);
        if k == n - 1 {
            assert(items[p].child_id() == items[q].child_id());
        }
        assert(names_one(items, files, n - 1, q));
    }
}

/// A directory that is reached is the root directory, or one of the files.
proof fn lemma_reached_file(
    items: Seq<ItemView>,
    files: Seq<Unique>,
    n: int,
    w: Seq<Visit>,
    id: Unique,
)
    requires
        0 <= n <= files.len(),
        tour(items, w),
        forall|i: int| 0 <= i < w.len() ==> names_one(items, files, n, (#[trigger] w[i]).pos),
        reaches(items, w, id),
    ensures
        opens_one(items, files, id),
{
    if id != root_id() {
        let i = choose|i: int|
            0 <= i < w.len() && items[(#[trigger] w[i]).pos].child_id() == id
                && items[w[i].pos].is_dir();
        let k = choose|k: int| 0 <= k < n && items[w[i].pos].child_id() == #[trigger] files[k];
        assert(files[k] == id);
        assert(visible(items, w[i].pos));
    }
}

/// Items whose files can stand in a row can be walked through.
pub proof fn lemma_lined_up(items: Seq<ItemView>, files: Seq<Unique>)
    requires
        layout(items),
        lined_up(items, files),
    ensures
        well_formed(items),
{
    let n = files.len() as int;
    let w = lemma_tour(items, files, n);
    assert forall|p: int| #[trigger]
        visible(items, p) && reaches(items, w, items[p].file_id()) implies visits(w, p) by {
        lemma_reached_file(items, files, n, w, items[p].file_id());
        assert(goes_forward(items, files, p));
        let i = choose|i: int|
            0 <= i < files.len() && items[p].child_id() == #[trigger] files[i] && (
            items[p].file_id() == root_id() || files.take(i).contains(items[p].file_id()));
        assert(names_one(items, files, n, p));
    }
    assert(walk_of(items, w));
}

} // verus!
