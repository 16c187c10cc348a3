//! What the tree that a builder makes has to do with the old tree and with what was pushed.
//!
//! The laws here speak of what can be seen of both trees: of their items, of what they list, and of
//! the identifiers that the store has issued.

use vstd::prelude::*;

use super::assembly::lists_push;
use super::builder::{same_directory, Builder};
use super::item::ItemView;
use super::laws::{law_listed_in_directory, law_listed_item, law_listed_once, relists};
use super::merge::{dropped, held, knows, matches_push, traced, Origin};
use super::model::{entry_kind, listing, visible, walk, walk_of, Listed};
use super::moves::{
    claims, frees, lemma_claims, lemma_kept_id, lemma_known_id, lemma_settled_id, settled, takes,
    takes_back,
};
use super::overlay::{lemma_overlay_made_of, source_item, sources, Source};
use super::pushes::{in_order, lemma_path_above, lemma_under, parent_id, pushed_path, up, Pushed};
use super::rebuild::{
    is_removal, lemma_entry_rendered, lemma_mark_rendered, lemma_marks, lemma_metadata_rendered,
    lemma_removal_rendered, mark, marked_by, rendered,
};
use super::sort::{covers, rearranged};
use super::store::{issues_all, Store};
use super::uproot::{
    arrives, arrives_with, departs_from, handed, intrudes, lemma_no_intruder, lemma_none_uprooted,
    lemma_regiven, lemma_regiven_other, lemma_uprooted, marked, uprooted, uprooted_pushes,
};
use super::walks::lemma_listing;
use crate::id::{root_id, Unique};

verus! {

/// Whether the push `j` is `i`, or is on the way to it: its path is a part of that of `i`.
pub open spec fn on_the_way(ps: Seq<Pushed>, j: int, i: int) -> bool {
    let (a, b) = (pushed_path(ps, j), pushed_path(ps, i));
    j == i || (a.len() < b.len() && b.take(a.len() as int) == a)
}

/// Whether the directory that is listed at `l` was pushed at `h`, under its path, with its inode.
pub open spec fn stayed(ps: Seq<Pushed>, old: Seq<Listed>, h: int, l: int) -> bool {
    &&& 0 <= h < ps.len()
    &&& 0 <= l < old.len()
    &&& ps[h].is_dir
    &&& old[l].entry.is_dir()
    &&& old[l].path == pushed_path(ps, h)
    &&& old[l].inode == ps[h].inode
}

/// Whether the old tree lists a directory under the path of the push `i`, and there is no dispute
/// which directory is there. It has the inode that was pushed. Or neither has come from elsewhere
/// or gone elsewhere: every pushed directory with the inode that was listed, and every listed one
/// with the inode that was pushed, stayed in its own place.
pub open spec fn same_place(ps: Seq<Pushed>, old: Seq<Listed>, i: int, k: int) -> bool {
    &&& 0 <= k < old.len()
    &&& old[k].entry.is_dir()
    &&& old[k].path == pushed_path(ps, i)
    &&& old[k].inode == ps[i].inode || {
        &&& forall|h: int|
            0 <= h < ps.len() && (#[trigger] ps[h]).is_dir && ps[h].inode == old[k].inode
                ==> exists|l: int| #[trigger] stayed(ps, old, h, l)
        &&& forall|l: int|
            0 <= l < old.len() && (#[trigger] old[l]).entry.is_dir() && old[l].inode == ps[i].inode
                ==> exists|h: int| #[trigger] stayed(ps, old, h, l)
    }
}

/// Whether there is no dispute over the place of the directory that was pushed at `i`.
pub open spec fn undisputed(ps: Seq<Pushed>, old: Seq<Listed>, i: int) -> bool {
    exists|k: int| #[trigger] same_place(ps, old, i, k)
}

/// Whether the item is the entry of the push, which is not deleted.
pub open spec fn entry_of_push(item: ItemView, p: Pushed) -> bool {
    &&& item is DirEntry
    &&& matches_push(item, p)
    &&& item->DirEntry_deletions.len() == 0
}

/// Whether the entry of the push names the file that is listed at `k`, and is that entry if the
/// push found it, or names a directory with the inode that was pushed.
pub open spec fn listed_as(old: Seq<Listed>, k: int, entry: ItemView, p: Pushed) -> bool {
    &&& 0 <= k < old.len()
    &&& old[k].entry.child_id() == entry.child_id()
    &&& old[k].entry.is_dir() == p.is_dir
    &&& (p.kept == Some(k) && entry == old[k].entry) || (p.is_dir && old[k].inode == p.inode)
}

/// Whether the entry of the push names a file that the old items do not speak of, and that has the
/// inode that was pushed, or one that the old tree lists: see [`listed_as`].
pub open spec fn comes_from(
    items: Seq<ItemView>,
    result: Seq<ItemView>,
    entry: ItemView,
    p: Pushed,
) -> bool {
    ||| !knows(items, entry.child_id()) && result.contains(
        ItemView::Metadata { file_id: entry.child_id(), is_dir: p.is_dir, inode: p.inode },
    )
    ||| exists|k: int| #[trigger] listed_as(listing(items), k, entry, p)
}

impl Builder {
    /// What the changes delete are entries that the old tree lists.
    proof fn lemma_removes_listed<S: Store>(&self, db: &S, fresh: Seq<Option<Unique>>)
        requires
            self.wf(db),
            self.uproots(db, fresh),
        ensures
            forall|x: int|
                0 <= x < self.full_changes(db, fresh).len() && (#[trigger] settled(
                    self.full_changes(db, fresh),
                )[x]) is Remove ==> {
                    let entry = settled(self.full_changes(db, fresh))[x]->Remove_entry;
                    entry is DirEntry && exists|k: int|
                        0 <= k < listing(self.base(db)).len() && (#[trigger] listing(
                            self.base(db),
                        )[k]).entry == entry
                },
    {
        let (items, ps) = (self.base(db), self.pushes());
        let (w, old) = (walk(items), listing(items));
        let (qs, cs) = (uprooted_pushes(ps, fresh), self.full_changes(db, fresh));
        let origins = self.lemma_reasons(db, fresh);
        let last = settled(cs);
        assert(walk_of(items, w));
        assert forall|x: int| 0 <= x < cs.len() && (#[trigger] last[x]) is Remove implies (
        last[x]->Remove_entry is DirEntry && exists|k: int|
            0 <= k < old.len() && (#[trigger] old[k]).entry == last[x]->Remove_entry) by {
            assert(traced(items, w, w.len() as int, qs, cs[x], origins[x]));
            let k = origins[x]->Removed_0;
            lemma_listing(items, k);
            assert(visible(items, w[k].pos));
            assert(old[k].entry == last[x]->Remove_entry);
        }
    }

    /// An entry of the new tree that the old tree does not have was made by one of the changes, and
    /// the identifier of that change is its own.
    proof fn lemma_entry_made<S: Store>(
        &self,
        db: &S,
        fresh: Seq<Option<Unique>>,
        ids: Seq<Unique>,
        new: Seq<ItemView>,
        result: Seq<ItemView>,
    ) -> (owners: Seq<int>)
        requires
            self.wf(db),
            self.makes(db, fresh, ids, new, result),
        ensures
            owners.len() == result.len(),
            forall|a: int|
                0 <= a < result.len() && result[a] is DirEntry && !self.base(db).contains(result[a])
                    ==> 0 <= #[trigger] owners[a] < ids.len() && mark(result[a]) == ids[owners[a]]
                    && if result[a].is_deleted() {
                    exists|k: int|
                        0 <= k < listing(self.base(db)).len() && is_removal(
                            (#[trigger] listing(self.base(db))[k]).entry,
                            result[a],
                        )
                } else {
                    result[a]->DirEntry_moves.len() == 0 && exists|i: int|
                        0 <= i < self.pushes().len() && (#[trigger] self.pushes()[i]).name
                            == result[a].name() && self.pushes()[i].is_dir == result[a].is_dir()
                },
            forall|a: int, b: int|
                #![trigger owners[a], owners[b]]
                0 <= a < b < result.len() && result[a] is DirEntry && !self.base(db).contains(
                    result[a],
                ) && result[b] is DirEntry && !self.base(db).contains(result[b]) ==> owners[a]
                    != owners[b],
    {
        let (items, ps) = (self.base(db), self.pushes());
        let (w, old) = (walk(items), listing(items));
        let (qs, cs) = (uprooted_pushes(ps, fresh), self.full_changes(db, fresh));
        let origins = self.lemma_reasons(db, fresh);
        let last = settled(cs);
        let n = last.len() as int;
        self.lemma_removes_listed(db, fresh);
        let all = rendered(last, ids, n);
        let by = lemma_marks(last, ids, n);
        let order = choose|order: Seq<int>| rearranged(all, new, order);
        let src = sources(items, 0, new, 0);
        lemma_overlay_made_of(items, 0, new, 0);
        let owners = Seq::new(
            result.len(),
            |a: int|
                match src[a] {
                    Source::Old(q) => 0,
                    Source::New(t) => by[order[t]],
                },
        );
        assert forall|a: int|
            0 <= a < result.len() && result[a] is DirEntry && !items.contains(result[a]) implies (
        src[a] matches Source::New(t) && 0 <= t < new.len() && result[a] == all[order[t]]
            && owners[a] == by[order[t]] && 0 <= order[t] < all.len()) && 0 <= #[trigger] owners[a]
            < ids.len() && marked_by(last[owners[a]], ids[owners[a]], result[a]) by {
            if let Source::Old(q) = src[a] {
                assert(result[a] == items[q]);
            } else if let Source::New(t) = src[a] {
                assert(result[a] == new[t]);
                assert(0 <= order[t] < all.len() && new[t] == all[order[t]]);
                assert(0 <= by[order[t]] < n);
            }
        }
        assert forall|a: int|
            0 <= a < result.len() && result[a] is DirEntry && !items.contains(result[a]) implies 0
            <= #[trigger] owners[a] < ids.len() && mark(result[a]) == ids[owners[a]] && if result[
        a].is_deleted() {
            exists|k: int|
                0 <= k < old.len() && is_removal((#[trigger] old[k]).entry, result[a])
        } else {
            result[a]->DirEntry_moves.len() == 0 && exists|i: int|
                0 <= i < ps.len() && (#[trigger] ps[i]).name == result[a].name() && ps[i].is_dir
                    == result[a].is_dir()
        } by {
            let x = owners[a];
            assert(marked_by(last[x], ids[x], result[a]));
            if last[x] is Remove {
                let k = choose|k: int|
                    0 <= k < old.len() && (#[trigger] old[k]).entry == last[x]->Remove_entry;
                assert(is_removal(old[k].entry, result[a]));
            } else {
                assert(traced(items, w, w.len() as int, qs, cs[x], origins[x]));
                let i = origins[x]->Inserted_0;
                assert(ps[i].name == result[a].name());
            }
        }
        assert forall|a: int, b: int|
            #![trigger owners[a], owners[b]]
            0 <= a < b < result.len() && result[a] is DirEntry && !items.contains(result[a])
                && result[b] is DirEntry && !items.contains(result[b]) implies owners[a]
            != owners[b] by {
            assert(src[a] is New && src[b] is New);
            let (t, u) = (src[a]->New_0, src[b]->New_0);
            assert(t < u);
            assert(order[t] != order[u]);
            assert(by[order[t]] == owners[a] && by[order[u]] == owners[b]);
        }
        owners
    }

    /// Every entry of the new tree that the old tree does not have is new, or it is an entry that
    /// the old tree lists, deleted. A new entry has the name and the kind of a push, and an
    /// identifier of its own. It has neither deletions nor moves. A deleted one has one more
    /// identifier behind those of its deletions, and is else as it was. In either case the
    /// identifier is one that the store had not issued before and has issued now, and no other
    /// entry has it.
    pub proof fn law_new_identifiers<S: Store>(
        &self,
        db: &S,
        after: &S,
        fresh: Seq<Option<Unique>>,
        ids: Seq<Unique>,
        new: Seq<ItemView>,
        result: Seq<ItemView>,
        a: int,
        b: int,
    )
        requires
            self.wf(db),
            self.makes(db, fresh, ids, new, result),
            issues_all(db, after, handed(fresh, self.pushes().len() as int) + ids),
            0 <= a < result.len(),
            0 <= b < result.len(),
            result[a] is DirEntry,
            result[b] is DirEntry,
            !self.base(db).contains(result[a]),
            !self.base(db).contains(result[b]),
        ensures
            ({
                let issued_for = |item: ItemView| if item->DirEntry_deletions.len() == 0 {
                    item->DirEntry_entry_id
                } else {
                    item->DirEntry_deletions.last()
                };
                &&& !db.issued(issued_for(result[a]))
                &&& after.issued(issued_for(result[a]))
                &&& issued_for(result[a]) != root_id()
                &&& a != b ==> issued_for(result[a]) != issued_for(result[b])
            }),
            result[a]->DirEntry_deletions.len() == 0 ==> result[a]->DirEntry_moves.len() == 0
                && exists|i: int|
                0 <= i < self.pushes().len() && (#[trigger] self.pushes()[i]).name
                    == result[a]->DirEntry_name && self.pushes()[i].is_dir
                    == result[a]->DirEntry_is_dir,
            result[a]->DirEntry_deletions.len() > 0 ==> exists|k: int|
                0 <= k < listing(self.base(db)).len() && ((#[trigger] listing(
                    self.base(db),
                )[k]).entry matches ItemView::DirEntry {
                    file_id,
                    entry_id,
                    child_id,
                    name,
                    is_dir,
                    deletions,
                    moves,
                } && result[a] == (ItemView::DirEntry {
                    file_id,
                    entry_id,
                    child_id,
                    name,
                    is_dir,
                    deletions: deletions.push(result[a]->DirEntry_deletions.last()),
                    moves,
                })),
    {
        let old = listing(self.base(db));
        let owners = self.lemma_entry_made(db, fresh, ids, new, result);
        let given = handed(fresh, self.pushes().len() as int);
        let (x, y) = (owners[a], owners[b]);
        let m = given.len() as int;
        let all = given + ids;
        assert(mark(result[a]) == ids[x]);
        assert(mark(result[b]) == ids[y]);
        assert(all[m + x] == ids[x] && all[m + y] == ids[y]);
        assert(all.contains(ids[x]));
        if a < b {
            assert(owners[a] != owners[b]);
        } else if b < a {
            assert(owners[b] != owners[a]);
        }
        if result[a].is_deleted() {
            let k = choose|k: int|
                0 <= k < old.len() && is_removal((#[trigger] old[k]).entry, result[a]);
            let (was, now) = (
                old[k].entry->DirEntry_deletions,
                result[a]->DirEntry_deletions,
            );
            assert(was.push(now.last()) =~= now);
            assert(old[k].entry is DirEntry);
        }
    }

    /// A push is not uprooted if no directory on the way to it, and not it itself, took the place
    /// of another.
    proof fn lemma_not_uprooted<S: Store>(&self, db: &S, i: int)
        requires
            self.wf(db),
            in_order(self.pushes()),
            0 <= i < self.pushes().len(),
            forall|j: int|
                0 <= j <= i && #[trigger] on_the_way(self.pushes(), j, i) && self.pushes()[j].is_dir
                    ==> undisputed(self.pushes(), listing(self.base(db)), j),
        ensures
            !uprooted(
                self.pushes(),
                listing(self.base(db)),
                self.all_changes(db),
                self.pushes().len() as int,
            )[i],
        decreases i,
    {
        let (items, ps, all) = (self.base(db), self.pushes(), self.all_changes(db));
        let (w, old, n) = (walk(items), listing(items), ps.len() as int);
        let marks = uprooted(ps, old, all, n);
        lemma_uprooted(ps, old, all, n);
        self.law_pushes_in_directories(db);
        assert(on_the_way(ps, i, i));
        if ps[i].is_dir {
            self.lemma_undisputed(db, i);
        }
        if marked(ps, marks.take(i), ps[i].parent) {
            let h = choose|h: int|
                0 <= h < marks.take(i).len() && #[trigger] marks.take(i)[h] && ps[h].id
                    == ps[i].parent;
            self.lemma_no_root(db, h);
            assert(parent_id(ps, i) == ps[i].parent);
            assert(ps[i].depth >= 1);
            let p = up(ps, i, ps[i].depth - 1);
            lemma_under(ps, i);
            if h < p {
                assert(ps[h].id != ps[p].id);
            } else if p < h {
                assert(ps[p].id != ps[h].id);
            }
            lemma_path_above(ps, i, p);
            assert forall|j: int|
                0 <= j <= p && #[trigger] on_the_way(ps, j, p) && ps[j].is_dir implies undisputed(
                ps,
                old,
                j,
            ) by {
                let (a, b, c) = (pushed_path(ps, j), pushed_path(ps, p), pushed_path(ps, i));
                if j != p {
                    assert(c.take(a.len() as int) =~= b.take(a.len() as int));
                } else {
                    assert(c.take(b.len() as int) =~= b);
                }
                assert(on_the_way(ps, j, i));
            }
            self.lemma_not_uprooted(db, p);
        }
    }

    /// No push has the identifier of the root directory.
    proof fn lemma_no_root<S: Store>(&self, db: &S, h: int)
        requires
            self.wf(db),
            0 <= h < self.pushes().len(),
        ensures
            self.pushes()[h].id != root_id(),
    {
        self.lemma_all_finished(db);
    }

    /// A directory over which there is no dispute did not take the place of another.
    proof fn lemma_undisputed<S: Store>(&self, db: &S, i: int)
        requires
            self.wf(db),
            in_order(self.pushes()),
            0 <= i < self.pushes().len(),
            self.pushes()[i].is_dir,
            undisputed(self.pushes(), listing(self.base(db)), i),
        ensures
            !intrudes(self.pushes(), listing(self.base(db)), self.all_changes(db), i),
    {
        let (items, ps, all) = (self.base(db), self.pushes(), self.all_changes(db));
        let (w, old) = (walk(items), listing(items));
        let origins = self.lemma_all_finished(db);
        assert(walk_of(items, w));
        let k = choose|k: int| #[trigger] same_place(ps, old, i, k);
        self.law_same_path_found(db, i, k);
        if ps[i].inode != old[k].inode {
            if arrives(ps, old, old[k].inode) {
                let h = choose|h: int|
                    0 <= h < ps.len() && arrives_with(#[trigger] ps[h], old, old[k].inode);
                let l = choose|l: int| #[trigger] stayed(ps, old, h, l);
                self.law_same_path_found(db, h, l);
            }
            if exists|h: int|
                0 <= h < ps.len() && departs_from(#[trigger] ps[h], old, ps[i].inode) {
                let h = choose|h: int|
                    0 <= h < ps.len() && departs_from(#[trigger] ps[h], old, ps[i].inode);
                let l = ps[h].kept->0;
                self.law_found_in_place(db, h);
                assert(old[l].entry.is_dir());
                let g = choose|g: int| #[trigger] stayed(ps, old, g, l);
                self.law_same_path_found(db, g, l);
                if g < h {
                    assert(ps[g].id != ps[h].id);
                } else if h < g {
                    assert(ps[h].id != ps[g].id);
                }
            }
            if exists|x: int| 0 <= x < all.len() && frees(#[trigger] all[x], ps[i].inode) {
                let x = choose|x: int| 0 <= x < all.len() && frees(#[trigger] all[x], ps[i].inode);
                assert(traced(items, w, w.len() as int, ps, all[x], origins[x]));
                let l = origins[x]->Removed_0;
                lemma_listing(items, l);
                assert(old[l].entry.is_dir());
                let g = choose|g: int| #[trigger] stayed(ps, old, g, l);
                self.law_same_path_found(db, g, l);
                assert(dropped(origins, l) != held(ps, l));
            }
        }
    }

    /// What is pushed under the path of an entry of the same kind that the old tree lists keeps
    /// that entry, if there is no dispute over a directory on the way, nor over it itself if it is
    /// one.
    pub proof fn law_undisputed_keeps_entry<S: Store>(
        &self,
        db: &S,
        after: &S,
        fresh: Seq<Option<Unique>>,
        ids: Seq<Unique>,
        new: Seq<ItemView>,
        result: Seq<ItemView>,
        i: int,
        k: int,
    )
        requires
            self.wf(db),
            in_order(self.pushes()),
            self.makes(db, fresh, ids, new, result),
            issues_all(db, after, handed(fresh, self.pushes().len() as int) + ids),
            0 <= i < self.pushes().len(),
            0 <= k < listing(self.base(db)).len(),
            listing(self.base(db))[k].path == pushed_path(self.pushes(), i),
            listing(self.base(db))[k].entry.is_dir() == self.pushes()[i].is_dir,
            forall|j: int|
                0 <= j <= i && #[trigger] on_the_way(self.pushes(), j, i) && self.pushes()[j].is_dir
                    ==> undisputed(self.pushes(), listing(self.base(db)), j),
        ensures
            i < listing(result).len(),
            listing(result)[i].entry == listing(self.base(db))[k].entry,
            listing(result)[i].path == listing(self.base(db))[k].path,
            listing(result)[i].inode == listing(self.base(db))[k].inode,
    {
        let (ps, old) = (self.pushes(), listing(self.base(db)));
        self.lemma_not_uprooted(db, i);
        self.law_same_path_found(db, i, k);
        self.lemma_result(db, after, fresh, ids, new, result);
        assert(fresh[i] is None);
        let rs = self.final_pushes(db, fresh);
        assert(rs[i].kept == Some(k));
        assert(lists_push(listing(result)[i], rs, i, old));
    }

    /// A file that is no directory and is pushed under the path of such a file that the old tree
    /// lists stays the same file: it keeps its entry and its identifier, whatever inode it has now,
    /// if every directory on the way is listed in the old tree under the same path with the same
    /// inode.
    pub proof fn law_file_stays<S: Store>(
        &self,
        db: &S,
        after: &S,
        fresh: Seq<Option<Unique>>,
        ids: Seq<Unique>,
        new: Seq<ItemView>,
        result: Seq<ItemView>,
        i: int,
        k: int,
    )
        requires
            self.wf(db),
            in_order(self.pushes()),
            self.makes(db, fresh, ids, new, result),
            issues_all(db, after, handed(fresh, self.pushes().len() as int) + ids),
            0 <= i < self.pushes().len(),
            0 <= k < listing(self.base(db)).len(),
            !self.pushes()[i].is_dir,
            !listing(self.base(db))[k].entry.is_dir(),
            listing(self.base(db))[k].path == pushed_path(self.pushes(), i),
            forall|j: int|
                0 <= j < i && (#[trigger] self.pushes()[j]).is_dir && pushed_path(
                    self.pushes(),
                    j,
                ).len() < pushed_path(self.pushes(), i).len() && pushed_path(self.pushes(), j)
                    == pushed_path(self.pushes(), i).take(
                    pushed_path(self.pushes(), j).len() as int,
                ) ==> exists|l: int|
                    0 <= l < listing(self.base(db)).len() && (#[trigger] listing(
                        self.base(db),
                    )[l]).entry.is_dir() && listing(self.base(db))[l].path == pushed_path(
                        self.pushes(),
                        j,
                    ) && listing(self.base(db))[l].inode == self.pushes()[j].inode,
        ensures
            i < listing(result).len(),
            listing(result)[i].path == listing(self.base(db))[k].path,
            listing(result)[i].entry == listing(self.base(db))[k].entry,
            listing(result)[i].entry.child_id() == listing(self.base(db))[k].entry.child_id(),
            listing(result)[i].inode == listing(self.base(db))[k].inode,
    {
        let (ps, old) = (self.pushes(), listing(self.base(db)));
        assert forall|j: int|
            0 <= j <= i && #[trigger] on_the_way(ps, j, i) && ps[j].is_dir implies undisputed(
            ps,
            old,
            j,
        ) by {
            let l = choose|l: int|
                0 <= l < old.len() && (#[trigger] old[l]).entry.is_dir() && old[l].path
                    == pushed_path(ps, j) && old[l].inode == ps[j].inode;
            assert(same_place(ps, old, j, l));
        }
        self.law_undisputed_keeps_entry(db, after, fresh, ids, new, result, i, k);
    }

    /// A directory that the old tree lists keeps its identifier and its inode, under whatever path
    /// it is pushed: it has the same inode, and no other directory that is pushed or listed has it.
    pub proof fn law_directory_moves<S: Store>(
        &self,
        db: &S,
        after: &S,
        fresh: Seq<Option<Unique>>,
        ids: Seq<Unique>,
        new: Seq<ItemView>,
        result: Seq<ItemView>,
        i: int,
        k: int,
    )
        requires
            self.wf(db),
            in_order(self.pushes()),
            self.makes(db, fresh, ids, new, result),
            issues_all(db, after, handed(fresh, self.pushes().len() as int) + ids),
            0 <= i < self.pushes().len(),
            0 <= k < listing(self.base(db)).len(),
            self.pushes()[i].is_dir,
            listing(self.base(db))[k].entry.is_dir(),
            self.pushes()[i].inode == listing(self.base(db))[k].inode,
            forall|j: int|
                0 <= j < self.pushes().len() && j != i && (#[trigger] self.pushes()[j]).is_dir
                    ==> self.pushes()[j].inode != self.pushes()[i].inode,
            forall|l: int|
                0 <= l < listing(self.base(db)).len() && l != k && (#[trigger] listing(
                    self.base(db),
                )[l]).entry.is_dir() ==> listing(self.base(db))[l].inode
                    != self.pushes()[i].inode,
        ensures
            i < listing(result).len(),
            listing(result)[i].path == pushed_path(self.pushes(), i),
            listing(result)[i].entry.child_id() == listing(self.base(db))[k].entry.child_id(),
            listing(result)[i].inode == listing(self.base(db))[k].inode,
    {
        let (items, ps) = (self.base(db), self.pushes());
        let (w, old) = (walk(items), listing(items));
        assert(same_directory(ps, old, i, k));
        self.law_directory_keeps_id(db, fresh, i, k);
        self.lemma_result(db, after, fresh, ids, new, result);
        let rs = self.final_pushes(db, fresh);
        assert(lists_push(listing(result)[i], rs, i, old));
        if let Some(l) = rs[i].kept {
            if l < k {
                law_listed_once(items, l, k);
            } else if k < l {
                law_listed_once(items, k, l);
            }
        }
    }

    /// No directory is given a new identifier while one of a directory with its inode is to be had:
    /// either it has an identifier that the old tree knows, or all that the old tree lists for
    /// directories with its inode are those of pushes.
    pub proof fn law_no_identifier_wasted<S: Store>(
        &self,
        db: &S,
        after: &S,
        fresh: Seq<Option<Unique>>,
        ids: Seq<Unique>,
        new: Seq<ItemView>,
        result: Seq<ItemView>,
        i: int,
        k: int,
    )
        requires
            self.wf(db),
            in_order(self.pushes()),
            self.makes(db, fresh, ids, new, result),
            issues_all(db, after, handed(fresh, self.pushes().len() as int) + ids),
            0 <= i < self.pushes().len(),
            0 <= k < listing(self.base(db)).len(),
            self.pushes()[i].is_dir,
            listing(self.base(db))[k].entry.is_dir(),
            self.pushes()[i].inode == listing(self.base(db))[k].inode,
        ensures
            listing(result).len() == self.pushes().len(),
            knows(self.base(db), listing(result)[i].entry.child_id()) || exists|j: int|
                0 <= j < listing(result).len() && (#[trigger] listing(result)[j]).entry.child_id()
                    == listing(self.base(db))[k].entry.child_id(),
    {
        let (items, ps) = (self.base(db), self.pushes());
        let (w, old) = (walk(items), listing(items));
        let (qs, cs) = (uprooted_pushes(ps, fresh), self.full_changes(db, fresh));
        let origins = self.lemma_reasons(db, fresh);
        let (rs, n) = (self.final_pushes(db, fresh), cs.len() as int);
        let c = claims(cs, n);
        assert(walk_of(items, w));
        self.lemma_result(db, after, fresh, ids, new, result);
        assert(lists_push(listing(result)[i], rs, i, old));
        lemma_listing(items, k);
        if qs[i].kept is Some {
            lemma_kept_id(items, w, qs, cs, origins, i);
        } else {
            let x = lemma_settled_id(items, w, qs, cs, origins, i);
            lemma_claims(cs, n);
            if c[x] is None {
                assert(dropped(origins, k) != held(qs, k));
                if held(qs, k) {
                    let j = choose|j: int| 0 <= j < qs.len() && (#[trigger] qs[j]).kept == Some(k);
                    lemma_kept_id(items, w, qs, cs, origins, j);
                    assert(matches_push(items[w[k].pos], qs[j]));
                    assert(lists_push(listing(result)[j], rs, j, old));
                } else {
                    let y = choose|y: int|
                        0 <= y < origins.len() && #[trigger] origins[y] == Origin::Removed(k);
                    assert(traced(items, w, w.len() as int, qs, cs[y], origins[y]));
                    assert(frees(cs[y], qs[i].inode));
                    let z = if takes_back(cs, y + 1) {
                        y + 1
                    } else {
                        assert(c.take(x).contains(Some(y)));
                        choose|z: int| 0 <= z < x && #[trigger] c.take(x)[z] == Some(y)
                    };
                    assert(c[z] == Some(y));
                    assert(traced(items, w, w.len() as int, qs, cs[z], origins[z]));
                    let j = origins[z]->Inserted_0;
                    let u = lemma_settled_id(items, w, qs, cs, origins, j);
                    if u < z {
                        assert(origins[u] != origins[z]);
                    } else if z < u {
                        assert(origins[z] != origins[u]);
                    }
                    assert(lists_push(listing(result)[j], rs, j, old));
                }
            }
        }
    }

    /// A directory that is pushed under the path and with the inode of one that the old tree lists
    /// keeps its identifier and its inode, whatever else is pushed.
    pub proof fn law_directory_stays<S: Store>(
        &self,
        db: &S,
        after: &S,
        fresh: Seq<Option<Unique>>,
        ids: Seq<Unique>,
        new: Seq<ItemView>,
        result: Seq<ItemView>,
        i: int,
        k: int,
    )
        requires
            self.wf(db),
            in_order(self.pushes()),
            self.makes(db, fresh, ids, new, result),
            issues_all(db, after, handed(fresh, self.pushes().len() as int) + ids),
            0 <= i < self.pushes().len(),
            0 <= k < listing(self.base(db)).len(),
            self.pushes()[i].is_dir,
            listing(self.base(db))[k].entry.is_dir(),
            listing(self.base(db))[k].path == pushed_path(self.pushes(), i),
            listing(self.base(db))[k].inode == self.pushes()[i].inode,
        ensures
            i < listing(result).len(),
            listing(result)[i].path == listing(self.base(db))[k].path,
            listing(result)[i].entry.child_id() == listing(self.base(db))[k].entry.child_id(),
            listing(result)[i].inode == listing(self.base(db))[k].inode,
    {
        let items = self.base(db);
        self.lemma_all_finished(db);
        self.law_stays_under_path(db, fresh, i, k);
        self.lemma_result(db, after, fresh, ids, new, result);
        let rs = self.final_pushes(db, fresh);
        assert(lists_push(listing(result)[i], rs, i, listing(items)));
        if let Some(l) = rs[i].kept {
            if l < k {
                law_listed_once(items, l, k);
            } else if k < l {
                law_listed_once(items, k, l);
            }
        }
    }

    /// Where the identifiers in the new tree come from. A push has one that the old tree does not
    /// know, and then the inode that was pushed. Or it has that of a file that the old tree lists,
    /// and then the inode that is listed. That is one under the same path, whose entry it keeps, or
    /// both are directories with the same inode.
    pub proof fn law_where_from<S: Store>(
        &self,
        db: &S,
        after: &S,
        fresh: Seq<Option<Unique>>,
        ids: Seq<Unique>,
        new: Seq<ItemView>,
        result: Seq<ItemView>,
        i: int,
    )
        requires
            self.wf(db),
            in_order(self.pushes()),
            self.makes(db, fresh, ids, new, result),
            issues_all(db, after, handed(fresh, self.pushes().len() as int) + ids),
            0 <= i < self.pushes().len(),
        ensures
            i < listing(result).len(),
            ({
                let here = listing(result)[i];
                let p = self.pushes()[i];
                let old = listing(self.base(db));
                let id = here.entry.child_id();
                ||| here.inode == p.inode && forall|q: int|
                    0 <= q < self.base(db).len() ==> (#[trigger] self.base(db)[q]).file_id() != id
                        && (self.base(db)[q] is DirEntry ==> self.base(db)[q].child_id() != id)
                ||| exists|k: int|
                    0 <= k < old.len() && (#[trigger] old[k]).entry.child_id() == id
                        && old[k].entry.is_dir() == p.is_dir && old[k].inode == here.inode && ((
                    old[k].path == pushed_path(self.pushes(), i) && old[k].entry == here.entry) || (
                    p.is_dir && old[k].inode == p.inode))
            }),
    {
        let (items, ps) = (self.base(db), self.pushes());
        let (w, old) = (walk(items), listing(items));
        let (qs, cs) = (uprooted_pushes(ps, fresh), self.full_changes(db, fresh));
        let origins = self.lemma_reasons(db, fresh);
        assert(walk_of(items, w));
        self.lemma_result(db, after, fresh, ids, new, result);
        let rs = self.final_pushes(db, fresh);
        let here = listing(result)[i];
        assert(lists_push(here, rs, i, old));
        if let Some(k) = rs[i].kept {
            assert(ps[i].kept == Some(k));
            self.law_found_in_place(db, i);
            assert(old[k].entry == here.entry);
        } else {
            let x = lemma_settled_id(items, w, qs, cs, origins, i);
            if let Some(y) = claims(cs, cs.len() as int)[x] {
                let k = origins[y]->Removed_0;
                lemma_listing(items, k);
                assert(takes(items, w, origins, rs[i], k));
                assert(old[k].entry.child_id() == here.entry.child_id());
            } else {
                assert(!knows(items, qs[i].id));
                assert(here.entry.child_id() == qs[i].id);
            }
        }
    }

    /// What the new tree lists: every push, in the order of the pushes, under the names on the way
    /// to it, with its own name and kind.
    pub proof fn law_lists_what_was_pushed<S: Store>(
        &self,
        db: &S,
        after: &S,
        fresh: Seq<Option<Unique>>,
        ids: Seq<Unique>,
        new: Seq<ItemView>,
        result: Seq<ItemView>,
    )
        requires
            self.wf(db),
            in_order(self.pushes()),
            self.makes(db, fresh, ids, new, result),
            issues_all(db, after, handed(fresh, self.pushes().len() as int) + ids),
        ensures
            listing(result).len() == self.pushes().len(),
            forall|i: int|
                0 <= i < self.pushes().len() ==> (#[trigger] listing(result)[i]).depth
                    == self.pushes()[i].depth && listing(result)[i].entry.name()
                    == self.pushes()[i].name && listing(result)[i].path.last()
                    == self.pushes()[i].name && listing(result)[i].entry.is_dir()
                    == self.pushes()[i].is_dir && listing(result)[i].entry is DirEntry && listing(
                    result,
                )[i].entry->DirEntry_deletions.len() == 0,
    {
        self.lemma_result(db, after, fresh, ids, new, result);
        let rs = self.final_pushes(db, fresh);
        assert forall|i: int| 0 <= i < self.pushes().len() implies (
        #[trigger] listing(result)[i]).depth == self.pushes()[i].depth && listing(
            result,
        )[i].entry.name() == self.pushes()[i].name && listing(result)[i].path.last()
            == self.pushes()[i].name && listing(result)[i].entry.is_dir()
            == self.pushes()[i].is_dir && listing(result)[i].entry is DirEntry && listing(
            result,
        )[i].entry->DirEntry_deletions.len() == 0 by {
            assert(lists_push(listing(result)[i], rs, i, listing(self.base(db))));
            law_listed_in_directory(result, i);
            law_listed_item(result, i);
        }
    }

    /// An entry that the old tree lists, and that no push has found, is deleted in the new tree, in
    /// whatever order the pushes came: it has one more identifier for its deletion, which the store
    /// had not issued before, and is else as it was.
    pub proof fn law_not_found_is_deleted<S: Store>(
        &self,
        db: &S,
        after: &S,
        fresh: Seq<Option<Unique>>,
        ids: Seq<Unique>,
        new: Seq<ItemView>,
        result: Seq<ItemView>,
        k: int,
    )
        requires
            self.wf(db),
            self.makes(db, fresh, ids, new, result),
            issues_all(db, after, handed(fresh, self.pushes().len() as int) + ids),
            0 <= k < listing(self.base(db)).len(),
            forall|i: int|
                0 <= i < self.pushes().len() ==> (#[trigger] self.pushes()[i]).kept != Some(k),
        ensures
            exists|a: int|
                0 <= a < result.len() && (#[trigger] result[a] matches ItemView::DirEntry {
                    file_id,
                    entry_id,
                    child_id,
                    name,
                    is_dir,
                    deletions,
                    moves,
                } && deletions.len() > 0 && !db.issued(deletions.last()) && after.issued(
                    deletions.last(),
                ) && listing(self.base(db))[k].entry == (ItemView::DirEntry {
                    file_id,
                    entry_id,
                    child_id,
                    name,
                    is_dir,
                    deletions: deletions.drop_last(),
                    moves,
                })),
    {
        let (items, ps) = (self.base(db), self.pushes());
        let (w, old) = (walk(items), listing(items));
        let (qs, cs) = (uprooted_pushes(ps, fresh), self.full_changes(db, fresh));
        let origins = self.lemma_reasons(db, fresh);
        assert(walk_of(items, w));
        lemma_listing(items, k);
        assert(dropped(origins, k) != held(qs, k));
        if held(qs, k) {
            let i = choose|i: int| 0 <= i < qs.len() && (#[trigger] qs[i]).kept == Some(k);
            assert(ps[i].kept == Some(k));
        }
        let x = choose|x: int|
            0 <= x < origins.len() && #[trigger] origins[x] == Origin::Removed(k);
        assert(traced(items, w, w.len() as int, qs, cs[x], origins[x]));
        let last = settled(cs);
        assert(last[x] == cs[x]);
        assert(visible(items, w[k].pos));
        let u = lemma_removal_rendered(last, ids, last.len() as int, x);
        let all = rendered(last, ids, last.len() as int);
        let order = choose|order: Seq<int>| rearranged(all, new, order);
        assert(covers(order, u));
        let t = choose|t: int| 0 <= t < order.len() && #[trigger] order[t] == u;
        lemma_overlay_made_of(items, 0, new, 0);
        assert(new[t] == all[u]);
        assert(result.contains(new[t]));
        let a = choose|a: int| 0 <= a < result.len() && result[a] == new[t];
        let given = handed(fresh, ps.len() as int);
        assert((given + ids)[given.len() + x] == ids[x]);
        assert((given + ids).contains(ids[x]));
        assert(result[a] is DirEntry);
    }

    /// An entry that the old tree lists, and under whose path nothing of its kind is pushed, is
    /// deleted in the new tree: it has one more identifier for its deletion, which the store had
    /// not issued before, and is else as it was.
    pub proof fn law_missing_is_deleted<S: Store>(
        &self,
        db: &S,
        after: &S,
        fresh: Seq<Option<Unique>>,
        ids: Seq<Unique>,
        new: Seq<ItemView>,
        result: Seq<ItemView>,
        k: int,
    )
        requires
            self.wf(db),
            in_order(self.pushes()),
            self.makes(db, fresh, ids, new, result),
            issues_all(db, after, handed(fresh, self.pushes().len() as int) + ids),
            0 <= k < listing(self.base(db)).len(),
            forall|i: int|
                0 <= i < self.pushes().len() && (#[trigger] self.pushes()[i]).is_dir == listing(
                    self.base(db),
                )[k].entry.is_dir() ==> pushed_path(self.pushes(), i) != listing(
                    self.base(db),
                )[k].path,
        ensures
            exists|a: int|
                0 <= a < result.len() && (#[trigger] result[a] matches ItemView::DirEntry {
                    file_id,
                    entry_id,
                    child_id,
                    name,
                    is_dir,
                    deletions,
                    moves,
                } && deletions.len() > 0 && !db.issued(deletions.last()) && after.issued(
                    deletions.last(),
                ) && listing(self.base(db))[k].entry == (ItemView::DirEntry {
                    file_id,
                    entry_id,
                    child_id,
                    name,
                    is_dir,
                    deletions: deletions.drop_last(),
                    moves,
                })),
    {
        let (ps, old) = (self.pushes(), listing(self.base(db)));
        assert forall|i: int| 0 <= i < ps.len() implies (#[trigger] ps[i]).kept != Some(k) by {
            if ps[i].kept == Some(k) {
                self.law_found_in_place(db, i);
                assert(ps[i].is_dir == old[k].entry.is_dir());
            }
        }
        self.law_not_found_is_deleted(db, after, fresh, ids, new, result, k);
    }

    /// The entry of a push in the new tree.
    proof fn lemma_push_entry<S: Store>(
        &self,
        db: &S,
        fresh: Seq<Option<Unique>>,
        ids: Seq<Unique>,
        new: Seq<ItemView>,
        result: Seq<ItemView>,
        i: int,
    ) -> (a: int)
        requires
            self.wf(db),
            self.makes(db, fresh, ids, new, result),
            0 <= i < self.pushes().len(),
        ensures
            0 <= a < result.len(),
            entry_of_push(result[a], self.final_pushes(db, fresh)[i]),
            comes_from(self.base(db), result, result[a], self.pushes()[i]),
    {
        let (items, ps) = (self.base(db), self.pushes());
        let (w, old) = (walk(items), listing(items));
        let (qs, cs) = (uprooted_pushes(ps, fresh), self.full_changes(db, fresh));
        let rs = self.final_pushes(db, fresh);
        let origins = self.lemma_reasons(db, fresh);
        assert(walk_of(items, w));
        if let Some(k) = qs[i].kept {
            assert(ps[i].kept == Some(k) && fresh[i] is None);
            lemma_listing(items, k);
            assert(visible(items, w[k].pos));
            self.law_nothing_lost(db, fresh, ids, new, result, w[k].pos);
            assert(result.contains(items[w[k].pos]));
            let a = choose|a: int| 0 <= a < result.len() && result[a] == items[w[k].pos];
            assert(matches_push(items[w[k].pos], qs[i]));
            lemma_kept_id(items, w, qs, cs, origins, i);
            assert(listed_as(old, k, result[a], ps[i]));
            a
        } else {
            let x = lemma_settled_id(items, w, qs, cs, origins, i);
            assert(traced(items, w, w.len() as int, qs, cs[x], origins[x]));
            let last = settled(cs);
            let u = lemma_entry_rendered(last, ids, last.len() as int, x);
            let all = rendered(last, ids, last.len() as int);
            let order = choose|order: Seq<int>| rearranged(all, new, order);
            lemma_overlay_made_of(items, 0, new, 0);
            assert forall|v: int| 0 <= v < all.len() implies #[trigger] result.contains(all[v]) by {
                assert(covers(order, v));
                let t = choose|t: int| 0 <= t < order.len() && #[trigger] order[t] == v;
                assert(new[t] == all[v]);
                assert(result.contains(new[t]));
            }
            assert(result.contains(all[u]));
            let a = choose|a: int| 0 <= a < result.len() && result[a] == all[u];
            if let Some(y) = claims(cs, cs.len() as int)[x] {
                let k = origins[y]->Removed_0;
                assert(takes(items, w, origins, rs[i], k));
                lemma_listing(items, k);
                assert(listed_as(old, k, result[a], ps[i]));
            } else {
                assert(!knows(items, qs[i].id));
                let item = ItemView::Metadata {
                    file_id: qs[i].id,
                    is_dir: ps[i].is_dir,
                    inode: ps[i].inode,
                };
                assert(all.contains(item));
                let v = choose|v: int| 0 <= v < all.len() && all[v] == item;
                assert(result.contains(all[v]));
            }
            a
        }
    }

    /// Every push has its entry in the new tree, in whatever order the pushes came. It has the name
    /// and the kind that were pushed, is not deleted, and lies in the root directory, or in the
    /// file of the push that it was put in. What it names is a file that the old tree does not
    /// know, and then its metadata has the inode that was pushed. Or it is a file that the old tree
    /// lists: the one whose entry the push found, which is then as it was, or a directory with the
    /// inode that was pushed. The law gives where the entries are.
    pub proof fn law_pushes_have_entries<S: Store>(
        &self,
        db: &S,
        fresh: Seq<Option<Unique>>,
        ids: Seq<Unique>,
        new: Seq<ItemView>,
        result: Seq<ItemView>,
    ) -> (at: Seq<int>)
        requires
            self.wf(db),
            self.makes(db, fresh, ids, new, result),
        ensures
            at.len() == self.pushes().len(),
            forall|i: int|
                0 <= i < at.len() ==> 0 <= #[trigger] at[i] < result.len() && (
                result[at[i]] matches ItemView::DirEntry { file_id, name, is_dir, deletions, .. }
                    && name == self.pushes()[i].name && is_dir == self.pushes()[i].is_dir
                    && deletions.len() == 0 && (self.pushes()[i].parent == root_id() ==> file_id
                    == root_id())),
            forall|h: int, i: int|
                #![trigger at[h], at[i]]
                0 <= h < at.len() && 0 <= i < at.len() && self.pushes()[h].id
                    == self.pushes()[i].parent ==> result[at[i]].file_id()
                    == result[at[h]].child_id(),
            forall|i: int|
                0 <= i < at.len() ==> comes_from(
                    self.base(db),
                    result,
                    result[#[trigger] at[i]],
                    self.pushes()[i],
                ),
    {
        let (items, ps) = (self.base(db), self.pushes());
        let (w, old) = (walk(items), listing(items));
        let (qs, cs) = (uprooted_pushes(ps, fresh), self.full_changes(db, fresh));
        let rs = self.final_pushes(db, fresh);
        let origins = self.lemma_reasons(db, fresh);
        self.lemma_all_finished(db);
        let at = Seq::new(
            ps.len(),
            |i: int|
                choose|a: int|
                    0 <= a < result.len() && entry_of_push(#[trigger] result[a], rs[i])
                        && comes_from(items, result, result[a], ps[i]),
        );
        assert forall|i: int| 0 <= i < at.len() implies 0 <= #[trigger] at[i] < result.len()
            && entry_of_push(result[at[i]], rs[i]) && comes_from(
            items,
            result,
            result[at[i]],
            ps[i],
        ) by {
            let a = self.lemma_push_entry(db, fresh, ids, new, result, i);
            assert(entry_of_push(result[a], rs[i]));
        }
        assert forall|i: int| 0 <= i < at.len() implies 0 <= #[trigger] at[i] < result.len() && (
        result[at[i]] matches ItemView::DirEntry { file_id, name, is_dir, deletions, .. } && name
            == ps[i].name && is_dir == ps[i].is_dir && deletions.len() == 0 && (ps[i].parent
            == root_id() ==> file_id == root_id())) by {
            if ps[i].parent == root_id() {
                lemma_regiven_other(ps, fresh, root_id(), 0);
                lemma_known_id(items, w, qs, cs, origins, root_id());
            }
        }
        assert forall|h: int, i: int|
            #![trigger at[h], at[i]]
            0 <= h < at.len() && 0 <= i < at.len() && ps[h].id == ps[i].parent implies result[
        at[i]].file_id() == result[at[h]].child_id() by {
            lemma_regiven(ps, fresh, h, 0);
        }
        at
    }

    /// If every directory that was found has the inode that is listed, all that was found is in the
    /// new tree as it was, in whatever order the pushes came.
    pub proof fn law_found_is_kept<S: Store>(
        &self,
        db: &S,
        fresh: Seq<Option<Unique>>,
        ids: Seq<Unique>,
        new: Seq<ItemView>,
        result: Seq<ItemView>,
        i: int,
        k: int,
    )
        requires
            self.wf(db),
            self.makes(db, fresh, ids, new, result),
            forall|h: int|
                0 <= h < self.pushes().len() && (#[trigger] self.pushes()[h]).is_dir ==> (
                self.pushes()[h].kept matches Some(l) ==> self.pushes()[h].inode == listing(
                    self.base(db),
                )[l].inode),
            0 <= i < self.pushes().len(),
            self.pushes()[i].kept == Some(k),
        ensures
            0 <= k < listing(self.base(db)).len(),
            result.contains(listing(self.base(db))[k].entry),
    {
        let (items, ps, all) = (self.base(db), self.pushes(), self.all_changes(db));
        let (w, old, n) = (walk(items), listing(items), ps.len() as int);
        self.lemma_all_finished(db);
        assert(walk_of(items, w));
        assert forall|h: int| 0 <= h < n implies !#[trigger] intrudes(ps, old, all, h) by {
            assert(ps[h].is_dir ==> (ps[h].kept matches Some(l) ==> ps[h].inode == old[l].inode));
        }
        lemma_no_intruder(ps, old, all, n);
        assert(fresh[i] is None) by {
            assert(!uprooted(ps, old, all, n)[i]);
        }
        assert(ps[i].kept matches Some(l) ==> 0 <= l < w.len());
        lemma_listing(items, k);
        assert(visible(items, w[k].pos));
        self.law_nothing_lost(db, fresh, ids, new, result, w[k].pos);
    }

    /// A directory that the old tree lists has an entry in the new tree, in whatever order the
    /// pushes came, if one with its inode is pushed, and no other directory that is pushed or
    /// listed has that inode. The entry has the name that was pushed.
    pub proof fn law_directory_has_entry<S: Store>(
        &self,
        db: &S,
        fresh: Seq<Option<Unique>>,
        ids: Seq<Unique>,
        new: Seq<ItemView>,
        result: Seq<ItemView>,
        i: int,
        k: int,
    )
        requires
            self.wf(db),
            self.makes(db, fresh, ids, new, result),
            0 <= i < self.pushes().len(),
            0 <= k < listing(self.base(db)).len(),
            self.pushes()[i].is_dir,
            listing(self.base(db))[k].entry.is_dir(),
            self.pushes()[i].inode == listing(self.base(db))[k].inode,
            forall|j: int|
                0 <= j < self.pushes().len() && j != i && (#[trigger] self.pushes()[j]).is_dir
                    ==> self.pushes()[j].inode != self.pushes()[i].inode,
            forall|l: int|
                0 <= l < listing(self.base(db)).len() && l != k && (#[trigger] listing(
                    self.base(db),
                )[l]).entry.is_dir() ==> listing(self.base(db))[l].inode
                    != self.pushes()[i].inode,
        ensures
            exists|a: int|
                0 <= a < result.len() && (#[trigger] result[a] matches ItemView::DirEntry {
                    child_id,
                    name,
                    is_dir,
                    deletions,
                    ..
                } && child_id == listing(self.base(db))[k].entry.child_id() && name
                    == self.pushes()[i].name && is_dir && deletions.len() == 0),
    {
        let (ps, old) = (self.pushes(), listing(self.base(db)));
        assert(same_directory(ps, old, i, k));
        self.law_directory_keeps_id(db, fresh, i, k);
        let a = self.lemma_push_entry(db, fresh, ids, new, result, i);
        assert(result[a] is DirEntry);
    }

    /// Every identifier that is issued for new entries and deletions is that of one of them.
    pub proof fn law_identifiers_are_used<S: Store>(
        &self,
        db: &S,
        fresh: Seq<Option<Unique>>,
        ids: Seq<Unique>,
        new: Seq<ItemView>,
        result: Seq<ItemView>,
        x: int,
    )
        requires
            self.wf(db),
            self.makes(db, fresh, ids, new, result),
            0 <= x < ids.len(),
        ensures
            exists|a: int|
                0 <= a < result.len() && (#[trigger] result[a] matches ItemView::DirEntry {
                    entry_id,
                    deletions,
                    ..
                } && ids[x] == if deletions.len() == 0 {
                    entry_id
                } else {
                    deletions.last()
                }),
    {
        let items = self.base(db);
        let last = settled(self.full_changes(db, fresh));
        self.lemma_removes_listed(db, fresh);
        assert(last[x] is Remove ==> last[x]->Remove_entry is DirEntry);
        let u = lemma_mark_rendered(last, ids, last.len() as int, x);
        let all = rendered(last, ids, last.len() as int);
        let order = choose|order: Seq<int>| rearranged(all, new, order);
        assert(covers(order, u));
        let t = choose|t: int| 0 <= t < order.len() && #[trigger] order[t] == u;
        lemma_overlay_made_of(items, 0, new, 0);
        assert(new[t] == all[u]);
        assert(result.contains(new[t]));
        let a = choose|a: int| 0 <= a < result.len() && result[a] == new[t];
        assert(result[a] is DirEntry);
    }

    /// Metadata in the new tree that the old tree does not have is that of a push: it has the kind
    /// and the inode that were pushed, and the identifier under which the push is listed, which the
    /// old tree does not know.
    pub proof fn law_new_metadata<S: Store>(
        &self,
        db: &S,
        after: &S,
        fresh: Seq<Option<Unique>>,
        ids: Seq<Unique>,
        new: Seq<ItemView>,
        result: Seq<ItemView>,
        a: int,
    )
        requires
            self.wf(db),
            in_order(self.pushes()),
            self.makes(db, fresh, ids, new, result),
            issues_all(db, after, handed(fresh, self.pushes().len() as int) + ids),
            0 <= a < result.len(),
            result[a] is Metadata,
            !self.base(db).contains(result[a]),
        ensures
            exists|i: int|
                0 <= i < self.pushes().len() && result[a] == (ItemView::Metadata {
                    file_id: (#[trigger] listing(result)[i]).entry.child_id(),
                    is_dir: self.pushes()[i].is_dir,
                    inode: self.pushes()[i].inode,
                }),
            forall|q: int|
                0 <= q < self.base(db).len() ==> (#[trigger] self.base(db)[q]).file_id()
                    != result[a].file_id() && (self.base(db)[q] is DirEntry ==> self.base(
                    db,
                )[q].child_id() != result[a].file_id()),
    {
        let (items, ps) = (self.base(db), self.pushes());
        let (w, old) = (walk(items), listing(items));
        let (qs, cs) = (uprooted_pushes(ps, fresh), self.full_changes(db, fresh));
        let origins = self.lemma_reasons(db, fresh);
        let last = settled(cs);
        assert(walk_of(items, w));
        self.lemma_removes_listed(db, fresh);
        let all = rendered(last, ids, last.len() as int);
        let order = choose|order: Seq<int>| rearranged(all, new, order);
        let src = sources(items, 0, new, 0);
        lemma_overlay_made_of(items, 0, new, 0);
        assert(result[a] == source_item(items, new, src[a]));
        if let Source::Old(q) = src[a] {
            assert(result[a] == items[q]);
        }
        let t = src[a]->New_0;
        assert(new[t] == all[order[t]]);
        let x = lemma_metadata_rendered(last, ids, last.len() as int, order[t]);
        assert(traced(items, w, w.len() as int, qs, cs[x], origins[x]));
        let i = origins[x]->Inserted_0;
        let z = lemma_settled_id(items, w, qs, cs, origins, i);
        if x < z {
            assert(origins[x] != origins[z]);
        } else if z < x {
            assert(origins[z] != origins[x]);
        }
        assert(!knows(items, qs[i].id));
        self.lemma_result(db, after, fresh, ids, new, result);
        let rs = self.final_pushes(db, fresh);
        assert(lists_push(listing(result)[i], rs, i, old));
        assert(listing(result)[i].entry.child_id() == qs[i].id);
    }

    /// Pushing what a tree lists, every directory with the inode that is listed, leads to the same
    /// items, whatever inodes other files have. No identifier is issued for it.
    pub proof fn law_same_listing_same_tree<S: Store>(
        &self,
        db: &S,
        after: &S,
        fresh: Seq<Option<Unique>>,
        ids: Seq<Unique>,
        new: Seq<ItemView>,
        result: Seq<ItemView>,
    )
        requires
            self.wf(db),
            self.makes(db, fresh, ids, new, result),
            issues_all(db, after, handed(fresh, self.pushes().len() as int) + ids),
            self.pushes().len() == listing(self.base(db)).len(),
            forall|i: int|
                0 <= i < self.pushes().len() ==> (#[trigger] self.pushes()[i]).depth == listing(
                    self.base(db),
                )[i].depth && self.pushes()[i].name == listing(self.base(db))[i].entry.name()
                    && self.pushes()[i].is_dir == listing(self.base(db))[i].entry.is_dir() && (
                self.pushes()[i].is_dir ==> self.pushes()[i].inode == listing(
                    self.base(db),
                )[i].inode),
        ensures
            result == self.base(db),
            after.supply() == db.supply(),
            forall|id: Unique| #[trigger] after.issued(id) == db.issued(id),
    {
        let (items, ps, all) = (self.base(db), self.pushes(), self.all_changes(db));
        let (old, n) = (listing(items), ps.len() as int);
        assert(relists(ps, old)) by {
            assert forall|i: int| 0 <= i < ps.len() implies (#[trigger] ps[i]).depth == old[i].depth
                && ps[i].kind() == entry_kind(old[i].entry) by {}
        }
        self.law_same_tree(db, fresh, ids, new, result);
        assert forall|i: int| 0 <= i < n implies !#[trigger] intrudes(ps, old, all, i) by {
            assert(ps[i].kept == Some(i));
        }
        lemma_no_intruder(ps, old, all, n);
        assert forall|i: int| 0 <= i < n implies #[trigger] fresh[i] is None by {
            assert(!uprooted(ps, old, all, n)[i]);
        }
        lemma_none_uprooted(ps, old, all, fresh);
        assert(all =~= Seq::empty());
        assert(handed(fresh, n) + ids =~= Seq::empty());
    }
}

} // verus!
