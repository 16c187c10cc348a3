//! The tree that a builder makes: that it is one, and what it lists.

use vstd::prelude::*;

use super::item::ItemView;
use super::key::{key_lt, lemma_key_lt_asymmetric, lemma_key_lt_irreflexive, lemma_key_lt_total};
use super::laws::{lemma_lookup_push, lemma_search};
use super::merge::{dropped, held, knows, matches_push, recorded, ChangeView, Origin};
use super::model::{
    ancestor, entry_kind, in_directory, inode_of, is_entry, is_metadata_of, layout, leads,
    lemma_child_metadata, lemma_metadata_pos, lemma_seek_leading, listed, listing, metadata_pos,
    names_file, parent, placed, reaches, sorted, trail, visible, visits, walk, walk_of, well_formed,
    Listed, Visit,
};
use super::moves::{accounted, resolved, takes};
use super::overlay::{
    among, applicable, available, comes_first, item_lt, lemma_overlay, overlay, replaced, slot,
    source_item, sources, Source,
};
use super::pushes::{
    all_housed, holds_nothing, housed, in_order, lemma_path_above, lemma_same_parent, lemma_under,
    lemma_up, nested, parent_id, pushed_path, under, up, Pushed,
};
use super::rebuild::{is_meta, is_new, is_removal, patch, piece, served, sourced};
use super::tours::{goes_forward, lemma_lined_up, opens_one};
use super::tree::lookup;
use super::walks::{lemma_listing, lemma_walk_unique};
use crate::id::{root_id, Unique};

verus! {

/// Whether what is listed is the push at `i`: its depth, the names on the way to it, its entry, and
/// its inode. If the push found its entry in the old tree, it is that entry with its old inode. If
/// not, it has the inode that was pushed. In either case the entry is not deleted.
pub open spec fn lists_push(here: Listed, ps: Seq<Pushed>, i: int, old: Seq<Listed>) -> bool {
    &&& here.depth == ps[i].depth
    &&& here.path == pushed_path(ps, i)
    &&& matches_push(here.entry, ps[i])
    &&& !here.entry.is_deleted()
    &&& match ps[i].kept {
        Some(k) => 0 <= k < old.len() && here.entry == old[k].entry && here.inode == old[k].inode,
        None => here.inode == ps[i].inode,
    }
}

/// Whether the listing of the new tree is that of the pushes.
pub open spec fn lists(new: Seq<Listed>, ps: Seq<Pushed>, old: Seq<Listed>) -> bool {
    &&& new.len() == ps.len()
    &&& forall|i: int| 0 <= i < ps.len() ==> lists_push(#[trigger] new[i], ps, i, old)
}

/// Whether what is listed is the entry of the push.
pub open spec fn shows(here: Listed, p: Pushed) -> bool {
    matches_push(here.entry, p) && !here.entry.is_deleted()
}

/// Whether what is listed is the entry of one of the pushes.
pub open spec fn was_pushed(ps: Seq<Pushed>, here: Listed) -> bool {
    exists|i: int| 0 <= i < ps.len() && shows(here, #[trigger] ps[i])
}

/// Whether the entry of the push is listed.
pub open spec fn is_shown(new: Seq<Listed>, p: Pushed) -> bool {
    exists|l: int| 0 <= l < new.len() && shows(#[trigger] new[l], p)
}

/// Whether nothing else than pushes is listed, and every push is if all were put in directories.
pub open spec fn lists_pushes(new: Seq<Listed>, ps: Seq<Pushed>) -> bool {
    &&& forall|l: int| 0 <= l < new.len() ==> was_pushed(ps, #[trigger] new[l])
    &&& all_housed(ps) ==> forall|i: int| 0 <= i < ps.len() ==> is_shown(new, #[trigger] ps[i])
}

/// What a builder has collected once the walk through the old items has come to its end.
pub struct Merge {
    pub items: Seq<ItemView>,
    pub walk: Seq<Visit>,
    pub pushes: Seq<Pushed>,
    pub changes: Seq<ChangeView>,
    pub origins: Seq<Origin>,
    /// The new items.
    pub new: Seq<ItemView>,
}

impl Merge {
    /// The items of the new tree.
    pub open spec fn result(self) -> Seq<ItemView> {
        overlay(self.items, 0, self.new, 0)
    }

    /// Where the items of the new tree come from.
    pub open spec fn sources(self) -> Seq<Source> {
        sources(self.items, 0, self.new, 0)
    }

    /// Whether what was collected belongs together.
    pub open spec fn valid(self) -> bool {
        &&& layout(self.items)
        &&& walk_of(self.items, self.walk)
        &&& resolved(self.items, self.walk, self.pushes, self.changes, self.origins)
        &&& patch(self.items, self.walk, self.pushes, self.origins, self.new)
    }

    /// Whether the item is made for a reason.
    spec fn made(self, item: ItemView) -> bool {
        sourced(
            self.items,
            self.walk,
            self.pushes,
            self.origins,
            self.origins.len() as int,
            item,
        )
    }

    /// Whether the item was made for the push `i`.
    spec fn made_for(self, i: int, item: ItemView) -> bool {
        is_new(self.pushes[i], item) || (is_meta(self.pushes[i], item) && !knows(
            self.items,
            self.pushes[i].id,
        ))
    }

    /// Why an item was made: for an entry to be deleted, or for a push.
    proof fn lemma_made(self, item: ItemView)
        requires
            self.valid(),
            self.made(item),
        ensures
            ({
                ||| exists|k: int|
                    0 <= k < self.walk.len() && #[trigger] dropped(self.origins, k) && is_removal(
                        self.items[self.walk[k].pos],
                        item,
                    )
                ||| exists|i: int|
                    0 <= i < self.pushes.len() && (#[trigger] self.pushes[i]).kept is None
                        && self.made_for(i, item)
            }),
    {
        let x = choose|x: int|
            0 <= x < self.origins.len() && piece(
                self.items,
                self.walk,
                self.pushes,
                #[trigger] self.origins[x],
                item,
            );
        assert(accounted(
            self.items,
            self.walk,
            self.pushes,
            self.changes[x],
            self.origins[x],
        ));
        match self.origins[x] {
            Origin::Removed(k) => {
                assert(dropped(self.origins, k));
            },
            Origin::Inserted(i) => {
                assert(self.pushes[i].kept is None);
            },
        }
    }

    /// A deleted new item takes the place of a visited entry.
    proof fn lemma_removal(self, t: int) -> (k: int)
        requires
            self.valid(),
            0 <= t < self.new.len(),
            self.new[t].is_deleted(),
        ensures
            0 <= k < self.walk.len(),
            dropped(self.origins, k),
            is_removal(self.items[self.walk[k].pos], self.new[t]),
            slot(self.items, 0, self.new[t]) == self.walk[k].pos,
            visible(self.items, self.walk[k].pos),
    {
        assert(self.made(self.new[t]));
        self.lemma_made(self.new[t]);
        let k = choose|k: int|
            0 <= k < self.walk.len() && #[trigger] dropped(self.origins, k) && is_removal(
                self.items[self.walk[k].pos],
                self.new[t],
            );
        assert(visible(self.items, self.walk[k].pos));
        lemma_seek_leading(self.items, self.walk[k].pos);
        k
    }

    /// The new items can be put in.
    proof fn lemma_applicable(self)
        requires
            self.valid(),
        ensures
            applicable(self.items, self.new),
    {
        assert forall|t: int|
            0 <= t < self.new.len() && (#[trigger] self.new[t]).is_deleted() implies slot(
            self.items,
            0,
            self.new[t],
        ) < self.items.len() && self.items[slot(self.items, 0, self.new[t])].key()
            == self.new[t].key() by {
            let k = self.lemma_removal(t);
        }
    }

    /// An old item whose place is taken was visited, and is to be deleted.
    proof fn lemma_replaced(self, q: int) -> (k: int)
        requires
            self.valid(),
            replaced(self.items, self.new, 0, q),
        ensures
            0 <= k < self.walk.len(),
            dropped(self.origins, k),
            self.walk[k].pos == q,
            visible(self.items, q),
    {
        let u = choose|u: int|
            0 <= u < self.new.len() && (#[trigger] self.new[u]).is_deleted() && slot(
                self.items,
                0,
                self.new[u],
            ) == q;
        self.lemma_removal(u)
    }

    /// The place of a visited entry that is to be deleted is taken.
    proof fn lemma_dropped(self, k: int)
        requires
            self.valid(),
            0 <= k < self.walk.len(),
            dropped(self.origins, k),
        ensures
            replaced(self.items, self.new, 0, self.walk[k].pos),
    {
        let q = self.walk[k].pos;
        let x = choose|x: int|
            0 <= x < self.origins.len() && #[trigger] self.origins[x] == Origin::Removed(k);
        assert(served(self.items, self.walk, self.pushes, self.origins[x], self.new));
        let t = choose|t: int|
            0 <= t < self.new.len() && is_removal(self.items[q], #[trigger] self.new[t]);
        assert(visible(self.items, q));
        lemma_seek_leading(self.items, q);
        assert(self.new[t].is_deleted());
    }

    /// The place of a source in the new tree.
    spec fn spot(self, source: Source) -> int {
        choose|a: int| 0 <= a < self.sources().len() && #[trigger] self.sources()[a] == source
    }

    /// The sources, one by one.
    proof fn lemma_source(self, a: int)
        requires
            self.valid(),
            0 <= a < self.result().len(),
        ensures
            self.sources().len() == self.result().len(),
            self.result()[a] == source_item(self.items, self.new, self.sources()[a]),
            available(self.items, 0, self.new, 0, self.sources()[a]),
            self.spot(self.sources()[a]) == a,
    {
        self.lemma_applicable();
        lemma_overlay(self.items, self.new);
        let b = self.spot(self.sources()[a]);
        assert(0 <= b < self.sources().len() && self.sources()[b] == self.sources()[a]);
        if a < b {
            assert(comes_first(self.items, self.new, self.sources()[a], self.sources()[b]));
        } else if b < a {
            assert(comes_first(self.items, self.new, self.sources()[b], self.sources()[a]));
        }
        if a != b {
            if let Source::Old(q) = self.sources()[a] {
                lemma_key_lt_irreflexive(self.items[q].key());
            }
        }
    }

    /// The sources, in order.
    proof fn lemma_order(self, a: int, b: int)
        requires
            self.valid(),
            0 <= a < b < self.result().len(),
        ensures
            comes_first(self.items, self.new, self.sources()[a], self.sources()[b]),
    {
        self.lemma_applicable();
        lemma_overlay(self.items, self.new);
    }

    /// What is available is in the new tree.
    proof fn lemma_spot(self, source: Source)
        requires
            self.valid(),
            available(self.items, 0, self.new, 0, source),
        ensures
            0 <= self.spot(source) < self.result().len(),
            self.sources()[self.spot(source)] == source,
            self.result()[self.spot(source)] == source_item(self.items, self.new, source),
    {
        self.lemma_applicable();
        lemma_overlay(self.items, self.new);
        assert(among(self.sources(), source));
    }

    /// Items of the new tree are in the order of their keys, and new ones strictly.
    proof fn lemma_sorted_pair(self, a: int, b: int)
        requires
            self.valid(),
            0 <= a < b < self.result().len(),
        ensures
            !key_lt(self.result()[b].key(), self.result()[a].key()),
            self.sources()[b] is New && !self.result()[b].is_deleted() ==> key_lt(
                self.result()[a].key(),
                self.result()[b].key(),
            ),
    {
        self.lemma_source(a);
        self.lemma_source(b);
        self.lemma_order(a, b);
        let (x, y) = (self.result()[a].key(), self.result()[b].key());
        match (self.sources()[a], self.sources()[b]) {
            (Source::Old(p), Source::Old(q)) => {
                assert(!key_lt(self.items[q].key(), self.items[p].key()));
            },
            (Source::New(t), Source::New(u)) => {
                assert(item_lt(self.new[t], self.new[u]));
                if x != y {
                    lemma_key_lt_asymmetric(x, y);
                } else {
                    lemma_key_lt_irreflexive(x);
                }
            },
            (Source::Old(_), Source::New(_)) => {
                lemma_key_lt_asymmetric(x, y);
            },
            (Source::New(_), Source::Old(_)) => {},
        }
    }

    /// The items of the new tree are sorted.
    proof fn lemma_result_sorted(self)
        requires
            self.valid(),
        ensures
            sorted(self.result()),
    {
        let out = self.result();
        assert forall|p: int, q: int| 0 <= p < q < out.len() implies !key_lt(
            #[trigger] out[q].key(),
            #[trigger] out[p].key(),
        ) by {
            self.lemma_sorted_pair(p, q);
        }
    }

    /// The metadata of old files stays.
    proof fn lemma_metadata_stays(self, q: int, id: Unique) -> (a: int)
        requires
            self.valid(),
            is_metadata_of(self.items, q, id),
        ensures
            is_metadata_of(self.result(), a, id),
            self.result()[a] == self.items[q],
            self.sources()[a] == Source::Old(q),
    {
        if replaced(self.items, self.new, 0, q) {
            let k = self.lemma_replaced(q);
        }
        self.lemma_spot(Source::Old(q));
        self.spot(Source::Old(q))
    }

    /// The file of every push has its metadata.
    proof fn lemma_push_metadata(self, i: int) -> (a: int)
        requires
            self.valid(),
            0 <= i < self.pushes.len(),
        ensures
            is_metadata_of(self.result(), a, self.pushes[i].id),
            self.result()[a].is_dir() == self.pushes[i].is_dir,
            self.result()[a].inode() == if self.pushes[i].kept is Some {
                inode_of(self.items, self.pushes[i].id)
            } else {
                self.pushes[i].inode
            },
    {
        let p = self.pushes[i];
        if p.kept is None && !knows(self.items, p.id) {
            let t = self.lemma_served(i).0;
            self.lemma_spot(Source::New(t));
            self.spot(Source::New(t))
        } else {
            let k = if p.kept is Some {
                p.kept->0
            } else {
                choose|k: int| #[trigger] takes(self.items, self.walk, self.origins, p, k)
            };
            assert(visible(self.items, self.walk[k].pos));
            assert(is_entry(self.items, self.walk[k].pos));
            lemma_child_metadata(self.items, self.walk[k].pos);
            self.lemma_metadata_stays(metadata_pos(self.items, p.id), p.id)
        }
    }

    /// The items made for a push.
    proof fn lemma_served(self, i: int) -> (made: (int, int))
        requires
            self.valid(),
            0 <= i < self.pushes.len(),
            self.pushes[i].kept is None,
        ensures
            !knows(self.items, self.pushes[i].id) ==> 0 <= made.0 < self.new.len() && is_meta(
                self.pushes[i],
                self.new[made.0],
            ),
            0 <= made.1 < self.new.len(),
            is_new(self.pushes[i], self.new[made.1]),
    {
        assert(recorded(self.origins, i));
        let x = choose|x: int|
            0 <= x < self.origins.len() && #[trigger] self.origins[x] == Origin::Inserted(i);
        assert(served(self.items, self.walk, self.pushes, self.origins[x], self.new));
        let t = choose|t: int|
            0 <= t < self.new.len() && is_meta(self.pushes[i], #[trigger] self.new[t]);
        let u = choose|u: int|
            0 <= u < self.new.len() && is_new(self.pushes[i], #[trigger] self.new[u]);
        (t, u)
    }

    /// Where the entry of a push stands in the new tree.
    spec fn push_spot(self, i: int) -> int {
        match self.pushes[i].kept {
            Some(k) => self.spot(Source::Old(self.walk[k].pos)),
            None => choose|a: int|
                0 <= a < self.result().len() && self.sources()[a] is New && is_new(
                    self.pushes[i],
                    #[trigger] self.result()[a],
                ),
        }
    }

    /// Every push has its entry.
    proof fn lemma_push_spot(self, i: int)
        requires
            self.valid(),
            0 <= i < self.pushes.len(),
        ensures
            visible(self.result(), self.push_spot(i)),
            matches_push(self.result()[self.push_spot(i)], self.pushes[i]),
            self.pushes[i].kept matches Some(k) ==> self.sources()[self.push_spot(i)]
                == Source::Old(self.walk[k].pos) && self.result()[self.push_spot(i)]
                == self.items[self.walk[k].pos],
            self.pushes[i].kept is None ==> self.sources()[self.push_spot(i)] is New,
    {
        if let Some(k) = self.pushes[i].kept {
            assert(visible(self.items, self.walk[k].pos));
            assert(held(self.pushes, k));
            if replaced(self.items, self.new, 0, self.walk[k].pos) {
                let l = self.lemma_replaced(self.walk[k].pos);
                if l < k {
                    assert(self.items[self.walk[l].pos].child_id()
                        != self.items[self.walk[k].pos].child_id());
                } else if k < l {
                    assert(self.items[self.walk[k].pos].child_id()
                        != self.items[self.walk[l].pos].child_id());
                }
                assert(dropped(self.origins, k) != held(self.pushes, k));
            }
            self.lemma_spot(Source::Old(self.walk[k].pos));
        } else {
            let u = self.lemma_served(i).1;
            self.lemma_spot(Source::New(u));
            let a = self.spot(Source::New(u));
            assert(is_new(self.pushes[i], self.result()[a]));
        }
    }

    /// Entries of pushes are at different places.
    proof fn lemma_push_at(self, i: int, a: int)
        requires
            self.valid(),
            0 <= i < self.pushes.len(),
            is_entry(self.result(), a),
            matches_push(self.result()[a], self.pushes[i]),
            match self.pushes[i].kept {
                Some(k) => self.sources()[a] == Source::Old(self.walk[k].pos),
                None => self.sources()[a] is New && !self.result()[a].is_deleted(),
            },
        ensures
            self.push_spot(i) == a,
    {
        let b = self.push_spot(i);
        self.lemma_push_spot(i);
        self.lemma_source(a);
        self.lemma_source(b);
        if self.pushes[i].kept is None && a != b {
            let (lo, hi) = if a < b {
                (a, b)
            } else {
                (b, a)
            };
            self.lemma_sorted_pair(lo, hi);
            lemma_key_lt_irreflexive(self.result()[a].key());
        }
    }

    /// A parent of a push is the root directory, or was pushed before. If it is no directory, it
    /// holds nothing in the old tree.
    proof fn lemma_parent_push(self, i: int) -> (j: int)
        requires
            self.valid(),
            0 <= i < self.pushes.len(),
        ensures
            self.pushes[i].parent != root_id() ==> 0 <= j < i && self.pushes[j].id
                == self.pushes[i].parent && (self.pushes[j].is_dir || holds_nothing(
                self.items,
                self.pushes[j].id,
            )),
    {
        assert(nested(self.items, self.pushes, i));
        choose|j: int|
            0 <= j < i && (#[trigger] self.pushes[j]).id == self.pushes[i].parent && (
            self.pushes[j].is_dir || holds_nothing(self.items, self.pushes[j].id))
    }

    /// An entry in the place of a push that did not find it is to be deleted.
    proof fn lemma_in_place(self, i: int, k: int)
        requires
            self.valid(),
            0 <= i < self.pushes.len(),
            self.pushes[i].kept is None,
            0 <= k < self.walk.len(),
            self.items[self.walk[k].pos].file_id() == self.pushes[i].parent,
            entry_kind(self.items[self.walk[k].pos]) == self.pushes[i].kind(),
        ensures
            dropped(self.origins, k),
    {
        assert(dropped(self.origins, k) != held(self.pushes, k));
        if held(self.pushes, k) {
            let m = choose|m: int|
                0 <= m < self.pushes.len() && (#[trigger] self.pushes[m]).kept == Some(k);
            assert(matches_push(self.items[self.walk[k].pos], self.pushes[m]));
            if m < i {
                assert(self.pushes[m].kind() != self.pushes[i].kind());
            } else if i < m {
                assert(self.pushes[i].kind() != self.pushes[m].kind());
            }
        }
    }

    /// Old entries in the root directory, or in a directory that was pushed, were visited.
    proof fn lemma_visited(self, q: int) -> (k: int)
        requires
            self.valid(),
            visible(self.items, q),
            self.items[q].file_id() == root_id() || exists|j: int|
                0 <= j < self.pushes.len() && (#[trigger] self.pushes[j]).id
                    == self.items[q].file_id() && self.pushes[j].is_dir,
        ensures
            0 <= k < self.walk.len(),
            self.walk[k].pos == q,
    {
        let f = self.items[q].file_id();
        if f != root_id() {
            let j = choose|j: int|
                0 <= j < self.pushes.len() && (#[trigger] self.pushes[j]).id == f
                    && self.pushes[j].is_dir;
            let l = if self.pushes[j].kept is None {
                assert(knows(self.items, f));
                choose|l: int| #[trigger]
                    takes(self.items, self.walk, self.origins, self.pushes[j], l)
            } else {
                self.pushes[j].kept->0
            };
            assert(self.items[self.walk[l].pos].child_id() == f);
        }
        assert(reaches(self.items, self.walk, f));
        assert(visits(self.walk, q));
        choose|k: int| 0 <= k < self.walk.len() && (#[trigger] self.walk[k]).pos == q
    }

    /// No new item has the key of a visible entry or of metadata that stays.
    proof fn lemma_no_clash(self, q: int, t: int)
        requires
            self.valid(),
            available(self.items, 0, self.new, 0, Source::Old(q)),
            visible(self.items, q) || self.items[q] is Metadata,
            0 <= t < self.new.len(),
        ensures
            self.items[q].key() != self.new[t].key(),
    {
        if self.items[q].key() == self.new[t].key() {
            assert(self.made(self.new[t]));
            self.lemma_made(self.new[t]);
            if self.new[t].is_deleted() {
                let k = self.lemma_removal(t);
                assert(visible(self.items, q));
                lemma_seek_leading(self.items, q);
                assert(replaced(self.items, self.new, 0, q));
            } else {
                let i = choose|i: int|
                    0 <= i < self.pushes.len() && (#[trigger] self.pushes[i]).kept is None
                        && self.made_for(i, self.new[t]);
                if is_meta(self.pushes[i], self.new[t]) {
                    assert(knows(self.items, self.pushes[i].id));
                } else {
                    let j = self.lemma_parent_push(i);
                    assert(self.items[q].file_id() == self.pushes[i].parent);
                    let k = self.lemma_visited(q);
                    assert(entry_kind(self.items[self.walk[k].pos]) == self.pushes[i].kind());
                    self.lemma_in_place(i, k);
                    self.lemma_dropped(k);
                }
            }
        }
    }

    /// Items that all before them have smaller keys than, still have.
    proof fn lemma_leads(self, a: int)
        requires
            self.valid(),
            0 <= a < self.result().len(),
            visible(self.result(), a) || self.result()[a] is Metadata,
        ensures
            leads(self.result(), a),
    {
        let out = self.result();
        self.lemma_source(a);
        assert forall|b: int| 0 <= b < a implies key_lt(#[trigger] out[b].key(), out[a].key()) by {
            self.lemma_sorted_pair(b, a);
            self.lemma_source(b);
            self.lemma_order(b, a);
            if let Source::Old(q) = self.sources()[a] {
                assert(visible(self.items, q) || self.items[q] is Metadata);
                assert(leads(self.items, q));
                match self.sources()[b] {
                    Source::Old(p) => {
                        assert(key_lt(self.items[p].key(), self.items[q].key()));
                    },
                    Source::New(t) => {
                        self.lemma_no_clash(q, t);
                        lemma_key_lt_total(out[b].key(), out[a].key());
                    },
                }
            }
        }
    }

    /// An old entry names a file that is in the new tree, and lies in a directory that is.
    proof fn lemma_old_entry(self, q: int, a: int)
        requires
            self.valid(),
            is_entry(self.items, q),
            is_entry(self.result(), a),
            self.result()[a].key() == self.items[q].key(),
            self.result()[a].child_id() == self.items[q].child_id(),
        ensures
            names_file(self.result(), a),
            in_directory(self.result(), a),
    {
        let out = self.result();
        assert(names_file(self.items, q));
        let c = self.items[q].child_id();
        let m = choose|m: int| #[trigger]
            is_metadata_of(self.items, m, c) && self.items[m].is_dir() == self.items[q].is_dir();
        let b = self.lemma_metadata_stays(m, c);
        assert(is_metadata_of(out, b, out[a].child_id()));
        assert(in_directory(self.items, q));
        let f = self.items[q].file_id();
        if f != root_id() {
            let m = choose|m: int| #[trigger] is_metadata_of(self.items, m, f);
            let b = self.lemma_metadata_stays(m, f);
            assert(is_metadata_of(out, b, out[a].file_id()));
        }
    }

    /// A new entry names a file that is in the new tree, and lies in a directory that is.
    proof fn lemma_new_entry(self, i: int, a: int)
        requires
            self.valid(),
            0 <= i < self.pushes.len(),
            self.pushes[i].kept is None,
            is_entry(self.result(), a),
            matches_push(self.result()[a], self.pushes[i]),
        ensures
            names_file(self.result(), a),
            in_directory(self.result(), a),
    {
        let out = self.result();
        let b = self.lemma_push_metadata(i);
        assert(is_metadata_of(out, b, out[a].child_id()));
        let j = self.lemma_parent_push(i);
        if self.pushes[i].parent != root_id() {
            let b = self.lemma_push_metadata(j);
            assert(is_metadata_of(out, b, out[a].file_id()));
        }
    }

    /// Every entry of the new tree names a file that is in it, and lies in a directory that is.
    proof fn lemma_entry(self, a: int)
        requires
            self.valid(),
            is_entry(self.result(), a),
        ensures
            names_file(self.result(), a),
            in_directory(self.result(), a),
    {
        self.lemma_source(a);
        match self.sources()[a] {
            Source::Old(q) => {
                self.lemma_old_entry(q, a);
            },
            Source::New(t) => {
                assert(self.made(self.new[t]));
                self.lemma_made(self.new[t]);
                if self.new[t].is_deleted() {
                    let k = self.lemma_removal(t);
                    self.lemma_old_entry(self.walk[k].pos, a);
                } else {
                    let i = choose|i: int|
                        0 <= i < self.pushes.len() && (#[trigger] self.pushes[i]).kept is None
                            && self.made_for(i, self.new[t]);
                    self.lemma_new_entry(i, a);
                }
            },
        }
    }

    /// No metadata is that of the root directory.
    proof fn lemma_metadata_id(self, a: int)
        requires
            self.valid(),
            0 <= a < self.result().len(),
            self.result()[a] is Metadata,
        ensures
            self.result()[a].file_id() != root_id(),
    {
        self.lemma_source(a);
        if let Source::New(t) = self.sources()[a] {
            assert(self.made(self.new[t]));
            self.lemma_made(self.new[t]);
        }
    }

    /// The items of the new tree are laid out as those of a tree are.
    proof fn lemma_layout(self)
        requires
            self.valid(),
        ensures
            layout(self.result()),
    {
        let out = self.result();
        self.lemma_result_sorted();
        assert forall|p: int| #[trigger] is_entry(out, p) implies names_file(out, p) by {
            self.lemma_entry(p);
        }
        assert forall|p: int| #[trigger] is_entry(out, p) implies in_directory(out, p) by {
            self.lemma_entry(p);
        }
        assert forall|p: int| #[trigger] visible(out, p) implies leads(out, p) by {
            self.lemma_leads(p);
        }
        assert forall|p: int| 0 <= p < out.len() && #[trigger] out[p] is Metadata implies leads(
            out,
            p,
        ) && out[p].file_id() != root_id() by {
            self.lemma_leads(p);
            self.lemma_metadata_id(p);
        }
    }

    /// An entry that a cursor sees in the root directory, or in a directory that was pushed, is
    /// that of a push.
    proof fn lemma_seen(self, a: int) -> (i: int)
        requires
            self.valid(),
            visible(self.result(), a),
            self.result()[a].file_id() == root_id() || exists|j: int|
                0 <= j < self.pushes.len() && (#[trigger] self.pushes[j]).id
                    == self.result()[a].file_id() && self.pushes[j].is_dir,
        ensures
            0 <= i < self.pushes.len(),
            self.push_spot(i) == a,
    {
        self.lemma_source(a);
        match self.sources()[a] {
            Source::Old(q) => {
                let k = self.lemma_visited(q);
                if dropped(self.origins, k) {
                    self.lemma_dropped(k);
                }
                assert(dropped(self.origins, k) != held(self.pushes, k));
                let i = choose|i: int|
                    0 <= i < self.pushes.len() && (#[trigger] self.pushes[i]).kept == Some(k);
                assert(matches_push(self.items[self.walk[k].pos], self.pushes[i]));
                self.lemma_push_at(i, a);
                i
            },
            Source::New(t) => {
                assert(self.made(self.new[t]));
                self.lemma_made(self.new[t]);
                let i = choose|i: int|
                    0 <= i < self.pushes.len() && (#[trigger] self.pushes[i]).kept is None
                        && self.made_for(i, self.new[t]);
                self.lemma_push_at(i, a);
                i
            },
        }
    }

    /// The files that were pushed.
    spec fn files(self) -> Seq<Unique> {
        Seq::new(self.pushes.len(), |i: int| self.pushes[i].id)
    }

    /// An entry in one of the directories that were pushed is that of a push.
    proof fn lemma_seen_in(self, a: int) -> (i: int)
        requires
            self.valid(),
            visible(self.result(), a),
            opens_one(self.result(), self.files(), self.result()[a].file_id()),
        ensures
            0 <= i < self.pushes.len(),
            self.push_spot(i) == a,
            matches_push(self.result()[a], self.pushes[i]),
    {
        let out = self.result();
        let f = out[a].file_id();
        if f != root_id() {
            let j = choose|j: int| 0 <= j < self.files().len() && self.files()[j] == f;
            assert(self.pushes[j].id == f);
            let p = choose|p: int| #[trigger]
                visible(out, p) && out[p].child_id() == f && out[p].is_dir();
            let b = self.lemma_push_metadata(j);
            self.lemma_layout();
            assert(is_entry(out, p));
            lemma_child_metadata(out, p);
            lemma_metadata_pos(out, b, f);
            assert(self.pushes[j].is_dir);
        }
        let i = self.lemma_seen(a);
        self.lemma_push_spot(i);
        i
    }

    /// The new tree is a tree.
    pub proof fn lemma_is_tree(self)
        requires
            self.valid(),
        ensures
            well_formed(self.result()),
    {
        let (out, files) = (self.result(), self.files());
        self.lemma_layout();
        assert forall|i: int, j: int|
            #![trigger files[i], files[j]]
            0 <= i < j < files.len() implies files[i] != files[j] by {
            assert(self.pushes[i].id != self.pushes[j].id);
        }
        assert forall|i: int| 0 <= i < files.len() implies #[trigger] files[i] != root_id() by {
            assert(self.pushes[i].id != root_id());
        }
        assert forall|p: int| #[trigger]
            visible(out, p) && opens_one(out, files, out[p].file_id()) implies goes_forward(
            out,
            files,
            p,
        ) by {
            let i = self.lemma_seen_in(p);
            assert(files[i] == out[p].child_id());
            let j = self.lemma_parent_push(i);
            if out[p].file_id() != root_id() {
                assert(files.take(i)[j] == out[p].file_id());
            }
        }
        assert forall|p: int, q: int| #[trigger]
            visible(out, p) && #[trigger] visible(out, q) && opens_one(
                out,
                files,
                out[p].file_id(),
            ) && opens_one(out, files, out[q].file_id()) && out[p].child_id() == out[q].child_id()
            implies p == q by {
            let i = self.lemma_seen_in(p);
            let j = self.lemma_seen_in(q);
            if i < j {
                assert(self.pushes[i].id != self.pushes[j].id);
            } else if j < i {
                assert(self.pushes[j].id != self.pushes[i].id);
            }
        }
        lemma_lined_up(out, files);
    }

    /// What a walk through the new tree visits is the entry of a push.
    proof fn lemma_visit_pushed(self, l: int) -> (i: int)
        requires
            self.valid(),
            0 <= l < walk(self.result()).len(),
        ensures
            0 <= i < self.pushes.len(),
            walk(self.result())[l].pos == self.push_spot(i),
            matches_push(self.result()[walk(self.result())[l].pos], self.pushes[i]),
        decreases l,
    {
        let (out, v) = (self.result(), walk(self.result()));
        self.lemma_is_tree();
        assert(walk_of(out, v));
        let a = v[l].pos;
        assert(visible(out, a));
        assert(placed(out, v, l));
        assert(opens_one(out, self.files(), out[a].file_id())) by {
            if v[l].depth != 1 {
                let j = choose|j: int| #[trigger] parent(out, v, j, l);
                let h = self.lemma_visit_pushed(j);
                assert(self.files()[h] == out[a].file_id());
                assert(visible(out, v[j].pos));
            }
        }
        self.lemma_seen_in(a)
    }

    /// If all pushes were put in directories, a walk through the new tree visits every one.
    proof fn lemma_push_visited(self, i: int)
        requires
            self.valid(),
            all_housed(self.pushes),
            0 <= i < self.pushes.len(),
        ensures
            visits(walk(self.result()), self.push_spot(i)),
        decreases i,
    {
        let (out, v) = (self.result(), walk(self.result()));
        self.lemma_is_tree();
        assert(walk_of(out, v));
        self.lemma_push_spot(i);
        assert(housed(self.pushes, i));
        if self.pushes[i].parent != root_id() {
            let h = choose|h: int|
                0 <= h < i && (#[trigger] self.pushes[h]).id == self.pushes[i].parent
                    && self.pushes[h].is_dir;
            self.lemma_push_visited(h);
            self.lemma_push_spot(h);
            let m = choose|m: int|
                0 <= m < v.len() && (#[trigger] v[m]).pos == self.push_spot(h);
            assert(out[v[m].pos].child_id() == self.pushes[i].parent);
        }
        assert(reaches(out, v, out[self.push_spot(i)].file_id()));
    }

    /// The new tree lists the pushes, in whatever order they came.
    pub proof fn lemma_lists_pushes(self)
        requires
            self.valid(),
        ensures
            lists_pushes(listing(self.result()), self.pushes),
    {
        let (out, v) = (self.result(), walk(self.result()));
        let new = listing(out);
        self.lemma_is_tree();
        assert(walk_of(out, v));
        assert forall|l: int| 0 <= l < new.len() implies was_pushed(
            self.pushes,
            #[trigger] new[l],
        ) by {
            lemma_listing(out, l);
            let i = self.lemma_visit_pushed(l);
            assert(visible(out, v[l].pos));
            assert(shows(new[l], self.pushes[i]));
        }
        if all_housed(self.pushes) {
            assert forall|i: int| 0 <= i < self.pushes.len() implies is_shown(
                new,
                #[trigger] self.pushes[i],
            ) by {
                self.lemma_push_visited(i);
                self.lemma_push_spot(i);
                let l = choose|l: int|
                    0 <= l < v.len() && (#[trigger] v[l]).pos == self.push_spot(i);
                lemma_listing(out, l);
                assert(shows(new[l], self.pushes[i]));
            }
        }
    }

    /// Whether the pushes came in order, each put in the directory that it lies in.
    pub open spec fn in_order(self) -> bool {
        &&& in_order(self.pushes)
        &&& forall|i: int|
            0 <= i < self.pushes.len() ==> #[trigger] parent_id(self.pushes, i)
                == self.pushes[i].parent
    }

    /// The walk that visits the pushes.
    spec fn push_walk(self) -> Seq<Visit> {
        Seq::new(
            self.pushes.len(),
            |i: int| Visit { pos: self.push_spot(i), depth: self.pushes[i].depth },
        )
    }

    /// The directory that a push lies in.
    proof fn lemma_under_push(self, i: int) -> (j: int)
        requires
            self.valid(),
            self.in_order(),
            0 <= i < self.pushes.len(),
        ensures
            self.pushes[i].depth >= 1,
            self.pushes[i].depth == 1 ==> self.pushes[i].parent == root_id(),
            self.pushes[i].depth > 1 ==> under(self.pushes, j, i) && self.pushes[i].parent
                == self.pushes[j].id,
    {
        assert(parent_id(self.pushes, i) == self.pushes[i].parent);
        assert(self.pushes[i].depth >= 1);
        if self.pushes[i].depth > 1 {
            lemma_under(self.pushes, i);
        }
        up(self.pushes, i, self.pushes[i].depth - 1)
    }

    /// If the pushes came in order, the walk through the new tree visits them in that order.
    proof fn lemma_push_walk(self)
        requires
            self.valid(),
            self.in_order(),
        ensures
            walk_of(self.result(), self.push_walk()),
    {
        let (out, v) = (self.result(), self.push_walk());
        assert forall|i: int| 0 <= i < v.len() implies visible(out, (#[trigger] v[i]).pos)
            && v[i].depth >= 1 && out[v[i].pos].child_id() != root_id() by {
            self.lemma_push_spot(i);
            assert(self.pushes[i].depth >= 1);
            assert(self.pushes[i].id != root_id());
        }
        assert forall|i: int| 0 <= i < v.len() implies #[trigger] placed(out, v, i) by {
            self.lemma_push_spot(i);
            let j = self.lemma_under_push(i);
            if self.pushes[i].depth > 1 {
                self.lemma_push_spot(j);
                assert forall|k: int| j < k < i implies (#[trigger] v[k]).depth >= v[i].depth by {
                    assert(self.pushes[k].depth >= self.pushes[i].depth);
                }
                assert(parent(out, v, j, i));
            }
        }
        assert forall|i: int, j: int|
            #![trigger v[i], v[j]]
            0 <= i < j < v.len() implies out[v[i].pos].child_id() != out[v[j].pos].child_id() by {
            self.lemma_push_spot(i);
            self.lemma_push_spot(j);
            assert(self.pushes[i].id != self.pushes[j].id);
        }
        assert forall|i: int, j: int|
            #![trigger v[i], v[j]]
            0 <= i < j < v.len() && out[v[i].pos].file_id() == out[v[j].pos].file_id() implies
            v[i].pos < v[j].pos by {
            self.lemma_push_spot(i);
            self.lemma_push_spot(j);
            assert(parent_id(self.pushes, i) == self.pushes[i].parent);
            assert(parent_id(self.pushes, j) == self.pushes[j].parent);
            lemma_same_parent(self.pushes, i, j);
            let (a, b) = (self.push_spot(i), self.push_spot(j));
            assert(key_lt(out[a].key(), out[b].key()));
            lemma_key_lt_irreflexive(out[a].key());
            if b < a {
                self.lemma_sorted_pair(b, a);
            }
        }
        assert forall|a: int| #[trigger]
            visible(out, a) && reaches(out, v, out[a].file_id()) implies visits(v, a) by {
            let f = out[a].file_id();
            if f != root_id() {
                let y = choose|y: int|
                    0 <= y < v.len() && out[(#[trigger] v[y]).pos].child_id() == f
                        && out[v[y].pos].is_dir();
                self.lemma_push_spot(y);
                assert(self.pushes[y].id == f && self.pushes[y].is_dir);
            }
            let i = self.lemma_seen(a);
            assert(v[i].pos == a);
        }
    }

    /// The way up in the new walk is that of the pushes.
    proof fn lemma_new_ancestor(self, i: int, d: int)
        requires
            0 <= i < self.pushes.len(),
        ensures
            ancestor(self.push_walk(), i, d) == up(self.pushes, i, d),
        decreases i,
    {
        assert(self.push_walk()[i].depth == self.pushes[i].depth);
        if i > 0 {
            self.lemma_new_ancestor(i - 1, d);
        }
    }

    /// What is listed for a push.
    proof fn lemma_listed(self, i: int)
        requires
            self.valid(),
            self.in_order(),
            self.walk == walk(self.items),
            0 <= i < self.pushes.len(),
        ensures
            lists_push(
                listed(self.result(), self.push_walk(), i),
                self.pushes,
                i,
                listing(self.items),
            ),
    {
        let (out, v) = (self.result(), self.push_walk());
        self.lemma_layout();
        self.lemma_push_spot(i);
        let d = self.pushes[i].depth;
        let here = listed(out, v, i);
        assert(here.path =~= pushed_path(self.pushes, i)) by {
            let t = trail(v, i, d);
            assert forall|k: int| 0 <= k < d implies #[trigger] here.path[k] == pushed_path(
                self.pushes,
                i,
            )[k] by {
                self.lemma_new_ancestor(i, k + 1);
                lemma_up(self.pushes, i, k + 1);
                let u = up(self.pushes, i, k + 1);
                self.lemma_push_spot(u);
                assert(t[k] == v[u].pos);
            }
        }
        let c = self.pushes[i].id;
        let b = self.lemma_push_metadata(i);
        lemma_metadata_pos(out, b, c);
        if let Some(k) = self.pushes[i].kept {
            lemma_listing(self.items, k);
        }
    }

    /// If the pushes came in order, the new tree lists them.
    pub proof fn lemma_lists(self)
        requires
            self.valid(),
            self.in_order(),
            self.walk == walk(self.items),
        ensures
            lists(listing(self.result()), self.pushes, listing(self.items)),
    {
        let (out, v) = (self.result(), self.push_walk());
        self.lemma_push_walk();
        self.lemma_layout();
        lemma_walk_unique(out, v);
        assert forall|i: int| 0 <= i < self.pushes.len() implies lists_push(
            #[trigger] listing(out)[i],
            self.pushes,
            i,
            listing(self.items),
        ) by {
            self.lemma_listed(i);
        }
    }

    /// Looking up the path of a directory that was pushed finds it.
    pub proof fn lemma_found(self, i: int)
        requires
            self.valid(),
            self.in_order(),
            0 <= i < self.pushes.len(),
            self.pushes[i].is_dir,
        ensures
            lookup(self.result(), root_id(), pushed_path(self.pushes, i)) == Some(
                self.pushes[i].id,
            ),
        decreases i,
    {
        let out = self.result();
        let p = self.pushes[i];
        let a = self.push_spot(i);
        self.lemma_push_spot(i);
        self.lemma_leads(a);
        lemma_search(out, a);
        let j = self.lemma_under_push(i);
        lemma_path_above(self.pushes, i, j);
        let above = if p.depth > 1 {
            self.lemma_found(j);
            pushed_path(self.pushes, j)
        } else {
            Seq::empty()
        };
        lemma_lookup_push(out, root_id(), above, p.parent, p.name);
    }

    /// Whether the identifier is that of the root directory, of an old file, or of a push.
    pub open spec fn accounts_for(self, id: Unique) -> bool {
        ||| id == root_id()
        ||| knows(self.items, id)
        ||| exists|i: int| 0 <= i < self.pushes.len() && (#[trigger] self.pushes[i]).id == id
    }

    /// The new tree speaks of no other files.
    pub proof fn lemma_accounts(self, a: int)
        requires
            self.valid(),
            0 <= a < self.result().len(),
        ensures
            self.accounts_for(self.result()[a].file_id()),
            self.result()[a] is DirEntry ==> self.accounts_for(self.result()[a].child_id())
                && self.result()[a].child_id() != root_id(),
    {
        let out = self.result();
        self.lemma_source(a);
        if out[a] is DirEntry {
            self.lemma_layout();
            assert(is_entry(out, a));
            assert(names_file(out, a));
            let q = choose|q: int| #[trigger]
                is_metadata_of(out, q, out[a].child_id()) && out[q].is_dir() == out[a].is_dir();
            assert(out[q] is Metadata);
        }
        match self.sources()[a] {
            Source::Old(q) => {
                assert(knows(self.items, self.items[q].file_id()));
                if self.items[q] is DirEntry {
                    assert(knows(self.items, self.items[q].child_id()));
                }
            },
            Source::New(t) => {
                assert(self.made(self.new[t]));
                self.lemma_made(self.new[t]);
                if self.new[t].is_deleted() {
                    let k = self.lemma_removal(t);
                    let old = self.items[self.walk[k].pos];
                    assert(knows(self.items, old.file_id()));
                    assert(knows(self.items, old.child_id()));
                } else {
                    let i = choose|i: int|
                        0 <= i < self.pushes.len() && (#[trigger] self.pushes[i]).kept is None
                            && self.made_for(i, self.new[t]);
                    let j = self.lemma_parent_push(i);
                    if self.pushes[i].parent != root_id() {
                        assert(self.pushes[j].id == self.pushes[i].parent);
                    }
                }
            },
        }
    }
}

} // verus!
