//! Builders, which make a new tree from an old one and a listing of what the new one holds.

use std::cmp::Ordering;

use vstd::prelude::*;

use super::assembly::{lists, lists_pushes, Merge};
use super::changes::{change_views, removes_entries, render_changes, settle_changes, ItemChange};
use super::cursor::{lemma_seek_index, view_items, Cursor};
use super::item::{Item, ItemView, Metadata};
use super::key::{key_lt, kind_lt, lemma_kind_lt_irreflexive, lemma_kind_lt_total, KindView};
use super::laws::{
    law_directory_found, law_listed_in_directory, law_listed_once, law_listing_is_in_order,
    law_no_changes, lemma_relisted_all, relists,
};
use super::merge::{
    ahead, dir_at, dropped, found, held, knows, lemma_ahead_after, lemma_insert, lemma_keep,
    lemma_remove, lemma_stacked_after, lemma_start, lemma_track_insert, lemma_track_keep,
    lemma_track_remove, lemma_up_from_new, matches_push, missed, open_after, opened, passed,
    pushed_id, reconciled, stacked, traced, tracked_to, ChangeView, Origin,
};
use super::model::{
    entry_kind, inode_of, listing, sorted, visible, walk, walk_of, well_formed, Listed,
};
use super::moves::{
    claims, finished, frees, lemma_claims, lemma_kept_id, lemma_resolved, lemma_settled_housed,
    lemma_settled_id, lemma_settled_in_order, settled, settled_pushes, takes_back,
};
use super::overlay::{item_lt, lemma_overlay_sorted, overlay, slot, slot_end};
use super::pushes::{
    all_housed, in_order, lemma_in_order_prefix, lemma_path_above, lemma_proper,
    lemma_same_entries, lemma_same_paths, lemma_under, parent_id, proper, pushed_path, up, Pushed,
};
use super::rebuild::{
    built, lemma_nothing_lost, lemma_patch, lemma_visit_keys, removes_visits, survives,
};
use super::sort::{item_views, sort_items};
use super::store::{issues, issues_all, lemma_issues_both, Store};
use super::tree::{ids_issued, lookup, Tree};
use super::uproot::{
    arrives, arrives_with, count_marked, departs, departs_from, handed, intrudes, lemma_handed,
    lemma_intruder, lemma_no_intruder, lemma_none_uprooted, lemma_replanted_behind,
    lemma_uprooted_housed, lemma_uprooted_in_order, lemma_uprooted_proper, lemma_uprooting,
    lists_walk, records, records_push, stays, suits, uproot, uprooted, uprooted_changes,
    uprooted_origins, uprooted_pushes, uprooting, Found, PushRecord,
};
use super::walks::lemma_listing;
use crate::btree;
use crate::btree::{NodeStore, SeekBias};
use crate::id::{root_id, Unique};
use crate::names::name_lt;

verus! {

/// Makes a new tree from an old one. The entries that the new tree holds are pushed to it one by
/// one, in the order in which a cursor lists them.
pub struct Builder {
    tree: Tree,
    stack: Vec<Unique>,
    cursor: Cursor,
    item_changes: Vec<ItemChange>,
    records: Vec<PushRecord>,
    pushed: Ghost<Seq<Pushed>>,
    origins: Ghost<Seq<Origin>>,
}

/// Where an entry of the old tree lies, seen from one that is pushed.
#[derive(Copy, Clone, Debug, Eq, PartialEq, Structural)]
pub enum Place {
    Before,
    Here,
    After,
}

/// Where an entry that is listed lies, seen from one of the given depth and kind that is pushed.
pub open spec fn place(entry: Listed, depth: usize, kind: KindView) -> Place {
    if entry.depth > depth {
        Place::Before
    } else if entry.depth < depth {
        Place::After
    } else if kind_lt(entry_kind(entry.entry), kind) {
        Place::Before
    } else if entry_kind(entry.entry) == kind {
        Place::Here
    } else {
        Place::After
    }
}

/// How many of the entries from `from` on lie before one of the given depth and kind, and `from`.
pub open spec fn outdated(rest: Seq<Listed>, from: int, depth: usize, kind: KindView) -> int
    decreases rest.len() - from,
{
    if from < rest.len() && place(rest[from], depth, kind) is Before {
        outdated(rest, from + 1, depth, kind)
    } else {
        from
    }
}

/// Whether an entry of the given depth and kind is found once those before it are passed over.
pub open spec fn hit(rest: Seq<Listed>, depth: usize, kind: KindView) -> bool {
    let n = outdated(rest, 0, depth, kind);
    n < rest.len() && place(rest[n], depth, kind) is Here
}

/// The changes that delete the entries.
pub open spec fn removals(entries: Seq<Listed>) -> Seq<ChangeView> {
    Seq::new(
        entries.len(),
        |k: int| ChangeView::Remove { entry: entries[k].entry, inode: entries[k].inode },
    )
}

/// The directories that stay open when an entry of the given depth is pushed.
pub open spec fn still_open(dirs: Seq<Unique>, depth: usize) -> Seq<Unique> {
    if depth - 1 <= dirs.len() {
        dirs.take(depth - 1)
    } else {
        dirs
    }
}

/// The directory in which a pushed entry is put.
pub open spec fn put_in(dirs: Seq<Unique>, depth: usize) -> Unique {
    if still_open(dirs, depth).len() == 0 {
        root_id()
    } else {
        still_open(dirs, depth).last()
    }
}

/// What a push records of itself.
pub open spec fn record(
    done: int,
    rest: Seq<Listed>,
    dirs: Seq<Unique>,
    name: Seq<u8>,
    metadata: Metadata,
    depth: usize,
    id: Unique,
) -> Pushed {
    let kind = KindView::DirEntry { is_dir: metadata.is_dir, name };
    Pushed {
        depth: depth as int,
        name,
        is_dir: metadata.is_dir,
        inode: metadata.inode,
        parent: put_in(dirs, depth),
        id,
        kept: if hit(rest, depth, kind) {
            Some(done + outdated(rest, 0, depth, kind))
        } else {
            None
        },
    }
}

/// What [`outdated`] says.
proof fn lemma_outdated(rest: Seq<Listed>, from: int, depth: usize, kind: KindView)
    requires
        0 <= from <= rest.len(),
    ensures
        from <= outdated(rest, from, depth, kind) <= rest.len(),
        forall|k: int|
            from <= k < outdated(rest, from, depth, kind) ==> place(
                #[trigger] rest[k],
                depth,
                kind,
            ) is Before,
        outdated(rest, from, depth, kind) < rest.len() ==> !(place(
            rest[outdated(rest, from, depth, kind)],
            depth,
            kind,
        ) is Before),
    decreases rest.len() - from,
{
    if from < rest.len() && place(rest[from], depth, kind) is Before {
        lemma_outdated(rest, from + 1, depth, kind);
    }
}

/// How far a push goes in the rest of the old tree. It goes past what lies deeper, and past what
/// lies as deep and comes first: a directory before a file, and of two of the same kind the one
/// with the smaller name. It finds the entry that it comes to if that lies as deep and has the same
/// kind and name. What it goes past is deleted.
pub proof fn law_goes_past(
    rest: Seq<Listed>,
    depth: usize,
    is_dir: bool,
    name: Seq<u8>,
    n: int,
    m: int,
)
    requires
        n == outdated(rest, 0, depth, KindView::DirEntry { is_dir, name }),
    ensures
        0 <= n <= rest.len(),
        0 <= m < n ==> rest[m].depth > depth || (rest[m].depth == depth && ((
        rest[m].entry.is_dir() && !is_dir) || (rest[m].entry.is_dir() == is_dir && name_lt(
            rest[m].entry.name(),
            name,
        )))),
        n < rest.len() ==> rest[n].depth < depth || (rest[n].depth == depth && !(
        rest[n].entry.is_dir() && !is_dir) && !(rest[n].entry.is_dir() == is_dir && name_lt(
            rest[n].entry.name(),
            name,
        ))),
        hit(rest, depth, KindView::DirEntry { is_dir, name }) <==> n < rest.len() && rest[n].depth
            == depth && rest[n].entry.is_dir() == is_dir && rest[n].entry.name() == name,
        removals(rest.take(n)).len() == n,
        0 <= m < n ==> removals(rest.take(n))[m] == (ChangeView::Remove {
            entry: rest[m].entry,
            inode: rest[m].inode,
        }),
{
    let kind = KindView::DirEntry { is_dir, name };
    lemma_outdated(rest, 0, depth, kind);
    if 0 <= m < n {
        assert(place(rest[m], depth, kind) is Before);
    }
    if n < rest.len() {
        lemma_kind_lt_irreflexive(entry_kind(rest[n].entry));
    }
}

/// What a push asks of the walk through the old tree.
proof fn lemma_walked(items: Seq<ItemView>, j: int, depth: usize, kind: KindView)
    requires
        well_formed(items),
        0 <= j <= listing(items).len(),
    ensures
        passed(
            items,
            walk(items),
            j,
            j + outdated(listing(items).skip(j), 0, depth, kind),
            depth as int,
            kind,
        ),
        hit(listing(items).skip(j), depth, kind) ==> found(
            items,
            walk(items),
            j + outdated(listing(items).skip(j), 0, depth, kind),
            depth as int,
            kind,
        ),
        !hit(listing(items).skip(j), depth, kind) ==> missed(
            items,
            walk(items),
            j + outdated(listing(items).skip(j), 0, depth, kind),
            depth as int,
            kind,
        ),
{
    let rest = listing(items).skip(j);
    let w = walk(items);
    lemma_outdated(rest, 0, depth, kind);
    let n = outdated(rest, 0, depth, kind);
    assert forall|k: int| 0 <= k < rest.len() implies (#[trigger] rest[k]).depth == w[j + k].depth
        && rest[k].entry == items[w[j + k].pos] by {
        lemma_listing(items, j + k);
    }
    assert forall|k: int| j <= k < j + n implies (#[trigger] w[k]).depth > depth || (w[k].depth
        == depth && kind_lt(entry_kind(items[w[k].pos]), kind)) by {
        assert(place(rest[k - j], depth, kind) is Before);
    }
    if n < rest.len() {
        assert(rest[n].depth == w[j + n].depth);
        lemma_kind_lt_total(entry_kind(rest[n].entry), kind);
    }
}

/// Puts new items, in the order of their keys, between the items of a tree.
fn overlay_items<N: NodeStore<Item>>(tree: &btree::Tree<Item>, new: Vec<Item>, db: &N) -> (result:
    Result<btree::Tree<Item>, N::ReadError>)
    ensures
        match result {
            Ok(out) => {
                &&& out is Resident
                &&& view_items(out.contents(db)) == overlay(
                    view_items(tree.contents(db)),
                    0,
                    item_views(new@),
                    0,
                )
            },
            Err(error) => tree.may_fail(db, error),
        },
{
    let mut old_items = tree.cursor();
    let mut out: btree::Tree<Item> = btree::Tree::new();
    let ghost contents = tree.contents(db);
    let ghost old = view_items(contents);
    let ghost views = item_views(new@);
    let ghost goal = overlay(old, 0, views, 0);
    assert(view_items(out.contents(db)) + overlay(old, 0, views, 0) =~= goal);
    for item in it: new
        invariant
            it.seq() == new@,
            views == item_views(new@),
            contents == tree.contents(db),
            old == view_items(contents),
            old_items.root.reads(*tree),
            old_items.pos <= contents.len(),
            out is Resident,
            view_items(out.contents(db)) + overlay(
                old,
                old_items.pos as int,
                views,
                it.index(),
            ) == goal,
    {
        let ghost t = it.index();
        let ghost from = old_items.pos as int;
        let ghost before = out.contents(db);
        assert(views[t] == item@);
        let key = item.key();
        let slice = old_items.slice(&key, SeekBias::Left, db)?;
        let ghost at = old_items.pos as int;
        proof {
            lemma_seek_index(contents, from, key, SeekBias::Left);
            assert(at == slot(old, from, views[t]));
        }
        out.push_tree(slice, db)?;
        if item.is_deleted() {
            old_items.next(db)?;
        }
        out.push(item, db)?;
        proof {
            let end = old_items.pos as int;
            assert(end == slot_end(old, at, views[t]));
            assert(view_items(out.contents(db)) =~= view_items(before) + old.subrange(
                from,
                at,
            ).push(views[t]));
            let tail = overlay(old, end, views, t + 1);
            assert(overlay(old, from, views, t) == old.subrange(from, at).push(views[t]) + tail);
            assert(view_items(out.contents(db)) + tail =~= view_items(before) + (old.subrange(
                from,
                at,
            ).push(views[t]) + tail));
        }
    }
    let ghost from = old_items.pos as int;
    let ghost before = out.contents(db);
    let rest = old_items.suffix(db)?;
    out.push_tree(rest, db)?;
    assert(view_items(out.contents(db)) =~= view_items(before) + old.skip(from));
    Ok(out)
}

/// What holds of the pushes and the changes once the entries that are left are to be deleted too.
proof fn lemma_remove_rest(
    items: Seq<ItemView>,
    j: int,
    ps: Seq<Pushed>,
    changes: Seq<ChangeView>,
    origins: Seq<Origin>,
) -> (all: Seq<Origin>)
    requires
        well_formed(items),
        tracked_to(items, walk(items), j, ps, changes, origins),
    ensures
        finished(items, walk(items), ps, changes + removals(listing(items).skip(j)), all),
    decreases walk(items).len() - j,
{
    let w = walk(items);
    let rest = listing(items).skip(j);
    assert(walk_of(items, w));
    if j < w.len() {
        lemma_listing(items, j);
        assert(rest[0] == listing(items)[j]);
        let change = ChangeView::Remove { entry: rest[0].entry, inode: rest[0].inode };
        lemma_track_remove(items, w, j, ps, changes, origins, rest[0].inode);
        let all = lemma_remove_rest(
            items,
            j + 1,
            ps,
            changes.push(change),
            origins.push(Origin::Removed(j)),
        );
        assert(changes.push(change) + removals(listing(items).skip(j + 1)) =~= changes + removals(
            rest,
        ));
        all
    } else {
        assert(changes + removals(rest) =~= changes);
        origins
    }
}

/// Whether a pushed directory is one that the old tree lists: it has the same inode, and no other
/// directory that is pushed or listed has that inode.
pub open spec fn same_directory(ps: Seq<Pushed>, old: Seq<Listed>, i: int, k: int) -> bool {
    &&& 0 <= i < ps.len()
    &&& 0 <= k < old.len()
    &&& ps[i].is_dir
    &&& old[k].entry.is_dir()
    &&& ps[i].inode == old[k].inode
    &&& forall|j: int|
        0 <= j < ps.len() && (#[trigger] ps[j]).is_dir && ps[j].inode == ps[i].inode ==> j == i
    &&& forall|l: int|
        0 <= l < old.len() && (#[trigger] old[l]).entry.is_dir() && old[l].inode == ps[i].inode
            ==> l == k
}

/// Whether one of the changes deletes what is listed.
pub open spec fn deleted_by(changes: Seq<ChangeView>, listed: Listed) -> bool {
    exists|x: int| 0 <= x < changes.len() && #[trigger] removes(changes[x], listed)
}

/// Whether the change deletes what is listed.
pub open spec fn removes(change: ChangeView, listed: Listed) -> bool {
    change == (ChangeView::Remove { entry: listed.entry, inode: listed.inode })
}

impl Builder {
    /// The old tree.
    pub closed spec fn source(&self) -> Tree {
        self.tree
    }

    /// The items of the old tree.
    pub open spec fn base<S: Store>(&self, db: &S) -> Seq<ItemView> {
        self.source().contents(db)
    }

    /// The entries of the old tree that no push has gone past.
    pub closed spec fn pending<S: Store>(&self, db: &S) -> Seq<Listed> {
        self.cursor.rest(db)
    }

    /// How many entries of the old tree pushes have gone past.
    pub open spec fn done<S: Store>(&self, db: &S) -> int {
        listing(self.base(db)).len() - self.pending(db).len()
    }

    /// The directories that are open: those on the way to the last push, and what it pushed.
    pub closed spec fn dirs(&self) -> Seq<Unique> {
        self.stack@
    }

    /// The changes that the pushes have led to.
    pub closed spec fn changes(&self) -> Seq<ChangeView> {
        change_views(self.item_changes@)
    }

    /// The changes that the pushes have led to, and the deletions of what none has gone past.
    pub open spec fn all_changes<S: Store>(&self, db: &S) -> Seq<ChangeView> {
        self.changes() + removals(self.pending(db))
    }

    /// Whether `fresh` gives new identifiers to the pushes that found an entry and do not keep it,
    /// because another directory has been there: see [`suits`].
    pub open spec fn uproots<S: Store>(&self, db: &S, fresh: Seq<Option<Unique>>) -> bool {
        &&& suits(self.pushes(), listing(self.base(db)), self.all_changes(db), fresh)
        &&& forall|i: int|
            0 <= i < fresh.len() ==> (#[trigger] fresh[i] matches Some(id) ==> id != root_id()
                && !db.issued(id))
        &&& forall|i: int, j: int|
            #![trigger fresh[i], fresh[j]]
            0 <= i < j < fresh.len() && fresh[i] is Some ==> fresh[i] != fresh[j]
    }

    /// How many pushes found an entry and do not keep it. Each takes three identifiers more: its
    /// own, and those of the deletion of the entry and of the new one.
    pub open spec fn count_uprooted<S: Store>(&self, db: &S) -> nat {
        let n = self.pushes().len() as int;
        count_marked(
            self.pushes(),
            uprooted(self.pushes(), listing(self.base(db)), self.all_changes(db), n),
            n,
        )
    }

    /// All changes, once it is known which directories took the place of others.
    pub open spec fn full_changes<S: Store>(
        &self,
        db: &S,
        fresh: Seq<Option<Unique>>,
    ) -> Seq<ChangeView> {
        uprooted_changes(self.pushes(), listing(self.base(db)), self.all_changes(db), fresh)
    }

    /// What was pushed, with the identifiers that the files have in the new tree. They are those of
    /// the pushes, but that a directory that was moved has the one that it had before, and that one
    /// whose place in the old tree was that of another has a new one.
    pub open spec fn final_pushes<S: Store>(
        &self,
        db: &S,
        fresh: Seq<Option<Unique>>,
    ) -> Seq<Pushed> {
        settled_pushes(uprooted_pushes(self.pushes(), fresh), self.full_changes(db, fresh))
    }

    /// Whether the items are those of the old tree with all changes put in. The identifiers `ids`
    /// are those of the new entries and deletions, and `new` are the items that the changes make.
    pub open spec fn makes<S: Store>(
        &self,
        db: &S,
        fresh: Seq<Option<Unique>>,
        ids: Seq<Unique>,
        new: Seq<ItemView>,
        items: Seq<ItemView>,
    ) -> bool {
        &&& self.uproots(db, fresh)
        &&& built(self.base(db), settled(self.full_changes(db, fresh)), ids, new, items)
    }

    /// Whether the push `i` keeps the entry that it found: it is of a directory that stayed, or no
    /// directory on the way to it took the place of another.
    pub open spec fn keeps<S: Store>(&self, db: &S, i: int) -> bool {
        &&& self.pushes()[i].kept is Some
        &&& stays(self.pushes()[i], listing(self.base(db))) || !uprooted(
            self.pushes(),
            listing(self.base(db)),
            self.all_changes(db),
            self.pushes().len() as int,
        )[i]
    }

    /// What was pushed.
    pub closed spec fn pushes(&self) -> Seq<Pushed> {
        self.pushed@
    }

    /// Whether the builder follows a tree, and what was pushed agrees with it.
    pub closed spec fn wf<S: Store>(&self, db: &S) -> bool {
        &&& self.follows(db)
        &&& ahead(self.base(db), walk(self.base(db)), self.done(db), self.stack@)
        &&& stacked(self.pushed@, self.stack@)
        &&& in_order(self.pushed@) ==> self.in_step(db)
    }

    /// Whether the builder follows a tree.
    spec fn follows<S: Store>(&self, db: &S) -> bool {
        &&& self.tree.wf(db)
        &&& self.cursor.wf(db)
        &&& self.cursor.root() matches Some(root) ==> root.reads(self.tree.items)
        &&& 0 <= self.done(db)
        &&& self.pending(db) == listing(self.base(db)).skip(self.done(db))
        &&& tracked_to(
            self.base(db),
            walk(self.base(db)),
            self.done(db),
            self.pushed@,
            self.changes(),
            self.origins@,
        )
        &&& records(self.records@, self.pushed@, listing(self.base(db)))
        &&& forall|i: int|
            0 <= i < self.pushed@.len() ==> db.issued((#[trigger] self.pushed@[i]).id)
        &&& forall|x: int|
            0 <= x < self.changes().len() && #[trigger] self.changes()[x] is Remove
                ==> self.changes()[x]->Remove_entry is DirEntry
    }

    /// Whether the changes are those that the pushes ask for.
    spec fn agrees<S: Store>(&self, db: &S) -> bool {
        reconciled(
            self.base(db),
            walk(self.base(db)),
            self.done(db),
            self.pushed@,
            self.changes(),
            self.origins@,
        )
    }

    /// Whether the changes and the open directories are those that the pushes ask for.
    spec fn in_step<S: Store>(&self, db: &S) -> bool {
        let (items, w) = (self.base(db), walk(self.base(db)));
        self.agrees(db) && opened(items, w, self.done(db), self.pushed@, self.stack@)
    }

    /// A builder that starts from `tree`.
    pub fn new<S: Store>(tree: Tree, db: &S) -> (result: Result<Self, S::ReadError>)
        requires
            tree.wf(db),
        ensures
            match result {
                Ok(builder) => {
                    &&& builder.wf(db)
                    &&& builder.source() == tree
                    &&& builder.pending(db) == listing(tree.contents(db))
                    &&& builder.dirs() == Seq::<Unique>::empty()
                    &&& builder.changes() == Seq::<ChangeView>::empty()
                    &&& builder.pushes() == Seq::<Pushed>::empty()
                },
                Err(error) => tree.may_fail(db, error),
            },
    {
        let cursor = Cursor::new(&tree, db)?;
        let builder = Builder {
            tree,
            stack: Vec::new(),
            cursor,
            item_changes: Vec::new(),
            records: Vec::new(),
            pushed: Ghost(Seq::empty()),
            origins: Ghost(Seq::empty()),
        };
        proof {
            let items = tree.contents(db);
            assert(walk_of(items, walk(items)));
            lemma_start(items, walk(items));
            assert(builder.changes() =~= Seq::empty());
            assert(listing(items).skip(0) =~= listing(items));
        }
        Ok(builder)
    }

    /// How many directories are open.
    pub fn depth(&self) -> (depth: usize)
        ensures
            depth == self.dirs().len(),
    {
        self.stack.len()
    }

    /// Where the next entry of the old tree lies, seen from one that is pushed.
    fn next_place<S: Store>(
        &self,
        name: &Vec<u8>,
        metadata: &Metadata,
        depth: usize,
        db: &S,
    ) -> (result: Result<Place, S::ReadError>)
        requires
            self.follows(db),
            depth > 0,
        ensures
            match result {
                Ok(found) => found == if self.pending(db).len() == 0 {
                    Place::After
                } else {
                    place(
                        self.pending(db)[0],
                        depth,
                        KindView::DirEntry { is_dir: metadata.is_dir, name: name@ },
                    )
                },
                Err(error) => self.source().may_fail(db, error),
            },
    {
        proof {
            self.cursor.lemma_place(db);
        }
        let here: usize = self.cursor.depth();
        if here > depth {
            Ok(Place::Before)
        } else if here < depth {
            Ok(Place::After)
        } else {
            let ordering = self.cursor.cmp_with_entry(name, metadata, db)?;
            proof {
                let kind = KindView::DirEntry { is_dir: metadata.is_dir, name: name@ };
                lemma_kind_lt_total(entry_kind(self.pending(db)[0].entry), kind);
                lemma_kind_lt_irreflexive(kind);
            }
            Ok(
                match ordering {
                    Ordering::Less => Place::Before,
                    Ordering::Equal => Place::Here,
                    Ordering::Greater => Place::After,
                },
            )
        }
    }

    /// Passes over the next entry of the old tree, which is to be deleted.
    fn remove_next<S: Store>(&mut self, db: &S) -> (result: Result<(), S::ReadError>)
        requires
            old(self).follows(db),
            old(self).pending(db).len() > 0,
        ensures
            match result {
                Ok(()) => {
                    &&& final(self).follows(db)
                    &&& final(self).source() == old(self).source()
                    &&& final(self).dirs() == old(self).dirs()
                    &&& final(self).pushes() == old(self).pushes()
                    &&& final(self).pending(db) == old(self).pending(db).skip(1)
                    &&& final(self).changes() == old(self).changes() + removals(
                        old(self).pending(db).take(1),
                    )
                    &&& old(self).agrees(db) ==> final(self).agrees(db)
                },
                Err(error) => {
                    &&& final(self).source() == old(self).source()
                    &&& final(self).pushes() == old(self).pushes()
                    &&& old(self).source().may_fail(db, error)
                },
            },
    {
        let ghost items = self.base(db);
        let ghost w = walk(items);
        let ghost j = self.done(db);
        let ghost rest = self.pending(db);
        let ghost origins = self.origins@;
        let entry = self.cursor.dir_entry(db)?;
        let inode = self.cursor.inode(db)?;
        let entry = entry.unwrap();
        let inode = inode.unwrap();
        let ghost change = ChangeView::Remove { entry: rest[0].entry, inode: rest[0].inode };
        self.item_changes.push(ItemChange::RemoveDirEntry { entry, inode });
        let _ = self.cursor.next(db)?;
        self.origins = Ghost(origins.push(Origin::Removed(j)));
        proof {
            assert(walk_of(items, w));
            lemma_listing(items, j);
            assert(rest[0] == listing(items)[j]);
            assert(self.changes() =~= old(self).changes().push(change));
            assert(removals(rest.take(1)) =~= seq![change]);
            assert(old(self).changes() + removals(rest.take(1)) =~= old(self).changes().push(
                change,
            ));
            assert(listing(items).skip(j).skip(1) =~= listing(items).skip(j + 1));
            assert(visible(items, w[j].pos));
            lemma_track_remove(
                items,
                w,
                j,
                self.pushed@,
                old(self).changes(),
                origins,
                rest[0].inode,
            );
            if old(self).agrees(db) {
                lemma_remove(
                    items,
                    w,
                    j,
                    self.pushed@,
                    old(self).changes(),
                    origins,
                    rest[0].inode,
                );
            }
            assert forall|x: int|
                0 <= x < self.changes().len() && #[trigger] self.changes()[x] is Remove implies
                self.changes()[x]->Remove_entry is DirEntry by {
                if x < old(self).changes().len() {
                    assert(self.changes()[x] == old(self).changes()[x]);
                }
            }
        }
        Ok(())
    }

    /// Whether the builder has passed over `n` entries since it was `first`, and done nothing else.
    spec fn has_passed<S: Store>(&self, first: Builder, n: int, db: &S) -> bool {
        let rest = first.pending(db);
        &&& first.wf(db)
        &&& self.follows(db)
        &&& self.source() == first.source()
        &&& self.dirs() == first.dirs()
        &&& self.pushes() == first.pushes()
        &&& self.pending(db) == rest.skip(n)
        &&& self.changes() == first.changes() + removals(rest.take(n))
        &&& in_order(first.pushes()) ==> self.agrees(db)
    }

    /// Closes the directories that an entry of the given depth does not lie in, and tells which one
    /// it is put in.
    fn open_for(&mut self, depth: usize) -> (parent_id: Unique)
        requires
            depth > 0,
        ensures
            parent_id == put_in(old(self).dirs(), depth),
            final(self).stack@ == still_open(old(self).dirs(), depth),
            final(self).tree == old(self).tree,
            final(self).cursor == old(self).cursor,
            final(self).item_changes == old(self).item_changes,
            final(self).records == old(self).records,
            final(self).pushed == old(self).pushed,
            final(self).origins == old(self).origins,
    {
        self.stack.truncate(depth - 1);
        assert(self.stack@ =~= still_open(old(self).dirs(), depth));
        if self.stack.len() > 0 {
            self.stack[self.stack.len() - 1]
        } else {
            Unique::default()
        }
    }

    /// Adds an entry that is found at the next entry of the old tree.
    fn keep_next<S: Store>(
        &mut self,
        name: Vec<u8>,
        metadata: Metadata,
        depth: usize,
        first: Ghost<Builder>,
        db: &S,
    ) -> (result: Result<(), S::ReadError>)
        requires
            depth > 0,
            hit(
                first@.pending(db),
                depth,
                KindView::DirEntry { is_dir: metadata.is_dir, name: name@ },
            ),
            old(self).has_passed(
                first@,
                outdated(
                    first@.pending(db),
                    0,
                    depth,
                    KindView::DirEntry { is_dir: metadata.is_dir, name: name@ },
                ),
                db,
            ),
        ensures
            final(self).source() == first@.source(),
            match result {
                Ok(()) => {
                    let rest = first@.pending(db);
                    let kind = KindView::DirEntry { is_dir: metadata.is_dir, name: name@ };
                    let n = outdated(rest, 0, depth, kind);
                    let id = rest[n].entry.child_id();
                    &&& final(self).wf(db)
                    &&& final(self).dirs() == still_open(first@.dirs(), depth).push(id)
                    &&& final(self).pushes() == first@.pushes().push(
                        record(first@.done(db), rest, first@.dirs(), name@, metadata, depth, id),
                    )
                    &&& final(self).pending(db) == rest.skip(n + 1)
                    &&& final(self).changes() == first@.changes() + removals(rest.take(n))
                },
                Err(error) => {
                    &&& final(self).pushes() == first@.pushes()
                    &&& first@.source().may_fail(db, error)
                },
            },
    {
        let ghost first = first@;
        let ghost items = first.base(db);
        let ghost w = walk(items);
        let ghost j = first.done(db);
        let ghost rest = first.pending(db);
        let ghost kind = KindView::DirEntry { is_dir: metadata.is_dir, name: name@ };
        let ghost n = outdated(rest, 0, depth, kind);
        proof {
            lemma_outdated(rest, 0, depth, kind);
            lemma_walked(items, j, depth, kind);
        }
        let ghost origins = self.origins@;
        let parent_id = self.open_for(depth);
        let ghost cut = *self;
        let file_id = self.cursor.file_id(db)?;
        let entry = self.cursor.dir_entry(db)?;
        let inode = self.cursor.inode(db)?;
        let _ = self.cursor.next(db)?;
        let file_id = file_id.unwrap();
        let found = Found { name, entry: entry.unwrap(), inode: inode.unwrap() };
        let ghost p = record(j, rest, first.dirs(), name@, metadata, depth, file_id);
        self.stack.push(file_id);
        self.records.push(
            PushRecord {
                is_dir: metadata.is_dir,
                inode: metadata.inode,
                parent: parent_id,
                id: file_id,
                found: Some(found),
            },
        );
        self.pushed = Ghost(first.pushes().push(p));
        proof {
            assert(self.changes() =~= first.changes() + removals(rest.take(n)));
            assert(rest.skip(n).skip(1) =~= rest.skip(n + 1));
            assert(listing(items).skip(j).skip(n + 1) =~= listing(items).skip(j + n + 1));
            assert(walk_of(items, w));
            lemma_listing(items, j + n);
            assert(rest[n] == listing(items)[j + n]);
            assert(visible(items, w[j + n].pos));
            assert(db.issued(items[w[j + n].pos].child_id()));
            assert(self.changes() == cut.changes());
            lemma_ahead_after(
                items,
                w,
                j,
                j + n,
                j + n + 1,
                first.dirs(),
                depth as int,
                kind,
                file_id,
            );
            self.lemma_put_in(first.pushes(), first.dirs(), depth);
            lemma_stacked_after(first.pushes(), p, first.dirs(), depth as int);
            assert(self.stack@ =~= open_after(first.dirs(), depth as int, file_id));
            assert(matches_push(items[w[j + n].pos], p));
            lemma_track_keep(
                items,
                w,
                j + n,
                first.pushes(),
                self.changes(),
                origins,
                p,
            );
            assert(self.follows(db)) by {
                assert forall|i: int| 0 <= i < self.pushed@.len() implies db.issued(
                    (#[trigger] self.pushed@[i]).id,
                ) by {
                    if i < first.pushed@.len() {
                        assert(self.pushed@[i] == first.pushed@[i]);
                    }
                }
                assert forall|i: int| 0 <= i < self.records@.len() implies records_push(
                    #[trigger] self.records@[i],
                    self.pushed@[i],
                    listing(items),
                ) by {
                    if i < first.pushed@.len() {
                        assert(self.records@[i] == cut.records@[i]);
                        assert(self.pushed@[i] == first.pushed@[i]);
                    }
                }
            }
            if in_order(self.pushed@) {
                lemma_in_order_prefix(first.pushes(), p);
                lemma_up_from_new(first.pushes(), p);
                lemma_keep(
                    items,
                    w,
                    j,
                    j + n,
                    first.pushes(),
                    first.changes(),
                    first.origins@,
                    self.changes(),
                    origins,
                    first.dirs(),
                    p,
                );
            }
        }
        Ok(())
    }

    /// Adds an entry that the old tree does not have.
    fn insert_next<S: Store>(
        &mut self,
        name: Vec<u8>,
        metadata: Metadata,
        depth: usize,
        first: Ghost<Builder>,
        db: &mut S,
    )
        requires
            depth > 0,
            old(db).supply() > 0,
            !hit(
                first@.pending(&*old(db)),
                depth,
                KindView::DirEntry { is_dir: metadata.is_dir, name: name@ },
            ),
            old(self).has_passed(
                first@,
                outdated(
                    first@.pending(&*old(db)),
                    0,
                    depth,
                    KindView::DirEntry { is_dir: metadata.is_dir, name: name@ },
                ),
                &*old(db),
            ),
        ensures
            ({
                let rest = first@.pending(&*old(db));
                let kind = KindView::DirEntry { is_dir: metadata.is_dir, name: name@ };
                let n = outdated(rest, 0, depth, kind);
                let id = final(self).dirs().last();
                &&& final(self).source() == first@.source()
                &&& final(self).wf(&*final(db))
                &&& issues(&*old(db), &*final(db), id)
                &&& final(self).dirs() == still_open(first@.dirs(), depth).push(id)
                &&& final(self).pushes() == first@.pushes().push(
                    record(
                        first@.done(&*old(db)),
                        rest,
                        first@.dirs(),
                        name@,
                        metadata,
                        depth,
                        id,
                    ),
                )
                &&& final(self).pending(&*final(db)) == rest.skip(n)
                &&& final(self).changes() == (first@.changes() + removals(rest.take(n))).push(
                    ChangeView::Insert {
                        file_id: put_in(first@.dirs(), depth),
                        name: name@,
                        is_dir: metadata.is_dir,
                        child_id: id,
                        child_inode: metadata.inode,
                    },
                )
            }),
    {
        let ghost first = first@;
        let ghost items = first.base(&*db);
        let ghost w = walk(items);
        let ghost j = first.done(&*db);
        let ghost rest = first.pending(&*db);
        let ghost kind = KindView::DirEntry { is_dir: metadata.is_dir, name: name@ };
        let ghost n = outdated(rest, 0, depth, kind);
        proof {
            lemma_outdated(rest, 0, depth, kind);
            lemma_walked(items, j, depth, kind);
        }
        let ghost origins = self.origins@;
        let parent_id = self.open_for(depth);
        let ghost cut = *self;
        let child_id = db.gen_id();
        let ghost p = record(j, rest, first.dirs(), name@, metadata, depth, child_id);
        self.item_changes.push(
            ItemChange::InsertDirEntry {
                file_id: parent_id,
                is_dir: metadata.is_dir,
                child_id,
                child_inode: metadata.inode,
                name,
            },
        );
        self.stack.push(child_id);
        self.records.push(
            PushRecord {
                is_dir: metadata.is_dir,
                inode: metadata.inode,
                parent: parent_id,
                id: child_id,
                found: None,
            },
        );
        self.pushed = Ghost(first.pushes().push(p));
        self.origins = Ghost(origins.push(Origin::Inserted(first.pushes().len() as int)));
        proof {
            self.lemma_put_in(first.pushes(), first.dirs(), depth);
            lemma_ahead_after(
                items,
                w,
                j,
                j + n,
                j + n,
                first.dirs(),
                depth as int,
                kind,
                child_id,
            );
            lemma_stacked_after(first.pushes(), p, first.dirs(), depth as int);
            assert(self.stack@ =~= open_after(first.dirs(), depth as int, child_id));
            cut.lemma_unknown(&*old(db), child_id);
            lemma_track_insert(
                items,
                w,
                j + n,
                first.pushes(),
                cut.changes(),
                origins,
                p,
            );
            let change = ChangeView::Insert {
                file_id: parent_id,
                name: name@,
                is_dir: metadata.is_dir,
                child_id,
                child_inode: metadata.inode,
            };
            assert(self.changes() =~= cut.changes().push(change));
            self.tree.lemma_same_nodes(&*old(db), &*db);
            self.cursor.lemma_same_nodes(&*old(db), &*db);
            assert(listing(items).skip(j).skip(n) =~= listing(items).skip(j + n));
            assert(self.follows(&*db)) by {
                assert forall|i: int| 0 <= i < self.pushed@.len() implies db.issued(
                    (#[trigger] self.pushed@[i]).id,
                ) by {
                    if i < first.pushed@.len() {
                        assert(self.pushed@[i] == first.pushed@[i]);
                    }
                }
                assert forall|i: int| 0 <= i < self.records@.len() implies records_push(
                    #[trigger] self.records@[i],
                    self.pushed@[i],
                    listing(items),
                ) by {
                    if i < first.pushed@.len() {
                        assert(self.records@[i] == cut.records@[i]);
                        assert(self.pushed@[i] == first.pushed@[i]);
                    }
                }
                assert forall|x: int|
                    0 <= x < self.changes().len()
                        && #[trigger] self.changes()[x] is Remove implies
                    self.changes()[x]->Remove_entry is DirEntry by {
                    assert(self.changes()[x] == cut.changes()[x]);
                }
            }
            if in_order(self.pushed@) {
                lemma_in_order_prefix(first.pushes(), p);
                lemma_up_from_new(first.pushes(), p);
                lemma_insert(
                    items,
                    w,
                    j,
                    j + n,
                    first.pushes(),
                    first.changes(),
                    first.origins@,
                    cut.changes(),
                    origins,
                    first.dirs(),
                    p,
                );
            }
        }
    }

    /// Adds an entry to the new tree. The entries of a tree are to be pushed in the order in which
    /// a cursor lists them. An entry that the old tree has in the same place stays as it is; any
    /// other is inserted with a new identifier, and entries of the old tree that pushes go past
    /// are deleted. Which directories were moved, or took the place of others, is known only when
    /// the tree is made. If reading fails, the builder may have gone past some entries, and is not
    /// to be used any more.
    pub fn push<S: Store>(
        &mut self,
        name: Vec<u8>,
        metadata: Metadata,
        depth: usize,
        db: &mut S,
    ) -> (result: Result<(), S::ReadError>)
        requires
            old(self).wf(&*old(db)),
            depth > 0,
            old(db).supply() > 0,
        ensures
            match result {
                Ok(()) => {
                    let rest = old(self).pending(&*old(db));
                    let kind = KindView::DirEntry { is_dir: metadata.is_dir, name: name@ };
                    let n = outdated(rest, 0, depth, kind);
                    let id = final(self).dirs().last();
                    &&& final(self).wf(&*final(db))
                    &&& final(self).source() == old(self).source()
                    // The push is the last one, and put in the last directory that is still open.
                    &&& final(self).pushes().len() == old(self).pushes().len() + 1
                    &&& final(self).pushes().drop_last() == old(self).pushes()
                    &&& final(self).pushes().last().depth == depth
                    &&& final(self).pushes().last().name == name@
                    &&& final(self).pushes().last().is_dir == metadata.is_dir
                    &&& final(self).pushes().last().inode == metadata.inode
                    &&& final(self).pushes().last().id == id
                    &&& final(self).pushes().last().kept is Some <==> n < rest.len()
                        && rest[n].depth == depth && rest[n].entry.is_dir() == metadata.is_dir
                        && rest[n].entry.name() == name@
                    &&& final(self).pushes().last().kept matches Some(k) ==> 0 <= k < listing(
                        old(self).base(&*old(db)),
                    ).len() && listing(old(self).base(&*old(db)))[k] == rest[n]
                    &&& depth - 1 <= old(self).dirs().len() ==> final(self).dirs().len() == depth
                    &&& depth - 1 > old(self).dirs().len() ==> final(self).dirs().len() == old(
                        self,
                    ).dirs().len() + 1
                    &&& forall|e: int|
                        0 <= e < final(self).dirs().len() - 1 ==> #[trigger] final(self).dirs()[e]
                            == old(self).dirs()[e]
                    &&& final(self).pushes().last().parent == if final(self).dirs().len() == 1 {
                        root_id()
                    } else {
                        final(self).dirs()[final(self).dirs().len() - 2]
                    }
                    &&& final(self).dirs() == still_open(old(self).dirs(), depth).push(id)
                    &&& final(self).pushes() == old(self).pushes().push(
                        record(
                            old(self).done(&*old(db)),
                            rest,
                            old(self).dirs(),
                            name@,
                            metadata,
                            depth,
                            id,
                        ),
                    )
                    &&& if hit(rest, depth, kind) {
                        &&& *final(db) == *old(db)
                        &&& id == rest[n].entry.child_id()
                        &&& final(self).pending(&*final(db)) == rest.skip(n + 1)
                        &&& final(self).changes() == old(self).changes() + removals(rest.take(n))
                    } else {
                        &&& issues(&*old(db), &*final(db), id)
                        &&& final(self).pending(&*final(db)) == rest.skip(n)
                        &&& final(self).changes() == (old(self).changes() + removals(
                            rest.take(n),
                        )).push(
                            ChangeView::Insert {
                                file_id: put_in(old(self).dirs(), depth),
                                name: name@,
                                is_dir: metadata.is_dir,
                                child_id: id,
                                child_inode: metadata.inode,
                            },
                        )
                    }
                },
                Err(error) => {
                    &&& *final(db) == *old(db)
                    &&& final(self).source() == old(self).source()
                    &&& final(self).pushes() == old(self).pushes()
                    &&& old(self).source().may_fail(&*old(db), error)
                },
            },
    {
        let ghost first = *self;
        let ghost items = self.base(&*db);
        let ghost w = walk(items);
        let ghost j = self.done(&*db);
        let ghost rest = self.pending(&*db);
        let ghost kind = KindView::DirEntry { is_dir: metadata.is_dir, name: name@ };
        let ghost n = outdated(rest, 0, depth, kind);
        let ghost mut k: int = 0;
        proof {
            lemma_outdated(rest, 0, depth, kind);
            lemma_walked(items, j, depth, kind);
            law_goes_past(rest, depth, metadata.is_dir, name@, n, 0);
            assert(rest.skip(0) =~= rest);
            assert(first.changes() + removals(rest.take(0)) =~= first.changes());
        }
        let mut here = self.next_place(&name, &metadata, depth, &*db)?;
        while here == Place::Before
            invariant
                *db == *old(db),
                depth > 0,
                kind == (KindView::DirEntry { is_dir: metadata.is_dir, name: name@ }),
                0 <= k <= n,
                n <= rest.len(),
                n == outdated(rest, 0, depth, kind),
                n == outdated(rest, k, depth, kind),
                self.follows(&*db),
                self.source() == first.source(),
                self.dirs() == first.dirs(),
                self.pushes() == first.pushes(),
                self.pending(&*db) == rest.skip(k),
                self.changes() == first.changes() + removals(rest.take(k)),
                in_order(first.pushes()) ==> self.agrees(&*db),
                here == if k < rest.len() {
                    place(rest[k], depth, kind)
                } else {
                    Place::After
                },
                first == *old(self),
            decreases rest.len() - k,
        {
            assert(k < rest.len());
            assert(self.pending(&*db)[0] == rest[k]);
            self.remove_next(&*db)?;
            proof {
                assert(rest.skip(k).skip(1) =~= rest.skip(k + 1));
                assert(removals(rest.take(k)) + removals(rest.skip(k).take(1)) =~= removals(
                    rest.take(k + 1),
                ));
                assert(first.changes() + removals(rest.take(k)) + removals(rest.skip(k).take(1))
                    =~= first.changes() + removals(rest.take(k + 1)));
                k = k + 1;
                lemma_outdated(rest, k, depth, kind);
                if k < rest.len() {
                    assert(self.pending(&*db)[0] == rest[k]);
                }
            }
            here = self.next_place(&name, &metadata, depth, &*db)?;
        }
        assert(k == n);
        if here == Place::Here {
            self.keep_next(name, metadata, depth, Ghost(first), &*db)
        } else {
            self.insert_next(name, metadata, depth, Ghost(first), db);
            Ok(())
        }
    }

    /// What a push is put in is the root directory, or was pushed.
    proof fn lemma_put_in(&self, ps: Seq<Pushed>, dirs: Seq<Unique>, depth: usize)
        requires
            stacked(ps, dirs),
            depth > 0,
        ensures
            put_in(dirs, depth) == root_id() || pushed_id(ps, put_in(dirs, depth)),
            depth - 1 <= dirs.len() ==> put_in(dirs, depth) == dir_at(dirs, depth as int),
    {
        let open = still_open(dirs, depth);
        if open.len() > 0 {
            assert(open.last() == dirs[open.len() - 1]);
        }
    }

    /// An identifier that was not issued is not known.
    proof fn lemma_unknown<S: Store>(&self, db: &S, id: Unique)
        requires
            self.follows(db),
            !db.issued(id),
            id != root_id(),
        ensures
            !knows(self.base(db), id),
            !pushed_id(self.pushes(), id),
    {
        if knows(self.base(db), id) {
            self.lemma_known_issued(db, id);
        }
        if pushed_id(self.pushes(), id) {
            let i = choose|i: int|
                0 <= i < self.pushes().len() && (#[trigger] self.pushes()[i]).id == id;
            assert(db.issued(self.pushed@[i].id));
        }
    }

    /// What a builder has collected, and the new items that this leads to.
    spec fn merge<S: Store>(
        &self,
        db: &S,
        fresh: Seq<Option<Unique>>,
        origins: Seq<Origin>,
        new: Seq<ItemView>,
    ) -> Merge {
        Merge {
            items: self.base(db),
            walk: walk(self.base(db)),
            pushes: self.final_pushes(db, fresh),
            changes: settled(self.full_changes(db, fresh)),
            origins,
            new,
        }
    }

    /// What is known once all is pushed.
    proof fn lemma_finished<S: Store>(&self, db: &S) -> (origins: Seq<Origin>)
        requires
            self.follows(db),
        ensures
            finished(
                self.base(db),
                walk(self.base(db)),
                self.pushes(),
                self.all_changes(db),
                origins,
            ),
    {
        lemma_remove_rest(
            self.base(db),
            self.done(db),
            self.pushes(),
            self.changes(),
            self.origins@,
        )
    }

    /// What is known once it is known which directories took the place of others.
    proof fn lemma_uprooted<S: Store>(&self, db: &S, fresh: Seq<Option<Unique>>) -> (origins: Seq<
        Origin,
    >)
        requires
            self.follows(db),
            self.uproots(db, fresh),
        ensures
            uprooting(
                self.base(db),
                walk(self.base(db)),
                self.pushes(),
                listing(self.base(db)),
                self.all_changes(db),
                origins,
                fresh,
            ),
            finished(
                self.base(db),
                walk(self.base(db)),
                uprooted_pushes(self.pushes(), fresh),
                self.full_changes(db, fresh),
                uprooted_origins(self.pushes(), fresh, origins),
            ),
    {
        let (items, ps) = (self.base(db), self.pushes());
        let (w, old) = (walk(items), listing(items));
        let origins = self.lemma_finished(db);
        assert(lists_walk(items, w, old)) by {
            assert forall|k: int| 0 <= k < w.len() implies (#[trigger] old[k]).entry
                == items[w[k].pos] && old[k].inode == inode_of(
                items,
                items[w[k].pos].child_id(),
            ) by {
                lemma_listing(items, k);
            }
        }
        assert forall|i: int| 0 <= i < fresh.len() implies (#[trigger] fresh[i] matches Some(id)
            ==> id != root_id() && !knows(items, id) && !pushed_id(ps, id)) by {
            if let Some(id) = fresh[i] {
                self.lemma_unknown(db, id);
            }
        }
        lemma_uprooting(items, w, ps, old, self.all_changes(db), origins, fresh);
        origins
    }

    /// The tree that a builder makes.
    proof fn lemma_made<S: Store>(
        &self,
        db: &S,
        after: &S,
        fresh: Seq<Option<Unique>>,
        ids: Seq<Unique>,
        new: Seq<ItemView>,
        result: Seq<ItemView>,
    )
        requires
            self.follows(db),
            proper(self.base(db), self.pushes()),
            in_order(self.pushes()) ==> self.agrees(db),
            self.makes(db, fresh, ids, new, result),
            issues_all(db, after, handed(fresh, self.pushes().len() as int) + ids),
        ensures
            well_formed(result),
            ids_issued(result, after),
            lists_pushes(listing(result), self.final_pushes(db, fresh)),
            all_housed(self.pushes()) ==> all_housed(self.final_pushes(db, fresh)),
            in_order(self.pushes()) ==> lists(
                listing(result),
                self.final_pushes(db, fresh),
                listing(self.base(db)),
            ),
            in_order(self.pushes()) ==> forall|i: int|
                0 <= i < self.pushes().len() && (#[trigger] self.pushes()[i]).is_dir ==> lookup(
                    result,
                    root_id(),
                    pushed_path(self.pushes(), i),
                ) == Some(self.final_pushes(db, fresh)[i].id),
    {
        let (items, ps) = (self.base(db), self.pushes());
        let (w, old, all) = (walk(items), listing(items), self.all_changes(db));
        let (qs, cs) = (uprooted_pushes(ps, fresh), self.full_changes(db, fresh));
        let first = self.lemma_uprooted(db, fresh);
        let origins = uprooted_origins(ps, fresh, first);
        let m = self.merge(db, fresh, origins, new);
        assert(walk_of(items, w));
        lemma_uprooted_proper(items, w, ps, old, all, first, fresh);
        lemma_resolved(items, w, qs, cs, origins);
        lemma_patch(m.items, m.walk, m.pushes, m.changes, m.origins, ids, new);
        assert(m.valid());
        m.lemma_is_tree();
        m.lemma_lists_pushes();
        if all_housed(ps) {
            lemma_uprooted_housed(items, w, ps, old, all, first, fresh);
            lemma_settled_housed(items, w, qs, cs, origins);
        }
        let out = m.result();
        assert(out == result);
        assert forall|a: int| 0 <= a < out.len() implies (after.issued(
            (#[trigger] out[a]).file_id(),
        ) || out[a].file_id() == root_id()) && (out[a] is DirEntry ==> after.issued(
            out[a].child_id(),
        )) by {
            m.lemma_accounts(a);
            self.lemma_accounted(db, after, fresh, ids, m, out[a].file_id());
            if out[a] is DirEntry {
                self.lemma_accounted(db, after, fresh, ids, m, out[a].child_id());
            }
        }
        if in_order(ps) {
            lemma_uprooted_in_order(items, w, ps, old, all, first, fresh);
            lemma_settled_in_order(items, w, qs, cs, origins);
            m.lemma_lists();
            assert forall|i: int| 0 <= i < ps.len() && (#[trigger] self.pushes()[i]).is_dir implies
                lookup(result, root_id(), pushed_path(self.pushes(), i)) == Some(
                self.final_pushes(db, fresh)[i].id,
            ) by {
                m.lemma_found(i);
                lemma_same_paths(ps, qs, i);
                lemma_same_paths(qs, m.pushes, i);
            }
        }
    }

    /// What is known of the pushes and the changes once all is pushed.
    pub(crate) proof fn lemma_all_finished<S: Store>(&self, db: &S) -> (origins: Seq<Origin>)
        requires
            self.wf(db),
        ensures
            well_formed(self.base(db)),
            finished(
                self.base(db),
                walk(self.base(db)),
                self.pushes(),
                self.all_changes(db),
                origins,
            ),
    {
        self.lemma_finished(db)
    }

    /// Why the changes are made, once it is known which directories took the place of others.
    pub(crate) proof fn lemma_reasons<S: Store>(&self, db: &S, fresh: Seq<Option<Unique>>) -> (
        origins: Seq<Origin>)
        requires
            self.wf(db),
            self.uproots(db, fresh),
        ensures
            well_formed(self.base(db)),
            finished(
                self.base(db),
                walk(self.base(db)),
                uprooted_pushes(self.pushes(), fresh),
                self.full_changes(db, fresh),
                origins,
            ),
    {
        let first = self.lemma_uprooted(db, fresh);
        uprooted_origins(self.pushes(), fresh, first)
    }

    /// What the tree lists that is made of pushes that came in order.
    pub(crate) proof fn lemma_result<S: Store>(
        &self,
        db: &S,
        after: &S,
        fresh: Seq<Option<Unique>>,
        ids: Seq<Unique>,
        new: Seq<ItemView>,
        result: Seq<ItemView>,
    )
        requires
            self.wf(db),
            in_order(self.pushes()),
            self.makes(db, fresh, ids, new, result),
            issues_all(db, after, handed(fresh, self.pushes().len() as int) + ids),
        ensures
            well_formed(result),
            lists(listing(result), self.final_pushes(db, fresh), listing(self.base(db))),
            self.final_pushes(db, fresh).len() == self.pushes().len(),
            forall|i: int|
                0 <= i < self.pushes().len() ==> (#[trigger] listing(result)[i]).path
                    == pushed_path(self.pushes(), i),
    {
        let ps = self.pushes();
        lemma_proper(self.base(db), ps);
        self.lemma_made(db, after, fresh, ids, new, result);
        let (qs, rs) = (uprooted_pushes(ps, fresh), self.final_pushes(db, fresh));
        lemma_same_entries(ps, qs);
        assert forall|i: int| 0 <= i < ps.len() implies (#[trigger] listing(result)[i]).path
            == pushed_path(ps, i) by {
            lemma_same_paths(ps, qs, i);
            lemma_same_paths(qs, rs, i);
        }
    }

    /// No item of the old tree is lost, whatever was pushed: it is in the new tree as it was, or it
    /// is an entry that is listed, and deleted there.
    pub proof fn law_nothing_lost<S: Store>(
        &self,
        db: &S,
        fresh: Seq<Option<Unique>>,
        ids: Seq<Unique>,
        new: Seq<ItemView>,
        result: Seq<ItemView>,
        q: int,
    )
        requires
            self.wf(db),
            self.makes(db, fresh, ids, new, result),
            0 <= q < self.base(db).len(),
        ensures
            survives(self.base(db)[q], result),
            (forall|k: int|
                0 <= k < listing(self.base(db)).len() ==> (#[trigger] listing(
                    self.base(db),
                )[k]).entry != self.base(db)[q]) ==> result.contains(self.base(db)[q]),
            // An entry that a push keeps is there as it was.
            forall|i: int|
                0 <= i < self.pushes().len() && (#[trigger] fresh[i]) is None && (
                self.pushes()[i].kept matches Some(k) && self.base(db)[q] == listing(
                    self.base(db),
                )[k].entry) ==> result.contains(self.base(db)[q]),
    {
        let (items, ps) = (self.base(db), self.pushes());
        let w = walk(items);
        let (qs, cs) = (uprooted_pushes(ps, fresh), self.full_changes(db, fresh));
        let first = self.lemma_uprooted(db, fresh);
        let origins = uprooted_origins(ps, fresh, first);
        assert(walk_of(items, w));
        assert(removes_visits(items, w, settled(cs), origins)) by {
            let last = settled(cs);
            assert forall|x: int| 0 <= x < cs.len() && (#[trigger] last[x]) is Remove implies (
            origins[x] matches Origin::Removed(k) && 0 <= k < w.len() && last[x]->Remove_entry
                == items[w[k].pos]) by {
                assert(traced(items, w, w.len() as int, qs, cs[x], origins[x]));
            }
        }
        lemma_nothing_lost(items, w, settled(cs), origins, ids, new, q);
        if forall|k: int|
            0 <= k < listing(items).len() ==> (#[trigger] listing(items)[k]).entry != items[q] {
            assert forall|x: int| 0 <= x < origins.len() implies (
            #[trigger] origins[x] matches Origin::Removed(k) ==> w[k].pos != q) by {
                if let Origin::Removed(k) = origins[x] {
                    assert(traced(items, w, w.len() as int, qs, cs[x], origins[x]));
                    lemma_listing(items, k);
                    assert(listing(items)[k].entry != items[q]);
                }
            }
        }
        assert forall|i: int|
            0 <= i < ps.len() && (#[trigger] fresh[i]) is None && (ps[i].kept matches Some(k)
                && items[q] == listing(items)[k].entry) implies result.contains(items[q]) by {
            let k = ps[i].kept->0;
            assert(qs[i].kept == Some(k));
            lemma_listing(items, k);
            assert(visible(items, w[k].pos));
            assert forall|x: int| 0 <= x < origins.len() implies (
            #[trigger] origins[x] matches Origin::Removed(l) ==> w[l].pos != q) by {
                if let Origin::Removed(l) = origins[x] {
                    assert(traced(items, w, w.len() as int, qs, cs[x], origins[x]));
                    assert(visible(items, w[l].pos));
                    if w[l].pos == q {
                        lemma_visit_keys(items, w, l, k);
                        assert(dropped(origins, k) != held(qs, k));
                    }
                }
            }
        }
    }

    /// Identifiers that are accounted for were issued.
    proof fn lemma_accounted<S: Store>(
        &self,
        db: &S,
        after: &S,
        fresh: Seq<Option<Unique>>,
        ids: Seq<Unique>,
        m: Merge,
        id: Unique,
    )
        requires
            self.follows(db),
            self.uproots(db, fresh),
            issues_all(db, after, handed(fresh, self.pushes().len() as int) + ids),
            m.items == self.base(db),
            m.pushes == self.final_pushes(db, fresh),
            finished(
                self.base(db),
                walk(self.base(db)),
                uprooted_pushes(self.pushes(), fresh),
                self.full_changes(db, fresh),
                m.origins,
            ),
            m.accounts_for(id),
        ensures
            id == root_id() || after.issued(id),
    {
        if knows(m.items, id) {
            self.lemma_known_issued(db, id);
        }
        if exists|i: int| 0 <= i < m.pushes.len() && (#[trigger] m.pushes[i]).id == id {
            let i = choose|i: int| 0 <= i < m.pushes.len() && (#[trigger] m.pushes[i]).id == id;
            let (items, w, ps) = (m.items, walk(m.items), self.pushes());
            let (qs, cs) = (uprooted_pushes(ps, fresh), self.full_changes(db, fresh));
            assert(walk_of(items, w));
            assert(db.issued(self.pushed@[i].id));
            if qs[i].kept is None {
                let x = lemma_settled_id(items, w, qs, cs, m.origins, i);
                if knows(items, id) {
                    self.lemma_known_issued(db, id);
                } else if fresh[i] is Some {
                    let all = handed(fresh, ps.len() as int);
                    lemma_handed(fresh, ps.len() as int);
                    let r = handed(fresh, i).len() as int;
                    assert((all + ids)[r] == id);
                    assert((all + ids).contains(id));
                }
            } else {
                lemma_kept_id(items, w, qs, cs, m.origins, i);
            }
        }
    }

    /// Files that the old tree knows have identifiers that were issued.
    proof fn lemma_known_issued<S: Store>(&self, db: &S, id: Unique)
        requires
            self.follows(db),
            knows(self.base(db), id),
        ensures
            id == root_id() || db.issued(id),
    {
        let items = self.base(db);
        let p = choose|p: int|
            0 <= p < items.len() && ((#[trigger] items[p]).file_id() == id || (
            items[p] is DirEntry && items[p].child_id() == id));
        assert(ids_issued(items, db));
    }

    /// Makes the new tree. Entries of the old tree that no push has gone past are deleted. A pushed
    /// directory keeps the identifier of the one that the old tree lists with the same inode. One
    /// that the old tree does not list keeps the identifier that it was given when it was pushed,
    /// unless the old tree has that for a directory that is now elsewhere.
    pub fn tree<S: Store>(self, db: &mut S) -> (result: Result<Tree, S::ReadError>)
        requires
            self.wf(&*old(db)),
            old(db).supply() >= self.changes().len() + self.pending(&*old(db)).len() + 3
                * self.count_uprooted(&*old(db)),
        ensures
            match result {
                Ok(tree) => {
                    let base = self.base(&*old(db));
                    let made = tree.contents(&*final(db));
                    // The items are the old ones with the changes put in. They list proper pushes,
                    // in whatever order these came, and nothing else. Pushes that came in order
                    // they list in that order, and every directory that was pushed is found under
                    // its path.
                    &&& exists|
                        fresh: Seq<Option<Unique>>,
                        ids: Seq<Unique>,
                        new: Seq<ItemView>,
                    | #[trigger]
                        self.makes(&*old(db), fresh, ids, new, made) && issues_all(
                            &*old(db),
                            &*final(db),
                            handed(fresh, self.pushes().len() as int) + ids,
                        ) && (proper(base, self.pushes()) ==> lists_pushes(
                            listing(made),
                            self.final_pushes(&*old(db), fresh),
                        ) && (all_housed(self.pushes()) ==> all_housed(
                            self.final_pushes(&*old(db), fresh),
                        ))) && (in_order(self.pushes()) ==> lists(
                            listing(made),
                            self.final_pushes(&*old(db), fresh),
                            listing(base),
                        ) && forall|i: int|
                            0 <= i < self.pushes().len() && (#[trigger] self.pushes()[i]).is_dir
                                ==> lookup(made, root_id(), pushed_path(self.pushes(), i)) == Some(
                                self.final_pushes(&*old(db), fresh)[i].id,
                            ))
                    &&& tree.items is Resident
                    &&& tree.file_ids_by_inode is Resident
                    &&& tree.file_ids_by_inode->Resident_0.items@.len() == 0
                    // The items are sorted, and none is lost, whatever was pushed.
                    &&& sorted(made)
                    &&& forall|q: int|
                        0 <= q < base.len() ==> survives(#[trigger] base[q], made)
                    &&& forall|q: int|
                        0 <= q < base.len() && (forall|k: int|
                            0 <= k < listing(base).len() ==> (#[trigger] listing(base)[k]).entry
                                != base[q]) ==> made.contains(#[trigger] base[q])
                    // New entries and deletions have identifiers that were not issued before, and
                    // are now, each its own.
                    &&& forall|a: int|
                        0 <= a < made.len() && !base.contains(made[a]) ==> (
                        #[trigger] made[a] matches ItemView::DirEntry { entry_id, deletions, .. }
                            ==> {
                            let id = if deletions.len() == 0 {
                                entry_id
                            } else {
                                deletions.last()
                            };
                            !old(db).issued(id) && final(db).issued(id)
                        })
                    &&& forall|a: int, b: int|
                        0 <= a < b < made.len() && !base.contains(made[a]) && !base.contains(
                            made[b],
                        ) ==> (#[trigger] made[a] matches ItemView::DirEntry {
                            entry_id,
                            deletions,
                            ..
                        } ==> #[trigger] made[b] matches ItemView::DirEntry {
                            entry_id: other_entry_id,
                            deletions: other_deletions,
                            ..
                        } ==> (if deletions.len() == 0 {
                            entry_id
                        } else {
                            deletions.last()
                        }) != (if other_deletions.len() == 0 {
                            other_entry_id
                        } else {
                            other_deletions.last()
                        }))
                    // Proper pushes make a tree, in whatever order they came.
                    &&& proper(base, self.pushes()) ==> tree.wf(&*final(db))
                    // What was pushed in order is proper.
                    &&& in_order(self.pushes()) ==> proper(base, self.pushes())
                    // A directory that keeps its entry has the identifier that it had under the
                    // same path.
                    &&& in_order(self.pushes()) ==> forall|i: int|
                        0 <= i < self.pushes().len() && (#[trigger] self.pushes()[i]).is_dir
                            && self.keeps(&*old(db), i) ==> lookup(
                            made,
                            root_id(),
                            pushed_path(self.pushes(), i),
                        ) == lookup(base, root_id(), pushed_path(self.pushes(), i))
                    // A file that is no directory stays the same file under its path, whatever its
                    // inode, if all directories on the way stay with their inodes.
                    &&& in_order(self.pushes()) ==> forall|i: int, k: int|
                        #![trigger listing(made)[i], listing(base)[k]]
                        0 <= i < self.pushes().len() && 0 <= k < listing(base).len()
                            && !self.pushes()[i].is_dir && !listing(base)[k].entry.is_dir()
                            && listing(base)[k].path == pushed_path(self.pushes(), i) && (
                        forall|j: int|
                            0 <= j < i && (#[trigger] self.pushes()[j]).is_dir && pushed_path(
                                self.pushes(),
                                j,
                            ).len() < pushed_path(self.pushes(), i).len() && pushed_path(
                                self.pushes(),
                                j,
                            ) == pushed_path(self.pushes(), i).take(
                                pushed_path(self.pushes(), j).len() as int,
                            ) ==> exists|l: int|
                                0 <= l < listing(base).len() && (#[trigger] listing(
                                    base,
                                )[l]).entry.is_dir() && listing(base)[l].path == pushed_path(
                                    self.pushes(),
                                    j,
                                ) && listing(base)[l].inode == self.pushes()[j].inode)
                            ==> listing(made)[i].entry == listing(base)[k].entry && listing(
                            made,
                        )[i].path == listing(base)[k].path
                    // A directory that was moved has the identifier that it had under its old path.
                    &&& in_order(self.pushes()) ==> forall|i: int, k: int| #[trigger]
                        same_directory(self.pushes(), listing(base), i, k) ==> lookup(
                            made,
                            root_id(),
                            pushed_path(self.pushes(), i),
                        ) == lookup(base, root_id(), listing(base)[k].path)
                },
                Err(error) => {
                    &&& self.source().may_fail(&*old(db), error)
                    &&& exists|ids: Seq<Unique>| issues_all(&*old(db), &*final(db), ids)
                },
            },
    {
        let mut builder = self;
        let ghost rest = self.pending(&*db);
        let ghost mut k: int = 0;
        proof {
            assert(rest.skip(0) =~= rest);
            assert(self.changes() + removals(rest.take(0)) =~= self.changes());
            assert(issues_all(&*old(db), &*db, Seq::empty()));
        }
        loop
            invariant
                *db == *old(db),
                issues_all(&*old(db), &*db, Seq::empty()),
                0 <= k <= rest.len(),
                rest == self.pending(&*db),
                builder.follows(&*db),
                builder.source() == self.source(),
                builder.pushes() == self.pushes(),
                builder.pending(&*db) == rest.skip(k),
                builder.changes() == self.changes() + removals(rest.take(k)),
                in_order(self.pushes()) ==> builder.agrees(&*db),
            ensures
                k == rest.len(),
            decreases rest.len() - k,
        {
            let entry = builder.cursor.dir_entry(&*db)?;
            if entry.is_none() {
                break;
            }
            builder.remove_next(&*db)?;
            proof {
                assert(rest.skip(k).skip(1) =~= rest.skip(k + 1));
                assert(removals(rest.take(k)) + removals(rest.skip(k).take(1)) =~= removals(
                    rest.take(k + 1),
                ));
                assert(self.changes() + removals(rest.take(k)) + removals(rest.skip(k).take(1))
                    =~= self.changes() + removals(rest.take(k + 1)));
                k = k + 1;
            }
        }
        let ghost full = builder;
        let ghost all = self.all_changes(&*old(db));
        proof {
            assert(rest.take(k) =~= rest);
            assert(removes_entries(full.item_changes@)) by {
                assert forall|x: int|
                    0 <= x < full.item_changes.len()
                        && #[trigger] full.item_changes[x]@ is Remove implies
                    full.item_changes[x]@->Remove_entry is DirEntry by {
                    assert(full.changes()[x] == full.item_changes[x]@);
                }
            }
        }
        let ghost old_list = listing(self.base(&*old(db)));
        let ghost ps = self.pushes();
        let (changes, Ghost(fresh)) = uproot(
            builder.records,
            builder.item_changes,
            Ghost(ps),
            Ghost(old_list),
            db,
        );
        let ghost mid = *db;
        let ghost given = handed(fresh, ps.len() as int);
        let ghost full_changes = self.full_changes(&*old(db), fresh);
        assert(change_views(changes@) == full_changes);
        let changes = settle_changes(changes);
        assert(change_views(changes@).len() == changes.len());
        let (items, Ghost(ids)) = render_changes(changes, db);
        proof {
            lemma_issues_both(&*old(db), &mid, &*db, given, ids);
        }
        let new = sort_items(items);
        let ghost views = item_views(new@);
        proof {
            full.tree.lemma_same_nodes(&*old(db), &*db);
        }
        let items = overlay_items(&builder.tree.items, new, db.item_store())?;
        let tree = Tree { items, file_ids_by_inode: btree::Tree::new() };
        proof {
            let base = self.base(&*old(db));
            let made = tree.contents(&*db);
            assert(self.uproots(&*old(db), fresh)) by {
                lemma_handed(fresh, ps.len() as int);
                assert forall|i: int| 0 <= i < fresh.len() implies (
                #[trigger] fresh[i] matches Some(id) ==> id != root_id() && !old(db).issued(
                    id,
                )) by {
                    if fresh[i] is Some {
                        assert(given[handed(fresh, i).len() as int] == fresh[i]->0);
                    }
                }
                assert forall|i: int, j: int|
                    #![trigger fresh[i], fresh[j]]
                    0 <= i < j < fresh.len() && fresh[i] is Some implies fresh[i] != fresh[j] by {
                    if fresh[j] is Some {
                        assert(handed(fresh, i).len() < handed(fresh, j).len());
                        assert(given[handed(fresh, i).len() as int] == fresh[i]->0);
                        assert(given[handed(fresh, j).len() as int] == fresh[j]->0);
                    }
                }
            }
            assert(self.makes(&*old(db), fresh, ids, views, made));
            assert(sorted(views)) by {
                assert forall|p: int, q: int| 0 <= p < q < views.len() implies !key_lt(
                    #[trigger] views[q].key(),
                    #[trigger] views[p].key(),
                ) by {
                    assert(!item_lt(views[q], views[p]));
                }
            }
            lemma_overlay_sorted(base, views);
            assert forall|q: int| 0 <= q < base.len() implies survives(
                #[trigger] base[q],
                made,
            ) && ((forall|k: int|
                0 <= k < listing(base).len() ==> (#[trigger] listing(base)[k]).entry != base[q])
                ==> made.contains(base[q])) by {
                self.law_nothing_lost(&*old(db), fresh, ids, views, made, q);
            }
            assert forall|a: int|
                0 <= a < made.len() && !base.contains(made[a]) && (
                #[trigger] made[a]) is DirEntry implies {
                let id = if made[a]->DirEntry_deletions.len() == 0 {
                    made[a]->DirEntry_entry_id
                } else {
                    made[a]->DirEntry_deletions.last()
                };
                !old(db).issued(id) && db.issued(id)
            } by {
                self.law_new_identifiers(&*old(db), &*db, fresh, ids, views, made, a, a);
            }
            assert forall|a: int, b: int|
                0 <= a < b < made.len() && !base.contains(made[a]) && !base.contains(made[b]) && (
                #[trigger] made[a]) is DirEntry && (#[trigger] made[b]) is DirEntry implies (
            if made[a]->DirEntry_deletions.len() == 0 {
                made[a]->DirEntry_entry_id
            } else {
                made[a]->DirEntry_deletions.last()
            }) != (if made[b]->DirEntry_deletions.len() == 0 {
                made[b]->DirEntry_entry_id
            } else {
                made[b]->DirEntry_deletions.last()
            }) by {
                self.law_new_identifiers(&*old(db), &*db, fresh, ids, views, made, a, b);
            }
            if in_order(self.pushes()) {
                lemma_proper(base, self.pushes());
                self.lemma_files_stay(&*old(db), &*db, fresh, ids, views, made);
            }
            if proper(base, self.pushes()) {
                self.lemma_made(&*old(db), &*db, fresh, ids, views, made);
            }
            if in_order(self.pushes()) {
                assert forall|i: int|
                    0 <= i < self.pushes().len() && (#[trigger] self.pushes()[i]).is_dir
                        && self.keeps(&*old(db), i) implies lookup(
                    made,
                    root_id(),
                    pushed_path(self.pushes(), i),
                ) == lookup(base, root_id(), pushed_path(self.pushes(), i)) by {
                    self.law_kept_entry_keeps_id(&*old(db), fresh, i);
                    self.law_found_in_place(&*old(db), i);
                    law_directory_found(base, self.pushes()[i].kept->0);
                }
                assert forall|i: int, k: int| #[trigger]
                    same_directory(self.pushes(), listing(base), i, k) implies lookup(
                    made,
                    root_id(),
                    pushed_path(self.pushes(), i),
                ) == lookup(base, root_id(), listing(base)[k].path) by {
                    self.law_directory_keeps_id(&*old(db), fresh, i, k);
                    assert(self.pushes()[i].is_dir);
                    law_directory_found(base, k);
                }
            }
        }
        Ok(tree)
    }

    /// Files stay the same under their paths, if all directories on the way stay.
    proof fn lemma_files_stay<S: Store>(
        &self,
        db: &S,
        after: &S,
        fresh: Seq<Option<Unique>>,
        ids: Seq<Unique>,
        new: Seq<ItemView>,
        made: Seq<ItemView>,
    )
        requires
            self.wf(db),
            in_order(self.pushes()),
            self.makes(db, fresh, ids, new, made),
            issues_all(db, after, handed(fresh, self.pushes().len() as int) + ids),
        ensures
            forall|i: int, k: int|
                #![trigger listing(made)[i], listing(self.base(db))[k]]
                0 <= i < self.pushes().len() && 0 <= k < listing(self.base(db)).len()
                    && !self.pushes()[i].is_dir && !listing(self.base(db))[k].entry.is_dir()
                    && listing(self.base(db))[k].path == pushed_path(self.pushes(), i) && (
                forall|j: int|
                    0 <= j < i && (#[trigger] self.pushes()[j]).is_dir && pushed_path(
                        self.pushes(),
                        j,
                    ).len() < pushed_path(self.pushes(), i).len() && pushed_path(self.pushes(), j)
                        == pushed_path(self.pushes(), i).take(
                        pushed_path(self.pushes(), j).len() as int,
                    ) ==> exists|l: int|
                        0 <= l < listing(self.base(db)).len() && (#[trigger] listing(
                            self.base(db),
                        )[l]).entry.is_dir() && listing(self.base(db))[l].path == pushed_path(
                            self.pushes(),
                            j,
                        ) && listing(self.base(db))[l].inode == self.pushes()[j].inode)
                    ==> listing(made)[i].entry == listing(self.base(db))[k].entry && listing(
                    made,
                )[i].path == listing(self.base(db))[k].path,
    {
        assert forall|i: int, k: int|
            #![trigger listing(made)[i], listing(self.base(db))[k]]
            0 <= i < self.pushes().len() && 0 <= k < listing(self.base(db)).len()
                && !self.pushes()[i].is_dir && !listing(self.base(db))[k].entry.is_dir() && listing(
                self.base(db),
            )[k].path == pushed_path(self.pushes(), i) && (forall|j: int|
                0 <= j < i && (#[trigger] self.pushes()[j]).is_dir && pushed_path(
                    self.pushes(),
                    j,
                ).len() < pushed_path(self.pushes(), i).len() && pushed_path(self.pushes(), j)
                    == pushed_path(self.pushes(), i).take(
                    pushed_path(self.pushes(), j).len() as int,
                ) ==> exists|l: int|
                    0 <= l < listing(self.base(db)).len() && (#[trigger] listing(
                        self.base(db),
                    )[l]).entry.is_dir() && listing(self.base(db))[l].path == pushed_path(
                        self.pushes(),
                        j,
                    ) && listing(self.base(db))[l].inode == self.pushes()[j].inode) implies listing(
            made,
        )[i].entry == listing(self.base(db))[k].entry && listing(made)[i].path == listing(
            self.base(db),
        )[k].path by {
            self.law_file_stays(db, after, fresh, ids, new, made, i, k);
        }
    }

    /// A push that finds an entry finds it where it was pushed itself: in the same directory, with
    /// the same names on the way. It is given the identifier of the file there.
    pub proof fn law_found_in_place<S: Store>(&self, db: &S, i: int)
        requires
            self.wf(db),
            in_order(self.pushes()),
            0 <= i < self.pushes().len(),
        ensures
            self.pushes()[i].kept matches Some(k) ==> {
                let there = listing(self.base(db))[k];
                &&& 0 <= k < listing(self.base(db)).len()
                &&& there.path == pushed_path(self.pushes(), i)
                &&& there.depth == self.pushes()[i].depth
                &&& there.entry.file_id() == self.pushes()[i].parent
                &&& there.entry.child_id() == self.pushes()[i].id
                &&& entry_kind(there.entry) == self.pushes()[i].kind()
            },
        decreases i,
    {
        let (items, ps) = (self.base(db), self.pushes());
        let w = walk(items);
        assert(walk_of(items, w));
        if let Some(k) = ps[i].kept {
            assert(matches_push(items[w[k].pos], ps[i]));
            assert(visible(items, w[k].pos));
            lemma_listing(items, k);
            law_listed_in_directory(items, k);
            let there = listing(items)[k];
            assert(parent_id(ps, i) == ps[i].parent);
            assert(ps[i].depth >= 1);
            let j = up(ps, i, ps[i].depth - 1);
            if ps[i].depth > 1 {
                lemma_under(ps, i);
                let l = choose|l: int|
                    0 <= l < k && (#[trigger] listing(items)[l]).depth + 1 == there.depth
                        && listing(items)[l].entry.is_dir() && listing(items)[l].entry.child_id()
                        == there.entry.file_id() && listing(items)[l].path
                        == there.path.drop_last();
                if ps[j].kept is None {
                    assert(knows(items, ps[j].id));
                }
                self.law_found_in_place(db, j);
                let m = ps[j].kept->0;
                if l < m {
                    law_listed_once(items, l, m);
                } else if m < l {
                    law_listed_once(items, m, l);
                }
            }
            lemma_path_above(ps, i, j);
            assert(there.path =~= there.path.drop_last().push(there.entry.name()));
            if ps[i].depth == 1 {
                assert(there.path.drop_last() =~= Seq::empty());
            }
        }
    }

    /// A push finds the entry that the old tree lists under the same path, if it is of the same
    /// kind.
    pub proof fn law_same_path_found<S: Store>(&self, db: &S, i: int, k: int)
        requires
            self.wf(db),
            in_order(self.pushes()),
            0 <= i < self.pushes().len(),
            0 <= k < listing(self.base(db)).len(),
            listing(self.base(db))[k].path == pushed_path(self.pushes(), i),
            listing(self.base(db))[k].entry.is_dir() == self.pushes()[i].is_dir,
        ensures
            self.pushes()[i].kept == Some(k),
            self.pushes()[i].id == listing(self.base(db))[k].entry.child_id(),
        decreases i,
    {
        let (items, ps) = (self.base(db), self.pushes());
        let there = listing(items)[k];
        law_listed_in_directory(items, k);
        assert(parent_id(ps, i) == ps[i].parent);
        assert(ps[i].depth >= 1);
        let j = up(ps, i, ps[i].depth - 1);
        if ps[i].depth > 1 {
            lemma_under(ps, i);
        }
        lemma_path_above(ps, i, j);
        assert(there.depth == ps[i].depth);
        assert(pushed_path(ps, i).last() == ps[i].name);
        if ps[i].depth > 1 {
            let l = choose|l: int|
                0 <= l < k && (#[trigger] listing(items)[l]).depth + 1 == there.depth && listing(
                    items,
                )[l].entry.is_dir() && listing(items)[l].entry.child_id() == there.entry.file_id()
                    && listing(items)[l].path == there.path.drop_last();
            assert(pushed_path(ps, i).drop_last() =~= pushed_path(ps, j));
            self.law_same_path_found(db, j, l);
        }
        self.law_same_entry_found(db, i, k);
    }

    /// A push that keeps the entry that it found has the identifier that the entry names.
    pub proof fn law_kept_entry_keeps_id<S: Store>(
        &self,
        db: &S,
        fresh: Seq<Option<Unique>>,
        i: int,
    )
        requires
            self.wf(db),
            self.uproots(db, fresh),
            0 <= i < self.pushes().len(),
            self.keeps(db, i),
        ensures
            self.final_pushes(db, fresh)[i].id == self.pushes()[i].id,
            0 <= self.pushes()[i].kept->0 < listing(self.base(db)).len(),
            listing(self.base(db))[self.pushes()[i].kept->0].entry.child_id()
                == self.pushes()[i].id,
    {
        let (items, ps) = (self.base(db), self.pushes());
        let (w, old, all) = (walk(items), listing(items), self.all_changes(db));
        let (qs, cs) = (uprooted_pushes(ps, fresh), self.full_changes(db, fresh));
        assert(walk_of(items, w));
        let first = self.lemma_uprooted(db, fresh);
        let origins = uprooted_origins(ps, fresh, first);
        let k = ps[i].kept->0;
        assert(matches_push(items[w[k].pos], ps[i]));
        lemma_listing(items, k);
        if fresh[i] is None {
            lemma_kept_id(items, w, qs, cs, origins, i);
        } else {
            // The entry is deleted, and the change behind that takes its file back.
            let x = lemma_replanted_behind(items, w, ps, old, all, first, fresh, i);
            let z = lemma_settled_id(items, w, qs, cs, origins, i);
            if x < z {
                assert(origins[x] != origins[z]);
            } else if z < x {
                assert(origins[z] != origins[x]);
            }
            assert(traced(items, w, w.len() as int, qs, cs[x - 1], origins[x - 1]));
            assert(takes_back(cs, x));
            lemma_claims(cs, cs.len() as int);
            assert(claims(cs, cs.len() as int)[x] == Some(x - 1));
        }
    }

    /// A directory that is pushed under the path and with the inode under which the old tree lists
    /// it keeps its identifier, whatever else is pushed.
    pub proof fn law_stays_under_path<S: Store>(
        &self,
        db: &S,
        fresh: Seq<Option<Unique>>,
        i: int,
        k: int,
    )
        requires
            self.wf(db),
            self.uproots(db, fresh),
            in_order(self.pushes()),
            0 <= i < self.pushes().len(),
            0 <= k < listing(self.base(db)).len(),
            self.pushes()[i].is_dir,
            listing(self.base(db))[k].entry.is_dir(),
            listing(self.base(db))[k].path == pushed_path(self.pushes(), i),
            listing(self.base(db))[k].inode == self.pushes()[i].inode,
        ensures
            self.keeps(db, i),
            self.final_pushes(db, fresh)[i].id == listing(self.base(db))[k].entry.child_id(),
    {
        self.law_same_path_found(db, i, k);
        self.law_kept_entry_keeps_id(db, fresh, i);
    }

    /// A directory that the old tree lists keeps its identifier, wherever it is pushed: if it
    /// stays, if it is moved, and if its old place or its new one is that of another directory.
    pub proof fn law_directory_keeps_id<S: Store>(
        &self,
        db: &S,
        fresh: Seq<Option<Unique>>,
        i: int,
        k: int,
    )
        requires
            self.wf(db),
            self.uproots(db, fresh),
            same_directory(self.pushes(), listing(self.base(db)), i, k),
        ensures
            self.final_pushes(db, fresh)[i].id == listing(self.base(db))[k].entry.child_id(),
    {
        let (items, ps) = (self.base(db), self.pushes());
        let (w, old, all) = (walk(items), listing(items), self.all_changes(db));
        let (qs, cs) = (uprooted_pushes(ps, fresh), self.full_changes(db, fresh));
        let n = cs.len() as int;
        assert(walk_of(items, w));
        let first = self.lemma_uprooted(db, fresh);
        let origins = uprooted_origins(ps, fresh, first);
        lemma_listing(items, k);
        if stays(ps[i], old) {
            let l = ps[i].kept->0;
            assert(matches_push(items[w[l].pos], ps[i]));
            lemma_listing(items, l);
            assert(old[l].entry.is_dir());
            self.law_kept_entry_keeps_id(db, fresh, i);
        } else {
            self.lemma_listed_departs(db, i, k);
            if ps[i].kept is Some {
                assert(intrudes(ps, old, all, i));
                lemma_intruder(ps, old, all, fresh, i);
            }
            assert(qs[i].kept is None);
            self.lemma_departed(db, fresh, first, i, k);
            let x = lemma_settled_id(items, w, qs, cs, origins, i);
            lemma_claims(cs, n);
            let c = claims(cs, n);
            if c[x] is None {
                // The deletion of the entry would have been given to another push.
                let y = choose|y: int|
                    0 <= y < origins.len() && #[trigger] origins[y] == Origin::Removed(k);
                assert(traced(items, w, w.len() as int, qs, cs[y], origins[y]));
                assert(frees(cs[y], qs[i].inode));
                if takes_back(cs, y + 1) {
                    assert(traced(items, w, w.len() as int, qs, cs[y + 1], origins[y + 1]));
                    let j = origins[y + 1]->Inserted_0;
                    assert(ps[j].is_dir && ps[j].inode == ps[i].inode);
                    if y + 1 < x {
                        assert(origins[y + 1] != origins[x]);
                    } else if x < y + 1 {
                        assert(origins[x] != origins[y + 1]);
                    }
                } else {
                    assert(c.take(x).contains(Some(y)));
                    let z = choose|z: int| 0 <= z < x && #[trigger] c.take(x)[z] == Some(y);
                    assert(c[z] == Some(y));
                    assert(traced(items, w, w.len() as int, qs, cs[z], origins[z]));
                    let j = origins[z]->Inserted_0;
                    assert(ps[j].is_dir && ps[j].inode == ps[i].inode);
                    assert(origins[z] != origins[x]);
                }
            } else {
                let y = c[x]->0;
                let l = origins[y]->Removed_0;
                assert(traced(items, w, w.len() as int, qs, cs[y], origins[y]));
                lemma_listing(items, l);
                assert(old[l].entry.is_dir());
                assert(l == k);
            }
        }
    }

    /// A directory that is listed, and that is pushed elsewhere, did not stay.
    proof fn lemma_listed_departs<S: Store>(&self, db: &S, i: int, k: int)
        requires
            self.wf(db),
            same_directory(self.pushes(), listing(self.base(db)), i, k),
            !stays(self.pushes()[i], listing(self.base(db))),
        ensures
            departs(
                self.pushes(),
                listing(self.base(db)),
                self.all_changes(db),
                self.pushes()[i].inode,
            ),
    {
        let (items, ps) = (self.base(db), self.pushes());
        let (w, old, all) = (walk(items), listing(items), self.all_changes(db));
        assert(walk_of(items, w));
        let origins = self.lemma_finished(db);
        lemma_listing(items, k);
        assert(dropped(origins, k) != held(ps, k));
        if held(ps, k) {
            let m = choose|m: int| 0 <= m < ps.len() && (#[trigger] ps[m]).kept == Some(k);
            assert(matches_push(items[w[k].pos], ps[m]));
            assert(ps[m].is_dir);
            assert(departs_from(ps[m], old, ps[i].inode));
        } else {
            let x = choose|x: int|
                0 <= x < origins.len() && #[trigger] origins[x] == Origin::Removed(k);
            assert(traced(items, w, w.len() as int, ps, all[x], origins[x]));
            assert(frees(all[x], ps[i].inode));
        }
    }

    /// The entry of a directory that is pushed elsewhere is deleted.
    proof fn lemma_departed<S: Store>(
        &self,
        db: &S,
        fresh: Seq<Option<Unique>>,
        first: Seq<Origin>,
        i: int,
        k: int,
    )
        requires
            self.wf(db),
            self.uproots(db, fresh),
            same_directory(self.pushes(), listing(self.base(db)), i, k),
            !stays(self.pushes()[i], listing(self.base(db))),
            finished(
                self.base(db),
                walk(self.base(db)),
                uprooted_pushes(self.pushes(), fresh),
                self.full_changes(db, fresh),
                uprooted_origins(self.pushes(), fresh, first),
            ),
        ensures
            dropped(uprooted_origins(self.pushes(), fresh, first), k),
    {
        let (items, ps) = (self.base(db), self.pushes());
        let (w, old, all) = (walk(items), listing(items), self.all_changes(db));
        let qs = uprooted_pushes(ps, fresh);
        let origins = uprooted_origins(ps, fresh, first);
        assert(walk_of(items, w));
        lemma_listing(items, k);
        assert(dropped(origins, k) != held(qs, k));
        if held(qs, k) {
            let m = choose|m: int| 0 <= m < qs.len() && (#[trigger] qs[m]).kept == Some(k);
            assert(ps[m].kept == Some(k) && fresh[m] is None);
            assert(matches_push(items[w[k].pos], ps[m]));
            assert(ps[m].is_dir);
            assert(arrives_with(ps[i], old, old[k].inode));
            assert(arrives(ps, old, old[k].inode));
            if stays(ps[m], old) {
                assert(ps[m].inode == ps[i].inode);
            }
            assert(intrudes(ps, old, all, m));
            lemma_intruder(ps, old, all, fresh, m);
        }
    }

    /// Every entry of the old tree that pushes have gone past was either found by exactly one push,
    /// or there is exactly one change that deletes it, and not both. What no push has gone past is
    /// the rest of the listing, none of which was found or is deleted.
    pub proof fn law_passed_once<S: Store>(&self, db: &S)
        requires
            self.wf(db),
        ensures
            0 <= self.done(db) <= listing(self.base(db)).len(),
            self.pending(db) == listing(self.base(db)).skip(self.done(db)),
            forall|k: int|
                0 <= k < self.done(db) ==> #[trigger] held(self.pushes(), k) != deleted_by(
                    self.changes(),
                    listing(self.base(db))[k],
                ),
            forall|k: int|
                self.done(db) <= k < listing(self.base(db)).len() ==> !#[trigger] held(
                    self.pushes(),
                    k,
                ) && !deleted_by(self.changes(), listing(self.base(db))[k]),
            forall|i: int, j: int|
                #![trigger self.pushes()[i], self.pushes()[j]]
                0 <= i < j < self.pushes().len() && self.pushes()[i].kept is Some
                    ==> self.pushes()[i].kept != self.pushes()[j].kept,
            forall|k: int, x: int, y: int|
                0 <= k < listing(self.base(db)).len() && 0 <= x < self.changes().len() && 0 <= y
                    < self.changes().len() && #[trigger] removes(
                    self.changes()[x],
                    listing(self.base(db))[k],
                ) && #[trigger] removes(self.changes()[y], listing(self.base(db))[k]) ==> x == y,
    {
        let (items, ps, cs, os) = (self.base(db), self.pushes(), self.changes(), self.origins@);
        let (w, old, j) = (walk(items), listing(items), self.done(db));
        assert(walk_of(items, w));
        assert forall|k: int| 0 <= k < old.len() implies #[trigger] deleted_by(cs, old[k])
            == dropped(os, k) && (dropped(os, k) ==> k < j) by {
            lemma_listing(items, k);
            if dropped(os, k) {
                let x = choose|x: int| 0 <= x < os.len() && #[trigger] os[x] == Origin::Removed(k);
                assert(traced(items, w, j, ps, cs[x], os[x]));
                assert(removes(cs[x], old[k]));
            }
            if deleted_by(cs, old[k]) {
                let x = choose|x: int| 0 <= x < cs.len() && #[trigger] removes(cs[x], old[k]);
                self.lemma_removes(db, x, k);
            }
        }
        assert forall|k: int| 0 <= k < j implies #[trigger] held(ps, k) != deleted_by(
            cs,
            old[k],
        ) by {
            assert(dropped(os, k) != held(ps, k));
        }
        assert forall|k: int| j <= k < old.len() implies !#[trigger] held(ps, k) && !deleted_by(
            cs,
            old[k],
        ) by {
            if held(ps, k) {
                let i = choose|i: int| 0 <= i < ps.len() && (#[trigger] ps[i]).kept == Some(k);
            }
            assert(deleted_by(cs, old[k]) == dropped(os, k));
        }
        assert forall|a: int, b: int|
            #![trigger ps[a], ps[b]]
            0 <= a < b < ps.len() && ps[a].kept is Some implies ps[a].kept != ps[b].kept by {
            assert(ps[a].id != ps[b].id);
            if ps[a].kept == ps[b].kept {
                let k = ps[a].kept->0;
                assert(matches_push(items[w[k].pos], ps[a]));
                assert(matches_push(items[w[k].pos], ps[b]));
            }
        }
        assert forall|k: int, x: int, y: int|
            0 <= k < old.len() && 0 <= x < cs.len() && 0 <= y < cs.len() && #[trigger] removes(
                cs[x],
                old[k],
            ) && #[trigger] removes(cs[y], old[k]) implies x == y by {
            self.lemma_removes(db, x, k);
            self.lemma_removes(db, y, k);
            if x < y {
                assert(os[x] != os[y]);
            } else if y < x {
                assert(os[y] != os[x]);
            }
        }
    }

    /// The reason of a deletion.
    proof fn lemma_removes<S: Store>(&self, db: &S, x: int, k: int)
        requires
            self.wf(db),
            0 <= x < self.changes().len(),
            0 <= k < listing(self.base(db)).len(),
            removes(self.changes()[x], listing(self.base(db))[k]),
        ensures
            self.origins@[x] == Origin::Removed(k),
            dropped(self.origins@, k),
            k < self.done(db),
    {
        let (items, ps, cs, os) = (self.base(db), self.pushes(), self.changes(), self.origins@);
        let (w, j) = (walk(items), self.done(db));
        assert(walk_of(items, w));
        assert(traced(items, w, j, ps, cs[x], os[x]));
        lemma_listing(items, k);
        let l = os[x]->Removed_0;
        if l < k {
            assert(items[w[l].pos].child_id() != items[w[k].pos].child_id());
        } else if k < l {
            assert(items[w[k].pos].child_id() != items[w[l].pos].child_id());
        }
    }

    /// A push finds the entry that the old tree has in the same directory under the same name, if
    /// it has one of the same kind. It is given the identifier of the file there.
    pub proof fn law_same_entry_found<S: Store>(&self, db: &S, i: int, k: int)
        requires
            self.wf(db),
            in_order(self.pushes()),
            0 <= i < self.pushes().len(),
            0 <= k < listing(self.base(db)).len(),
            listing(self.base(db))[k].entry.file_id() == self.pushes()[i].parent,
            entry_kind(listing(self.base(db))[k].entry) == self.pushes()[i].kind(),
        ensures
            self.pushes()[i].kept == Some(k),
            self.pushes()[i].id == listing(self.base(db))[k].entry.child_id(),
    {
        let (items, ps) = (self.base(db), self.pushes());
        let w = walk(items);
        assert(walk_of(items, w));
        lemma_listing(items, k);
        assert(items[w[k].pos].file_id() == ps[i].parent);
        assert(ps[i].kept is Some);
        let l = ps[i].kept->0;
        assert(matches_push(items[w[l].pos], ps[i]));
        assert(visible(items, w[l].pos) && visible(items, w[k].pos));
        lemma_visit_keys(items, w, k, l);
    }

    /// The pushes lie in the directories that were pushed before them, and no two of them name the
    /// same file.
    pub proof fn law_pushes_in_directories<S: Store>(&self, db: &S)
        requires
            self.wf(db),
            in_order(self.pushes()),
        ensures
            forall|i: int|
                0 <= i < self.pushes().len() ==> #[trigger] parent_id(self.pushes(), i)
                    == self.pushes()[i].parent,
            forall|i: int, j: int|
                #![trigger self.pushes()[i], self.pushes()[j]]
                0 <= i < j < self.pushes().len() ==> self.pushes()[i].id != self.pushes()[j].id,
    {
    }

    /// Pushing what a tree lists changes nothing, if no directory took the place of another, as
    /// when all have the inodes that are listed: every push finds its entry, there are no changes,
    /// and the tree that is built has the same items.
    pub proof fn law_same_tree<S: Store>(
        &self,
        db: &S,
        fresh: Seq<Option<Unique>>,
        ids: Seq<Unique>,
        new: Seq<ItemView>,
        result: Seq<ItemView>,
    )
        requires
            self.wf(db),
            relists(self.pushes(), listing(self.base(db))),
        ensures
            forall|i: int|
                0 <= i < self.pushes().len() ==> (#[trigger] self.pushes()[i]).kept == Some(i),
            self.changes() == Seq::<ChangeView>::empty(),
            self.pending(db) == Seq::<Listed>::empty(),
            self.makes(db, fresh, ids, new, result) && (forall|i: int|
                0 <= i < self.pushes().len() ==> !#[trigger] intrudes(
                    self.pushes(),
                    listing(self.base(db)),
                    self.all_changes(db),
                    i,
                )) ==> result == self.base(db),
    {
        let items = self.base(db);
        let (ps, old, all) = (self.pushes(), listing(items), self.all_changes(db));
        law_listing_is_in_order(items, ps);
        lemma_relisted_all(items, self.done(db), ps, self.changes(), self.origins@);
        assert(all =~= Seq::empty());
        if self.makes(db, fresh, ids, new, result) && (forall|i: int|
            0 <= i < ps.len() ==> !#[trigger] intrudes(ps, old, all, i)) {
            lemma_no_intruder(ps, old, all, ps.len() as int);
            assert forall|i: int| 0 <= i < ps.len() implies #[trigger] fresh[i] is None by {
                assert(!uprooted(ps, old, all, ps.len() as int)[i]);
            }
            lemma_none_uprooted(ps, old, all, fresh);
            let last = settled(self.full_changes(db, fresh));
            assert(last =~= Seq::empty());
            law_no_changes(items, ids, new, result);
        }
    }

    /// How far a builder has come in the old tree: what is pending is the rest of the listing.
    pub proof fn law_progress<S: Store>(&self, db: &S)
        requires
            self.wf(db),
        ensures
            self.source().wf(db),
            0 <= self.done(db) <= listing(self.base(db)).len(),
            self.pending(db) == listing(self.base(db)).skip(self.done(db)),
    {
    }
}

} // verus!
