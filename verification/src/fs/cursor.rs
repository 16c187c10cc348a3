//! Cursors, which go through the entries of a tree depth first.

use std::cmp::Ordering;
use std::sync::Arc;

use vstd::prelude::*;

use super::item::{Inode, Item, ItemView, Metadata};
use super::key::{
    kind_order, law_compare, lemma_default_key_is_first, Key, KeyKind, KeyView, KindView,
};
use super::model::{
    advance, ancestor, entry_kind, is_entry, is_metadata_of, layout, lemma_child_metadata,
    lemma_next_entry, listing, metadata_pos, names_at, next_entry, opens, seek, stack_at, trail,
    visible, walk, walk_of, well_formed, Listed, Visit,
};
use super::store::{same_nodes, Store};
use super::tree::Tree;
use super::walks::{lemma_advance, lemma_advance_up, lemma_listing, lemma_walk_start};
use crate::btree;
use crate::btree::{seek_index, NodeStore, Root, SeekBias};
use crate::id::Unique;
use crate::names::{
    compare_names, law_name_order, lemma_name_lt_irreflexive, lemma_name_lt_transitive, name_lt,
};

verus! {

/// The models of the items in a sequence.
pub open spec fn view_items(items: Seq<Arc<Item>>) -> Seq<ItemView> {
    Seq::new(items.len(), |k: int| items[k]@)
}

/// A place on the way through the entries of a tree.
pub struct Cursor {
    path: Vec<Arc<Vec<u8>>>,
    stack: Vec<btree::Cursor<Item>>,
}

/// A seek on items ends where one on their models does.
pub proof fn lemma_seek_index(items: Seq<Arc<Item>>, from: int, target: Key, bias: SeekBias)
    requires
        0 <= from <= items.len(),
    ensures
        seek_index(items, from, target, bias) == seek(view_items(items), from, target@, bias),
    decreases items.len() - from,
{
    if from < items.len() {
        assert(view_items(items)[from] == items[from]@);
        lemma_seek_index(items, from + 1, target, bias);
    }
}

impl Cursor {
    /// The items that the cursor goes through, unless it is at the end.
    pub closed spec fn root(&self) -> Option<Root<Item>> {
        if self.stack.len() == 0 {
            None
        } else {
            Some(self.stack[0].root)
        }
    }

    /// Whether reading at the cursor may fail with `error`.
    pub open spec fn may_fail<S: Store>(&self, db: &S, error: S::ReadError) -> bool {
        self.root() matches Some(root) && root.may_fail(&db.items(), error)
    }

    /// The items that the cursor goes through.
    spec fn items<S: Store>(&self, db: &S) -> Seq<ItemView> {
        view_items(self.stack[0].root.contents(&db.items()))
    }

    /// The positions of the entries on the way, and of the metadata of the file.
    spec fn positions(&self) -> Seq<int> {
        Seq::new(self.stack.len() as nat, |k: int| self.stack[k].pos as int)
    }

    /// The names on the way to the entry at the cursor.
    pub closed spec fn names(&self) -> Seq<Seq<u8>> {
        Seq::new(self.path.len() as nat, |k: int| self.path[k]@)
    }

    /// How deep the entry at the cursor lies, and zero at the end.
    pub closed spec fn level(&self) -> int {
        if self.stack.len() == 0 {
            0
        } else {
            self.stack.len() - 1
        }
    }

    /// Whether the cursor is at the visit `i`.
    spec fn at<S: Store>(&self, db: &S, i: int) -> bool {
        &&& 0 <= i < walk(self.items(db)).len()
        &&& self.positions() == stack_at(self.items(db), walk(self.items(db)), i)
    }

    /// The visit that the cursor is at.
    spec fn index<S: Store>(&self, db: &S) -> int {
        choose|i: int| self.at(db, i)
    }

    /// Whether all positions are in the same items, and the names are those of the entries.
    spec fn consistent(&self, root: Root<Item>, items: Seq<ItemView>) -> bool {
        &&& forall|k: int|
            0 <= k < self.stack.len() ==> (#[trigger] self.stack[k]).root == root
                && self.stack[k].pos < items.len()
        &&& self.path.len() == if self.stack.len() == 0 {
            0
        } else {
            self.stack.len() - 1
        }
        &&& forall|k: int|
            0 <= k < self.path.len() ==> (#[trigger] self.path[k])@
                == items[self.stack[k].pos as int].name()
    }

    /// Whether the cursor is at an entry of a well-formed tree, or at the end.
    pub closed spec fn wf<S: Store>(&self, db: &S) -> bool {
        if self.stack.len() == 0 {
            self.path.len() == 0
        } else {
            &&& well_formed(self.items(db))
            &&& self.consistent(self.stack[0].root, self.items(db))
            &&& self.at(db, self.index(db))
        }
    }

    /// What is still to be listed, the entry at the cursor first.
    pub closed spec fn rest<S: Store>(&self, db: &S) -> Seq<Listed> {
        if self.stack.len() == 0 {
            Seq::empty()
        } else {
            listing(self.items(db)).skip(self.index(db))
        }
    }

    /// The cursor means the same in stores that answer alike.
    pub proof fn lemma_same_nodes<S: Store>(&self, a: &S, b: &S)
        requires
            same_nodes(&a.items(), &b.items()),
            self.wf(a),
        ensures
            self.wf(b),
            self.rest(a) == self.rest(b),
    {
        if self.stack.len() > 0 {
            assert(self.items(a) == self.items(b)) by {
                if let Root::Stored(id) = self.stack[0].root {
                    assert(a.items().node(id) == b.items().node(id));
                }
            }
            let i = self.index(a);
            assert(self.at(b, i));
            self.lemma_index(b, i);
        }
    }

    /// The cursor is at one visit only.
    proof fn lemma_index<S: Store>(&self, db: &S, i: int)
        requires
            well_formed(self.items(db)),
            self.at(db, i),
        ensures
            self.index(db) == i,
            self.at(db, self.index(db)),
    {
        let items = self.items(db);
        let w = walk(items);
        assert(walk_of(items, w));
        let j = self.index(db);
        assert(self.at(db, j));
        let s = self.positions();
        assert(w[i].depth >= 1 && w[j].depth >= 1);
        let d = w[i].depth;
        assert(s.len() == d + 1);
        assert(w[j].depth == d);
        assert(s[d - 1] == trail(w, i, d)[d - 1]);
        assert(s[d - 1] == trail(w, j, d)[d - 1]);
        assert(ancestor(w, i, d) == i && ancestor(w, j, d) == j);
        if i < j {
            assert(items[w[i].pos].child_id() != items[w[j].pos].child_id());
        } else if j < i {
            assert(items[w[j].pos].child_id() != items[w[i].pos].child_id());
        }
    }

    /// What is known of the entry at the cursor.
    proof fn lemma_here<S: Store>(&self, db: &S)
        requires
            self.wf(db),
            self.stack.len() > 0,
        ensures
            self.stack.len() >= 2,
            self.rest(db).len() > 0,
            self.rest(db) == listing(self.items(db)).skip(self.index(db)),
            is_entry(self.items(db), self.stack[self.stack.len() - 2].pos as int),
            self.items(db)[self.stack[self.stack.len() - 2].pos as int] == self.rest(db)[0].entry,
            is_metadata_of(
                self.items(db),
                self.stack[self.stack.len() - 1].pos as int,
                self.rest(db)[0].entry.child_id(),
            ),
            self.items(db)[self.stack[self.stack.len() - 1].pos as int].is_dir()
                == self.rest(db)[0].entry.is_dir(),
            self.items(db)[self.stack[self.stack.len() - 1].pos as int].inode()
                == self.rest(db)[0].inode,
            self.rest(db)[0].depth == self.stack.len() - 1,
            self.rest(db)[0].path == self.names(),
            forall|k: int|
                0 <= k < self.stack.len() ==> (#[trigger] self.stack[k]).root == self.stack[0].root
                    && self.stack[k].pos < self.items(db).len(),
    {
        let items = self.items(db);
        let w = walk(items);
        let i = self.index(db);
        assert(walk_of(items, w));
        lemma_listing(items, i);
        let s = self.positions();
        let d = w[i].depth;
        assert(w[i].depth >= 1);
        assert(visible(items, w[i].pos));
        assert(s.len() == d + 1);
        assert(s[d - 1] == trail(w, i, d)[d - 1]);
        assert(ancestor(w, i, d) == i);
        assert(s[d] == self.stack[d].pos);
        assert(s[d - 1] == self.stack[d - 1].pos);
        lemma_child_metadata(items, w[i].pos);
        assert(self.rest(db)[0] == listing(items)[i]);
        assert(self.names() =~= names_at(items, trail(w, i, d))) by {
            assert forall|k: int| 0 <= k < d implies #[trigger] self.names()[k] == names_at(
                items,
                trail(w, i, d),
            )[k] by {
                assert(self.path[k]@ == items[self.stack[k].pos as int].name());
                assert(s[k] == trail(w, i, d)[k]);
            }
        }
    }
}

impl Cursor {
    /// Goes into the entry that the last position is at.
    fn follow_entry<S: Store>(&mut self, db: &S) -> (result: Result<(), S::ReadError>)
        requires
            old(self).stack.len() > 0,
            old(self).path.len() == old(self).stack.len() - 1,
            layout(old(self).items(db)),
            is_entry(old(self).items(db), old(self).stack[old(self).stack.len() - 1].pos as int),
            old(self).stack[old(self).stack.len() - 1].root == old(self).stack[0].root,
        ensures
            match result {
                Ok(()) => {
                    let items = old(self).items(db);
                    let entry = items[old(self).stack[old(self).stack.len() - 1].pos as int];
                    &&& final(self).stack.len() == old(self).stack.len() + 1
                    &&& forall|k: int|
                        0 <= k < old(self).stack.len() ==> #[trigger] final(self).stack[k]
                            == old(self).stack[k]
                    &&& final(self).stack[old(self).stack.len() as int].root
                        == old(self).stack[0].root
                    &&& final(self).stack[old(self).stack.len() as int].pos == metadata_pos(
                        items,
                        entry.child_id(),
                    )
                    &&& final(self).path.len() == old(self).path.len() + 1
                    &&& forall|k: int|
                        0 <= k < old(self).path.len() ==> #[trigger] final(self).path[k]
                            == old(self).path[k]
                    &&& final(self).path[old(self).path.len() as int]@ == entry.name()
                },
                Err(error) => {
                    &&& *final(self) == *old(self)
                    &&& old(self).stack[0].root.may_fail(&db.items(), error)
                },
            },
    {
        let item_db = db.item_store();
        let n: usize = self.stack.len() - 1;
        let ghost contents = self.stack[0].root.contents(&db.items());
        let item = self.stack[n].item(item_db)?;
        if let Some(item) = item {
            assert(view_items(contents)[self.stack[n as int].pos as int] == item@);
            if let Item::DirEntry { child_id, name, .. } = &*item {
                let mut child_cursor = self.stack[n].clone();
                child_cursor.seek(&Key::metadata(*child_id), SeekBias::Left, item_db)?;
                proof {
                    lemma_seek_index(
                        contents,
                        0,
                        Key { file_id: *child_id, kind: KeyKind::Metadata },
                        SeekBias::Left,
                    );
                }
                self.path.push(name.clone());
                self.stack.push(child_cursor);
            }
        }
        Ok(())
    }

    /// Steps to the next entry, wherever the last position is.
    fn step<S: Store>(&mut self, db: &S) -> (result: Result<bool, S::ReadError>)
        requires
            old(self).stack.len() > 0,
            layout(old(self).items(db)),
            old(self).consistent(old(self).stack[0].root, old(self).items(db)),
        ensures
            match result {
                Ok(more) => {
                    &&& final(self).positions() == advance(
                        old(self).items(db),
                        old(self).positions(),
                    )
                    &&& final(self).consistent(old(self).stack[0].root, old(self).items(db))
                    &&& more == (final(self).stack.len() > 0)
                },
                Err(error) => old(self).stack[0].root.may_fail(&db.items(), error),
            },
    {
        let item_db = db.item_store();
        let ghost root = self.stack[0].root;
        let ghost contents = root.contents(&db.items());
        let ghost items = view_items(contents);
        let ghost target = advance(items, self.positions());
        while !self.stack.is_empty()
            invariant
                *item_db == db.items(),
                contents == root.contents(&db.items()),
                items == view_items(contents),
                layout(items),
                self.consistent(root, items),
                advance(items, self.positions()) == target,
                root == old(self).stack[0].root,
                items == old(self).items(db),
                target == advance(old(self).items(db), old(self).positions()),
            decreases self.stack.len(),
        {
            let n: usize = self.stack.len() - 1;
            let ghost before = *self;
            let ghost p = self.stack[n as int].pos as int;
            let ghost q = next_entry(items, p + 1);
            assert(self.stack[n as int].pos < items.len());
            proof {
                lemma_next_entry(items, p + 1);
            }
            let mut found_entry = false;
            loop
                invariant_except_break
                    !found_entry,
                    p <= self.stack[n as int].pos < items.len(),
                    self.stack[n as int].pos == p
                        || items[self.stack[n as int].pos as int].is_deleted(),
                    self.stack[n as int].pos > p ==> opens(items[p]),
                    q == next_entry(items, self.stack[n as int].pos + 1),
                invariant
                    *item_db == db.items(),
                    contents == root.contents(&db.items()),
                    items == view_items(contents),
                    n == before.stack.len() - 1,
                    self.stack.len() == before.stack.len(),
                    self.path == before.path,
                    forall|k: int|
                        0 <= k < n ==> #[trigger] self.stack[k] == before.stack[k],
                    self.stack[n as int].root == root,
                    root == old(self).stack[0].root,
                    p == before.stack[n as int].pos,
                    q == next_entry(items, p + 1),
                    p < q <= items.len(),
                ensures
                    found_entry == (opens(items[p]) && is_entry(items, q)),
                    found_entry ==> self.stack[n as int].pos == q,
                decreases items.len() - self.stack[n as int].pos,
            {
                let cur_item = self.stack[n].item(item_db)?;
                let goes_on = match &cur_item {
                    Some(item) => item.is_dir_entry() || item.is_dir_metadata(),
                    None => false,
                };
                let ghost cur = self.stack[n as int].pos as int;
                assert(items[cur] == contents[cur]@);
                assert(goes_on == opens(items[cur]));
                if !goes_on {
                    break;
                }
                self.stack[n].next(item_db)?;
                let next_item = self.stack[n].item(item_db)?;
                match &next_item {
                    Some(item) => {
                        assert(items[cur + 1] == item@);
                        if !item.is_dir_entry() {
                            break;
                        }
                        if !item.is_deleted() {
                            found_entry = true;
                            break;
                        }
                    },
                    None => {
                        break;
                    },
                }
            }
            if found_entry {
                let ghost moved = *self;
                proof {
                    assert(self.stack[0].root == root) by {
                        if n > 0 {
                            assert(self.stack[0] == before.stack[0]);
                        }
                    }
                }
                self.follow_entry(db)?;
                proof {
                    let s = before.positions();
                    assert(s.last() == p);
                    let t = s.drop_last().push(q).push(
                        metadata_pos(items, items[q].child_id()),
                    );
                    assert(self.positions() =~= t) by {
                        assert forall|k: int| 0 <= k < n implies self.positions()[k] == s[k] by {
                            assert(self.stack[k] == moved.stack[k]);
                            assert(moved.stack[k] == before.stack[k]);
                        }
                        assert(self.stack[n as int] == moved.stack[n as int]);
                    }
                    assert(target == t);
                    lemma_child_metadata(items, q);
                    assert(self.consistent(root, items)) by {
                        assert forall|k: int| 0 <= k < self.stack.len() implies (
                        #[trigger] self.stack[k]).root == root && self.stack[k].pos
                            < items.len() by {
                            if k < n {
                                assert(self.stack[k] == moved.stack[k]);
                                assert(moved.stack[k] == before.stack[k]);
                            } else if k == n {
                                assert(self.stack[k] == moved.stack[k]);
                            }
                        }
                        assert forall|k: int| 0 <= k < self.path.len() implies (
                        #[trigger] self.path[k])@ == items[self.stack[k].pos as int].name() by {
                            assert(self.stack[k] == moved.stack[k]);
                            if k < n {
                                assert(moved.stack[k] == before.stack[k]);
                                assert(self.path[k] == before.path[k]);
                            }
                        }
                    }
                }
                return Ok(true);
            } else {
                let _ = self.path.pop();
                let _ = self.stack.pop();
                proof {
                    let s = before.positions();
                    assert(s.last() == p);
                    assert(self.positions() =~= s.drop_last()) by {
                        assert forall|k: int| 0 <= k < n implies self.positions()[k] == s[k] by {
                            assert(self.stack[k] == before.stack[k]);
                        }
                    }
                    assert(self.consistent(root, items)) by {
                        assert forall|k: int| 0 <= k < self.stack.len() implies (
                        #[trigger] self.stack[k]).root == root && self.stack[k].pos
                            < items.len() by {
                            assert(self.stack[k] == before.stack[k]);
                        }
                        assert forall|k: int| 0 <= k < self.path.len() implies (
                        #[trigger] self.path[k])@ == items[self.stack[k].pos as int].name() by {
                            assert(self.stack[k] == before.stack[k]);
                            assert(self.path[k] == before.path[k]);
                        }
                    }
                }
            }
        }
        assert(self.positions() =~= Seq::empty());
        Ok(false)
    }
}

/// How many of the entries in `rest` lie below the first of them, and that one.
pub open spec fn subtree_len(rest: Seq<Listed>) -> int {
    subtree_end(rest, 1)
}

/// The first position at or after `from` that does not lie below the first entry of `rest`.
pub open spec fn subtree_end(rest: Seq<Listed>, from: int) -> int
    decreases rest.len() - from,
{
    if from < rest.len() && rest[from].depth > rest[0].depth {
        subtree_end(rest, from + 1)
    } else {
        from
    }
}

/// What [`subtree_end`] says.
proof fn lemma_subtree_end(rest: Seq<Listed>, from: int)
    requires
        1 <= from <= rest.len(),
    ensures
        from <= subtree_end(rest, from) <= rest.len(),
        forall|k: int|
            from <= k < subtree_end(rest, from) ==> (#[trigger] rest[k]).depth > rest[0].depth,
        subtree_end(rest, from) < rest.len() ==> rest[subtree_end(rest, from)].depth
            <= rest[0].depth,
    decreases rest.len() - from,
{
    if from < rest.len() && rest[from].depth > rest[0].depth {
        lemma_subtree_end(rest, from + 1);
    }
}

/// The way up is the same for all visits below the visit `i`.
proof fn lemma_trail_below(w: Seq<Visit>, i: int, e: int, d: int)
    requires
        0 <= i <= e < w.len(),
        0 <= d,
        forall|k: int| i < k <= e ==> (#[trigger] w[k]).depth > d,
    ensures
        trail(w, e, d) == trail(w, i, d),
    decreases e - i,
{
    if i < e {
        lemma_trail_below(w, i, e - 1, d);
        assert(w[e].depth > d);
        assert(trail(w, e, d) =~= trail(w, e - 1, d));
    }
}

impl Cursor {
    /// A cursor at the first entry of the tree that is not deleted.
    pub fn new<S: Store>(tree: &Tree, db: &S) -> (result: Result<Self, S::ReadError>)
        requires
            well_formed(tree.contents(db)),
        ensures
            match result {
                Ok(cursor) => {
                    &&& cursor.wf(db)
                    &&& cursor.rest(db) == listing(tree.contents(db))
                    &&& cursor.root() matches Some(root) ==> root.reads(tree.items)
                },
                Err(error) => tree.may_fail(db, error),
            },
    {
        let item_db = db.item_store();
        let ghost contents = tree.items.contents(&db.items());
        let ghost items = tree.contents(db);
        let ghost w = walk(items);
        let mut root_cursor = tree.items.cursor();
        let key = Key::default();
        root_cursor.seek(&key, SeekBias::Left, item_db)?;
        proof {
            assert(walk_of(items, w));
            lemma_walk_start(items, w);
            assert(root_cursor.root.contents(&db.items()) == contents);
            lemma_seek_index(contents, 0, key, SeekBias::Left);
            if items.len() > 0 {
                lemma_default_key_is_first(items[0].key());
            }
            assert(root_cursor.pos == 0);
        }
        let mut starts_at_entry = false;
        loop
            invariant_except_break
                !starts_at_entry,
            invariant
                *item_db == db.items(),
                contents == tree.items.contents(&db.items()),
                items == view_items(contents),
                items == tree.contents(db),
                root_cursor.root.reads(tree.items),
                root_cursor.pos <= items.len(),
                next_entry(items, 0) == next_entry(items, root_cursor.pos as int),
            ensures
                root_cursor.pos == next_entry(items, 0),
                starts_at_entry == is_entry(items, next_entry(items, 0)),
            decreases items.len() - root_cursor.pos,
        {
            let item = root_cursor.item(item_db)?;
            assert(root_cursor.pos < items.len() ==> items[root_cursor.pos as int]
                == contents[root_cursor.pos as int]@);
            match &item {
                Some(item) => {
                    if !item.is_deleted() {
                        starts_at_entry = item.is_dir_entry();
                        break;
                    }
                },
                None => {
                    break;
                },
            }
            root_cursor.next(item_db)?;
        }
        match starts_at_entry {
            true => {
                let mut stack: Vec<btree::Cursor<Item>> = Vec::new();
                stack.push(root_cursor);
                let mut cursor = Self { path: Vec::new(), stack };
                cursor.follow_entry(db)?;
                proof {
                    let q = next_entry(items, 0);
                    assert(ancestor(w, 0, 1) == 0);
                    assert(trail(w, 0, 1) =~= seq![q]);
                    assert(cursor.positions() =~= stack_at(items, w, 0));
                    lemma_child_metadata(items, q);
                    assert(cursor.consistent(cursor.stack[0].root, items));
                    assert(cursor.at(db, 0));
                    cursor.lemma_index(db, 0);
                    assert(listing(items).skip(0) =~= listing(items));
                }
                Ok(cursor)
            },
            false => {
                assert(listing(items) =~= Seq::empty());
                Ok(Self { path: Vec::new(), stack: Vec::new() })
            },
        }
    }

    /// The cursor's names and level are those of the entry that it lists next.
    pub proof fn lemma_place<S: Store>(&self, db: &S)
        requires
            self.wf(db),
        ensures
            self.rest(db).len() > 0 ==> {
                &&& self.level() == self.rest(db)[0].depth
                &&& self.names() == self.rest(db)[0].path
            },
            self.rest(db).len() == 0 ==> {
                &&& self.level() == 0
                &&& self.names() == Seq::<Seq<u8>>::empty()
                &&& self.root() is None
            },
    {
        if self.stack.len() > 0 {
            self.lemma_here(db);
        } else {
            assert(self.names() =~= Seq::<Seq<u8>>::empty());
        }
    }

    /// At its end, a cursor has no names and level zero, and reading at it never fails, so that all
    /// that is asked of it there is answered with nothing.
    pub proof fn law_end<S: Store>(&self, db: &S, error: S::ReadError)
        requires
            self.wf(db),
            self.rest(db).len() == 0,
        ensures
            self.level() == 0,
            self.names() == Seq::<Seq<u8>>::empty(),
            !self.may_fail(db, error),
    {
        self.lemma_place(db);
    }

    /// Compares the entry at the cursor with one that has the given name and metadata. The end
    /// compares as greater than any entry.
    pub fn cmp_with_entry<S: Store>(
        &self,
        other_name: &Vec<u8>,
        other_metadata: &Metadata,
        db: &S,
    ) -> (result: Result<Ordering, S::ReadError>)
        requires
            self.wf(db),
        ensures
            match result {
                Ok(ordering) => ordering == if self.rest(db).len() == 0 {
                    Ordering::Greater
                } else {
                    kind_order(
                        entry_kind(self.rest(db)[0].entry),
                        KindView::DirEntry { is_dir: other_metadata.is_dir, name: other_name@ },
                    )
                },
                Err(error) => self.may_fail(db, error),
            },
            // Directories come before other files, and those of the same kind are in the order of
            // the first byte in which their names differ.
            result matches Ok(ordering) ==> self.rest(db).len() > 0 ==> {
                let (a, b) = (self.rest(db)[0].entry.name(), other_name@);
                let (a_is_dir, b_is_dir) = (
                    self.rest(db)[0].entry.is_dir(),
                    other_metadata.is_dir,
                );
                &&& ordering == Ordering::Equal <==> a_is_dir == b_is_dir && a == b
                &&& ordering == Ordering::Less <==> (a_is_dir && !b_is_dir) || (a_is_dir == b_is_dir
                    && exists|k: int|
                    0 <= k <= a.len() && k < b.len() && #[trigger] a.take(k) == b.take(k) && (k
                        == a.len() || a[k] < b[k]))
            },
    {
        proof {
            if self.rest(db).len() > 0 {
                let here = entry_kind(self.rest(db)[0].entry);
                let other = KindView::DirEntry {
                    is_dir: other_metadata.is_dir,
                    name: other_name@,
                };
                law_name_order(self.rest(db)[0].entry.name(), other_name@);
                law_compare(
                    KeyView { file_id: Unique(0), kind: here },
                    KeyView { file_id: Unique(0), kind: other },
                );
            }
        }
        let metadata = self.metadata(db)?;
        match metadata {
            Some(metadata) => {
                if metadata.is_dir && !other_metadata.is_dir {
                    Ok(Ordering::Less)
                } else if !metadata.is_dir && other_metadata.is_dir {
                    Ok(Ordering::Greater)
                } else {
                    let name = self.name(db)?;
                    match name {
                        Some(name) => {
                            proof {
                                let (a, b) = (name@, other_name@);
                                lemma_name_lt_irreflexive(a);
                                if name_lt(a, b) && name_lt(b, a) {
                                    lemma_name_lt_transitive(a, b, a);
                                }
                            }
                            Ok(compare_names(&name, other_name))
                        },
                        None => Ok(Ordering::Greater),
                    }
                }
            },
            None => Ok(Ordering::Greater),
        }
    }

    /// The names on the way to the entry at the cursor, its own name last.
    pub fn path(&self) -> (path: &Vec<Arc<Vec<u8>>>)
        ensures
            path.len() == self.names().len(),
            forall|k: int| 0 <= k < path.len() ==> (#[trigger] path[k])@ == self.names()[k],
    {
        &self.path
    }

    /// The metadata of the file at the cursor.
    pub fn metadata<S: Store>(&self, db: &S) -> (result: Result<Option<Metadata>, S::ReadError>)
        requires
            self.wf(db),
        ensures
            match result {
                Ok(metadata) => metadata == if self.rest(db).len() == 0 {
                    None
                } else {
                    Some(
                        Metadata {
                            inode: self.rest(db)[0].inode,
                            is_dir: self.rest(db)[0].entry.is_dir(),
                        },
                    )
                },
                Err(error) => self.may_fail(db, error),
            },
    {
        if self.stack.len() > 0 {
            proof {
                self.lemma_here(db);
            }
            let ghost contents = self.stack[0].root.contents(&db.items());
            let cursor = &self.stack[self.stack.len() - 1];
            let item = cursor.item(db.item_store())?;
            if let Some(item) = item {
                assert(view_items(contents)[cursor.pos as int] == item@);
                if let Item::Metadata { is_dir, inode, .. } = &*item {
                    return Ok(Some(Metadata { is_dir: *is_dir, inode: *inode }));
                }
            }
            assert(false);
        }
        Ok(None)
    }

    /// The entry at the cursor.
    pub fn dir_entry<S: Store>(&self, db: &S) -> (result: Result<Option<Item>, S::ReadError>)
        requires
            self.wf(db),
        ensures
            match result {
                Ok(Some(entry)) => self.rest(db).len() > 0 && entry@ == self.rest(db)[0].entry,
                Ok(None) => self.rest(db).len() == 0,
                Err(error) => self.may_fail(db, error),
            },
    {
        if self.stack.len() > 1 {
            proof {
                self.lemma_here(db);
            }
            let ghost contents = self.stack[0].root.contents(&db.items());
            let cursor = &self.stack[self.stack.len() - 2];
            let item = cursor.item(db.item_store())?;
            assert(view_items(contents)[cursor.pos as int] == contents[cursor.pos as int]@);
            match item {
                Some(item) => Ok(Some((*item).clone())),
                None => Ok(None),
            }
        } else {
            proof {
                if self.stack.len() > 0 {
                    self.lemma_here(db);
                }
            }
            Ok(None)
        }
    }

    /// The identifier of the file at the cursor.
    pub fn file_id<S: Store>(&self, db: &S) -> (result: Result<Option<Unique>, S::ReadError>)
        requires
            self.wf(db),
        ensures
            match result {
                Ok(file_id) => file_id == if self.rest(db).len() == 0 {
                    None
                } else {
                    Some(self.rest(db)[0].entry.child_id())
                },
                Err(error) => self.may_fail(db, error),
            },
    {
        if self.stack.len() > 0 {
            proof {
                self.lemma_here(db);
            }
            let ghost contents = self.stack[0].root.contents(&db.items());
            let cursor = &self.stack[self.stack.len() - 1];
            let item = cursor.item(db.item_store())?;
            if let Some(item) = item {
                assert(view_items(contents)[cursor.pos as int] == item@);
                if let Item::Metadata { file_id, .. } = &*item {
                    return Ok(Some(*file_id));
                }
            }
            assert(false);
        }
        Ok(None)
    }

    /// The inode of the file at the cursor.
    pub fn inode<S: Store>(&self, db: &S) -> (result: Result<Option<Inode>, S::ReadError>)
        requires
            self.wf(db),
        ensures
            match result {
                Ok(inode) => inode == if self.rest(db).len() == 0 {
                    None
                } else {
                    Some(self.rest(db)[0].inode)
                },
                Err(error) => self.may_fail(db, error),
            },
    {
        if self.stack.len() > 0 {
            proof {
                self.lemma_here(db);
            }
            let ghost contents = self.stack[0].root.contents(&db.items());
            let cursor = &self.stack[self.stack.len() - 1];
            let item = cursor.item(db.item_store())?;
            if let Some(item) = item {
                assert(view_items(contents)[cursor.pos as int] == item@);
                if let Item::Metadata { inode, .. } = &*item {
                    return Ok(Some(*inode));
                }
            }
            assert(false);
        }
        Ok(None)
    }

    /// The name of the entry at the cursor.
    pub fn name<S: Store>(&self, db: &S) -> (result: Result<Option<Arc<Vec<u8>>>, S::ReadError>)
        requires
            self.wf(db),
        ensures
            match result {
                Ok(Some(name)) => self.rest(db).len() > 0 && name@ == self.rest(
                    db,
                )[0].entry.name(),
                Ok(None) => self.rest(db).len() == 0,
                Err(error) => self.may_fail(db, error),
            },
    {
        if self.stack.len() > 1 {
            proof {
                self.lemma_here(db);
            }
            let ghost contents = self.stack[0].root.contents(&db.items());
            let cursor = &self.stack[self.stack.len() - 2];
            let item = cursor.item(db.item_store())?;
            if let Some(item) = item {
                assert(view_items(contents)[cursor.pos as int] == item@);
                if let Item::DirEntry { name, .. } = &*item {
                    return Ok(Some(name.clone()));
                }
            }
            assert(false);
        }
        proof {
            if self.stack.len() > 0 {
                self.lemma_here(db);
            }
        }
        Ok(None)
    }

    /// How deep the entry at the cursor lies: the entries of the root directory at depth one. At
    /// the end it is zero.
    pub fn depth(&self) -> (depth: usize)
        ensures
            depth == self.level(),
    {
        self.stack.len().saturating_sub(1)
    }

    /// Moves to the next entry, and tells whether there is one. If reading fails, the cursor may
    /// have moved part of the way, and is not to be used any more.
    pub fn next<S: Store>(&mut self, db: &S) -> (result: Result<bool, S::ReadError>)
        requires
            old(self).wf(db),
        ensures
            match result {
                Ok(more) => {
                    &&& final(self).wf(db)
                    &&& final(self).rest(db) == if old(self).rest(db).len() == 0 {
                        old(self).rest(db)
                    } else {
                        old(self).rest(db).skip(1)
                    }
                    &&& more == (final(self).rest(db).len() > 0)
                    &&& old(self).rest(db).len() == 0 ==> *final(self) == *old(self)
                    &&& final(self).root() is Some ==> final(self).root() == old(self).root()
                },
                Err(error) => old(self).may_fail(db, error),
            },
    {
        if self.stack.is_empty() {
            return Ok(false);
        }
        proof {
            self.lemma_here(db);
        }
        let ghost items = self.items(db);
        let ghost w = walk(items);
        let ghost i = self.index(db);
        let more = self.step(db)?;
        proof {
            lemma_advance(items, w, i);
            self.lemma_arrived(old(self), db, i + 1);
            lemma_listing(items, i);
            assert(listing(items).skip(i).skip(1) =~= listing(items).skip(i + 1));
        }
        Ok(more)
    }

    /// Moves to the entry that follows in the same directory, and tells whether there is one. If
    /// there is none, moves to the next entry further up. If reading fails, the cursor may have
    /// moved part of the way, and is not to be used any more.
    #[verifier::rlimit(30)]
    pub fn next_sibling<S: Store>(&mut self, db: &S) -> (result: Result<bool, S::ReadError>)
        requires
            old(self).wf(db),
        ensures
            match result {
                Ok(found) => {
                    &&& final(self).wf(db)
                    &&& final(self).rest(db) == if old(self).rest(db).len() == 0 {
                        old(self).rest(db)
                    } else {
                        old(self).rest(db).skip(subtree_len(old(self).rest(db)))
                    }
                    &&& found == (final(self).rest(db).len() > 0 && final(self).rest(db)[0].depth
                        == old(self).rest(db)[0].depth)
                    // What is passed over lies below the entry, and what follows does not.
                    &&& old(self).rest(db).len() > 0 ==> {
                        let rest = old(self).rest(db);
                        let n = rest.len() - final(self).rest(db).len();
                        &&& n >= 1
                        &&& final(self).rest(db) == rest.skip(n)
                        &&& forall|k: int|
                            0 < k < n ==> (#[trigger] rest[k]).depth > rest[0].depth
                        &&& n < rest.len() ==> rest[n].depth <= rest[0].depth
                    }
                    &&& final(self).root() is Some ==> final(self).root() == old(self).root()
                },
                Err(error) => old(self).may_fail(db, error),
            },
    {
        if self.stack.is_empty() {
            return Ok(false);
        }
        let prev_depth: usize = self.depth();
        let ghost items = self.items(db);
        let ghost w = walk(items);
        let ghost i = self.index(db);
        let ghost rest = self.rest(db);
        let ghost d = w[i].depth;
        let ghost e = i + subtree_len(rest) - 1;
        proof {
            self.lemma_here(db);
            lemma_subtree_end(rest, 1);
            assert forall|k: int| 0 <= k < rest.len() implies (#[trigger] rest[k]).depth == w[i
                + k].depth by {
                lemma_listing(items, i + k);
                assert(rest[k] == listing(items)[i + k]);
            }
            assert forall|k: int| i < k <= e implies (#[trigger] w[k]).depth > d by {
                assert(rest[k - i].depth > rest[0].depth);
            }
            if e + 1 < w.len() {
                assert(rest[e + 1 - i].depth == w[e + 1].depth);
            }
            lemma_trail_below(w, i, e, d);
            lemma_advance_up(items, w, e, d);
        }
        let ghost before = *self;
        let _ = self.stack.pop();
        let _ = self.path.pop();
        proof {
            assert(self.positions() =~= before.positions().drop_last());
            assert(before.positions().drop_last() =~= trail(w, i, d));
            assert forall|k: int| 0 <= k < self.stack.len() implies (
            #[trigger] self.stack[k]).root == before.stack[0].root && self.stack[k].pos
                < items.len() by {
                assert(self.stack[k] == before.stack[k]);
            }
            assert forall|k: int| 0 <= k < self.path.len() implies (#[trigger] self.path[k])@
                == items[self.stack[k].pos as int].name() by {
                assert(self.stack[k] == before.stack[k]);
                assert(self.path[k] == before.path[k]);
            }
            assert(self.stack[0] == before.stack[0]);
        }
        let _ = self.step(db)?;
        proof {
            self.lemma_arrived(&before, db, e + 1);
            assert(listing(items).skip(i).skip(subtree_len(rest)) =~= listing(items).skip(e + 1));
            self.lemma_place(db);
        }
        Ok(self.depth() == prev_depth)
    }

    /// The cursor after a step that led to the visit `i`.
    proof fn lemma_arrived<S: Store>(&self, before: &Cursor, db: &S, i: int)
        requires
            before.wf(db),
            before.stack.len() > 0,
            0 <= i <= walk(before.items(db)).len(),
            self.consistent(before.stack[0].root, before.items(db)),
            self.positions() == if i < walk(before.items(db)).len() {
                stack_at(before.items(db), walk(before.items(db)), i)
            } else {
                Seq::empty()
            },
        ensures
            self.wf(db),
            self.rest(db) == listing(before.items(db)).skip(i),
            self.root() is Some ==> self.root() == before.root(),
            (self.stack.len() > 0) == (i < walk(before.items(db)).len()),
            (self.rest(db).len() > 0) == (i < walk(before.items(db)).len()),
    {
        let items = before.items(db);
        let w = walk(items);
        assert(walk_of(items, w));
        assert(self.positions().len() == self.stack.len());
        if i < w.len() {
            assert(w[i].depth >= 1);
            assert(self.stack.len() > 0);
            assert(self.stack[0].root == before.stack[0].root);
            assert(self.items(db) == items);
            assert(self.at(db, i));
            self.lemma_index(db, i);
        } else {
            assert(listing(items).skip(i) =~= Seq::empty());
        }
    }
}

} // verus!
