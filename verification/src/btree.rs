//! An ordered sequence of items that is searched by key.
//!
//! A tree is held in memory or kept in a [`NodeStore`], from which it is read when it is needed.
//! Reading from the store can fail, and every function that reads hands the failure on.

use std::sync::Arc;

use vstd::prelude::*;

verus! {

/// Names a node that is kept in a [`NodeStore`].
#[derive(Copy, Clone, Debug, Eq, PartialEq, Structural, Hash)]
pub struct NodeId(pub u64);

/// A run of items, in order.
pub struct Node<T> {
    pub items: Vec<Arc<T>>,
}

/// Which side of the items that equal the target a seek ends on.
#[derive(Copy, Clone, Debug, Eq, PartialEq, Structural)]
pub enum SeekBias {
    Left,
    Right,
}

/// A quantity by which items are ordered and searched.
pub trait Dimension: Sized {
    /// Whether `self` comes before `other`.
    spec fn before(self, other: Self) -> bool;

    /// Decides [`Dimension::before`].
    fn is_before(&self, other: &Self) -> (b: bool)
        ensures
            b == self.before(*other),
    ;

    /// The quantity that a summary stands for.
    fn from_summary(summary: &Self) -> (dimension: &Self)
        ensures
            *dimension == *summary,
    ;

    /// Raises the quantity to `other` if it comes before it.
    fn add_assign(&mut self, other: &Self)
        ensures
            *final(self) == if old(self).before(*other) {
                *other
            } else {
                *old(self)
            },
    ;

    /// The later of the two quantities.
    fn add(self, other: &Self) -> (sum: Self)
        ensures
            sum == if self.before(*other) {
                *other
            } else {
                self
            },
    ;
}

/// What a tree holds: a value with a key.
pub trait Item: Sized {
    type Summary: Dimension;

    /// The key of the item.
    spec fn summary(&self) -> Self::Summary;

    /// Computes [`Item::summary`].
    fn summarize(&self) -> (summary: Self::Summary)
        ensures
            summary == self.summary(),
    ;
}

/// Where nodes that are not in memory are read from.
pub trait NodeStore<T> {
    type ReadError;

    /// The node that the store keeps under `id`.
    spec fn node(&self, id: NodeId) -> Node<T>;

    /// Whether reading the node under `id` may fail with `error`.
    spec fn may_fail(&self, id: NodeId, error: Self::ReadError) -> bool;

    /// Reads the node under `id`.
    fn get(&self, id: NodeId) -> (result: Result<Arc<Node<T>>, Self::ReadError>)
        ensures
            match result {
                Ok(node) => node.items@ == self.node(id).items@,
                Err(error) => self.may_fail(id, error),
            },
    ;
}

/// A sequence of items, in memory or in a store.
pub enum Tree<T> {
    Resident(Node<T>),
    Stored(NodeId),
}

/// The sequence that a cursor reads, shared by its clones.
pub enum Root<T> {
    Resident(Arc<Node<T>>),
    Stored(NodeId),
}

/// A position in a tree.
pub struct Cursor<T> {
    pub root: Root<T>,
    pub pos: usize,
}

/// Whether a seek for `target` goes past an item with the given key.
pub open spec fn skips<D: Dimension>(key: D, target: D, bias: SeekBias) -> bool {
    match bias {
        SeekBias::Left => key.before(target),
        SeekBias::Right => !target.before(key),
    }
}

/// The first position at or after `from` whose item a seek for `target` does not go past.
pub open spec fn seek_index<T: Item>(
    items: Seq<Arc<T>>,
    from: int,
    target: T::Summary,
    bias: SeekBias,
) -> int
    decreases items.len() - from,
{
    if from >= items.len() {
        items.len() as int
    } else if skips(items[from].summary(), target, bias) {
        seek_index(items, from + 1, target, bias)
    } else {
        from
    }
}

proof fn lemma_seek_index_bounds<T: Item>(
    items: Seq<Arc<T>>,
    from: int,
    target: T::Summary,
    bias: SeekBias,
)
    requires
        0 <= from <= items.len(),
    ensures
        from <= seek_index(items, from, target, bias) <= items.len(),
        forall|j: int|
            from <= j < seek_index(items, from, target, bias) ==> skips(
                (#[trigger] items[j]).summary(),
                target,
                bias,
            ),
        seek_index(items, from, target, bias) < items.len() ==> !skips(
            items[seek_index(items, from, target, bias)].summary(),
            target,
            bias,
        ),
    decreases items.len() - from,
{
    if from < items.len() && skips(items[from].summary(), target, bias) {
        lemma_seek_index_bounds(items, from + 1, target, bias);
    }
}

/// A seek goes past the items whose keys come before the target, and to the right also past those
/// whose keys equal it. It ends at the first item that it does not go past, or at the end.
pub proof fn law_seek<T: Item>(
    items: Seq<Arc<T>>,
    from: int,
    target: T::Summary,
    bias: SeekBias,
    k: int,
)
    requires
        0 <= from <= k <= items.len(),
    ensures
        k == seek_index(items, from, target, bias) <==> (match bias {
            SeekBias::Left => {
                &&& forall|j: int|
                    from <= j < k ==> (#[trigger] items[j]).summary().before(target)
                &&& k < items.len() ==> !items[k].summary().before(target)
            },
            SeekBias::Right => {
                &&& forall|j: int|
                    from <= j < k ==> !target.before((#[trigger] items[j]).summary())
                &&& k < items.len() ==> target.before(items[k].summary())
            },
        }),
{
    lemma_seek_index_bounds(items, from, target, bias);
    let r = seek_index(items, from, target, bias);
    if r < k {
        assert(!skips(items[r].summary(), target, bias));
    } else if k < r {
        assert(skips(items[k].summary(), target, bias));
    }
}

/// Copies the items from `from` up to `to`.
pub(crate) fn copy_items<T>(items: &Vec<Arc<T>>, from: usize, to: usize) -> (copy: Vec<Arc<T>>)
    requires
        from <= to <= items.len(),
    ensures
        copy@ == items@.subrange(from as int, to as int),
{
    let mut copy: Vec<Arc<T>> = Vec::new();
    let mut i: usize = from;
    while i < to
        invariant
            from <= i <= to <= items.len(),
            copy@ == items@.subrange(from as int, i as int),
        decreases to - i,
    {
        copy.push(items[i].clone());
        i += 1;
        assert(copy@ =~= items@.subrange(from as int, i as int));
    }
    copy
}

impl<T> Tree<T> {
    /// The items of the tree.
    pub open spec fn contents<S: NodeStore<T>>(&self, db: &S) -> Seq<Arc<T>> {
        match self {
            Tree::Resident(node) => node.items@,
            Tree::Stored(id) => db.node(*id).items@,
        }
    }

    /// Whether reading the tree may fail with `error`.
    pub open spec fn may_fail<S: NodeStore<T>>(&self, db: &S, error: S::ReadError) -> bool {
        match self {
            Tree::Resident(_) => false,
            Tree::Stored(id) => db.may_fail(*id, error),
        }
    }

    /// Whether both trees hold the same items, whatever the store.
    pub open spec fn same_as(self, other: Self) -> bool {
        match (self, other) {
            (Tree::Resident(node), Tree::Resident(other)) => node.items@ == other.items@,
            (Tree::Stored(id), Tree::Stored(other)) => id == other,
            _ => false,
        }
    }

    /// The tree without items.
    pub fn new() -> (tree: Self)
        ensures
            tree is Resident,
            tree->Resident_0.items@ == Seq::<Arc<T>>::empty(),
    {
        Tree::Resident(Node { items: Vec::new() })
    }

    /// A cursor at the first item.
    pub fn cursor(&self) -> (cursor: Cursor<T>)
        ensures
            cursor.root.reads(*self),
            cursor.pos == 0,
    {
        let root = match self {
            Tree::Resident(node) => {
                let items = copy_items(&node.items, 0, node.items.len());
                assert(items@ =~= node.items@);
                Root::Resident(Arc::new(Node { items }))
            },
            Tree::Stored(id) => Root::Stored(*id),
        };
        Cursor { root, pos: 0 }
    }

    /// Brings the tree into memory.
    fn load<S: NodeStore<T>>(&mut self, db: &S) -> (result: Result<(), S::ReadError>)
        ensures
            match result {
                Ok(()) => {
                    &&& *final(self) is Resident
                    &&& final(self).contents(db) == old(self).contents(db)
                },
                Err(error) => {
                    &&& *final(self) == *old(self)
                    &&& old(self).may_fail(db, error)
                },
            },
    {
        if let Tree::Stored(id) = self {
            let node = db.get(*id)?;
            let items = copy_items(&node.items, 0, node.items.len());
            assert(items@ =~= node.items@);
            *self = Tree::Resident(Node { items });
        }
        Ok(())
    }

    /// Puts `item` behind the last item.
    pub fn push<S: NodeStore<T>>(&mut self, item: T, db: &S) -> (result: Result<(), S::ReadError>)
        ensures
            match result {
                Ok(()) => {
                    &&& *final(self) is Resident
                    &&& final(self).contents(db) == old(self).contents(db).push(Arc::new(item))
                },
                Err(error) => {
                    &&& *final(self) == *old(self)
                    &&& old(self).may_fail(db, error)
                },
            },
    {
        self.load(db)?;
        if let Tree::Resident(node) = self {
            node.items.push(Arc::new(item));
        }
        Ok(())
    }

    /// Puts the items of `other` behind the last item.
    pub fn push_tree<S: NodeStore<T>>(&mut self, other: Self, db: &S) -> (result: Result<
        (),
        S::ReadError,
    >)
        ensures
            match result {
                Ok(()) => {
                    &&& *final(self) is Resident
                    &&& final(self).contents(db) == old(self).contents(db) + other.contents(db)
                },
                Err(error) => {
                    &&& final(self).contents(db) == old(self).contents(db)
                    &&& old(self).may_fail(db, error) || other.may_fail(db, error)
                },
            },
    {
        let mut other = other;
        self.load(db)?;
        other.load(db)?;
        if let Tree::Resident(node) = self {
            if let Tree::Resident(mut more) = other {
                node.items.append(&mut more.items);
            }
        }
        Ok(())
    }
}

impl<T> Clone for Tree<T> {
    fn clone(&self) -> (copy: Self)
        ensures
            copy.same_as(*self),
    {
        match self {
            Tree::Resident(node) => {
                let items = copy_items(&node.items, 0, node.items.len());
                assert(items@ =~= node.items@);
                Tree::Resident(Node { items })
            },
            Tree::Stored(id) => Tree::Stored(*id),
        }
    }
}

impl<T> Root<T> {
    /// The items that are read.
    pub open spec fn contents<S: NodeStore<T>>(&self, db: &S) -> Seq<Arc<T>> {
        match self {
            Root::Resident(node) => node.items@,
            Root::Stored(id) => db.node(*id).items@,
        }
    }

    /// Whether reading may fail with `error`.
    pub open spec fn may_fail<S: NodeStore<T>>(&self, db: &S, error: S::ReadError) -> bool {
        match self {
            Root::Resident(_) => false,
            Root::Stored(id) => db.may_fail(*id, error),
        }
    }

    /// Whether this is the sequence of `tree`.
    pub open spec fn reads(self, tree: Tree<T>) -> bool {
        match (self, tree) {
            (Root::Resident(node), Tree::Resident(other)) => node.items@ == other.items@,
            (Root::Stored(id), Tree::Stored(other)) => id == other,
            _ => false,
        }
    }

    /// Reads the items.
    fn load<S: NodeStore<T>>(&self, db: &S) -> (result: Result<Arc<Node<T>>, S::ReadError>)
        ensures
            match result {
                Ok(node) => node.items@ == self.contents(db),
                Err(error) => self.may_fail(db, error),
            },
    {
        match self {
            Root::Resident(node) => Ok(node.clone()),
            Root::Stored(id) => db.get(*id),
        }
    }
}

impl<T> Clone for Root<T> {
    fn clone(&self) -> (copy: Self)
        ensures
            copy == *self,
    {
        match self {
            Root::Resident(node) => Root::Resident(node.clone()),
            Root::Stored(id) => Root::Stored(*id),
        }
    }
}

impl<T> Clone for Cursor<T> {
    fn clone(&self) -> (copy: Self)
        ensures
            copy == *self,
    {
        Cursor { root: self.root.clone(), pos: self.pos }
    }
}

impl<T> Cursor<T> {
    /// The item at the cursor, if it is not at the end.
    pub fn item<S: NodeStore<T>>(&self, db: &S) -> (result: Result<Option<Arc<T>>, S::ReadError>)
        ensures
            match result {
                Ok(Some(item)) => {
                    &&& self.pos < self.root.contents(db).len()
                    &&& item == self.root.contents(db)[self.pos as int]
                },
                Ok(None) => self.pos >= self.root.contents(db).len(),
                Err(error) => self.root.may_fail(db, error),
            },
    {
        let node = self.root.load(db)?;
        if self.pos < node.items.len() {
            Ok(Some(node.items[self.pos].clone()))
        } else {
            Ok(None)
        }
    }

    /// Steps over one item, if the cursor is not at the end.
    pub fn next<S: NodeStore<T>>(&mut self, db: &S) -> (result: Result<(), S::ReadError>)
        ensures
            final(self).root == old(self).root,
            match result {
                Ok(()) => final(self).pos == if old(self).pos < old(self).root.contents(db).len() {
                    old(self).pos + 1
                } else {
                    old(self).pos as int
                },
                Err(error) => {
                    &&& final(self).pos == old(self).pos
                    &&& old(self).root.may_fail(db, error)
                },
            },
    {
        let node = self.root.load(db)?;
        if self.pos < node.items.len() {
            self.pos = self.pos + 1;
        }
        Ok(())
    }
}

impl<T: Item> Cursor<T> {
    /// Moves on from the current position to where a seek for `target` ends.
    pub fn seek_forward<S: NodeStore<T>>(
        &mut self,
        target: &T::Summary,
        bias: SeekBias,
        db: &S,
    ) -> (result: Result<(), S::ReadError>)
        requires
            old(self).pos <= old(self).root.contents(db).len(),
        ensures
            final(self).root == old(self).root,
            match result {
                Ok(()) => {
                    &&& final(self).pos == seek_index(
                        old(self).root.contents(db),
                        old(self).pos as int,
                        *target,
                        bias,
                    )
                    &&& old(self).pos <= final(self).pos <= old(self).root.contents(db).len()
                },
                Err(error) => {
                    &&& final(self).pos == old(self).pos
                    &&& old(self).root.may_fail(db, error)
                },
            },
    {
        let node = self.root.load(db)?;
        let ghost items = node.items@;
        let mut pos: usize = self.pos;
        let ghost start = self.pos as int;
        proof {
            lemma_seek_index_bounds(items, start, *target, bias);
        }
        loop
            invariant
                items == node.items@,
                start <= pos <= items.len(),
                seek_index(items, start, *target, bias) == seek_index(
                    items,
                    pos as int,
                    *target,
                    bias,
                ),
            ensures
                pos == seek_index(items, start, *target, bias),
            decreases items.len() - pos,
        {
            if pos >= node.items.len() {
                break;
            }
            let summary = node.items[pos].summarize();
            let key = T::Summary::from_summary(&summary);
            let past = match bias {
                SeekBias::Left => key.is_before(target),
                SeekBias::Right => !target.is_before(key),
            };
            if !past {
                break;
            }
            pos = pos + 1;
        }
        self.pos = pos;
        Ok(())
    }

    /// Moves to where a seek for `target` from the first item on ends.
    pub fn seek<S: NodeStore<T>>(&mut self, target: &T::Summary, bias: SeekBias, db: &S) -> (result:
        Result<(), S::ReadError>)
        ensures
            final(self).root == old(self).root,
            match result {
                Ok(()) => {
                    &&& final(self).pos == seek_index(
                        old(self).root.contents(db),
                        0,
                        *target,
                        bias,
                    )
                    &&& final(self).pos <= old(self).root.contents(db).len()
                },
                Err(error) => {
                    &&& final(self).pos == 0
                    &&& old(self).root.may_fail(db, error)
                },
            },
    {
        self.pos = 0;
        self.seek_forward(target, bias, db)
    }

    /// Moves on as [`Cursor::seek_forward`] does, and returns the items that were stepped over.
    pub fn slice<S: NodeStore<T>>(&mut self, end: &T::Summary, bias: SeekBias, db: &S) -> (result:
        Result<Tree<T>, S::ReadError>)
        requires
            old(self).pos <= old(self).root.contents(db).len(),
        ensures
            final(self).root == old(self).root,
            match result {
                Ok(tree) => {
                    &&& final(self).pos == seek_index(
                        old(self).root.contents(db),
                        old(self).pos as int,
                        *end,
                        bias,
                    )
                    &&& old(self).pos <= final(self).pos <= old(self).root.contents(db).len()
                    &&& tree is Resident
                    &&& tree.contents(db) == old(self).root.contents(db).subrange(
                        old(self).pos as int,
                        final(self).pos as int,
                    )
                },
                Err(error) => old(self).root.may_fail(db, error),
            },
    {
        let start: usize = self.pos;
        self.seek_forward(end, bias, db)?;
        let node = self.root.load(db)?;
        Ok(Tree::Resident(Node { items: copy_items(&node.items, start, self.pos) }))
    }

    /// Moves to the end, and returns the items that were stepped over.
    pub fn suffix<S: NodeStore<T>>(&mut self, db: &S) -> (result: Result<Tree<T>, S::ReadError>)
        requires
            old(self).pos <= old(self).root.contents(db).len(),
        ensures
            final(self).root == old(self).root,
            match result {
                Ok(tree) => {
                    &&& final(self).pos == old(self).root.contents(db).len()
                    &&& tree is Resident
                    &&& tree.contents(db) == old(self).root.contents(db).skip(old(self).pos as int)
                },
                Err(error) => {
                    &&& final(self).pos == old(self).pos
                    &&& old(self).root.may_fail(db, error)
                },
            },
    {
        let node = self.root.load(db)?;
        let start: usize = self.pos;
        self.pos = node.items.len();
        let items = copy_items(&node.items, start, self.pos);
        assert(items@ =~= node.items@.skip(start as int));
        Ok(Tree::Resident(Node { items }))
    }
}

} // verus!
