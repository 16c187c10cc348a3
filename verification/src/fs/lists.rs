//! Short lists of identifiers and of moves, most of which hold at most one element.

use smallvec::SmallVec;
use vstd::prelude::*;

use crate::id::Unique;

verus! {

/// The place that an entry was moved from or to.
#[derive(Copy, Clone, Debug, Eq, PartialEq, Structural)]
pub struct Move {
    pub file_id: Unique,
    pub entry_id: Unique,
}

/// A list of identifiers, held in a `smallvec::SmallVec` with room for one inside.
#[derive(Debug, Eq, PartialEq)]
#[verifier::external_body]
pub struct IdList {
    ids: SmallVec<[Unique; 1]>,
}

/// A list of moves, held in a `smallvec::SmallVec` with room for one inside.
#[derive(Debug, Eq, PartialEq)]
#[verifier::external_body]
pub struct MoveList {
    moves: SmallVec<[Move; 1]>,
}

/// The identifiers in the list, in order.
pub uninterp spec fn ids_of(list: IdList) -> Seq<Unique>;

/// The moves in the list, in order.
pub uninterp spec fn moves_of(list: MoveList) -> Seq<Move>;

impl View for IdList {
    type V = Seq<Unique>;

    open spec fn view(&self) -> Seq<Unique> {
        ids_of(*self)
    }
}

impl View for MoveList {
    type V = Seq<Move>;

    open spec fn view(&self) -> Seq<Move> {
        moves_of(*self)
    }
}

impl IdList {
    /// `SmallVec::new` on identifiers: the list that it makes holds nothing.
    #[verifier::external_body]
    pub(crate) fn new() -> (list: Self)
        ensures
            ids_of(list) == Seq::<Unique>::empty(),
    {
        IdList { ids: SmallVec::new() }
    }

    /// `SmallVec::push` on identifiers: it puts `id` behind the last identifier.
    #[verifier::external_body]
    pub(crate) fn push(&mut self, id: Unique)
        ensures
            ids_of(*final(self)) == ids_of(*old(self)).push(id),
    {
        self.ids.push(id)
    }

    /// `SmallVec::is_empty` on identifiers: whether the list holds nothing.
    #[verifier::external_body]
    pub(crate) fn is_empty(&self) -> (empty: bool)
        ensures
            empty == (ids_of(*self).len() == 0),
    {
        self.ids.is_empty()
    }

    /// `SmallVec::clone` on identifiers: the copy holds the same identifiers in the same order.
    #[verifier::external_body]
    pub(crate) fn duplicate(&self) -> (copy: Self)
        ensures
            ids_of(copy) == ids_of(*self),
    {
        IdList { ids: self.ids.clone() }
    }
}

impl MoveList {
    /// `SmallVec::new` on moves: the list that it makes holds nothing.
    #[verifier::external_body]
    pub(crate) fn new() -> (list: Self)
        ensures
            moves_of(list) == Seq::<Move>::empty(),
    {
        MoveList { moves: SmallVec::new() }
    }

    /// `SmallVec::clone` on moves: the copy holds the same moves in the same order.
    #[verifier::external_body]
    pub(crate) fn duplicate(&self) -> (copy: Self)
        ensures
            moves_of(copy) == moves_of(*self),
    {
        MoveList { moves: self.moves.clone() }
    }
}

} // verus!
