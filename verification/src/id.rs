//! Identifiers of files and of directory entries.

use vstd::prelude::*;

verus! {

/// An identifier. The default identifier stands for the root directory.
#[derive(Copy, Clone, Debug, Eq, PartialEq, Structural, Hash)]
pub struct Unique(pub u128);

/// The identifier of the root directory.
pub open spec fn root_id() -> Unique {
    Unique(0)
}

impl Default for Unique {
    fn default() -> (id: Self)
        ensures
            id == root_id(),
            id.0 == 0,
    {
        Unique(0)
    }
}

impl Unique {
    /// Steps to the identifier that follows this one.
    pub fn inc(&mut self)
        requires
            old(self).0 < u128::MAX,
        ensures
            final(self).0 == old(self).0 + 1,
    {
        self.0 = self.0 + 1;
    }
}

} // verus!
