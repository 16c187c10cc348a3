//! What a tree needs from the outside: stored nodes and new identifiers.

use vstd::prelude::*;

use super::item::{InodeToFileId, Item};
use crate::btree::{NodeId, NodeStore};
use crate::id::{root_id, Unique};

verus! {

/// Whether two stores of nodes answer alike.
pub open spec fn same_nodes<N: NodeStore<Item>>(a: &N, b: &N) -> bool {
    &&& forall|id: NodeId| #[trigger] a.node(id) == b.node(id)
    &&& forall|id: NodeId, error: N::ReadError| #[trigger]
        a.may_fail(id, error) == b.may_fail(id, error)
}

/// Whether a store has issued the new identifier `id`, and changed in nothing else.
pub open spec fn issues<S: Store>(before: &S, after: &S, id: Unique) -> bool {
    &&& !before.issued(id)
    &&& id != root_id()
    &&& after.supply() + 1 == before.supply()
    &&& forall|other: Unique|
        #[trigger] after.issued(other) <==> before.issued(other) || other == id
    &&& same_nodes(&before.items(), &after.items())
}

/// Whether a store has issued the new identifiers `ids`, and changed in nothing else.
pub open spec fn issues_all<S: Store>(before: &S, after: &S, ids: Seq<Unique>) -> bool {
    &&& after.supply() + ids.len() == before.supply()
    &&& forall|k: int|
        0 <= k < ids.len() ==> !before.issued(#[trigger] ids[k]) && ids[k] != root_id()
    &&& forall|k: int, l: int|
        #![trigger ids[k], ids[l]]
        0 <= k < l < ids.len() ==> ids[k] != ids[l]
    &&& forall|other: Unique|
        #[trigger] after.issued(other) <==> before.issued(other) || ids.contains(other)
    &&& same_nodes(&before.items(), &after.items())
}

/// One more identifier.
pub proof fn lemma_issues_more<S: Store>(a: &S, b: &S, c: &S, ids: Seq<Unique>, id: Unique)
    requires
        issues_all(a, b, ids),
        issues(b, c, id),
    ensures
        issues_all(a, c, ids.push(id)),
{
    let more = ids.push(id);
    assert forall|other: Unique| #[trigger] c.issued(other) <==> a.issued(other) || more.contains(
        other,
    ) by {
        if ids.contains(other) {
            let k = choose|k: int| 0 <= k < ids.len() && ids[k] == other;
            assert(more[k] == other);
        }
        if other == id {
            assert(more[ids.len() as int] == other);
        }
        if more.contains(other) {
            let k = choose|k: int| 0 <= k < more.len() && more[k] == other;
            if k < ids.len() {
                assert(ids[k] == other);
            }
        }
        assert(b.issued(other) <==> a.issued(other) || ids.contains(other));
    }
    assert forall|k: int, l: int|
        #![trigger more[k], more[l]]
        0 <= k < l < more.len() implies more[k] != more[l] by {
        assert(more[k] == ids[k]);
        assert(ids.contains(ids[k]));
        if l < ids.len() {
            assert(more[l] == ids[l]);
        } else {
            assert(b.issued(ids[k]));
        }
    }
    assert forall|k: int| 0 <= k < more.len() implies !a.issued(#[trigger] more[k]) && more[k]
        != root_id() by {
        if k < ids.len() {
            assert(more[k] == ids[k]);
        } else {
            assert(b.issued(id) <==> a.issued(id) || ids.contains(id));
        }
    }
}

/// Some identifiers, and some more.
pub proof fn lemma_issues_both<S: Store>(
    a: &S,
    b: &S,
    c: &S,
    ids: Seq<Unique>,
    more: Seq<Unique>,
)
    requires
        issues_all(a, b, ids),
        issues_all(b, c, more),
    ensures
        issues_all(a, c, ids + more),
{
    let all = ids + more;
    let n = ids.len() as int;
    assert forall|other: Unique| #[trigger] c.issued(other) <==> a.issued(other) || all.contains(
        other,
    ) by {
        assert(b.issued(other) <==> a.issued(other) || ids.contains(other));
        if ids.contains(other) {
            let k = choose|k: int| 0 <= k < n && ids[k] == other;
            assert(all[k] == other);
        }
        if more.contains(other) {
            let k = choose|k: int| 0 <= k < more.len() && more[k] == other;
            assert(all[n + k] == other);
        }
        if all.contains(other) {
            let k = choose|k: int| 0 <= k < all.len() && all[k] == other;
            if k < n {
                assert(ids[k] == other);
            } else {
                assert(more[k - n] == other);
            }
        }
    }
    assert forall|k: int| 0 <= k < all.len() implies !a.issued(#[trigger] all[k]) && all[k]
        != root_id() by {
        if k < n {
            assert(all[k] == ids[k]);
        } else {
            assert(all[k] == more[k - n]);
            assert(b.issued(all[k]) <==> a.issued(all[k]) || ids.contains(all[k]));
        }
    }
    assert forall|k: int, l: int|
        #![trigger all[k], all[l]]
        0 <= k < l < all.len() implies all[k] != all[l] by {
        if l < n {
            assert(all[k] == ids[k] && all[l] == ids[l]);
        } else if k >= n {
            assert(all[k] == more[k - n] && all[l] == more[l - n]);
        } else {
            assert(all[k] == ids[k] && all[l] == more[l - n]);
            assert(ids.contains(ids[k]));
            assert(b.issued(ids[k]));
        }
    }
}

/// Where the nodes of trees are kept and new identifiers come from.
pub trait Store: Sized {
    type ReadError;

    type ItemStore: NodeStore<Item, ReadError = Self::ReadError>;

    type InodeToFileIdStore: NodeStore<InodeToFileId, ReadError = Self::ReadError>;

    /// The store of the nodes that hold items.
    spec fn items(&self) -> Self::ItemStore;

    /// The store of the nodes that hold the files of inodes.
    spec fn inodes(&self) -> Self::InodeToFileIdStore;

    /// Whether the identifier is taken: a new one never is.
    spec fn issued(&self, id: Unique) -> bool;

    /// How many new identifiers there still are.
    spec fn supply(&self) -> u128;

    /// The store of the nodes that hold items.
    fn item_store(&self) -> (store: &Self::ItemStore)
        ensures
            *store == self.items(),
    ;

    /// The store of the nodes that hold the files of inodes.
    fn inode_to_file_id_store(&self) -> (store: &Self::InodeToFileIdStore)
        ensures
            *store == self.inodes(),
    ;

    /// A new identifier. It is not that of the root directory.
    fn gen_id(&mut self) -> (id: Unique)
        requires
            old(self).supply() > 0,
        ensures
            !old(self).issued(id),
            id != root_id(),
            final(self).supply() + 1 == old(self).supply(),
            forall|other: Unique|
                #[trigger] final(self).issued(other) <==> old(self).issued(other) || other == id,
            same_nodes(&old(self).items(), &final(self).items()),
    ;
}

} // verus!
