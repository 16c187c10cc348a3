//! Sorting items.

use vstd::prelude::*;

use super::item::{Item, ItemView};
use super::key::{
    key_lt, lemma_key_lt_asymmetric, lemma_key_lt_irreflexive, lemma_key_lt_total,
    lemma_key_lt_transitive,
};
use super::overlay::item_lt;
use crate::btree::Dimension;

verus! {

/// The models of items.
pub open spec fn item_views(items: Seq<Item>) -> Seq<ItemView> {
    Seq::new(items.len(), |k: int| items[k]@)
}

/// Whether the place `i` occurs in the order.
pub open spec fn covers(order: Seq<int>, i: int) -> bool {
    exists|t: int| 0 <= t < order.len() && #[trigger] order[t] == i
}

/// Whether `to` holds what `from` holds, each item once, at the places that `order` says.
pub open spec fn rearranged(from: Seq<ItemView>, to: Seq<ItemView>, order: Seq<int>) -> bool {
    &&& to.len() == from.len()
    &&& order.len() == from.len()
    &&& forall|t: int|
        0 <= t < to.len() ==> 0 <= #[trigger] order[t] < from.len() && to[t] == from[order[t]]
    &&& forall|t: int, u: int|
        #![trigger order[t], order[u]]
        0 <= t < u < order.len() ==> order[t] != order[u]
    &&& forall|i: int| #![trigger covers(order, i)] 0 <= i < from.len() ==> covers(order, i)
}

/// Whether the items are in order: by key, and of those with the same key first the ones that are
/// not deleted.
pub open spec fn ordered(items: Seq<ItemView>) -> bool {
    forall|p: int, q: int|
        0 <= p < q < items.len() ==> !item_lt(#[trigger] items[q], #[trigger] items[p])
}

/// Whether `to` holds what `from` holds, in order.
pub open spec fn sorted_from(from: Seq<ItemView>, to: Seq<ItemView>) -> bool {
    ordered(to) && exists|order: Seq<int>| rearranged(from, to, order)
}

/// What does not come before an item does not come before what that one does not come before.
proof fn lemma_item_lt(a: ItemView, b: ItemView, c: ItemView)
    requires
        !item_lt(b, a),
        !item_lt(c, b),
    ensures
        !item_lt(c, a),
{
    lemma_key_lt_total(a.key(), b.key());
    lemma_key_lt_total(b.key(), c.key());
    if key_lt(a.key(), b.key()) && key_lt(b.key(), c.key()) {
        lemma_key_lt_transitive(a.key(), b.key(), c.key());
    }
    if key_lt(a.key(), c.key()) {
        lemma_key_lt_asymmetric(a.key(), c.key());
    }
    lemma_key_lt_irreflexive(a.key());
    lemma_key_lt_irreflexive(c.key());
}

/// Of two items, not each comes before the other.
proof fn lemma_item_lt_asymmetric(a: ItemView, b: ItemView)
    requires
        item_lt(a, b),
    ensures
        !item_lt(b, a),
{
    lemma_key_lt_irreflexive(a.key());
    if key_lt(a.key(), b.key()) {
        lemma_key_lt_asymmetric(a.key(), b.key());
    }
}

/// Decides [`item_lt`].
fn is_item_before(a: &Item, b: &Item) -> (before: bool)
    ensures
        before == item_lt(a@, b@),
{
    let (a_key, b_key) = (a.key(), b.key());
    proof {
        lemma_key_lt_total(a@.key(), b@.key());
        lemma_key_lt_irreflexive(a@.key());
    }
    a_key.is_before(&b_key) || (!b_key.is_before(&a_key) && !a.is_deleted() && b.is_deleted())
}

/// Puts an item where it belongs.
fn insert_sorted(items: &mut Vec<Item>, item: Item) -> (place: usize)
    requires
        ordered(item_views(old(items)@)),
    ensures
        ordered(item_views(final(items)@)),
        place <= old(items).len(),
        item_views(final(items)@) == item_views(old(items)@).insert(place as int, item@),
{
    let ghost before = item_views(items@);
    let mut place: usize = 0;
    while place < items.len() && is_item_before(&items[place], &item)
        invariant
            place <= items.len(),
            before == item_views(items@),
            forall|k: int| 0 <= k < place ==> item_lt(#[trigger] before[k], item@),
        ensures
            place <= items.len(),
            before == item_views(items@),
            forall|k: int| 0 <= k < place ==> item_lt(#[trigger] before[k], item@),
            place < items.len() ==> !item_lt(before[place as int], item@),
        decreases items.len() - place,
    {
        place = place + 1;
    }
    items.insert(place, item);
    proof {
        let after = item_views(items@);
        assert(after =~= before.insert(place as int, item@));
        assert forall|p: int, q: int| 0 <= p < q < after.len() implies !item_lt(
            #[trigger] after[q],
            #[trigger] after[p],
        ) by {
            let (bp, bq) = (
                if p < place {
                    p
                } else {
                    p - 1
                },
                if q < place {
                    q
                } else {
                    q - 1
                },
            );
            if p == place {
                assert(after[q] == before[bq]);
                if place < bq {
                    assert(!item_lt(before[bq], before[place as int]));
                    lemma_item_lt(item@, before[place as int], before[bq]);
                }
            } else if q == place {
                assert(after[p] == before[bp]);
                lemma_item_lt_asymmetric(before[bp], item@);
            } else {
                assert(after[p] == before[bp] && after[q] == before[bq]);
            }
        }
    }
    place
}

/// Puts items in order.
pub(crate) fn sort_items(items: Vec<Item>) -> (result: Vec<Item>)
    ensures
        sorted_from(item_views(items@), item_views(result@)),
{
    let mut items = items;
    let ghost from = item_views(items@);
    let mut result: Vec<Item> = Vec::new();
    let ghost mut order: Seq<int> = Seq::empty();
    loop
        invariant
            items.len() <= from.len(),
            forall|k: int| 0 <= k < items.len() ==> #[trigger] items[k]@ == from[k],
            ordered(item_views(result@)),
            result.len() == from.len() - items.len(),
            order.len() == result.len(),
            forall|t: int|
                0 <= t < order.len() ==> items.len() <= #[trigger] order[t] < from.len()
                    && item_views(result@)[t] == from[order[t]],
            forall|t: int, u: int|
                #![trigger order[t], order[u]]
                0 <= t < u < order.len() ==> order[t] != order[u],
            forall|i: int|
                #![trigger covers(order, i)]
                items.len() <= i < from.len() ==> covers(order, i),
        ensures
            items.len() == 0,
        decreases items.len(),
    {
        let ghost before = item_views(result@);
        let ghost n = items.len() - 1;
        match items.pop() {
            Some(item) => {
                let place: usize = insert_sorted(&mut result, item);
                proof {
                    assert(item_views(result@).len() == before.len() + 1);
                    let old_order = order;
                    order = old_order.insert(place as int, n);
                    assert forall|i: int|
                        #![trigger covers(order, i)]
                        n <= i < from.len() implies covers(order, i) by {
                        if i == n {
                            assert(order[place as int] == n);
                        } else {
                            assert(covers(old_order, i));
                            let t = choose|t: int|
                                0 <= t < old_order.len() && #[trigger] old_order[t] == i;
                            assert(order[if t < place {
                                t
                            } else {
                                t + 1
                            }] == i);
                        }
                    }
                    assert forall|t: int| 0 <= t < order.len() implies n <= #[trigger] order[t]
                        < from.len() && item_views(result@)[t] == from[order[t]] by {
                        if t < place {
                            assert(order[t] == old_order[t]);
                        } else if t > place {
                            assert(order[t] == old_order[t - 1]);
                        }
                    }
                    assert forall|t: int, u: int|
                        #![trigger order[t], order[u]]
                        0 <= t < u < order.len() implies order[t] != order[u] by {
                        let (a, b) = (
                            if t < place {
                                t
                            } else {
                                t - 1
                            },
                            if u < place {
                                u
                            } else {
                                u - 1
                            },
                        );
                        if t != place {
                            assert(order[t] == old_order[a]);
                        }
                        if u != place {
                            assert(order[u] == old_order[b]);
                        }
                    }
                }
            },
            None => {
                break;
            },
        }
    }
    assert(rearranged(from, item_views(result@), order));
    result
}

} // verus!
