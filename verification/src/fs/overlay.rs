//! How new items are put between the items of an old tree.

use vstd::prelude::*;

use super::item::ItemView;
use super::key::{
    key_lt, lemma_default_key_is_first, lemma_key_lt_asymmetric, lemma_key_lt_total,
    lemma_key_lt_transitive, metadata_key, KeyView,
};
use super::model::{lemma_seek, lemma_seek_ends, seek, sorted};
use crate::btree::SeekBias;
use crate::id::root_id;

verus! {

/// Where `new` goes among the old items from `from` on.
pub open spec fn slot(items: Seq<ItemView>, from: int, new: ItemView) -> int {
    seek(items, from, new.key(), SeekBias::Left)
}

/// The first old item that is still to come after `new` was put in at `at`. A deleted entry takes
/// the place of the item at `at`.
pub open spec fn slot_end(items: Seq<ItemView>, at: int, new: ItemView) -> int {
    if new.is_deleted() && at < items.len() {
        at + 1
    } else {
        at
    }
}

/// The old items from `from` on with the new ones from `t` on put in: each before the first old
/// item whose key is not smaller, and a deleted entry in the place of that item.
pub open spec fn overlay(items: Seq<ItemView>, from: int, new: Seq<ItemView>, t: int) -> Seq<
    ItemView,
>
    decreases new.len() - t,
{
    if t >= new.len() {
        items.skip(from)
    } else {
        let at = slot(items, from, new[t]);
        items.subrange(from, at).push(new[t]) + overlay(
            items,
            slot_end(items, at, new[t]),
            new,
            t + 1,
        )
    }
}

/// Where an item of an overlay comes from.
pub enum Source {
    Old(int),
    New(int),
}

/// The old items from `from` up to `to`.
pub open spec fn old_sources(from: int, to: int) -> Seq<Source> {
    Seq::new((to - from) as nat, |k: int| Source::Old(from + k))
}

/// Where the items of an overlay come from.
pub open spec fn sources(items: Seq<ItemView>, from: int, new: Seq<ItemView>, t: int) -> Seq<Source>
    decreases new.len() - t,
{
    if t >= new.len() {
        old_sources(from, items.len() as int)
    } else {
        let at = slot(items, from, new[t]);
        old_sources(from, at).push(Source::New(t)) + sources(
            items,
            slot_end(items, at, new[t]),
            new,
            t + 1,
        )
    }
}

/// The item that a source stands for.
pub open spec fn source_item(items: Seq<ItemView>, new: Seq<ItemView>, source: Source) -> ItemView {
    match source {
        Source::Old(q) => items[q],
        Source::New(t) => new[t],
    }
}

/// Whether item `a` is put in before item `b`: by key, and of two with the same key the one that is
/// not deleted.
pub open spec fn item_lt(a: ItemView, b: ItemView) -> bool {
    key_lt(a.key(), b.key()) || (a.key() == b.key() && !a.is_deleted() && b.is_deleted())
}

/// Whether the new items are in strict order, and every deleted entry among them has an old item
/// to take the place of.
pub open spec fn applicable(items: Seq<ItemView>, new: Seq<ItemView>) -> bool {
    &&& forall|t: int, u: int|
        #![trigger new[t], new[u]]
        0 <= t < u < new.len() ==> item_lt(new[t], new[u])
    &&& forall|t: int|
        0 <= t < new.len() && (#[trigger] new[t]).is_deleted() ==> slot(items, 0, new[t])
            < items.len() && items[slot(items, 0, new[t])].key() == new[t].key()
}

/// Whether a deleted entry at or after `t` takes the place of the old item at `q`.
pub open spec fn replaced(items: Seq<ItemView>, new: Seq<ItemView>, t: int, q: int) -> bool {
    exists|u: int|
        t <= u < new.len() && (#[trigger] new[u]).is_deleted() && slot(items, 0, new[u]) == q
}

/// Whether source `a` may stand before source `b`.
pub open spec fn comes_first(
    items: Seq<ItemView>,
    new: Seq<ItemView>,
    a: Source,
    b: Source,
) -> bool {
    match (a, b) {
        (Source::Old(p), Source::Old(q)) => p < q,
        (Source::Old(p), Source::New(u)) => key_lt(items[p].key(), new[u].key()),
        (Source::New(t), Source::Old(q)) => !key_lt(items[q].key(), new[t].key()),
        (Source::New(t), Source::New(u)) => t < u,
    }
}

/// Whether the source can be in the overlay from `from` and `t` on.
pub open spec fn available(
    items: Seq<ItemView>,
    from: int,
    new: Seq<ItemView>,
    t: int,
    source: Source,
) -> bool {
    match source {
        Source::Old(q) => from <= q < items.len() && !replaced(items, new, t, q),
        Source::New(u) => t <= u < new.len(),
    }
}

/// Whether the source is among `src`.
pub open spec fn among(src: Seq<Source>, source: Source) -> bool {
    exists|a: int| 0 <= a < src.len() && #[trigger] src[a] == source
}

/// An overlay holds the items that its sources stand for.
proof fn lemma_overlay_sources(items: Seq<ItemView>, from: int, new: Seq<ItemView>, t: int)
    requires
        0 <= from <= items.len(),
        0 <= t <= new.len(),
    ensures
        overlay(items, from, new, t).len() == sources(items, from, new, t).len(),
        forall|a: int|
            0 <= a < sources(items, from, new, t).len() ==> #[trigger] overlay(
                items,
                from,
                new,
                t,
            )[a] == source_item(items, new, sources(items, from, new, t)[a]),
    decreases new.len() - t,
{
    if t < new.len() {
        let at = slot(items, from, new[t]);
        lemma_seek(items, from, new[t].key(), SeekBias::Left);
        lemma_overlay_sources(items, slot_end(items, at, new[t]), new, t + 1);
        let (o, s) = (overlay(items, from, new, t), sources(items, from, new, t));
        let (o2, s2) = (
            overlay(items, slot_end(items, at, new[t]), new, t + 1),
            sources(items, slot_end(items, at, new[t]), new, t + 1),
        );
        assert forall|a: int| 0 <= a < s.len() implies #[trigger] o[a] == source_item(
            items,
            new,
            s[a],
        ) by {
            let n = at - from;
            if a > n {
                assert(o[a] == o2[a - n - 1]);
                assert(s[a] == s2[a - n - 1]);
            }
        }
    }
}

/// An overlay is made of old items and of new ones, of each new one once and in their order.
pub proof fn lemma_overlay_made_of(items: Seq<ItemView>, from: int, new: Seq<ItemView>, t: int)
    requires
        0 <= from <= items.len(),
        0 <= t <= new.len(),
    ensures
        overlay(items, from, new, t).len() == sources(items, from, new, t).len(),
        forall|a: int|
            0 <= a < sources(items, from, new, t).len() ==> #[trigger] overlay(
                items,
                from,
                new,
                t,
            )[a] == source_item(items, new, sources(items, from, new, t)[a]),
        forall|a: int|
            0 <= a < sources(items, from, new, t).len() ==> match #[trigger] sources(
                items,
                from,
                new,
                t,
            )[a] {
                Source::Old(q) => from <= q < items.len(),
                Source::New(u) => t <= u < new.len(),
            },
        forall|a: int, b: int|
            0 <= a < b < sources(items, from, new, t).len() ==> (#[trigger] sources(
                items,
                from,
                new,
                t,
            )[a] matches Source::New(u) ==> #[trigger] sources(
                items,
                from,
                new,
                t,
            )[b] matches Source::New(v) ==> u < v),
        forall|u: int|
            t <= u < new.len() ==> #[trigger] overlay(items, from, new, t).contains(new[u]),
    decreases new.len() - t,
{
    lemma_overlay_sources(items, from, new, t);
    if t < new.len() {
        let at = slot(items, from, new[t]);
        lemma_seek(items, from, new[t].key(), SeekBias::Left);
        let next = slot_end(items, at, new[t]);
        lemma_overlay_made_of(items, next, new, t + 1);
        let (all, tail) = (sources(items, from, new, t), sources(items, next, new, t + 1));
        let (over, rest) = (overlay(items, from, new, t), overlay(items, next, new, t + 1));
        let n = at - from;
        assert forall|a: int| 0 <= a < all.len() implies (#[trigger] all[a]) == if a < n {
            Source::Old(from + a)
        } else if a == n {
            Source::New(t)
        } else {
            tail[a - n - 1]
        } by {}
        assert forall|a: int, b: int| 0 <= a < b < all.len() implies (
        #[trigger] all[a] matches Source::New(u) ==> #[trigger] all[b] matches Source::New(v) ==> u
            < v) by {
            if a > n {
                assert(all[a] == tail[a - n - 1]);
            }
            if b > n {
                assert(all[b] == tail[b - n - 1]);
            }
        }
        assert forall|u: int| t <= u < new.len() implies #[trigger] over.contains(new[u]) by {
            if u == t {
                assert(over[n] == new[t]);
            } else {
                assert(rest.contains(new[u]));
                let b = choose|b: int| 0 <= b < rest.len() && rest[b] == new[u];
                assert(over[b + n + 1] == new[u]);
            }
        }
    }
}

/// A seek from a later position ends where one from the start does, unless it is past that.
pub(crate) proof fn lemma_slot_from(items: Seq<ItemView>, from: int, new: ItemView)
    requires
        0 <= from <= slot(items, 0, new),
    ensures
        slot(items, from, new) == slot(items, 0, new),
        slot(items, 0, new) <= items.len(),
{
    lemma_seek(items, 0, new.key(), SeekBias::Left);
    lemma_seek_ends(items, from, new.key(), SeekBias::Left, slot(items, 0, new));
}

/// Later new items do not go before earlier ones.
proof fn lemma_slots_ahead(
    items: Seq<ItemView>,
    new: Seq<ItemView>,
    t: int,
    u: int,
)
    requires
        sorted(items),
        applicable(items, new),
        0 <= t < u < new.len(),
    ensures
        slot_end(items, slot(items, 0, new[t]), new[t]) <= slot(items, 0, new[u]),
{
    let (r, x) = (slot(items, 0, new[t]), slot(items, 0, new[u]));
    lemma_seek(items, 0, new[t].key(), SeekBias::Left);
    lemma_seek(items, 0, new[u].key(), SeekBias::Left);
    assert(item_lt(new[t], new[u]));
    if x < r {
        // The item at `x` would come before `new[t]`, and not before `new[u]`.
        assert(key_lt(items[x].key(), new[t].key()));
        if new[t].key() != new[u].key() {
            lemma_key_lt_transitive(items[x].key(), new[t].key(), new[u].key());
        }
    }
}

/// What an overlay is made of, and in which order.
proof fn lemma_sources(items: Seq<ItemView>, from: int, new: Seq<ItemView>, t: int)
    requires
        sorted(items),
        applicable(items, new),
        0 <= from <= items.len(),
        0 <= t <= new.len(),
        forall|u: int| t <= u < new.len() ==> from <= slot(items, 0, #[trigger] new[u]),
    ensures
        forall|a: int|
            0 <= a < sources(items, from, new, t).len() ==> available(
                items,
                from,
                new,
                t,
                #[trigger] sources(items, from, new, t)[a],
            ),
        forall|source: Source| #[trigger]
            available(items, from, new, t, source) ==> among(sources(items, from, new, t), source),
        forall|a: int, b: int|
            0 <= a < b < sources(items, from, new, t).len() ==> comes_first(
                items,
                new,
                #[trigger] sources(items, from, new, t)[a],
                #[trigger] sources(items, from, new, t)[b],
            ),
    decreases new.len() - t,
{
    let src = sources(items, from, new, t);
    if t >= new.len() {
        assert forall|source: Source| #[trigger]
            available(items, from, new, t, source) implies among(src, source) by {
            if let Source::Old(q) = source {
                assert(src[q - from] == source);
            }
        }
    } else {
        let at = slot(items, from, new[t]);
        let key = new[t].key();
        lemma_slot_from(items, from, new[t]);
        lemma_seek(items, from, key, SeekBias::Left);
        let next = slot_end(items, at, new[t]);
        assert forall|u: int| t + 1 <= u < new.len() implies next <= slot(
            items,
            0,
            #[trigger] new[u],
        ) by {
            lemma_slots_ahead(items, new, t, u);
        }
        lemma_sources(items, next, new, t + 1);
        let tail = sources(items, next, new, t + 1);
        let n = at - from;
        assert(src.len() == n + 1 + tail.len());
        assert forall|a: int| 0 <= a < tail.len() implies #[trigger] tail[a] == src[a + n + 1] by {}
        assert forall|q: int| from <= q < items.len() && q != at implies #[trigger] replaced(
            items,
            new,
            t,
            q,
        ) == replaced(items, new, t + 1, q) by {
            if replaced(items, new, t, q) {
                let u = choose|u: int|
                    t <= u < new.len() && (#[trigger] new[u]).is_deleted() && slot(
                        items,
                        0,
                        new[u],
                    ) == q;
                assert(u != t);
            }
            if replaced(items, new, t + 1, q) {
                let u = choose|u: int|
                    t + 1 <= u < new.len() && (#[trigger] new[u]).is_deleted() && slot(
                        items,
                        0,
                        new[u],
                    ) == q;
                assert(new[u].is_deleted());
            }
        }
        assert(at < items.len() && !new[t].is_deleted() ==> replaced(items, new, t, at) == replaced(
            items,
            new,
            t + 1,
            at,
        )) by {
            if replaced(items, new, t, at) {
                let u = choose|u: int|
                    t <= u < new.len() && (#[trigger] new[u]).is_deleted() && slot(
                        items,
                        0,
                        new[u],
                    ) == at;
                if u != t {
                    assert(new[u].is_deleted());
                }
            }
            if replaced(items, new, t + 1, at) {
                let u = choose|u: int|
                    t + 1 <= u < new.len() && (#[trigger] new[u]).is_deleted() && slot(
                        items,
                        0,
                        new[u],
                    ) == at;
                assert(new[u].is_deleted());
            }
        }
        assert forall|q: int| from <= q < at implies !#[trigger] replaced(items, new, t, q) by {
            if replaced(items, new, t + 1, q) {
                let u = choose|u: int|
                    t + 1 <= u < new.len() && (#[trigger] new[u]).is_deleted() && slot(
                        items,
                        0,
                        new[u],
                    ) == q;
                assert(next <= slot(items, 0, new[u]));
            }
        }
        assert forall|a: int| 0 <= a < src.len() implies available(
            items,
            from,
            new,
            t,
            #[trigger] src[a],
        ) by {
            if a < n {
                assert(src[a] == Source::Old(from + a));
            } else if a > n {
                assert(src[a] == tail[a - n - 1]);
                assert(available(items, next, new, t + 1, tail[a - n - 1]));
                if let Source::Old(q) = src[a] {
                    assert(!replaced(items, new, t + 1, q));
                    if q == at {
                        assert(!new[t].is_deleted());
                    } else {
                        assert(replaced(items, new, t, q) == replaced(items, new, t + 1, q));
                    }
                }
            }
        }
        assert forall|source: Source| #[trigger]
            available(items, from, new, t, source) implies among(src, source) by {
            match source {
                Source::Old(q) => {
                    if q < at {
                        assert(src[q - from] == source);
                    } else {
                        if q == at && new[t].is_deleted() {
                            assert(replaced(items, new, t, q)) by {
                                assert(new[t].is_deleted());
                            }
                        }
                        assert(available(items, next, new, t + 1, source));
                        let a = choose|a: int| 0 <= a < tail.len() && #[trigger] tail[a] == source;
                        assert(src[a + n + 1] == source);
                    }
                },
                Source::New(u) => {
                    if u == t {
                        assert(src[n] == source);
                    } else {
                        assert(available(items, next, new, t + 1, source));
                        let a = choose|a: int| 0 <= a < tail.len() && #[trigger] tail[a] == source;
                        assert(src[a + n + 1] == source);
                    }
                },
            }
        }
        assert forall|a: int, b: int| 0 <= a < b < src.len() implies comes_first(
            items,
            new,
            #[trigger] src[a],
            #[trigger] src[b],
        ) by {
            if b > n {
                assert(src[b] == tail[b - n - 1]);
                assert(available(items, next, new, t + 1, tail[b - n - 1]));
            }
            if a > n {
                assert(src[a] == tail[a - n - 1]);
            } else if a == n {
                if b > n {
                    if let Source::Old(q) = src[b] {
                        lemma_not_before(items, at, q, new[t]);
                    }
                }
            } else {
                assert(src[a] == Source::Old(from + a));
                assert(key_lt(items[from + a].key(), key));
                if b > n {
                    if let Source::New(u) = src[b] {
                        assert(item_lt(new[t], new[u]));
                        if key != new[u].key() {
                            lemma_key_lt_transitive(items[from + a].key(), key, new[u].key());
                        }
                    }
                }
            }
        }
    }
}

/// Items behind the place of `new` do not come before it.
proof fn lemma_not_before(items: Seq<ItemView>, at: int, q: int, new: ItemView)
    requires
        sorted(items),
        0 <= at <= q < items.len(),
        !key_lt(items[at].key(), new.key()),
    ensures
        !key_lt(items[q].key(), new.key()),
{
    if key_lt(items[q].key(), new.key()) && at < q {
        assert(!key_lt(items[q].key(), items[at].key()));
        lemma_key_lt_total(items[q].key(), items[at].key());
        if items[q].key() != items[at].key() {
            lemma_key_lt_transitive(items[at].key(), items[q].key(), new.key());
        }
    }
}

/// An overlay, item by item: what it is made of, and in which order.
pub proof fn lemma_overlay(items: Seq<ItemView>, new: Seq<ItemView>)
    requires
        sorted(items),
        applicable(items, new),
    ensures
        overlay(items, 0, new, 0).len() == sources(items, 0, new, 0).len(),
        forall|a: int|
            0 <= a < sources(items, 0, new, 0).len() ==> #[trigger] overlay(items, 0, new, 0)[a]
                == source_item(items, new, sources(items, 0, new, 0)[a]),
        forall|a: int|
            0 <= a < sources(items, 0, new, 0).len() ==> available(
                items,
                0,
                new,
                0,
                #[trigger] sources(items, 0, new, 0)[a],
            ),
        forall|source: Source| #[trigger]
            available(items, 0, new, 0, source) ==> among(sources(items, 0, new, 0), source),
        forall|a: int, b: int|
            0 <= a < b < sources(items, 0, new, 0).len() ==> comes_first(
                items,
                new,
                #[trigger] sources(items, 0, new, 0)[a],
                #[trigger] sources(items, 0, new, 0)[b],
            ),
{
    lemma_overlay_sources(items, 0, new, 0);
    assert forall|u: int| 0 <= u < new.len() implies 0 <= slot(items, 0, #[trigger] new[u]) by {
        lemma_seek(items, 0, new[u].key(), SeekBias::Left);
    }
    lemma_sources(items, 0, new, 0);
}

/// An overlay of items in the order of their keys is in that order, and has no key before `low` if
/// none of the items has.
proof fn lemma_overlay_in_order(
    items: Seq<ItemView>,
    from: int,
    new: Seq<ItemView>,
    t: int,
    low: KeyView,
)
    requires
        sorted(items),
        sorted(new),
        0 <= from <= items.len(),
        0 <= t <= new.len(),
        forall|q: int| from <= q < items.len() ==> !key_lt(#[trigger] items[q].key(), low),
        forall|u: int| t <= u < new.len() ==> !key_lt(#[trigger] new[u].key(), low),
    ensures
        sorted(overlay(items, from, new, t)),
        forall|a: int|
            0 <= a < overlay(items, from, new, t).len() ==> !key_lt(
                #[trigger] overlay(items, from, new, t)[a].key(),
                low,
            ),
    decreases new.len() - t,
{
    let all = overlay(items, from, new, t);
    if t >= new.len() {
        assert forall|a: int, b: int| 0 <= a < b < all.len() implies !key_lt(
            #[trigger] all[b].key(),
            #[trigger] all[a].key(),
        ) by {
            assert(!key_lt(items[from + b].key(), items[from + a].key()));
        }
        assert forall|a: int| 0 <= a < all.len() implies !key_lt(#[trigger] all[a].key(), low) by {
            assert(!key_lt(items[from + a].key(), low));
        }
    } else {
        let key = new[t].key();
        let at = slot(items, from, new[t]);
        lemma_seek(items, from, key, SeekBias::Left);
        let next = slot_end(items, at, new[t]);
        assert forall|q: int| next <= q < items.len() implies !key_lt(
            #[trigger] items[q].key(),
            key,
        ) by {
            lemma_not_before(items, at, q, new[t]);
        }
        assert forall|u: int| t + 1 <= u < new.len() implies !key_lt(
            #[trigger] new[u].key(),
            key,
        ) by {
            assert(!key_lt(new[u].key(), new[t].key()));
        }
        lemma_overlay_in_order(items, next, new, t + 1, key);
        let tail = overlay(items, next, new, t + 1);
        let n = at - from;
        assert(!key_lt(new[t].key(), low));
        assert forall|a: int| 0 <= a < all.len() implies (#[trigger] all[a]) == if a < n {
            items[from + a]
        } else if a == n {
            new[t]
        } else {
            tail[a - n - 1]
        } by {}
        assert forall|a: int, b: int| 0 <= a < b < all.len() implies !key_lt(
            #[trigger] all[b].key(),
            #[trigger] all[a].key(),
        ) by {
            if b < n {
                assert(!key_lt(items[from + b].key(), items[from + a].key()));
            } else if a < n {
                assert(key_lt(items[from + a].key(), key));
                if b == n {
                    lemma_key_lt_asymmetric(items[from + a].key(), key);
                } else {
                    assert(!key_lt(tail[b - n - 1].key(), key));
                    if key_lt(all[b].key(), all[a].key()) {
                        lemma_key_lt_transitive(all[b].key(), all[a].key(), key);
                    }
                }
            } else if a == n {
                assert(!key_lt(tail[b - n - 1].key(), key));
            } else {
                assert(!key_lt(tail[b - n - 1].key(), tail[a - n - 1].key()));
            }
        }
        assert forall|a: int| 0 <= a < all.len() implies !key_lt(#[trigger] all[a].key(), low) by {
            if a < n {
                assert(!key_lt(items[from + a].key(), low));
            } else if a > n {
                assert(!key_lt(tail[a - n - 1].key(), key));
                lemma_key_lt_total(key, low);
                if key_lt(all[a].key(), low) && key != low {
                    lemma_key_lt_transitive(all[a].key(), low, key);
                }
            }
        }
    }
}

/// An overlay of items in the order of their keys is in that order.
pub proof fn lemma_overlay_sorted(items: Seq<ItemView>, new: Seq<ItemView>)
    requires
        sorted(items),
        sorted(new),
    ensures
        sorted(overlay(items, 0, new, 0)),
{
    let low = metadata_key(root_id());
    assert forall|q: int| 0 <= q < items.len() implies !key_lt(#[trigger] items[q].key(), low) by {
        lemma_default_key_is_first(items[q].key());
    }
    assert forall|u: int| 0 <= u < new.len() implies !key_lt(#[trigger] new[u].key(), low) by {
        lemma_default_key_is_first(new[u].key());
    }
    lemma_overlay_in_order(items, 0, new, 0, low);
}

} // verus!
