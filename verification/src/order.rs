//! Ordering by room identifier: a stable insertion sort, with the facts
//! about its result that the rest of the crate relies on.

use crate::model::Vnum;
use vstd::prelude::*;

verus! {

/// Something that is ordered by the identifier of a room.
pub trait Keyed {
    /// The identifier that the value is ordered by.
    spec fn key(&self) -> Vnum;

    /// Reads the identifier that the value is ordered by.
    fn sort_key(&self) -> (v: Vnum)
        ensures
            v == self.key(),
    ;
}

/// Where a value with identifier `key` goes in `sorted`: behind the last
/// item whose identifier is not greater.
pub open spec fn place_for<T: Keyed>(sorted: Seq<T>, key: Vnum) -> int
    decreases sorted.len(),
{
    if sorted.len() == 0 {
        0
    } else if sorted.last().key() <= key {
        sorted.len() as int
    } else {
        place_for(sorted.drop_last(), key)
    }
}

/// The items in ascending order of their identifiers; items with the
/// same identifier keep the order they came in.
pub open spec fn sorted_by_vnum<T: Keyed>(items: Seq<T>) -> Seq<T>
    decreases items.len(),
{
    if items.len() == 0 {
        Seq::empty()
    } else {
        let front = sorted_by_vnum(items.drop_last());
        front.insert(place_for(front, items.last().key()), items.last())
    }
}

/// Whether the identifiers of `items` never fall from one item to the
/// next.
pub open spec fn ascending<T: Keyed>(items: Seq<T>) -> bool {
    forall|i: int, j: int|
        0 <= i < j < items.len() ==> (#[trigger] items[i]).key() <= (#[trigger] items[j]).key()
}

/// Whether no two of `items` have the same identifier.
pub open spec fn distinct_keys<T: Keyed>(items: Seq<T>) -> bool {
    forall|i: int, j: int|
        0 <= i < j < items.len() ==> (#[trigger] items[i]).key() != (#[trigger] items[j]).key()
}

/// The place for a value lies within the list; what comes before it is
/// not greater and what comes after it is.
pub proof fn lemma_place_for<T: Keyed>(sorted: Seq<T>, key: Vnum)
    requires
        ascending(sorted),
    ensures
        0 <= place_for(sorted, key) <= sorted.len(),
        forall|i: int| 0 <= i < place_for(sorted, key) ==> (#[trigger] sorted[i]).key() <= key,
        forall|i: int|
            place_for(sorted, key) <= i < sorted.len() ==> (#[trigger] sorted[i]).key() > key,
    decreases sorted.len(),
{
    if sorted.len() > 0 {
        let front = sorted.drop_last();
        assert forall|i: int, j: int| 0 <= i < j < front.len() implies (#[trigger] front[i]).key()
            <= (#[trigger] front[j]).key() by {
            assert(front[i] == sorted[i] && front[j] == sorted[j]);
        }
        if sorted.last().key() <= key {
            assert forall|i: int| 0 <= i < sorted.len() implies (#[trigger] sorted[i]).key()
                <= key by {
                if i < sorted.len() - 1 {
                    assert(sorted[i].key() <= sorted[sorted.len() - 1].key());
                }
            }
        } else {
            lemma_place_for(front, key);
            assert forall|i: int| 0 <= i < place_for(sorted, key) implies (
            #[trigger] sorted[i]).key() <= key by {
                assert(front[i] == sorted[i]);
            }
            assert forall|i: int| place_for(sorted, key) <= i < sorted.len() implies (
            #[trigger] sorted[i]).key() > key by {
                if i < front.len() {
                    assert(front[i] == sorted[i]);
                }
            }
        }
    }
}

/// The sorted items are as many as the items and in ascending order.
pub proof fn lemma_sorted_ascending<T: Keyed>(items: Seq<T>)
    ensures
        ascending(sorted_by_vnum(items)),
        sorted_by_vnum(items).len() == items.len(),
    decreases items.len(),
{
    let out = sorted_by_vnum(items);
    if items.len() > 0 {
        let x = items.last();
        let front = sorted_by_vnum(items.drop_last());
        lemma_sorted_ascending(items.drop_last());
        lemma_place_for(front, x.key());
        let p = place_for(front, x.key());
        front.insert_ensures(p, x);
        assert forall|i: int, j: int| 0 <= i < j < out.len() implies (#[trigger] out[i]).key() <= (
        #[trigger] out[j]).key() by {
            if j < p {
                assert(front[i].key() <= front[j].key());
            } else if j == p {
                assert(front[i].key() <= x.key());
            } else if i < p {
                assert(out[j] == front[j - 1]);
                assert(front[i].key() <= front[j - 1].key());
            } else if i == p {
                assert(out[j] == front[j - 1]);
                assert(front[j - 1].key() > x.key());
            } else {
                assert(out[j] == front[j - 1]);
                assert(out[i] == front[i - 1]);
                assert(front[i - 1].key() <= front[j - 1].key());
            }
        }
    }
}

/// The sorted items are the items, each as often as it came.
pub proof fn lemma_sorted_permutes<T: Keyed>(items: Seq<T>)
    ensures
        sorted_by_vnum(items).to_multiset() == items.to_multiset(),
    decreases items.len(),
{
    if items.len() == 0 {
        assert(items =~= Seq::<T>::empty());
    } else {
        let rest = items.drop_last();
        let x = items.last();
        let front = sorted_by_vnum(rest);
        lemma_sorted_permutes(rest);
        lemma_sorted_ascending(rest);
        lemma_place_for(front, x.key());
        vstd::seq_lib::to_multiset_insert(front, place_for(front, x.key()), x);
        assert(items == rest.push(x));
        vstd::seq_lib::to_multiset_build(rest, x);
    }
}

/// Whether `x` is one of `items`.
pub open spec fn occurs<T>(items: Seq<T>, x: T) -> bool {
    exists|i: int| 0 <= i < items.len() && #[trigger] items[i] == x
}

/// Every sorted item is one of the items, and every item one of the
/// sorted.
pub proof fn lemma_sorted_members<T: Keyed>(items: Seq<T>)
    ensures
        forall|k: int|
            0 <= k < sorted_by_vnum(items).len() ==> occurs(
                items,
                #[trigger] sorted_by_vnum(items)[k],
            ),
        forall|i: int| 0 <= i < items.len() ==> occurs(sorted_by_vnum(items), #[trigger] items[i]),
    decreases items.len(),
{
    let out = sorted_by_vnum(items);
    if items.len() > 0 {
        let rest = items.drop_last();
        let x = items.last();
        let front = sorted_by_vnum(rest);
        lemma_sorted_members(rest);
        lemma_sorted_ascending(rest);
        lemma_place_for(front, x.key());
        let p = place_for(front, x.key());
        front.insert_ensures(p, x);
        assert forall|k: int| 0 <= k < out.len() implies occurs(items, #[trigger] out[k]) by {
            if k == p {
                assert(items[items.len() - 1] == out[k]);
            } else {
                let k0 = if k < p { k } else { k - 1 };
                assert(out[k] == front[k0]);
                assert(occurs(rest, front[k0]));
                let i = choose|i: int| 0 <= i < rest.len() && #[trigger] rest[i] == front[k0];
                assert(items[i] == out[k]);
            }
        }
        assert forall|i: int| 0 <= i < items.len() implies occurs(out, #[trigger] items[i]) by {
            if i == items.len() - 1 {
                assert(out[p] == items[i]);
            } else {
                assert(rest[i] == items[i]);
                assert(occurs(front, rest[i]));
                let k0 = choose|k0: int| 0 <= k0 < front.len() && #[trigger] front[k0] == rest[i];
                let k = if k0 < p { k0 } else { k0 + 1 };
                assert(out[k] == items[i]);
            }
        }
    }
}

/// Items with distinct identifiers have distinct identifiers when
/// sorted.
pub proof fn lemma_sorted_distinct<T: Keyed>(items: Seq<T>)
    requires
        distinct_keys(items),
    ensures
        distinct_keys(sorted_by_vnum(items)),
    decreases items.len(),
{
    let out = sorted_by_vnum(items);
    if items.len() > 0 {
        let rest = items.drop_last();
        let x = items.last();
        let front = sorted_by_vnum(rest);
        assert forall|i: int, j: int| 0 <= i < j < rest.len() implies (#[trigger] rest[i]).key() != (
        #[trigger] rest[j]).key() by {
            assert(rest[i] == items[i] && rest[j] == items[j]);
        }
        lemma_sorted_distinct(rest);
        lemma_sorted_members(rest);
        lemma_sorted_ascending(rest);
        lemma_place_for(front, x.key());
        let p = place_for(front, x.key());
        front.insert_ensures(p, x);
        assert forall|k: int| 0 <= k < front.len() implies (#[trigger] front[k]).key()
            != x.key() by {
            assert(occurs(rest, front[k]));
            let i = choose|i: int| 0 <= i < rest.len() && #[trigger] rest[i] == front[k];
            assert(items[i].key() != items[items.len() - 1].key());
        }
        assert forall|i: int, j: int| 0 <= i < j < out.len() implies (#[trigger] out[i]).key() != (
        #[trigger] out[j]).key() by {
            let i0 = if i < p { i } else { i - 1 };
            let j0 = if j < p { j } else { j - 1 };
            if i != p && j != p {
                assert(out[i] == front[i0] && out[j] == front[j0]);
                assert(front[i0].key() != front[j0].key());
            } else if i == p {
                assert(out[j] == front[j0]);
                assert(front[j0].key() != x.key());
            } else {
                assert(out[i] == front[i0]);
                assert(front[i0].key() != x.key());
            }
        }
    }
}

/// Finds where a value with identifier `key` goes in `sorted`.
fn find_place<T: Keyed>(sorted: &Vec<T>, key: Vnum) -> (p: usize)
    ensures
        p == place_for(sorted@, key),
        p <= sorted.len(),
{
    let mut p: usize = sorted.len();
    proof {
        assert(sorted@.take(p as int) == sorted@);
    }
    while p > 0 && sorted[p - 1].sort_key() > key
        invariant
            p <= sorted.len(),
            place_for(sorted@, key) == place_for(sorted@.take(p as int), key),
        decreases p,
    {
        proof {
            assert(sorted@.take(p as int).drop_last() == sorted@.take(p - 1));
        }
        p = p - 1;
    }
    p
}

/// Sorts `items` by identifier, ascending. Items with the same
/// identifier keep their order.
pub fn sort_by_vnum<T: Keyed>(items: Vec<T>) -> (out: Vec<T>)
    ensures
        out@ == sorted_by_vnum(items@),
        ascending(out@),
        out@.to_multiset() == items@.to_multiset(),
{
    let ghost all = items@;
    let mut out: Vec<T> = Vec::new();
    for x in it: items
        invariant
            it.seq() == all,
            out@ == sorted_by_vnum(all.take(it.index() as int)),
    {
        proof {
            assert(all.take(it.index() + 1).drop_last() == all.take(it.index() as int));
        }
        let key = x.sort_key();
        let p = find_place(&out, key);
        out.insert(p, x);
    }
    proof {
        assert(all.take(all.len() as int) == all);
        lemma_sorted_ascending(all);
        lemma_sorted_permutes(all);
    }
    out
}

} // verus!
