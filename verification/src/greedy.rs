use vstd::prelude::*;

use crate::density::{sort_by_value_density, sorted_by_density};
use crate::item::{
    Item, distinct_indices, indices_in_range, items_value, lemma_total_value_mono,
    positive_weights, total_value,
};

verus! {

/// Remaining capacity after the greedy pass has considered the items
/// at positions `[0, p)`.
pub open spec fn greedy_rem(items: Seq<Item>, cap: int, p: int) -> int
    decreases p,
{
    if p <= 0 {
        cap
    } else if items[p - 1].weight <= greedy_rem(items, cap, p - 1) {
        greedy_rem(items, cap, p - 1) - items[p - 1].weight
    } else {
        greedy_rem(items, cap, p - 1)
    }
}

/// Whether the greedy pass takes the item at position `p`: it does
/// exactly when the item's weight fits the capacity remaining there.
pub open spec fn greedy_takes(items: Seq<Item>, cap: int, p: int) -> bool {
    items[p].weight <= greedy_rem(items, cap, p)
}

/// Value the greedy pass accumulates over positions `[0, p)`.
pub open spec fn greedy_value(items: Seq<Item>, cap: int, p: int) -> int
    decreases p,
{
    if p <= 0 {
        0
    } else {
        greedy_value(items, cap, p - 1) + if greedy_takes(items, cap, p - 1) {
            items[p - 1].value as int
        } else {
            0
        }
    }
}

/// Weight the greedy pass accumulates over positions `[0, p)`.
pub open spec fn greedy_weight(items: Seq<Item>, cap: int, p: int) -> int
    decreases p,
{
    if p <= 0 {
        0
    } else {
        greedy_weight(items, cap, p - 1) + if greedy_takes(items, cap, p - 1) {
            items[p - 1].weight as int
        } else {
            0
        }
    }
}

/// The accumulated weight and the remaining capacity always add up to
/// the original capacity, and the remainder never leaves `[0, cap]`.
/// In particular the greedy selection always fits the capacity.
pub proof fn lemma_greedy_weight_rem(items: Seq<Item>, cap: int, p: int)
    requires
        cap >= 0,
    ensures
        greedy_weight(items, cap, p) == cap - greedy_rem(items, cap, p),
        0 <= greedy_rem(items, cap, p) <= cap,
    decreases p,
{
    if p > 0 {
        lemma_greedy_weight_rem(items, cap, p - 1);
    }
}

pub proof fn lemma_greedy_value_le_total(items: Seq<Item>, cap: int, p: int)
    ensures
        0 <= greedy_value(items, cap, p) <= total_value(items, p),
    decreases p,
{
    if p > 0 {
        lemma_greedy_value_le_total(items, cap, p - 1);
    }
}

proof fn lemma_greedy_zero_cap_value(items: Seq<Item>, p: int)
    requires
        positive_weights(items),
        p <= items.len(),
    ensures
        greedy_value(items, 0, p) == 0,
    decreases p,
{
    if p > 0 {
        lemma_greedy_zero_cap_value(items, p - 1);
        lemma_greedy_weight_rem(items, 0, p - 1);
    }
}

/// With zero capacity the greedy pass takes nothing: no position is
/// selected and the accumulated value is zero.
pub proof fn lemma_greedy_zero_capacity(items: Seq<Item>)
    requires
        positive_weights(items),
    ensures
        forall|p: int| 0 <= p < items.len() ==> !greedy_takes(items, 0, p),
        greedy_value(items, 0, items.len() as int) == 0,
{
    assert forall|p: int| 0 <= p < items.len() implies !greedy_takes(items, 0, p) by {
        lemma_greedy_weight_rem(items, 0, p);
    }
    lemma_greedy_zero_cap_value(items, items.len() as int);
}

/// Greedy value-density heuristic.  Sorts the items into density
/// order, then walks them once, taking every item that still fits.
/// Returns the accumulated value and a selection vector indexed by
/// the items' original `index` fields.  The selection is exactly the
/// greedy one over the sorted order, and always fits the capacity;
/// no optimality is claimed.
pub fn greedy_density(capacity: usize, items: &mut Vec<Item>) -> (r: (usize, Vec<u32>))
    requires
        positive_weights(old(items)@),
        indices_in_range(old(items)@),
        distinct_indices(old(items)@),
        items_value(old(items)@) <= usize::MAX,
    ensures
        final(items)@.len() == old(items)@.len(),
        final(items)@.to_multiset() == old(items)@.to_multiset(),
        sorted_by_density(final(items)@),
        positive_weights(final(items)@),
        indices_in_range(final(items)@),
        distinct_indices(final(items)@),
        items_value(final(items)@) == items_value(old(items)@),
        sorted_by_density(old(items)@) ==> final(items)@ == old(items)@,
        r.1@.len() == old(items)@.len(),
        forall|j: int| 0 <= j < r.1@.len() ==> r.1@[j] == 0 || r.1@[j] == 1,
        forall|p: int|
            0 <= p < final(items)@.len() ==> r.1@[(#[trigger] final(items)@[p]).index as int]
                == if greedy_takes(final(items)@, capacity as int, p) {
                1u32
            } else {
                0u32
            },
        forall|j: int|
            0 <= j < r.1@.len() && r.1@[j] == 1 ==> exists|p: int|
                0 <= p < final(items)@.len() && (#[trigger] final(items)@[p]).index == j
                    && greedy_takes(final(items)@, capacity as int, p),
        r.0 == greedy_value(final(items)@, capacity as int, final(items)@.len() as int),
        greedy_weight(final(items)@, capacity as int, final(items)@.len() as int) <= capacity,
{
    sort_by_value_density(items);
    let ghost s = items@;
    let n = items.len();

    let mut taken: Vec<u32> = Vec::new();
    let mut z: usize = 0;
    while z < n
        invariant
            z <= n,
            taken@.len() == z,
            forall|j: int| 0 <= j < z ==> taken@[j] == 0,
        decreases n - z,
    {
        taken.push(0);
        z = z + 1;
    }

    let mut remaining = capacity;
    let mut value: usize = 0;
    let mut k: usize = 0;
    while k < n
        invariant
            items@ == s,
            n == s.len(),
            positive_weights(s),
            indices_in_range(s),
            distinct_indices(s),
            items_value(s) <= usize::MAX,
            k <= n,
            taken@.len() == n,
            forall|j: int| 0 <= j < n ==> taken@[j] == 0 || taken@[j] == 1,
            remaining == greedy_rem(s, capacity as int, k as int),
            value == greedy_value(s, capacity as int, k as int),
            forall|p: int|
                0 <= p < k ==> taken@[(#[trigger] s[p]).index as int] == if greedy_takes(
                    s,
                    capacity as int,
                    p,
                ) {
                    1u32
                } else {
                    0u32
                },
            forall|j: int|
                0 <= j < n && taken@[j] == 1 ==> exists|p: int|
                    0 <= p < k && (#[trigger] s[p]).index == j && greedy_takes(
                        s,
                        capacity as int,
                        p,
                    ),
        decreases n - k,
    {
        let it = items[k];
        if it.weight <= remaining {
            remaining = remaining - it.weight;
            proof {
                lemma_greedy_value_le_total(s, capacity as int, k + 1);
                lemma_total_value_mono(s, k + 1, n as int);
            }
            value = value + it.value;
            taken.set(it.index, 1);
            proof {
                assert forall|p: int|
                    0 <= p < k + 1 implies taken@[(#[trigger] s[p]).index as int]
                    == if greedy_takes(s, capacity as int, p) {
                    1u32
                } else {
                    0u32
                } by {
                    if p < k {
                        assert(s[p].index != s[k as int].index);
                    }
                }
            }
        } else {
            proof {
                // the item at k was not taken before either: a set
                // flag at its index would name an earlier item with
                // the same index, and indices are distinct
                if taken@[s[k as int].index as int] == 1 {
                    let p = choose|p: int|
                        0 <= p < k && (#[trigger] s[p]).index == s[k as int].index
                            && greedy_takes(s, capacity as int, p);
                    assert(false);
                }
            }
        }
        k = k + 1;
    }
    proof {
        lemma_greedy_weight_rem(s, capacity as int, n as int);
    }
    (value, taken)
}

} // verus!
