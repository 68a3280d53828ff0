use vstd::prelude::*;

use crate::dp::{best, lemma_best_swap_adjacent};
use crate::item::{
    Item, distinct_indices, indices_in_range, items_value, lemma_total_value_update,
    positive_weights,
};

verus! {

/// `a` may stand no later than `b` in density order: a strictly
/// larger exact value-to-weight ratio (compared by cross
/// multiplication), or an equal ratio and at least as large a value.
pub open spec fn density_ge(a: Item, b: Item) -> bool {
    a.value * b.weight > b.value * a.weight || (a.value * b.weight == b.value * a.weight
        && a.value >= b.value)
}

/// The whole list is in density order: denser items (ties broken by
/// larger value) come first.
pub open spec fn sorted_by_density(items: Seq<Item>) -> bool {
    forall|p: int, q: int|
        0 <= p < q < items.len() ==> density_ge(#[trigger] items[p], #[trigger] items[q])
}

/// Chained cross-multiplied ratio comparisons compose, as long as the
/// weights are positive; strictness on either side is kept.
proof fn lemma_cross_trans(av: int, aw: int, bv: int, bw: int, cv: int, cw: int)
    by (nonlinear_arith)
    requires
        aw >= 1,
        bw >= 1,
        cw >= 1,
        av * bw >= bv * aw,
        bv * cw >= cv * bw,
    ensures
        av * cw >= cv * aw,
        av * bw > bv * aw || bv * cw > cv * bw ==> av * cw > cv * aw,
{
}

/// Density order is transitive over positive-weight items.
pub proof fn lemma_density_trans(a: Item, b: Item, c: Item)
    requires
        a.weight >= 1,
        b.weight >= 1,
        c.weight >= 1,
        density_ge(a, b),
        density_ge(b, c),
    ensures
        density_ge(a, c),
{
    lemma_cross_trans(
        a.value as int,
        a.weight as int,
        b.value as int,
        b.weight as int,
        c.value as int,
        c.weight as int,
    );
}

/// Exact comparison of value-to-weight ratios, by cross
/// multiplication in 128-bit arithmetic so that no product can
/// overflow.
pub fn density_before(a: Item, b: Item) -> (r: bool)
    ensures
        r == density_ge(a, b),
{
    proof {
        lemma_mul_fits_u128(a.value as u128, b.weight as u128);
        lemma_mul_fits_u128(b.value as u128, a.weight as u128);
    }
    let ab = (a.value as u128) * (b.weight as u128);
    let ba = (b.value as u128) * (a.weight as u128);
    ab > ba || (ab == ba && a.value >= b.value)
}

/// The product of two values that fit in 64 bits fits in 128 bits.
proof fn lemma_mul_fits_u128(x: u128, y: u128)
    by (nonlinear_arith)
    requires
        x <= 0xffff_ffff_ffff_ffff,
        y <= 0xffff_ffff_ffff_ffff,
    ensures
        x * y <= u128::MAX,
{
}

/// Swapping two positions keeps the multiset of items, the total
/// value, and the per-item properties the solvers rely on.
proof fn lemma_swap_keeps_item_props(s: Seq<Item>, x: int, y: int)
    requires
        0 <= x < y < s.len(),
    ensures
        s.update(x, s[y]).update(y, s[x]).to_multiset() == s.to_multiset(),
        items_value(s.update(x, s[y]).update(y, s[x])) == items_value(s),
        positive_weights(s) ==> positive_weights(s.update(x, s[y]).update(y, s[x])),
        indices_in_range(s) ==> indices_in_range(s.update(x, s[y]).update(y, s[x])),
        distinct_indices(s) ==> distinct_indices(s.update(x, s[y]).update(y, s[x])),
{
    let s1 = s.update(x, s[y]);
    let s2 = s1.update(y, s[x]);
    vstd::seq_lib::to_multiset_update(s, x, s[y]);
    vstd::seq_lib::to_multiset_update(s1, y, s[x]);
    assert(s.contains(s[x]));
    vstd::seq_lib::to_multiset_contains(s, s[x]);
    assert(s2.to_multiset() =~= s.to_multiset());
    lemma_total_value_update(s, x, s[y], s.len() as int);
    lemma_total_value_update(s1, y, s[x], s1.len() as int);
    if distinct_indices(s) {
        assert forall|p: int, q: int| 0 <= p < q < s2.len() implies (#[trigger] s2[p]).index != (
        #[trigger] s2[q]).index by {
            assert(s2[p] == s[if p == x {
                y
            } else if p == y {
                x
            } else {
                p
            }]);
            assert(s2[q] == s[if q == x {
                y
            } else if q == y {
                x
            } else {
                q
            }]);
        }
    }
}

/// Sort the items into density order (denser first, ties broken by
/// larger value): an insertion sort by adjacent swaps, so the result
/// is a permutation of the input that keeps its total value and the
/// well-formedness of its indices.
pub fn sort_by_value_density(items: &mut Vec<Item>)
    requires
        positive_weights(old(items)@),
    ensures
        final(items)@.len() == old(items)@.len(),
        final(items)@.to_multiset() == old(items)@.to_multiset(),
        sorted_by_density(final(items)@),
        positive_weights(final(items)@),
        items_value(final(items)@) == items_value(old(items)@),
        indices_in_range(old(items)@) ==> indices_in_range(final(items)@),
        distinct_indices(old(items)@) ==> distinct_indices(final(items)@),
        sorted_by_density(old(items)@) ==> final(items)@ == old(items)@,
        forall|w: int| #[trigger] best(final(items)@, final(items)@.len() as int, w) == best(
            old(items)@,
            old(items)@.len() as int,
            w,
        ),
{
    let n = items.len();
    let mut i: usize = 1;
    while i < n
        invariant
            n == items@.len(),
            1 <= i,
            n == 0 && i == 1 || i <= n,
            items@.to_multiset() == old(items)@.to_multiset(),
            positive_weights(items@),
            items_value(items@) == items_value(old(items)@),
            indices_in_range(old(items)@) ==> indices_in_range(items@),
            distinct_indices(old(items)@) ==> distinct_indices(items@),
            sorted_by_density(old(items)@) ==> items@ == old(items)@,
            forall|w: int| #[trigger] best(items@, n as int, w) == best(
                old(items)@,
                n as int,
                w,
            ),
            forall|p: int, q: int|
                0 <= p < q < i ==> density_ge(#[trigger] items@[p], #[trigger] items@[q]),
        decreases n - i,
    {
        let mut j: usize = i;
        while j > 0 && !density_before(items[j - 1], items[j])
            invariant
                n == items@.len(),
                j <= i < n,
                items@.to_multiset() == old(items)@.to_multiset(),
                positive_weights(items@),
                items_value(items@) == items_value(old(items)@),
                indices_in_range(old(items)@) ==> indices_in_range(items@),
                distinct_indices(old(items)@) ==> distinct_indices(items@),
                sorted_by_density(old(items)@) ==> items@ == old(items)@,
                forall|w: int| #[trigger] best(items@, n as int, w) == best(
                    old(items)@,
                    n as int,
                    w,
                ),
                forall|p: int, q: int|
                    0 <= p < q <= i && q != j ==> density_ge(
                        #[trigger] items@[p],
                        #[trigger] items@[q],
                    ),
            decreases j,
        {
            let a = items[j - 1];
            let b = items[j];
            let ghost pre = items@;
            proof {
                // a list already in order never reaches a swap
                if sorted_by_density(old(items)@) {
                    assert(density_ge(items@[j as int - 1], items@[j as int]));
                }
                lemma_swap_keeps_item_props(pre, j as int - 1, j as int);
                lemma_best_swap_adjacent(pre, j as int - 1, n as int);
            }
            items.set(j - 1, b);
            items.set(j, a);
            proof {
                let x = j as int - 1;
                assert(items@ == pre.update(x, pre[x + 1]).update(x + 1, pre[x]));
                assert forall|w: int| #[trigger] best(items@, n as int, w) == best(
                    old(items)@,
                    n as int,
                    w,
                ) by {
                    assert(best(pre.update(x, pre[x + 1]).update(x + 1, pre[x]), n as int, w)
                        == best(pre, n as int, w));
                }
            }
            j = j - 1;
        }
        proof {
            assert forall|p: int, q: int|
                0 <= p < q <= i implies density_ge(#[trigger] items@[p], #[trigger] items@[q]) by {
                if q == j && p < j - 1 {
                    lemma_density_trans(items@[p], items@[j - 1], items@[q]);
                }
            }
        }
        i = i + 1;
    }
}

} // verus!
