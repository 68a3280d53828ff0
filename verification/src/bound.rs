use vstd::prelude::*;

use crate::density::{density_ge, sorted_by_density};
use crate::dp::{best, lemma_selection_cannot_beat_best, max_int};
use crate::item::{
    Item, items_value, lemma_sel_sums_update, lemma_total_value_mono, positive_weights, sel_value,
    sel_weight, total_value,
};

verus! {

/// Position at which a greedy full packing of the items from `i` on,
/// with capacity `c`, first meets an item that does not fit (the
/// list's length if every remaining item fits).
pub open spec fn pack_stop(items: Seq<Item>, i: int, c: int) -> int
    decreases items.len() - i,
{
    if i >= items.len() {
        items.len() as int
    } else if items[i].weight <= c {
        pack_stop(items, i + 1, c - items[i].weight)
    } else {
        i
    }
}

/// Value accumulated by that packing.
pub open spec fn pack_value(items: Seq<Item>, i: int, c: int) -> int
    decreases items.len() - i,
{
    if i >= items.len() || items[i].weight > c {
        0
    } else {
        items[i].value + pack_value(items, i + 1, c - items[i].weight)
    }
}

/// Capacity left over by that packing.
pub open spec fn pack_rem(items: Seq<Item>, i: int, c: int) -> int
    decreases items.len() - i,
{
    if i >= items.len() || items[i].weight > c {
        c
    } else {
        pack_rem(items, i + 1, c - items[i].weight)
    }
}

/// Whether the optimistic bound carries a fractional part: the
/// packing stopped at an item while some capacity remained.
pub open spec fn bound_has_frac(items: Seq<Item>, i: int, c: int) -> bool {
    pack_stop(items, i, c) < items.len() && pack_rem(items, i, c) > 0
}

/// Numerator of the optimistic bound from state (`base` accumulated
/// value, next position `i`, capacity `c`), over the denominator
/// `bound_den`: the value of the full packing plus, fractionally, the
/// prorated value of the first item that did not fit.
pub open spec fn bound_num(items: Seq<Item>, base: int, i: int, c: int) -> int {
    if bound_has_frac(items, i, c) {
        (base + pack_value(items, i, c)) * items[pack_stop(items, i, c)].weight + items[pack_stop(
            items,
            i,
            c,
        )].value * pack_rem(items, i, c)
    } else {
        base + pack_value(items, i, c)
    }
}

/// Denominator of the optimistic bound: the weight of the item taken
/// fractionally, or 1 when no fractional part exists.
pub open spec fn bound_den(items: Seq<Item>, i: int, c: int) -> int {
    if bound_has_frac(items, i, c) {
        items[pack_stop(items, i, c)].weight as int
    } else {
        1
    }
}

/// Best total value achievable with a 0/1 selection of the items at
/// positions `[i, len)` within capacity `c`.
pub open spec fn best_from(items: Seq<Item>, i: int, c: int) -> int
    decreases items.len() - i,
{
    if i >= items.len() || c <= 0 {
        0
    } else if items[i].weight <= c {
        max_int(
            best_from(items, i + 1, c),
            items[i].value + best_from(items, i + 1, c - items[i].weight),
        )
    } else {
        best_from(items, i + 1, c)
    }
}

/// Total value of the items at positions `[a, b)`.
pub open spec fn range_value(items: Seq<Item>, a: int, b: int) -> int
    decreases b - a,
{
    if a >= b {
        0
    } else {
        items[a].value + range_value(items, a + 1, b)
    }
}

/// Total weight of the items at positions `[a, b)`.
pub open spec fn range_weight(items: Seq<Item>, a: int, b: int) -> int
    decreases b - a,
{
    if a >= b {
        0
    } else {
        items[a].weight + range_weight(items, a + 1, b)
    }
}

/// Value of the selected items at positions `[a, b)`.
pub open spec fn psel_value(items: Seq<Item>, sel: Seq<u32>, a: int, b: int) -> int
    decreases b - a,
{
    if a >= b {
        0
    } else {
        (if sel[a] == 1 {
            items[a].value as int
        } else {
            0
        }) + psel_value(items, sel, a + 1, b)
    }
}

/// Weight of the selected items at positions `[a, b)`.
pub open spec fn psel_weight(items: Seq<Item>, sel: Seq<u32>, a: int, b: int) -> int
    decreases b - a,
{
    if a >= b {
        0
    } else {
        (if sel[a] == 1 {
            items[a].weight as int
        } else {
            0
        }) + psel_weight(items, sel, a + 1, b)
    }
}

proof fn lemma_mul_dist(a: int, b: int, c: int)
    by (nonlinear_arith)
    ensures
        (a + b) * c == a * c + b * c,
        (a - b) * c == a * c - b * c,
{
}

proof fn lemma_mul_ineq(a: int, b: int, m: int)
    by (nonlinear_arith)
    requires
        a <= b,
        0 <= m,
    ensures
        m * a <= m * b,
        a * m <= b * m,
{
}

proof fn lemma_mul_cancel(a: int, b: int, w: int)
    by (nonlinear_arith)
    requires
        a * w <= b * w,
        1 <= w,
    ensures
        a <= b,
{
}

/// The greedy full packing takes exactly the items at positions
/// `[i, pack_stop)`, whole; its value and leftover capacity are the
/// range sums over that interval.
proof fn lemma_pack_decomposition(items: Seq<Item>, i: int, c: int)
    requires
        0 <= i,
    ensures
        i <= pack_stop(items, i, c) || pack_stop(items, i, c) == items.len(),
        pack_stop(items, i, c) <= items.len(),
        pack_value(items, i, c) == range_value(items, i, pack_stop(items, i, c)),
        pack_rem(items, i, c) == c - range_weight(items, i, pack_stop(items, i, c)),
        pack_stop(items, i, c) < items.len() ==> items[pack_stop(items, i, c)].weight > pack_rem(
            items,
            i,
            c,
        ),
    decreases items.len() - i,
{
    if i >= items.len() || items[i].weight > c {
    } else {
        lemma_pack_decomposition(items, i + 1, c - items[i].weight);
    }
}

proof fn lemma_psel_bounds(items: Seq<Item>, sel: Seq<u32>, a: int, b: int)
    ensures
        0 <= psel_value(items, sel, a, b) <= range_value(items, a, b),
        0 <= psel_weight(items, sel, a, b) <= range_weight(items, a, b),
    decreases b - a,
{
    if a < b {
        lemma_psel_bounds(items, sel, a + 1, b);
    }
}

proof fn lemma_psel_split(items: Seq<Item>, sel: Seq<u32>, a: int, m: int, b: int)
    requires
        a <= m <= b,
    ensures
        psel_value(items, sel, a, b) == psel_value(items, sel, a, m) + psel_value(items, sel, m, b),
        psel_weight(items, sel, a, b) == psel_weight(items, sel, a, m) + psel_weight(
            items,
            sel,
            m,
            b,
        ),
    decreases m - a,
{
    if a < m {
        lemma_psel_split(items, sel, a + 1, m, b);
    }
}

/// In a density-sorted list, every selection out of the items from
/// position `t` on is worth at most the density of item `t` times its
/// own weight (stated cross-multiplied).
proof fn lemma_suffix_dominated(items: Seq<Item>, sel: Seq<u32>, t: int, j: int)
    requires
        sorted_by_density(items),
        positive_weights(items),
        0 <= t <= j <= items.len(),
        t < items.len(),
    ensures
        psel_value(items, sel, j, items.len() as int) * items[t].weight <= items[t].value
            * psel_weight(items, sel, j, items.len() as int),
    decreases items.len() - j,
{
    let len = items.len() as int;
    let vt = items[t].value as int;
    let wt = items[t].weight as int;
    if j < len {
        lemma_suffix_dominated(items, sel, t, j + 1);
        let v1 = psel_value(items, sel, j + 1, len);
        let w1 = psel_weight(items, sel, j + 1, len);
        if sel[j] == 1 {
            if t < j {
                assert(density_ge(items[t], items[j]));
            }
            assert(items[j].value * wt <= vt * items[j].weight);
            lemma_mul_dist(items[j].value as int, v1, wt);
            assert(vt * (items[j].weight + w1) == vt * items[j].weight + vt * w1)
                by (nonlinear_arith);
        } else {
            lemma_mul_dist(0, v1, wt);
            assert(vt * (0 + w1) == vt * w1) by (nonlinear_arith);
        }
    }
}

/// Replacing a selection on `[a, t)` by taking everything there can
/// only improve the density-weighted account against item `t`.
proof fn lemma_prefix_exchange(items: Seq<Item>, sel: Seq<u32>, a: int, t: int)
    requires
        sorted_by_density(items),
        positive_weights(items),
        0 <= a <= t < items.len(),
    ensures
        psel_value(items, sel, a, t) * items[t].weight - items[t].value * psel_weight(
            items,
            sel,
            a,
            t,
        ) <= range_value(items, a, t) * items[t].weight - items[t].value * range_weight(
            items,
            a,
            t,
        ),
    decreases t - a,
{
    let vt = items[t].value as int;
    let wt = items[t].weight as int;
    if a < t {
        lemma_prefix_exchange(items, sel, a + 1, t);
        assert(density_ge(items[a], items[t]));
        assert(items[a].value * wt >= vt * items[a].weight);
        let pv = psel_value(items, sel, a + 1, t);
        let pw = psel_weight(items, sel, a + 1, t);
        let rv = range_value(items, a + 1, t);
        let rw = range_weight(items, a + 1, t);
        lemma_mul_dist(items[a].value as int, rv, wt);
        assert(vt * (items[a].weight + rw) == vt * items[a].weight + vt * rw) by (nonlinear_arith);
        if sel[a] == 1 {
            lemma_mul_dist(items[a].value as int, pv, wt);
            assert(vt * (items[a].weight + pw) == vt * items[a].weight + vt * pw)
                by (nonlinear_arith);
        } else {
            lemma_mul_dist(0, pv, wt);
            assert(vt * (0 + pw) == vt * pw) by (nonlinear_arith);
        }
    }
}

/// Soundness of the optimistic bound: on a density-sorted list, no
/// 0/1 selection of the items from position `i` on that fits in
/// capacity `c` is worth more than the bound (stated over the
/// bound's numerator and denominator).
pub proof fn lemma_bound_sound(items: Seq<Item>, sel: Seq<u32>, i: int, c: int)
    requires
        sorted_by_density(items),
        positive_weights(items),
        0 <= i <= items.len(),
        0 <= c,
        psel_weight(items, sel, i, items.len() as int) <= c,
    ensures
        psel_value(items, sel, i, items.len() as int) * bound_den(items, i, c) <= bound_num(
            items,
            0,
            i,
            c,
        ),
{
    let len = items.len() as int;
    lemma_pack_decomposition(items, i, c);
    let t = pack_stop(items, i, c);
    let pv = pack_value(items, i, c);
    let sv = psel_value(items, sel, i, len);
    let sw = psel_weight(items, sel, i, len);
    if t == len {
        // everything from i on was packed whole; a selection can at
        // most match the full range value
        lemma_psel_bounds(items, sel, i, len);
        assert(bound_den(items, i, c) == 1);
        assert(sv * 1 == sv) by (nonlinear_arith);
    } else {
        let vt = items[t].value as int;
        let wt = items[t].weight as int;
        let r = pack_rem(items, i, c);
        lemma_psel_split(items, sel, i, t, len);
        lemma_psel_bounds(items, sel, i, t);
        let av = psel_value(items, sel, i, t);
        let aw = psel_weight(items, sel, i, t);
        let bv = psel_value(items, sel, t, len);
        let bw = psel_weight(items, sel, t, len);
        lemma_suffix_dominated(items, sel, t, t);
        // bv * wt <= vt * bw, and bw <= c - aw
        lemma_mul_ineq(bw, c - aw, vt);
        lemma_prefix_exchange(items, sel, i, t);
        lemma_mul_dist(av, bv, wt);
        // sv * wt == av*wt + bv*wt <= av*wt + vt*(c - aw)
        //         == (av*wt - vt*aw) + vt*c
        //         <= (range_v*wt - vt*range_w) + vt*c == pv*wt + vt*r
        assert(vt * (c - aw) == vt * c - vt * aw) by (nonlinear_arith);
        assert(vt * (c - range_weight(items, i, t)) == vt * c - vt * range_weight(items, i, t))
            by (nonlinear_arith);
        assert(range_value(items, i, t) * wt + vt * r == pv * wt + vt * r);
        assert(sv * wt <= pv * wt + vt * r);
        if r > 0 {
            assert(bound_has_frac(items, i, c));
            lemma_mul_dist(0, pv, wt);
        } else {
            assert(!bound_has_frac(items, i, c));
            assert(vt * r <= 0) by (nonlinear_arith)
                requires
                    vt >= 0,
                    r <= 0,
            ;
            lemma_mul_cancel(sv, pv, wt);
            assert(sv * 1 == sv) by (nonlinear_arith);
        }
    }
}

/// Shifting the base value shifts the bound's numerator by the base
/// times the denominator.
pub proof fn lemma_bound_num_base(items: Seq<Item>, base: int, i: int, c: int)
    ensures
        bound_num(items, base, i, c) == bound_num(items, 0, i, c) + base * bound_den(items, i, c),
{
    if bound_has_frac(items, i, c) {
        let wt = items[pack_stop(items, i, c)].weight as int;
        lemma_mul_dist(base, pack_value(items, i, c), wt);
        assert(base * 1 == base) by (nonlinear_arith);
    } else {
        assert(base * 1 == base) by (nonlinear_arith);
    }
}

proof fn lemma_mul_density_transfer(numx: int, vj: int, wj: int, vj1: int, wj1: int, cd: int)
    by (nonlinear_arith)
    requires
        1 <= wj1,
        0 <= wj,
        0 <= cd,
        0 <= vj1,
        numx * wj1 <= vj1 * cd,
        vj * wj1 >= vj1 * wj,
    ensures
        numx * wj <= vj * cd,
{
}

proof fn lemma_mul_density_transfer_add(
    a: int,
    b: int,
    t: int,
    vj: int,
    vj1: int,
    wj: int,
    wj1: int,
)
    by (nonlinear_arith)
    requires
        1 <= wj1,
        0 <= wj,
        0 <= t,
        a * wj1 <= b * wj1 + vj1 * t,
        vj * wj1 >= vj1 * wj,
    ensures
        a * wj <= b * wj + vj * t,
{
}

proof fn lemma_cap_fold(n1: int, n2: int, d1: int, d2: int, vj: int, wj: int, dd: int)
    by (nonlinear_arith)
    requires
        n1 * d2 * wj <= n2 * d1 * wj + vj * (dd * (d1 * d2)),
    ensures
        (n1 + vj * d1) * d2 * wj <= (n2 + vj * d2) * d1 * wj + vj * dd * (d1 * d2),
{
}

proof fn lemma_bound_nonneg(items: Seq<Item>, i: int, c: int)
    requires
        positive_weights(items),
        0 <= i <= items.len(),
    ensures
        0 <= bound_num(items, 0, i, c),
        1 <= bound_den(items, i, c),
    decreases items.len() - i,
{
    lemma_pack_value_in_total(items, i, c);
    crate::item::lemma_total_value_nonneg(items, i);
    if bound_has_frac(items, i, c) {
        lemma_pack_decomposition(items, i, c);
        let t = pack_stop(items, i, c);
        assert((0 + pack_value(items, i, c)) * items[t].weight >= 0 && items[t].value * pack_rem(
            items,
            i,
            c,
        ) >= 0) by (nonlinear_arith)
            requires
                pack_value(items, i, c) >= 0,
                items[t].weight >= 1,
                items[t].value >= 0,
                pack_rem(items, i, c) > 0,
        ;
    }
}

/// Taking the first remaining item whole folds into the bound: the
/// bound from `i` is the item's value plus the bound from `i + 1`
/// with the item's weight paid.
proof fn lemma_bound_step(items: Seq<Item>, i: int, c: int)
    requires
        0 <= i < items.len(),
        items[i].weight <= c,
    ensures
        bound_den(items, i, c) == bound_den(items, i + 1, c - items[i].weight),
        bound_num(items, 0, i, c) == bound_num(items, 0, i + 1, c - items[i].weight)
            + items[i].value * bound_den(items, i + 1, c - items[i].weight),
{
    let c2 = c - items[i].weight;
    assert(pack_stop(items, i, c) == pack_stop(items, i + 1, c2));
    assert(pack_rem(items, i, c) == pack_rem(items, i + 1, c2));
    assert(pack_value(items, i, c) == items[i].value + pack_value(items, i + 1, c2));
    if bound_has_frac(items, i, c) {
        let t = pack_stop(items, i, c);
        lemma_mul_dist(items[i].value as int, pack_value(items, i + 1, c2), items[t].weight as int);
    } else {
        assert(items[i].value * 1 == items[i].value) by (nonlinear_arith);
    }
}

/// The bound from a position never beats that position's own density
/// spread over the whole capacity: in a density-sorted list the first
/// remaining item is the densest one left.
proof fn lemma_bound_le_density(items: Seq<Item>, j: int, c: int)
    requires
        sorted_by_density(items),
        positive_weights(items),
        0 <= j < items.len(),
        0 <= c,
    ensures
        bound_num(items, 0, j, c) * items[j].weight <= items[j].value * (c * bound_den(
            items,
            j,
            c,
        )),
    decreases items.len() - j,
{
    let len = items.len() as int;
    let vj = items[j].value as int;
    let wj = items[j].weight as int;
    if wj > c {
        if c > 0 {
            assert(pack_stop(items, j, c) == j && pack_rem(items, j, c) == c && pack_value(
                items,
                j,
                c,
            ) == 0);
            assert(bound_num(items, 0, j, c) == (0 + 0) * wj + vj * c);
            assert(((0 + 0) * wj + vj * c) * wj <= vj * (c * wj)) by (nonlinear_arith);
        } else {
            assert(!bound_has_frac(items, j, c));
            assert(bound_num(items, 0, j, c) == 0);
            assert(0 * wj <= vj * (c * 1)) by (nonlinear_arith)
                requires
                    c == 0,
            ;
        }
    } else {
        lemma_bound_step(items, j, c);
        let c2 = c - wj;
        let nump = bound_num(items, 0, j + 1, c2);
        let denp = bound_den(items, j + 1, c2);
        lemma_bound_nonneg(items, j + 1, c2);
        if j + 1 == len {
            assert(pack_value(items, j + 1, c2) == 0);
            assert(!bound_has_frac(items, j + 1, c2));
            assert(nump == 0 && denp == 1);
            assert((0 + vj * 1) * wj <= vj * (c * 1)) by (nonlinear_arith)
                requires
                    wj <= c,
                    0 <= vj,
            ;
        } else {
            lemma_bound_le_density(items, j + 1, c2);
            assert(density_ge(items[j], items[j + 1]));
            let vj1 = items[j + 1].value as int;
            let wj1 = items[j + 1].weight as int;
            lemma_mul_density_transfer(nump, vj, wj, vj1, wj1, c2 * denp);
            assert((nump + vj * denp) * wj <= vj * ((c2 + wj) * denp)) by (nonlinear_arith)
                requires
                    nump * wj <= vj * (c2 * denp),
                    0 <= vj,
                    0 <= denp,
                    0 <= wj,
            ;
        }
    }
}

/// Shrinking the capacity lowers the bound by at most the first
/// remaining item's density times the capacity lost.
proof fn lemma_bound_cap_sensitivity(items: Seq<Item>, j: int, c1: int, c2: int)
    requires
        sorted_by_density(items),
        positive_weights(items),
        0 <= j < items.len(),
        0 <= c2 <= c1,
    ensures
        bound_num(items, 0, j, c1) * bound_den(items, j, c2) * items[j].weight <= bound_num(
            items,
            0,
            j,
            c2,
        ) * bound_den(items, j, c1) * items[j].weight + items[j].value * (c1 - c2) * (bound_den(
            items,
            j,
            c1,
        ) * bound_den(items, j, c2)),
    decreases items.len() - j,
{
    let len = items.len() as int;
    let vj = items[j].value as int;
    let wj = items[j].weight as int;
    let dd = c1 - c2;
    if wj <= c2 {
        lemma_bound_step(items, j, c1);
        lemma_bound_step(items, j, c2);
        let n1 = bound_num(items, 0, j + 1, c1 - wj);
        let d1 = bound_den(items, j + 1, c1 - wj);
        let n2 = bound_num(items, 0, j + 1, c2 - wj);
        let d2 = bound_den(items, j + 1, c2 - wj);
        lemma_bound_nonneg(items, j + 1, c1 - wj);
        lemma_bound_nonneg(items, j + 1, c2 - wj);
        if j + 1 == len {
            assert(pack_value(items, j + 1, c1 - wj) == 0 && pack_value(items, j + 1, c2 - wj)
                == 0);
            assert(!bound_has_frac(items, j + 1, c1 - wj) && !bound_has_frac(items, j + 1, c2 - wj));
            assert(n1 == 0 && d1 == 1 && n2 == 0 && d2 == 1);
            assert((0 + vj * 1) * 1 * wj <= (0 + vj * 1) * 1 * wj + vj * dd * (1 * 1))
                by (nonlinear_arith)
                requires
                    0 <= vj,
                    0 <= dd,
            ;
        } else {
            lemma_bound_cap_sensitivity(items, j + 1, c1 - wj, c2 - wj);
            assert(density_ge(items[j], items[j + 1]));
            let vj1 = items[j + 1].value as int;
            let wj1 = items[j + 1].weight as int;
            assert(n1 * d2 * wj1 <= n2 * d1 * wj1 + vj1 * (dd * (d1 * d2))) by (nonlinear_arith)
                requires
                    n1 * d2 * wj1 <= n2 * d1 * wj1 + vj1 * dd * (d1 * d2),
            ;
            lemma_mul_density_transfer_add(n1 * d2, n2 * d1, dd * (d1 * d2), vj, vj1, wj, wj1);
            lemma_cap_fold(n1, n2, d1, d2, vj, wj, dd);
        }
    } else if wj <= c1 {
        lemma_bound_le_density(items, j, c1);
        let n1 = bound_num(items, 0, j, c1);
        let d1 = bound_den(items, j, c1);
        if c2 > 0 {
            assert(pack_stop(items, j, c2) == j && pack_rem(items, j, c2) == c2 && pack_value(
                items,
                j,
                c2,
            ) == 0);
            assert(bound_num(items, 0, j, c2) == (0 + 0) * wj + vj * c2);
            assert(bound_den(items, j, c2) == wj);
            assert(n1 * wj * wj <= ((0 + 0) * wj + vj * c2) * d1 * wj + vj * dd * (d1 * wj))
                by (nonlinear_arith)
                requires
                    n1 * wj <= vj * (c1 * d1),
                    c1 == c2 + dd,
                    0 <= wj,
                    0 <= vj,
                    0 <= d1,
            ;
        } else {
            assert(!bound_has_frac(items, j, c2));
            assert(pack_value(items, j, c2) == 0);
            assert(bound_num(items, 0, j, c2) == 0 && bound_den(items, j, c2) == 1);
            assert(n1 * 1 * wj <= 0 * d1 * wj + vj * dd * (d1 * 1)) by (nonlinear_arith)
                requires
                    n1 * wj <= vj * (c1 * d1),
                    c2 == 0,
                    c1 == dd,
                    0 <= d1,
                    0 <= vj,
            ;
        }
    } else {
        // the first item fits in neither capacity
        if c2 > 0 {
            assert(bound_num(items, 0, j, c1) == (0 + 0) * wj + vj * c1 && bound_den(items, j, c1)
                == wj);
            assert(bound_num(items, 0, j, c2) == (0 + 0) * wj + vj * c2 && bound_den(items, j, c2)
                == wj);
            assert(((0 + 0) * wj + vj * c1) * wj * wj <= ((0 + 0) * wj + vj * c2) * wj * wj + vj
                * dd * (wj * wj)) by (nonlinear_arith)
                requires
                    c1 == c2 + dd,
                    0 <= vj,
                    0 <= wj,
            ;
        } else if c1 > 0 {
            assert(bound_num(items, 0, j, c1) == (0 + 0) * wj + vj * c1 && bound_den(items, j, c1)
                == wj);
            assert(bound_num(items, 0, j, c2) == 0 && bound_den(items, j, c2) == 1);
            assert(((0 + 0) * wj + vj * c1) * 1 * wj <= 0 * wj * wj + vj * dd * (wj * 1))
                by (nonlinear_arith)
                requires
                    c1 == dd,
                    0 <= vj,
                    0 <= wj,
            ;
        } else {
            assert(bound_num(items, 0, j, c1) == 0 && bound_num(items, 0, j, c2) == 0);
            assert(0 * 1 * wj <= 0 * 1 * wj + vj * 0 * (1 * 1)) by (nonlinear_arith);
        }
    }
}

/// The optimistic bound never grows as the starting position moves
/// forward: excluding one more item can only lower or hold what the
/// relaxation promises (stated cross-multiplied over the two bounds'
/// denominators).
pub proof fn lemma_bound_mono_index(items: Seq<Item>, i: int, c: int)
    requires
        sorted_by_density(items),
        positive_weights(items),
        0 <= i < items.len(),
        0 <= c,
    ensures
        bound_num(items, 0, i, c) * bound_den(items, i + 1, c) >= bound_num(items, 0, i + 1, c)
            * bound_den(items, i, c),
{
    let len = items.len() as int;
    let vi = items[i].value as int;
    let wi = items[i].weight as int;
    lemma_bound_nonneg(items, i, c);
    lemma_bound_nonneg(items, i + 1, c);
    if i + 1 == len {
        assert(pack_value(items, i + 1, c) == 0);
        assert(!bound_has_frac(items, i + 1, c));
        assert(bound_num(items, 0, i + 1, c) == 0 && bound_den(items, i + 1, c) == 1);
        assert(bound_num(items, 0, i, c) * 1 >= 0 * bound_den(items, i, c)) by (nonlinear_arith)
            requires
                bound_num(items, 0, i, c) >= 0,
        ;
    } else {
        let vi1 = items[i + 1].value as int;
        let wi1 = items[i + 1].weight as int;
        assert(density_ge(items[i], items[i + 1]));
        if wi <= c {
            lemma_bound_step(items, i, c);
            let np = bound_num(items, 0, i + 1, c - wi);
            let dp = bound_den(items, i + 1, c - wi);
            let nf = bound_num(items, 0, i + 1, c);
            let df = bound_den(items, i + 1, c);
            lemma_bound_nonneg(items, i + 1, c - wi);
            lemma_bound_cap_sensitivity(items, i + 1, c, c - wi);
            assert(nf * dp * wi1 <= np * df * wi1 + vi1 * wi * (df * dp));
            assert((np + vi * dp) * df >= nf * dp) by (nonlinear_arith)
                requires
                    nf * dp * wi1 <= np * df * wi1 + vi1 * wi * (df * dp),
                    vi1 * wi <= vi * wi1,
                    1 <= wi1,
                    1 <= df,
                    1 <= dp,
                    0 <= vi,
            ;
        } else {
            if c == 0 {
                assert(pack_value(items, i, c) == 0 && pack_value(items, i + 1, c) == 0);
                assert(!bound_has_frac(items, i, c) && !bound_has_frac(items, i + 1, c));
                assert(0 * 1 >= 0 * 1) by (nonlinear_arith);
            } else {
                assert(pack_stop(items, i, c) == i && pack_rem(items, i, c) == c && pack_value(
                    items,
                    i,
                    c,
                ) == 0);
                assert(bound_num(items, 0, i, c) == (0 + 0) * wi + vi * c && bound_den(items, i, c)
                    == wi);
                lemma_bound_le_density(items, i + 1, c);
                let nf = bound_num(items, 0, i + 1, c);
                let df = bound_den(items, i + 1, c);
                lemma_mul_density_transfer(nf, vi, wi, vi1, wi1, c * df);
                assert(((0 + 0) * wi + vi * c) * df >= nf * wi) by (nonlinear_arith)
                    requires
                        nf * wi <= vi * (c * df),
                ;
            }
        }
    }
}

proof fn lemma_psel_update_outside(items: Seq<Item>, sel: Seq<u32>, j: int, f: u32, a: int, b: int)
    requires
        0 <= j < sel.len(),
        0 <= a,
        b <= sel.len(),
        j < a || j >= b,
    ensures
        psel_value(items, sel.update(j, f), a, b) == psel_value(items, sel, a, b),
        psel_weight(items, sel.update(j, f), a, b) == psel_weight(items, sel, a, b),
    decreases b - a,
{
    if a < b {
        lemma_psel_update_outside(items, sel, j, f, a + 1, b);
        assert(sel.update(j, f)[a] == sel[a]);
    }
}

/// A selection with positive-weight items and no selected weight
/// selects no value either.
proof fn lemma_psel_no_weight(items: Seq<Item>, sel: Seq<u32>, a: int, b: int)
    requires
        positive_weights(items),
        0 <= a,
        b <= items.len(),
        psel_weight(items, sel, a, b) <= 0,
    ensures
        psel_value(items, sel, a, b) == 0,
    decreases b - a,
{
    if a < b {
        lemma_psel_bounds(items, sel, a + 1, b);
        lemma_psel_no_weight(items, sel, a + 1, b);
    }
}

/// No selection over the suffix beats `best_from`.
pub proof fn lemma_selection_cannot_beat_best_from(items: Seq<Item>, sel: Seq<u32>, i: int, c: int)
    requires
        positive_weights(items),
        0 <= i <= items.len(),
        0 <= c,
        psel_weight(items, sel, i, items.len() as int) <= c,
    ensures
        psel_value(items, sel, i, items.len() as int) <= best_from(items, i, c),
    decreases items.len() - i,
{
    let len = items.len() as int;
    if i < len {
        lemma_psel_bounds(items, sel, i + 1, len);
        if sel[i] == 1 {
            lemma_selection_cannot_beat_best_from(items, sel, i + 1, c - items[i].weight);
        } else {
            if c == 0 {
                lemma_psel_no_weight(items, sel, i, len);
                lemma_psel_bounds(items, sel, i, len);
            } else {
                lemma_selection_cannot_beat_best_from(items, sel, i + 1, c);
            }
        }
    }
}

/// Some selection over the suffix achieves `best_from`.
pub proof fn lemma_best_from_achievable(items: Seq<Item>, i: int, c: int)
    requires
        0 <= i <= items.len(),
        0 <= c,
    ensures
        exists|sel: Seq<u32>|
            #![all_triggers]
            sel.len() == items.len() && psel_weight(items, sel, i, items.len() as int) <= c
                && psel_value(items, sel, i, items.len() as int) == best_from(items, i, c),
    decreases items.len() - i,
{
    let len = items.len() as int;
    if i >= len || c <= 0 {
        let zero = Seq::<u32>::new(items.len(), |x: int| 0u32);
        lemma_psel_all_zero(items, zero, i, len);
        assert(zero.len() == items.len() && psel_weight(items, zero, i, len) <= c && psel_value(
            items,
            zero,
            i,
            len,
        ) == best_from(items, i, c));
    } else {
        lemma_best_from_achievable(items, i + 1, c);
        let s1 = choose|sel: Seq<u32>|
            #![all_triggers]
            sel.len() == items.len() && psel_weight(items, sel, i + 1, len) <= c && psel_value(
                items,
                sel,
                i + 1,
                len,
            ) == best_from(items, i + 1, c);
        let s1z = s1.update(i, 0u32);
        lemma_psel_update_outside(items, s1, i, 0u32, i + 1, len);
        assert(psel_value(items, s1z, i, len) == best_from(items, i + 1, c));
        assert(psel_weight(items, s1z, i, len) == psel_weight(items, s1, i + 1, len));
        if items[i].weight <= c {
            lemma_best_from_achievable(items, i + 1, c - items[i].weight);
            let s2 = choose|sel: Seq<u32>|
                #![all_triggers]
                sel.len() == items.len() && psel_weight(items, sel, i + 1, len) <= c
                    - items[i].weight && psel_value(items, sel, i + 1, len) == best_from(
                    items,
                    i + 1,
                    c - items[i].weight,
                );
            let s2o = s2.update(i, 1u32);
            lemma_psel_update_outside(items, s2, i, 1u32, i + 1, len);
            assert(psel_value(items, s2o, i, len) == items[i].value + best_from(
                items,
                i + 1,
                c - items[i].weight,
            ));
            assert(psel_weight(items, s2o, i, len) <= c);
            if items[i].value + best_from(items, i + 1, c - items[i].weight) >= best_from(
                items,
                i + 1,
                c,
            ) {
                assert(s2o.len() == items.len() && psel_weight(items, s2o, i, len) <= c
                    && psel_value(items, s2o, i, len) == best_from(items, i, c));
            } else {
                assert(s1z.len() == items.len() && psel_weight(items, s1z, i, len) <= c
                    && psel_value(items, s1z, i, len) == best_from(items, i, c));
            }
        } else {
            assert(s1z.len() == items.len() && psel_weight(items, s1z, i, len) <= c && psel_value(
                items,
                s1z,
                i,
                len,
            ) == best_from(items, i, c));
        }
    }
}

proof fn lemma_psel_all_zero(items: Seq<Item>, sel: Seq<u32>, a: int, b: int)
    requires
        forall|j: int| a <= j < b ==> sel[j] != 1,
    ensures
        psel_value(items, sel, a, b) == 0,
        psel_weight(items, sel, a, b) == 0,
    decreases b - a,
{
    if a < b {
        lemma_psel_all_zero(items, sel, a + 1, b);
    }
}

/// The achievable optimum from a node's state never exceeds the
/// node's optimistic bound: soundness of the pruning rule.
pub proof fn lemma_best_from_le_bound(items: Seq<Item>, base: int, i: int, c: int)
    requires
        sorted_by_density(items),
        positive_weights(items),
        0 <= i <= items.len(),
        0 <= c,
    ensures
        (base + best_from(items, i, c)) * bound_den(items, i, c) <= bound_num(items, base, i, c),
{
    lemma_best_from_achievable(items, i, c);
    let sel = choose|sel: Seq<u32>|
        #![all_triggers]
        sel.len() == items.len() && psel_weight(items, sel, i, items.len() as int) <= c
            && psel_value(items, sel, i, items.len() as int) == best_from(items, i, c);
    lemma_bound_sound(items, sel, i, c);
    lemma_bound_num_base(items, base, i, c);
    lemma_mul_dist(base, best_from(items, i, c), bound_den(items, i, c));
}

proof fn lemma_psel_snoc(items: Seq<Item>, sel: Seq<u32>, a: int, b: int)
    requires
        a < b,
    ensures
        psel_value(items, sel, a, b) == psel_value(items, sel, a, b - 1) + if sel[b - 1] == 1 {
            items[b - 1].value as int
        } else {
            0
        },
        psel_weight(items, sel, a, b) == psel_weight(items, sel, a, b - 1) + if sel[b - 1] == 1 {
            items[b - 1].weight as int
        } else {
            0
        },
    decreases b - a,
{
    if a < b - 1 {
        lemma_psel_snoc(items, sel, a + 1, b);
    } else {
        assert(psel_value(items, sel, a + 1, b) == 0);
        assert(psel_weight(items, sel, a + 1, b) == 0);
        assert(psel_value(items, sel, a, b - 1) == 0);
        assert(psel_weight(items, sel, a, b - 1) == 0);
    }
}

/// The prefix-indexed selection sums agree with the range-indexed
/// ones.
pub proof fn lemma_sel_eq_psel(items: Seq<Item>, sel: Seq<u32>, i: int)
    requires
        0 <= i,
    ensures
        sel_value(items, sel, i) == psel_value(items, sel, 0, i),
        sel_weight(items, sel, i) == psel_weight(items, sel, 0, i),
    decreases i,
{
    if i > 0 {
        lemma_sel_eq_psel(items, sel, i - 1);
        lemma_psel_snoc(items, sel, 0, i);
    }
}

/// Some prefix selection achieves `best`.
pub proof fn lemma_best_achievable(items: Seq<Item>, i: int, w: int)
    requires
        0 <= i <= items.len(),
        0 <= w,
    ensures
        exists|sel: Seq<u32>|
            #![all_triggers]
            sel.len() == items.len() && sel_weight(items, sel, i) <= w && sel_value(items, sel, i)
                == best(items, i, w),
    decreases i,
{
    if i <= 0 || w <= 0 {
        let zero = Seq::<u32>::new(items.len(), |x: int| 0u32);
        crate::item::lemma_sel_sums_all_zero(items, zero, i);
        assert(zero.len() == items.len() && sel_weight(items, zero, i) <= w && sel_value(
            items,
            zero,
            i,
        ) == best(items, i, w));
    } else {
        lemma_best_achievable(items, i - 1, w);
        let s1 = choose|sel: Seq<u32>|
            #![all_triggers]
            sel.len() == items.len() && sel_weight(items, sel, i - 1) <= w && sel_value(
                items,
                sel,
                i - 1,
            ) == best(items, i - 1, w);
        let s1z = s1.update(i - 1, 0u32);
        lemma_sel_sums_update(items, s1, i - 1, 0u32, i - 1);
        lemma_sel_sums_update(items, s1, i - 1, 0u32, i);
        if items[i - 1].weight <= w {
            lemma_best_achievable(items, i - 1, w - items[i - 1].weight);
            let s2 = choose|sel: Seq<u32>|
                #![all_triggers]
                sel.len() == items.len() && sel_weight(items, sel, i - 1) <= w - items[i - 1].weight
                    && sel_value(items, sel, i - 1) == best(items, i - 1, w - items[i - 1].weight);
            let s2o = s2.update(i - 1, 1u32);
            lemma_sel_sums_update(items, s2, i - 1, 1u32, i - 1);
            lemma_sel_sums_update(items, s2, i - 1, 1u32, i);
            if items[i - 1].value + best(items, i - 1, w - items[i - 1].weight) >= best(
                items,
                i - 1,
                w,
            ) {
                assert(s2o.len() == items.len() && sel_weight(items, s2o, i) <= w && sel_value(
                    items,
                    s2o,
                    i,
                ) == best(items, i, w));
            } else {
                assert(s1z.len() == items.len() && sel_weight(items, s1z, i) <= w && sel_value(
                    items,
                    s1z,
                    i,
                ) == best(items, i, w));
            }
        } else {
            assert(s1z.len() == items.len() && sel_weight(items, s1z, i) <= w && sel_value(
                items,
                s1z,
                i,
            ) == best(items, i, w));
        }
    }
}

/// The suffix optimum over the whole list equals the prefix-table
/// optimum over the whole list: both are the exhaustive optimum.
pub proof fn lemma_best_from_eq_best(items: Seq<Item>, c: int)
    requires
        positive_weights(items),
        0 <= c,
    ensures
        best_from(items, 0, c) == best(items, items.len() as int, c),
{
    let len = items.len() as int;
    lemma_best_from_achievable(items, 0, c);
    let s1 = choose|sel: Seq<u32>|
        #![all_triggers]
        sel.len() == items.len() && psel_weight(items, sel, 0, len) <= c && psel_value(
            items,
            sel,
            0,
            len,
        ) == best_from(items, 0, c);
    lemma_sel_eq_psel(items, s1, len);
    lemma_selection_cannot_beat_best(items, s1, len, c);
    lemma_best_achievable(items, len, c);
    let s2 = choose|sel: Seq<u32>|
        #![all_triggers]
        sel.len() == items.len() && sel_weight(items, sel, len) <= c && sel_value(items, sel, len)
            == best(items, len, c);
    lemma_sel_eq_psel(items, s2, len);
    lemma_selection_cannot_beat_best_from(items, s2, 0, c);
}

proof fn lemma_pack_value_in_total(items: Seq<Item>, i: int, c: int)
    requires
        0 <= i <= items.len(),
    ensures
        0 <= pack_value(items, i, c),
        total_value(items, i) + pack_value(items, i, c) <= total_value(
            items,
            items.len() as int,
        ),
    decreases items.len() - i,
{
    if i >= items.len() || items[i].weight > c {
        crate::item::lemma_total_value_nonneg(items, i);
        lemma_total_value_mono(items, i, items.len() as int);
    } else {
        lemma_pack_value_in_total(items, i + 1, c - items[i].weight);
    }
}

/// Optimistic bound from a search state, in exact arithmetic: walks
/// the items from `start` in their current (density) order, packing
/// whole items while they fit, then adds the first non-fitting item
/// prorated to the leftover capacity.  The result is the bound as a
/// fraction `(numerator, denominator)` with denominator at least 1;
/// callers compare it to integers by cross multiplication.
pub fn calculate_optimistic_value(
    cur_value: usize,
    capacity: usize,
    items: &Vec<Item>,
    start: usize,
) -> (r: (u128, u128))
    requires
        start <= items@.len(),
        positive_weights(items@),
        items_value(items@) <= usize::MAX,
        cur_value <= total_value(items@, start as int),
    ensures
        r.0 == bound_num(items@, cur_value as int, start as int, capacity as int),
        r.1 == bound_den(items@, start as int, capacity as int),
        r.1 >= 1,
{
    let n = items.len();
    let mut j = start;
    let mut rc = capacity;
    let mut val = cur_value;
    while j < n && items[j].weight <= rc
        invariant
            n == items@.len(),
            start <= j <= n,
            positive_weights(items@),
            items_value(items@) <= usize::MAX,
            val + pack_value(items@, j as int, rc as int) == cur_value + pack_value(
                items@,
                start as int,
                capacity as int,
            ),
            pack_stop(items@, j as int, rc as int) == pack_stop(
                items@,
                start as int,
                capacity as int,
            ),
            pack_rem(items@, j as int, rc as int) == pack_rem(
                items@,
                start as int,
                capacity as int,
            ),
            val <= total_value(items@, j as int),
        decreases n - j,
    {
        proof {
            lemma_total_value_mono(items@, j + 1, n as int);
        }
        val = val + items[j].value;
        rc = rc - items[j].weight;
        j = j + 1;
    }
    proof {
        assert(pack_value(items@, j as int, rc as int) == 0);
        assert(pack_rem(items@, j as int, rc as int) == rc);
    }
    if j < n && rc > 0 {
        let w = items[j].weight;
        let v = items[j].value;
        proof {
            lemma_total_value_mono(items@, j + 1, n as int);
            assert(val + v <= items_value(items@));
            lemma_frac_num_fits(val as int, v as int, w as int, rc as int);
        }
        let num = (val as u128) * (w as u128) + (v as u128) * (rc as u128);
        (num, w as u128)
    } else {
        ((val as u128), 1)
    }
}

proof fn lemma_frac_num_fits(val: int, v: int, w: int, rc: int)
    by (nonlinear_arith)
    requires
        0 <= val,
        0 <= v,
        1 <= w <= 0xffff_ffff_ffff_ffff,
        0 <= rc < w,
        val + v <= 0xffff_ffff_ffff_ffff,
    ensures
        0 <= val * w <= u128::MAX,
        0 <= v * rc <= u128::MAX,
        val * w + v * rc <= u128::MAX,
{
}

} // verus!
