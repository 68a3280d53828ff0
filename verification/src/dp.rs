use vstd::prelude::*;

use crate::item::{
    Item, items_value, lemma_sel_sums_all_zero, lemma_sel_sums_nonneg, lemma_sel_sums_update,
    lemma_total_value_mono, lemma_total_value_nonneg, positive_weights, sel_value, sel_weight,
    total_value,
};

verus! {

pub open spec fn max_int(a: int, b: int) -> int {
    if a >= b {
        a
    } else {
        b
    }
}

/// Best total value achievable with the items at positions `[0, i)`
/// within capacity `w`: the take-or-leave recurrence of the
/// dynamic-programming table.  Row 0 and column 0 are 0.
pub open spec fn best(items: Seq<Item>, i: int, w: int) -> int
    decreases i,
{
    if i <= 0 || w <= 0 {
        0
    } else if items[i - 1].weight <= w {
        max_int(
            best(items, i - 1, w),
            items[i - 1].value + best(items, i - 1, w - items[i - 1].weight),
        )
    } else {
        best(items, i - 1, w)
    }
}

pub proof fn lemma_best_nonneg(items: Seq<Item>, i: int, w: int)
    ensures
        best(items, i, w) >= 0,
    decreases i,
{
    if !(i <= 0 || w <= 0) {
        lemma_best_nonneg(items, i - 1, w);
        lemma_best_nonneg(items, i - 1, w - items[i - 1].weight);
    }
}

/// The optimum over a prefix never exceeds the prefix's total value.
pub proof fn lemma_best_le_total(items: Seq<Item>, i: int, w: int)
    ensures
        best(items, i, w) <= total_value(items, i),
    decreases i,
{
    if i <= 0 || w <= 0 {
        lemma_total_value_nonneg(items, i);
    } else {
        lemma_best_le_total(items, i - 1, w);
        lemma_best_le_total(items, i - 1, w - items[i - 1].weight);
    }
}

/// Dropping the last item of a prefix can only lower the optimum.
pub proof fn lemma_best_drop_last(items: Seq<Item>, i: int, w: int)
    requires
        i >= 1,
    ensures
        best(items, i - 1, w) <= best(items, i, w),
{
    if w <= 0 {
    } else {
        lemma_best_nonneg(items, i - 1, w - items[i - 1].weight);
    }
}

/// No 0/1 selection within capacity beats the take-or-leave optimum:
/// for positive-weight items, every selection of the items at
/// positions `[0, i)` whose selected weight fits in `w` has selected
/// value at most `best(items, i, w)`.  Together with the selection
/// that `dynamic_programming` returns, whose value equals the
/// optimum, this says the table value is exactly the exhaustive
/// (brute-force) optimum.
pub proof fn lemma_selection_cannot_beat_best(items: Seq<Item>, sel: Seq<u32>, i: int, w: int)
    requires
        positive_weights(items),
        i <= items.len(),
        0 <= w,
        sel_weight(items, sel, i) <= w,
    ensures
        sel_value(items, sel, i) <= best(items, i, w),
    decreases i,
{
    if i <= 0 {
        lemma_best_nonneg(items, i, w);
    } else {
        lemma_sel_sums_nonneg(items, sel, i - 1);
        if sel[i - 1] == 1 {
            let wt = items[i - 1].weight as int;
            assert(wt <= w);
            lemma_selection_cannot_beat_best(items, sel, i - 1, w - wt);
        } else {
            lemma_selection_cannot_beat_best(items, sel, i - 1, w);
            lemma_best_drop_last(items, i, w);
        }
    }
}

/// The optimum over a prefix reads only the items in it.
pub proof fn lemma_best_prefix_agree(a: Seq<Item>, b: Seq<Item>, k: int, w: int)
    requires
        k <= a.len(),
        k <= b.len(),
        forall|p: int| 0 <= p < k ==> a[p] == b[p],
    ensures
        best(a, k, w) == best(b, k, w),
    decreases k,
{
    if k > 0 && w > 0 {
        lemma_best_prefix_agree(a, b, k - 1, w);
        lemma_best_prefix_agree(a, b, k - 1, w - a[k - 1].weight);
    }
}

/// Swapping two adjacent items does not change the optimum of the
/// prefix that ends just after them: whichever of the two the
/// recurrence peels first, the same four take-or-leave combinations
/// remain.
proof fn lemma_best_swap_step(s: Seq<Item>, x: int, w: int)
    requires
        0 <= x,
        x + 1 < s.len(),
        s[x].weight >= 1,
        s[x + 1].weight >= 1,
    ensures
        best(s.update(x, s[x + 1]).update(x + 1, s[x]), x + 2, w) == best(s, x + 2, w),
{
    let s2 = s.update(x, s[x + 1]).update(x + 1, s[x]);
    let a = s[x];
    let b = s[x + 1];
    assert(s2[x] == b && s2[x + 1] == a);
    assert forall|u: int| #[trigger] best(s2, x, u) == best(s, x, u) by {
        lemma_best_prefix_agree(s2, s, x, u);
    }
    if w > 0 {
        let aw = a.weight as int;
        let bw = b.weight as int;
        assert(best(s, x + 1, w) == if aw <= w {
            max_int(best(s, x, w), a.value + best(s, x, w - aw))
        } else {
            best(s, x, w)
        });
        assert(best(s2, x + 1, w) == if bw <= w {
            max_int(best(s2, x, w), b.value + best(s2, x, w - bw))
        } else {
            best(s2, x, w)
        });
        if bw <= w {
            assert(best(s, x + 1, w - bw) == if w - bw <= 0 {
                0
            } else if aw <= w - bw {
                max_int(best(s, x, w - bw), a.value + best(s, x, w - bw - aw))
            } else {
                best(s, x, w - bw)
            });
        }
        if aw <= w {
            assert(best(s2, x + 1, w - aw) == if w - aw <= 0 {
                0
            } else if bw <= w - aw {
                max_int(best(s2, x, w - aw), b.value + best(s2, x, w - aw - bw))
            } else {
                best(s2, x, w - aw)
            });
        }
        lemma_best_nonneg(s, x, w);
        lemma_best_nonneg(s, x, w - aw);
        lemma_best_nonneg(s, x, w - bw);
        lemma_best_nonneg(s, x, w - aw - bw);
        assert(best(s, x + 2, w) == if bw <= w {
            max_int(best(s, x + 1, w), b.value + best(s, x + 1, w - bw))
        } else {
            best(s, x + 1, w)
        });
        assert(best(s2, x + 2, w) == if aw <= w {
            max_int(best(s2, x + 1, w), a.value + best(s2, x + 1, w - aw))
        } else {
            best(s2, x + 1, w)
        });
        if aw <= w && bw <= w {
            if aw + bw <= w {
                assert(best(s2, x + 2, w) == best(s, x + 2, w));
            } else {
                assert(best(s, x + 2, w) == max_int(
                    max_int(best(s, x, w), a.value + best(s, x, w - aw)),
                    b.value + best(s, x, w - bw),
                ));
                assert(best(s2, x + 2, w) == max_int(
                    max_int(best(s, x, w), b.value + best(s, x, w - bw)),
                    a.value + best(s, x, w - aw),
                ));
            }
        }
        assert(best(s2, x + 2, w) == best(s, x + 2, w));
    }
}

/// Swapping two adjacent items within a prefix does not change the
/// prefix's optimum at any capacity.
pub proof fn lemma_best_swap_adjacent(s: Seq<Item>, x: int, k: int)
    requires
        0 <= x,
        x + 1 < s.len(),
        x + 2 <= k <= s.len(),
        s[x].weight >= 1,
        s[x + 1].weight >= 1,
    ensures
        forall|w: int| #[trigger] best(s.update(x, s[x + 1]).update(x + 1, s[x]), k, w) == best(
            s,
            k,
            w,
        ),
    decreases k,
{
    let s2 = s.update(x, s[x + 1]).update(x + 1, s[x]);
    if k == x + 2 {
        assert forall|w: int| #[trigger] best(s2, k, w) == best(s, k, w) by {
            lemma_best_swap_step(s, x, w);
        }
    } else {
        lemma_best_swap_adjacent(s, x, k - 1);
        assert(s2[k - 1] == s[k - 1]);
        assert forall|w: int| #[trigger] best(s2, k, w) == best(s, k, w) by {
            if w > 0 {
                assert(best(s2, k - 1, w) == best(s, k - 1, w));
                assert(best(s2, k - 1, w - s[k - 1].weight) == best(s, k - 1, w - s[k
                    - 1].weight));
            }
        }
    }
}

/// Exact solver.  Builds the `(n+1) x (capacity+1)` table of the
/// take-or-leave recurrence, then walks it backward to reconstruct a
/// selection (one 0/1 flag per input position) realizing the optimum.
///
/// Returns the optimal value together with a selection vector whose
/// selected weights fit in `capacity` and whose selected values sum
/// to exactly the returned value.
pub fn dynamic_programming(capacity: usize, items: &Vec<Item>) -> (r: (usize, Vec<u32>))
    requires
        items@.len() < usize::MAX,
        capacity < usize::MAX,
        items_value(items@) <= usize::MAX,
    ensures
        r.0 == best(items@, items@.len() as int, capacity as int),
        r.1@.len() == items@.len(),
        forall|j: int| 0 <= j < items@.len() ==> r.1@[j] == 0 || r.1@[j] == 1,
        sel_weight(items@, r.1@, items@.len() as int) <= capacity,
        sel_value(items@, r.1@, items@.len() as int) == r.0,
        capacity == 0 ==> forall|j: int| 0 <= j < items@.len() ==> r.1@[j] == 0,
{
    let n = items.len();
    let mut cache: Vec<Vec<usize>> = Vec::new();
    let mut i: usize = 0;
    while i <= n
        invariant
            n == items@.len(),
            n < usize::MAX,
            capacity < usize::MAX,
            items_value(items@) <= usize::MAX,
            i <= n + 1,
            cache@.len() == i,
            forall|a: int| 0 <= a < i ==> (#[trigger] cache@[a])@.len() == capacity + 1,
            forall|a: int, b: int|
                0 <= a < i && 0 <= b <= capacity ==> #[trigger] cache@[a]@[b] == best(
                    items@,
                    a,
                    b,
                ),
        decreases n + 1 - i,
    {
        let mut row: Vec<usize> = Vec::new();
        let mut w: usize = 0;
        while w <= capacity
            invariant
                n == items@.len(),
                n < usize::MAX,
                capacity < usize::MAX,
                items_value(items@) <= usize::MAX,
                i <= n,
                cache@.len() == i,
                forall|a: int| 0 <= a < i ==> (#[trigger] cache@[a])@.len() == capacity + 1,
                forall|a: int, b: int|
                    0 <= a < i && 0 <= b <= capacity ==> #[trigger] cache@[a]@[b] == best(
                        items@,
                        a,
                        b,
                    ),
                w <= capacity + 1,
                row@.len() == w,
                forall|b: int| 0 <= b < w ==> #[trigger] row@[b] == best(items@, i as int, b),
            decreases capacity + 1 - w,
        {
            let v: usize;
            if i == 0 || w == 0 {
                v = 0;
            } else if items[i - 1].weight <= w {
                let leave = cache[i - 1][w];
                let wt = items[i - 1].weight;
                let take_rest = cache[i - 1][w - wt];
                proof {
                    lemma_best_le_total(items@, i as int - 1, w - wt);
                    lemma_total_value_mono(items@, i as int, n as int);
                    assert(items@[i as int - 1].value + take_rest <= items_value(items@));
                }
                let take = items[i - 1].value + take_rest;
                v = if take >= leave {
                    take
                } else {
                    leave
                };
            } else {
                v = cache[i - 1][w];
            }
            row.push(v);
            w = w + 1;
        }
        cache.push(row);
        i = i + 1;
    }

    let mut taken: Vec<u32> = Vec::new();
    let mut k: usize = 0;
    while k < n
        invariant
            k <= n,
            taken@.len() == k,
            forall|j: int| 0 <= j < k ==> taken@[j] == 0,
        decreases n - k,
    {
        taken.push(0);
        k = k + 1;
    }

    let total = cache[n][capacity];
    assert(total == best(items@, n as int, capacity as int));
    proof {
        lemma_sel_sums_all_zero(items@, taken@, n as int);
    }

    let mut bi: usize = n;
    let mut bw: usize = capacity;
    while bi > 0 && bw > 0
        invariant
            n == items@.len(),
            bi <= n,
            bw <= capacity,
            cache@.len() == n + 1,
            forall|a: int| 0 <= a <= n ==> (#[trigger] cache@[a])@.len() == capacity + 1,
            forall|a: int, b: int|
                0 <= a <= n && 0 <= b <= capacity ==> #[trigger] cache@[a]@[b] == best(
                    items@,
                    a,
                    b,
                ),
            taken@.len() == n,
            forall|j: int| 0 <= j < n ==> taken@[j] == 0 || taken@[j] == 1,
            forall|j: int| 0 <= j < bi ==> taken@[j] == 0,
            sel_value(items@, taken@, n as int) + best(items@, bi as int, bw as int) == best(
                items@,
                n as int,
                capacity as int,
            ),
            sel_weight(items@, taken@, n as int) + bw == capacity,
            capacity == 0 ==> bi == n,
        decreases bi,
    {
        if cache[bi][bw] != cache[bi - 1][bw] {
            // the optimum at (bi, bw) differs from the row above, so
            // the recurrence must have taken the item at bi - 1
            proof {
                assert(best(items@, bi as int, bw as int) != best(items@, bi as int - 1, bw as int));
                assert(items@[bi as int - 1].weight <= bw);
                assert(best(items@, bi as int, bw as int) == items@[bi as int - 1].value + best(
                    items@,
                    bi as int - 1,
                    bw - items@[bi as int - 1].weight,
                ));
                lemma_sel_sums_update(items@, taken@, bi as int - 1, 1u32, n as int);
            }
            let wt = items[bi - 1].weight;
            taken.set(bi - 1, 1);
            bw = bw - wt;
            bi = bi - 1;
        } else {
            bi = bi - 1;
        }
    }
    proof {
        assert(best(items@, bi as int, bw as int) == 0);
    }
    (total, taken)
}

} // verus!
