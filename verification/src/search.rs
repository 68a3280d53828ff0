use vstd::prelude::*;

use crate::bound::{
    best_from, bound_den, bound_num, calculate_optimistic_value, lemma_best_from_eq_best,
    lemma_best_from_le_bound,
};
use crate::density::{sort_by_value_density, sorted_by_density};
use crate::dp::{best, lemma_selection_cannot_beat_best};
use crate::greedy::{greedy_density, greedy_takes, greedy_value, greedy_weight};
use crate::item::{
    Item, distinct_indices, indices_in_range, items_value, lemma_sel_sums_all_zero,
    lemma_sel_sums_tail_zero, lemma_sel_sums_update, lemma_total_value_mono, positive_weights,
    sel_value, sel_weight, total_value,
};

verus! {

/// One branch-and-bound search state: the value accumulated from the
/// items already decided, the capacity left (signed, since an include
/// decision may drive it negative before the node is discarded), the
/// next position to decide, and the node's optimistic bound kept as
/// an exact fraction `bound_num / bound_den`.
pub struct Node {
    pub value: usize,
    pub capacity: i128,
    pub index: usize,
    pub bound_num: u128,
    pub bound_den: u128,
}

/// Numerator of the bound a node stores: zero for an infeasible node
/// (negative capacity), else the fractional-packing bound from the
/// node's state.
pub open spec fn node_bound_num(items: Seq<Item>, value: int, capacity: int, index: int) -> int {
    if capacity < 0 {
        0
    } else {
        bound_num(items, value, index, capacity)
    }
}

/// Denominator of the bound a node stores.
pub open spec fn node_bound_den(items: Seq<Item>, capacity: int, index: int) -> int {
    if capacity < 0 {
        1
    } else {
        bound_den(items, index, capacity)
    }
}

impl Node {
    /// A fresh node carrying a placeholder bound of zero.
    pub fn new(value: usize, capacity: i128, index: usize) -> (n: Node)
        ensures
            n.value == value,
            n.capacity == capacity,
            n.index == index,
            n.bound_num == 0,
            n.bound_den == 1,
    {
        Node { value, capacity, index, bound_num: 0, bound_den: 1 }
    }

    /// Computes, stores and returns the node's optimistic bound: zero
    /// for a node whose capacity went negative, else the exact
    /// fractional-packing bound from the node's state onward.
    pub fn calculate_optimistic_value(&mut self, items: &Vec<Item>) -> (r: (u128, u128))
        requires
            old(self).index <= items@.len(),
            old(self).capacity <= usize::MAX as i128,
            positive_weights(items@),
            items_value(items@) <= usize::MAX,
            old(self).value <= total_value(items@, old(self).index as int),
        ensures
            final(self).value == old(self).value,
            final(self).capacity == old(self).capacity,
            final(self).index == old(self).index,
            final(self).bound_num == node_bound_num(
                items@,
                old(self).value as int,
                old(self).capacity as int,
                old(self).index as int,
            ),
            final(self).bound_den == node_bound_den(
                items@,
                old(self).capacity as int,
                old(self).index as int,
            ),
            1 <= final(self).bound_den <= usize::MAX,
            r.0 == final(self).bound_num,
            r.1 == final(self).bound_den,
    {
        if self.capacity < 0 {
            self.bound_num = 0;
            self.bound_den = 1;
            (0, 1)
        } else {
            let r = calculate_optimistic_value(
                self.value,
                self.capacity as usize,
                items,
                self.index,
            );
            self.bound_num = r.0;
            self.bound_den = r.1;
            r
        }
    }
}

/// A node as the search keeps it: in range, feasible, its value
/// realized by some selection of the positions already decided, and
/// its stored bound sound for everything still reachable from it.
pub open spec fn node_valid(items: Seq<Item>, cap: int, node: Node) -> bool {
    &&& node.index <= items.len()
    &&& 0 <= node.capacity <= cap
    &&& node.value <= total_value(items, node.index as int)
    &&& (exists|sel: Seq<u32>|
        #![all_triggers]
        sel.len() == items.len() && sel_value(items, sel, node.index as int) == node.value
            && sel_weight(items, sel, node.index as int) == cap - node.capacity && (forall|j: int|
            node.index <= j < sel.len() ==> sel[j] != 1))
    &&& (node.value + best_from(items, node.index as int, node.capacity as int)) * (
    node.bound_den as int) <= node.bound_num as int
    &&& 1 <= node.bound_den <= usize::MAX
}

/// What a node can still deliver: its accumulated value plus the best
/// of what remains within its capacity.
pub open spec fn node_potential(items: Seq<Item>, node: Node) -> int {
    node.value + best_from(items, node.index as int, node.capacity as int)
}

spec fn pow3(k: nat) -> nat
    decreases k,
{
    if k == 0 {
        1
    } else {
        3 * pow3((k - 1) as nat)
    }
}

proof fn lemma_pow3_pos(k: nat)
    ensures
        pow3(k) >= 1,
    decreases k,
{
    if k > 0 {
        lemma_pow3_pos((k - 1) as nat);
    }
}

spec fn node_weight(node: Node, n: int) -> nat {
    pow3(
        if n >= node.index {
            (n - node.index) as nat
        } else {
            0
        },
    )
}

/// Termination measure for the search: expanding a node into its two
/// children strictly shrinks it.
spec fn stack_measure(st: Seq<Node>, n: int) -> nat
    decreases st.len(),
{
    if st.len() == 0 {
        0nat
    } else {
        stack_measure(st.drop_last(), n) + node_weight(st.last(), n)
    }
}

proof fn lemma_stack_measure_push(st: Seq<Node>, x: Node, n: int)
    ensures
        stack_measure(st.push(x), n) == stack_measure(st, n) + node_weight(x, n),
{
    assert(st.push(x).drop_last() =~= st);
    assert(st.push(x).last() == x);
}

proof fn lemma_mul_cancel_lt(a: int, b: int, w: int)
    by (nonlinear_arith)
    requires
        a * w < b * w,
        1 <= w,
    ensures
        a < b,
{
}

proof fn lemma_mul_strict(a: int, b: int, w: int)
    by (nonlinear_arith)
    requires
        a < b,
        1 <= w,
    ensures
        a * w < b * w,
{
}

proof fn lemma_mul_u64_fits(a: u128, b: u128)
    by (nonlinear_arith)
    requires
        a <= 0xffff_ffff_ffff_ffff,
        b <= 0xffff_ffff_ffff_ffff,
    ensures
        a * b <= u128::MAX,
{
}

/// Exact branch-and-bound solver.  Sorts the items into density
/// order, then explores include/exclude decisions depth-first from an
/// explicit stack, pruning every child whose optimistic bound cannot
/// beat the best value found so far.  The first result is the exact
/// optimum.  The selection returned with it is the one the greedy
/// pass produces (the search itself keeps no decision paths), so the
/// selection is not guaranteed to realize the returned value.
pub fn branch_and_bound(capacity: usize, items: &mut Vec<Item>) -> (r: (usize, Vec<u32>))
    requires
        positive_weights(old(items)@),
        indices_in_range(old(items)@),
        distinct_indices(old(items)@),
        items_value(old(items)@) <= usize::MAX,
    ensures
        final(items)@.len() == old(items)@.len(),
        final(items)@.to_multiset() == old(items)@.to_multiset(),
        sorted_by_density(final(items)@),
        positive_weights(final(items)@),
        indices_in_range(final(items)@),
        distinct_indices(final(items)@),
        items_value(final(items)@) == items_value(old(items)@),
        r.0 == best(final(items)@, final(items)@.len() as int, capacity as int),
        r.0 == best(old(items)@, old(items)@.len() as int, capacity as int),
        r.1@.len() == final(items)@.len(),
        forall|j: int| 0 <= j < r.1@.len() ==> r.1@[j] == 0 || r.1@[j] == 1,
        forall|p: int|
            0 <= p < final(items)@.len() ==> r.1@[(#[trigger] final(items)@[p]).index as int]
                == if greedy_takes(final(items)@, capacity as int, p) {
                1u32
            } else {
                0u32
            },
        forall|j: int|
            0 <= j < r.1@.len() && r.1@[j] == 1 ==> exists|p: int|
                0 <= p < final(items)@.len() && (#[trigger] final(items)@[p]).index == j
                    && greedy_takes(final(items)@, capacity as int, p),
        greedy_weight(final(items)@, capacity as int, final(items)@.len() as int) <= capacity,
{
    sort_by_value_density(items);
    let ghost s = items@;
    let n = items.len();
    let mut max_value: usize = 0;

    let mut stack: Vec<Node> = Vec::new();
    let mut root = Node::new(0, capacity as i128, 0);
    root.calculate_optimistic_value(items);
    proof {
        let zero = Seq::<u32>::new(s.len(), |x: int| 0u32);
        lemma_sel_sums_all_zero(s, zero, 0);
        lemma_sel_sums_all_zero(s, zero, n as int);
        assert(zero.len() == s.len() && sel_value(s, zero, 0) == root.value && sel_weight(
            s,
            zero,
            0,
        ) == capacity - root.capacity && (forall|j: int| 0 <= j < zero.len() ==> zero[j] != 1));
        lemma_best_from_le_bound(s, 0, 0, capacity as int);
        assert(node_valid(s, capacity as int, root));
        lemma_best_from_eq_best(s, capacity as int);
        assert(node_potential(s, root) >= best(s, n as int, capacity as int));
        assert(zero.len() == n && sel_weight(s, zero, n as int) <= capacity && sel_value(
            s,
            zero,
            n as int,
        ) == 0);
    }
    stack.push(root);
    proof {
        assert(stack@[0] == root);
    }

    while stack.len() > 0
        invariant
            items@ == s,
            n == s.len(),
            sorted_by_density(s),
            positive_weights(s),
            indices_in_range(s),
            distinct_indices(s),
            items_value(s) <= usize::MAX,
            exists|sel: Seq<u32>|
                #![all_triggers]
                sel.len() == n && sel_weight(s, sel, n as int) <= capacity && sel_value(
                    s,
                    sel,
                    n as int,
                ) == max_value,
            forall|k: int|
                0 <= k < stack@.len() ==> node_valid(s, capacity as int, #[trigger] stack@[k]),
            best(s, n as int, capacity as int) <= max_value || exists|k: int|
                0 <= k < stack@.len() && node_potential(s, #[trigger] stack@[k]) >= best(
                    s,
                    n as int,
                    capacity as int,
                ),
        decreases stack_measure(stack@, n as int),
    {
        let ghost old_stack = stack@;
        let ghost opt = best(s, n as int, capacity as int);
        let node = stack.pop().unwrap();
        proof {
            assert(old_stack.drop_last() =~= stack@);
            assert(node == old_stack.last());
            assert(node_valid(s, capacity as int, node));
            lemma_pow3_pos((n - node.index) as nat);
        }
        proof {
            lemma_mul_u64_fits(max_value as u128, node.bound_den);
        }
        if node.bound_num < (max_value as u128) * node.bound_den {
            // pruned: everything reachable from this node stays at or
            // under its bound, which is already beaten
            proof {
                lemma_mul_cancel_lt(
                    node_potential(s, node),
                    max_value as int,
                    node.bound_den as int,
                );
                if opt > max_value {
                    let k = choose|k: int|
                        0 <= k < old_stack.len() && node_potential(s, #[trigger] old_stack[k])
                            >= opt;
                    assert(k < old_stack.len() - 1 ==> stack@[k] == old_stack[k]);
                }
            }
        } else {
            if node.value > max_value {
                max_value = node.value;
                proof {
                    let sel = choose|sel: Seq<u32>|
                        #![all_triggers]
                        sel.len() == s.len() && sel_value(s, sel, node.index as int) == node.value
                            && sel_weight(s, sel, node.index as int) == capacity - node.capacity
                            && (forall|j: int| node.index <= j < sel.len() ==> sel[j] != 1);
                    lemma_sel_sums_tail_zero(s, sel, node.index as int, n as int);
                    assert(sel.len() == n && sel_weight(s, sel, n as int) <= capacity && sel_value(
                        s,
                        sel,
                        n as int,
                    ) == max_value);
                }
            }
            if node.index < n {
                let ghost sel = choose|sel: Seq<u32>|
                    #![all_triggers]
                    sel.len() == s.len() && sel_value(s, sel, node.index as int) == node.value
                        && sel_weight(s, sel, node.index as int) == capacity - node.capacity && (
                    forall|j: int| node.index <= j < sel.len() ==> sel[j] != 1);
                proof {
                    lemma_total_value_mono(s, node.index as int, node.index + 1);
                    lemma_total_value_mono(s, node.index + 1, n as int);
                }

                let mut node_exclude = Node::new(node.value, node.capacity, node.index + 1);
                let (exn, exd) = node_exclude.calculate_optimistic_value(items);
                proof {
                    lemma_mul_u64_fits(max_value as u128, exd);
                }
                let push_ex = exn > (max_value as u128) * exd;
                if push_ex {
                    proof {
                        assert(sel_value(s, sel, node.index + 1) == node.value);
                        assert(sel_weight(s, sel, node.index + 1) == capacity
                            - node_exclude.capacity);
                        lemma_best_from_le_bound(
                            s,
                            node.value as int,
                            node.index + 1,
                            node.capacity as int,
                        );
                        assert(node_valid(s, capacity as int, node_exclude));
                        lemma_stack_measure_push(stack@, node_exclude, n as int);
                    }
                    stack.push(node_exclude);
                }
                let ghost stack_after_ex = stack@;

                let it = items[node.index];
                let mut node_include = Node::new(
                    node.value + it.value,
                    node.capacity - it.weight as i128,
                    node.index + 1,
                );
                let (inn, ind) = node_include.calculate_optimistic_value(items);
                proof {
                    lemma_mul_u64_fits(max_value as u128, ind);
                }
                let push_in = inn > (max_value as u128) * ind;
                if push_in {
                    proof {
                        // a pushed node is feasible: an infeasible one
                        // carries a zero bound, which beats nothing
                        assert(node_include.capacity >= 0);
                        lemma_sel_sums_update(s, sel, node.index as int, 1u32, node.index as int);
                        lemma_sel_sums_update(s, sel, node.index as int, 1u32, node.index + 1);
                        let sel2 = sel.update(node.index as int, 1u32);
                        assert(sel2.len() == s.len() && sel_value(s, sel2, node.index + 1)
                            == node_include.value && sel_weight(s, sel2, node.index + 1) == capacity
                            - node_include.capacity && (forall|j: int|
                            node.index + 1 <= j < sel2.len() ==> sel2[j] != 1));
                        lemma_best_from_le_bound(
                            s,
                            node_include.value as int,
                            node.index + 1,
                            node_include.capacity as int,
                        );
                        assert(node_valid(s, capacity as int, node_include));
                        lemma_stack_measure_push(stack@, node_include, n as int);
                    }
                    stack.push(node_include);
                }

                // the three ways the optimum can still be covered:
                // by the incumbent, by an older node, or by one of
                // the children just examined
                proof {
                    if opt > max_value {
                        let k = choose|k: int|
                            0 <= k < old_stack.len() && node_potential(s, #[trigger] old_stack[k])
                                >= opt;
                        if k < old_stack.len() - 1 {
                            assert(stack@[k] == old_stack[k]);
                            assert(node_potential(s, stack@[k]) >= opt);
                        } else {
                            // the popped node covered the optimum;
                            // one of its children does too
                            assert(node_potential(s, node) >= opt);
                            let i = node.index as int;
                            let c = node.capacity as int;
                            assert(best_from(s, i, c) == if c <= 0 {
                                0
                            } else if s[i].weight <= c {
                                crate::dp::max_int(
                                    best_from(s, i + 1, c),
                                    s[i].value + best_from(s, i + 1, c - s[i].weight),
                                )
                            } else {
                                best_from(s, i + 1, c)
                            });
                            if c > 0 && s[i].weight <= c && node.value + s[i].value + best_from(
                                s,
                                i + 1,
                                c - s[i].weight,
                            ) >= opt {
                                // include child covers it
                                if push_in {
                                    assert(stack@.last() == node_include);
                                    assert(node_potential(s, node_include) >= opt);
                                } else {
                                    lemma_best_from_le_bound(
                                        s,
                                        node_include.value as int,
                                        i + 1,
                                        c - s[i].weight,
                                    );
                                    lemma_mul_strict(
                                        max_value as int,
                                        node_potential(s, node_include),
                                        node_include.bound_den as int,
                                    );
                                    assert(false);
                                }
                            } else {
                                // exclude child covers it
                                assert(node.value + best_from(s, i + 1, c) >= opt);
                                if push_ex {
                                    assert(stack_after_ex.last() == node_exclude);
                                    assert(exists|k: int|
                                        0 <= k < stack@.len() && node_potential(
                                            s,
                                            #[trigger] stack@[k],
                                        ) >= opt) by {
                                        let ke = stack_after_ex.len() - 1;
                                        assert(stack@[ke] == node_exclude);
                                        assert(node_potential(s, node_exclude) >= opt);
                                    }
                                } else {
                                    lemma_best_from_le_bound(
                                        s,
                                        node_exclude.value as int,
                                        i + 1,
                                        c,
                                    );
                                    lemma_mul_strict(
                                        max_value as int,
                                        node_potential(s, node_exclude),
                                        node_exclude.bound_den as int,
                                    );
                                    assert(false);
                                }
                            }
                        }
                    }
                }
            } else {
                // leaf: nothing remains beyond the last position, so
                // the node's potential is its value, now covered by
                // the incumbent
                proof {
                    assert(best_from(s, node.index as int, node.capacity as int) == 0);
                    if opt > max_value {
                        let k = choose|k: int|
                            0 <= k < old_stack.len() && node_potential(s, #[trigger] old_stack[k])
                                >= opt;
                        assert(k < old_stack.len() - 1 ==> stack@[k] == old_stack[k]);
                    }
                }
            }
        }
    }

    proof {
        let sel = choose|sel: Seq<u32>|
            #![all_triggers]
            sel.len() == n && sel_weight(s, sel, n as int) <= capacity && sel_value(
                s,
                sel,
                n as int,
            ) == max_value;
        lemma_selection_cannot_beat_best(s, sel, n as int, capacity as int);
        assert(max_value == best(s, n as int, capacity as int));
        assert(best(s, n as int, capacity as int) == best(
            old(items)@,
            n as int,
            capacity as int,
        ));
    }

    let out = greedy_density(capacity, items);
    (max_value, out.1)
}

/// Solve one knapsack instance: branch and bound determines the
/// optimal value, and the greedy pass run afterwards supplies the
/// selection vector (see `branch_and_bound` for the mismatch this
/// carries).
pub fn solve(capacity: usize, items: &mut Vec<Item>) -> (r: (usize, Vec<u32>))
    requires
        positive_weights(old(items)@),
        indices_in_range(old(items)@),
        distinct_indices(old(items)@),
        items_value(old(items)@) <= usize::MAX,
    ensures
        final(items)@.len() == old(items)@.len(),
        final(items)@.to_multiset() == old(items)@.to_multiset(),
        sorted_by_density(final(items)@),
        positive_weights(final(items)@),
        indices_in_range(final(items)@),
        distinct_indices(final(items)@),
        items_value(final(items)@) == items_value(old(items)@),
        r.0 == best(final(items)@, final(items)@.len() as int, capacity as int),
        r.0 == best(old(items)@, old(items)@.len() as int, capacity as int),
        r.1@.len() == final(items)@.len(),
        forall|j: int| 0 <= j < r.1@.len() ==> r.1@[j] == 0 || r.1@[j] == 1,
        forall|p: int|
            0 <= p < final(items)@.len() ==> r.1@[(#[trigger] final(items)@[p]).index as int]
                == if greedy_takes(final(items)@, capacity as int, p) {
                1u32
            } else {
                0u32
            },
        forall|j: int|
            0 <= j < r.1@.len() && r.1@[j] == 1 ==> exists|p: int|
                0 <= p < final(items)@.len() && (#[trigger] final(items)@[p]).index == j
                    && greedy_takes(final(items)@, capacity as int, p),
        greedy_weight(final(items)@, capacity as int, final(items)@.len() as int) <= capacity,
{
    branch_and_bound(capacity, items)
}

} // verus!
