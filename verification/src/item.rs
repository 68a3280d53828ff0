use vstd::prelude::*;

verus! {

/// One knapsack item. `value` and `weight` are fixed at creation;
/// `index` records the position the item had in the original input,
/// so that a selection vector can be written in input order even
/// after the item list has been reordered.
#[derive(Clone, Copy, Debug, PartialEq, Eq, Structural)]
pub struct Item {
    pub index: usize,
    pub value: usize,
    pub weight: usize,
}

/// Sum of the values of the items at positions `[0, i)`.
pub open spec fn total_value(items: Seq<Item>, i: int) -> int
    decreases i,
{
    if i <= 0 {
        0
    } else {
        total_value(items, i - 1) + items[i - 1].value
    }
}

/// Sum of the values of all items in the list.
pub open spec fn items_value(items: Seq<Item>) -> int {
    total_value(items, items.len() as int)
}

/// Sum of the values of the items at positions `[0, i)` whose
/// selection flag (at the same position) is 1.
pub open spec fn sel_value(items: Seq<Item>, sel: Seq<u32>, i: int) -> int
    decreases i,
{
    if i <= 0 {
        0
    } else {
        sel_value(items, sel, i - 1) + if sel[i - 1] == 1 {
            items[i - 1].value as int
        } else {
            0
        }
    }
}

/// Sum of the weights of the items at positions `[0, i)` whose
/// selection flag (at the same position) is 1.
pub open spec fn sel_weight(items: Seq<Item>, sel: Seq<u32>, i: int) -> int
    decreases i,
{
    if i <= 0 {
        0
    } else {
        sel_weight(items, sel, i - 1) + if sel[i - 1] == 1 {
            items[i - 1].weight as int
        } else {
            0
        }
    }
}

/// Every item's weight is at least 1.
pub open spec fn positive_weights(items: Seq<Item>) -> bool {
    forall|p: int| 0 <= p < items.len() ==> (#[trigger] items[p]).weight >= 1
}

/// Every item's `index` lies below the list's length.
pub open spec fn indices_in_range(items: Seq<Item>) -> bool {
    forall|p: int| 0 <= p < items.len() ==> (#[trigger] items[p]).index < items.len()
}

/// No two items share an `index`.
pub open spec fn distinct_indices(items: Seq<Item>) -> bool {
    forall|p: int, q: int|
        0 <= p < q < items.len() ==> (#[trigger] items[p]).index != (#[trigger] items[q]).index
}

pub proof fn lemma_total_value_nonneg(items: Seq<Item>, i: int)
    ensures
        total_value(items, i) >= 0,
    decreases i,
{
    if i > 0 {
        lemma_total_value_nonneg(items, i - 1);
    }
}

pub proof fn lemma_total_value_mono(items: Seq<Item>, i: int, j: int)
    requires
        i <= j,
    ensures
        total_value(items, i) <= total_value(items, j),
    decreases j - i,
{
    if i < j {
        lemma_total_value_mono(items, i, j - 1);
    }
}

/// Replacing the item at position `k` changes a prefix value sum by
/// exactly the difference of the two items' values.
pub proof fn lemma_total_value_update(items: Seq<Item>, k: int, x: Item, i: int)
    requires
        0 <= k < items.len(),
        i <= items.len(),
    ensures
        total_value(items.update(k, x), i) == if k < i {
            total_value(items, i) - items[k].value + x.value
        } else {
            total_value(items, i)
        },
    decreases i,
{
    if i > 0 {
        lemma_total_value_update(items, k, x, i - 1);
    }
}

pub proof fn lemma_sel_sums_nonneg(items: Seq<Item>, sel: Seq<u32>, i: int)
    ensures
        sel_value(items, sel, i) >= 0,
        sel_weight(items, sel, i) >= 0,
    decreases i,
{
    if i > 0 {
        lemma_sel_sums_nonneg(items, sel, i - 1);
    }
}

/// Changing the flag at position `j` changes the selected sums by the
/// contribution of the item at `j` alone.
pub proof fn lemma_sel_sums_update(items: Seq<Item>, sel: Seq<u32>, j: int, f: u32, i: int)
    requires
        0 <= j < sel.len(),
        i <= sel.len(),
    ensures
        sel_value(items, sel.update(j, f), i) == sel_value(items, sel, i) + if 0 <= j < i {
            (if f == 1 { items[j].value as int } else { 0 }) - (if sel[j] == 1 {
                items[j].value as int
            } else {
                0
            })
        } else {
            0
        },
        sel_weight(items, sel, i) + if 0 <= j < i {
            (if f == 1 { items[j].weight as int } else { 0 }) - (if sel[j] == 1 {
                items[j].weight as int
            } else {
                0
            })
        } else {
            0
        } == sel_weight(items, sel.update(j, f), i),
    decreases i,
{
    if i > 0 {
        lemma_sel_sums_update(items, sel, j, f, i - 1);
    }
}

/// Flags that are clear beyond position `i` contribute nothing to the
/// sums up to `m`.
pub proof fn lemma_sel_sums_tail_zero(items: Seq<Item>, sel: Seq<u32>, i: int, m: int)
    requires
        0 <= i <= m,
        forall|j: int| i <= j < m ==> sel[j] != 1,
    ensures
        sel_value(items, sel, m) == sel_value(items, sel, i),
        sel_weight(items, sel, m) == sel_weight(items, sel, i),
    decreases m - i,
{
    if m > i {
        lemma_sel_sums_tail_zero(items, sel, i, m - 1);
    }
}

/// A selection with no flag set selects nothing.
pub proof fn lemma_sel_sums_all_zero(items: Seq<Item>, sel: Seq<u32>, i: int)
    requires
        forall|j: int| 0 <= j < i ==> sel[j] != 1,
    ensures
        sel_value(items, sel, i) == 0,
        sel_weight(items, sel, i) == 0,
    decreases i,
{
    if i > 0 {
        lemma_sel_sums_all_zero(items, sel, i - 1);
    }
}

} // verus!
