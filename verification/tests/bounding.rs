use knapsack::bound::calculate_optimistic_value;
use knapsack::density::sort_by_value_density;
use knapsack::item::Item;

fn mk(pairs: &[(usize, usize)]) -> Vec<Item> {
    pairs
        .iter()
        .enumerate()
        .map(|(index, &(value, weight))| Item { index, value, weight })
        .collect()
}

fn suffix_brute_force(capacity: usize, items: &[Item], start: usize) -> usize {
    let rest = &items[start..];
    let n = rest.len();
    let mut best = 0;
    for mask in 0u32..(1u32 << n) {
        let mut value: usize = 0;
        let mut weight: usize = 0;
        for (k, it) in rest.iter().enumerate() {
            if mask & (1 << k) != 0 {
                value += it.value;
                weight += it.weight;
            }
        }
        if weight <= capacity && value > best {
            best = value;
        }
    }
    best
}

#[test]
fn bound_has_exact_fractional_value() {
    let mut items = mk(&[(60, 10), (100, 20), (120, 30)]);
    sort_by_value_density(&mut items);
    // with capacity 50 the whole packing takes 10 + 20 and then 20/30
    // of the last item: bound = 160 + 120 * 20 / 30 = 240
    let (num, den) = calculate_optimistic_value(0, 50, &items, 0);
    assert_eq!(num as f64 / den as f64, 240.0);
    // an empty remainder leaves the accumulated value alone
    let (num, den) = calculate_optimistic_value(7, 50, &items, 3);
    assert_eq!((num, den), (7, 1));
}

#[test]
fn bound_dominates_every_achievable_suffix_value() {
    let mut items = mk(&[(9, 4), (7, 3), (8, 3), (1, 1), (30, 11)]);
    sort_by_value_density(&mut items);
    for capacity in [0usize, 1, 3, 5, 9, 21] {
        for start in 0..=items.len() {
            let (num, den) = calculate_optimistic_value(0, capacity, &items, start);
            let achievable = suffix_brute_force(capacity, &items, start);
            assert!(num >= (achievable as u128) * den);
        }
    }
}

#[test]
fn bound_never_grows_as_the_start_moves_forward() {
    let mut items = mk(&[(60, 10), (100, 20), (120, 30), (9, 4), (7, 3)]);
    sort_by_value_density(&mut items);
    for capacity in [0usize, 5, 10, 25, 60] {
        for start in 0..items.len() {
            let (n1, d1) = calculate_optimistic_value(0, capacity, &items, start);
            let (n2, d2) = calculate_optimistic_value(0, capacity, &items, start + 1);
            assert!(n1 * d2 >= n2 * d1);
        }
    }
}
