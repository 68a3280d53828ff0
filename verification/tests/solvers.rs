use knapsack::dp::dynamic_programming;
use knapsack::greedy::greedy_density;
use knapsack::item::Item;
use knapsack::search::{branch_and_bound, solve, Node};

fn mk(pairs: &[(usize, usize)]) -> Vec<Item> {
    pairs
        .iter()
        .enumerate()
        .map(|(index, &(value, weight))| Item { index, value, weight })
        .collect()
}

fn brute_force(capacity: usize, items: &[Item]) -> usize {
    let n = items.len();
    assert!(n <= 20);
    let mut best = 0;
    for mask in 0u32..(1u32 << n) {
        let mut value: usize = 0;
        let mut weight: usize = 0;
        for (k, it) in items.iter().enumerate() {
            if mask & (1 << k) != 0 {
                value += it.value;
                weight += it.weight;
            }
        }
        if weight <= capacity && value > best {
            best = value;
        }
    }
    best
}

fn selection_sums(items: &[Item], taken: &[u32]) -> (usize, usize) {
    let mut value = 0;
    let mut weight = 0;
    for it in items {
        assert!(taken[it.index] == 0 || taken[it.index] == 1);
        if taken[it.index] == 1 {
            value += it.value;
            weight += it.weight;
        }
    }
    (value, weight)
}

#[test]
fn dp_matches_brute_force_on_small_instances() {
    let cases: Vec<(usize, Vec<(usize, usize)>)> = vec![
        (0, vec![]),
        (7, vec![(3, 2), (4, 3), (5, 4)]),
        (10, vec![(60, 10), (100, 20), (120, 30)]),
        (50, vec![(60, 10), (100, 20), (120, 30)]),
        (11, vec![(1, 1), (2, 2), (3, 3), (7, 5), (9, 6), (4, 4)]),
        (13, vec![(10, 9), (10, 9), (9, 8), (2, 2), (2, 2), (2, 2)]),
        (9, vec![(5, 3), (5, 3), (5, 3), (7, 4), (1, 1)]),
        (100, vec![(1, 2), (200, 100), (8, 3)]),
    ];
    for (capacity, pairs) in cases {
        let items = mk(&pairs);
        let (value, taken) = dynamic_programming(capacity, &items);
        assert_eq!(value, brute_force(capacity, &items));
        assert_eq!(taken.len(), items.len());
        let (sel_value, sel_weight) = selection_sums(&items, &taken);
        assert_eq!(sel_value, value);
        assert!(sel_weight <= capacity);
    }
}

#[test]
fn dp_backtrace_realizes_reported_value() {
    // two copies of a valuable light item pattern that exercises the
    // backtrace walking through equal-value rows
    let items = mk(&[(5, 2), (100, 1), (1, 1)]);
    let (value, taken) = dynamic_programming(3, &items);
    assert_eq!(value, 105);
    let (sel_value, sel_weight) = selection_sums(&items, &taken);
    assert_eq!(sel_value, 105);
    assert!(sel_weight <= 3);
}

#[test]
fn greedy_respects_capacity() {
    let cases: Vec<(usize, Vec<(usize, usize)>)> = vec![
        (50, vec![(60, 10), (100, 20), (120, 30)]),
        (4, vec![(9, 5), (3, 2), (2, 2)]),
        (0, vec![(5, 1), (6, 2)]),
        (17, vec![(10, 9), (10, 9), (9, 8), (2, 2)]),
    ];
    for (capacity, pairs) in cases {
        let mut items = mk(&pairs);
        let (value, taken) = greedy_density(capacity, &mut items);
        assert_eq!(taken.len(), items.len());
        let (sel_value, sel_weight) = selection_sums(&items, &taken);
        assert_eq!(sel_value, value);
        assert!(sel_weight <= capacity);
    }
}

#[test]
fn greedy_takes_denser_items_first() {
    let mut items = mk(&[(60, 10), (100, 20), (120, 30)]);
    let (value, taken) = greedy_density(50, &mut items);
    // densities 6 > 5 > 4: the greedy fill takes the first two and
    // has no room for the third
    assert_eq!(value, 160);
    assert_eq!(taken, vec![1, 1, 0]);
}

#[test]
fn branch_and_bound_value_equals_dp_value() {
    let cases: Vec<(usize, Vec<(usize, usize)>)> = vec![
        (50, vec![(60, 10), (100, 20), (120, 30)]),
        (7, vec![(3, 2), (4, 3), (5, 4)]),
        (11, vec![(1, 1), (2, 2), (3, 3), (7, 5), (9, 6), (4, 4)]),
        (13, vec![(10, 9), (10, 9), (9, 8), (2, 2), (2, 2), (2, 2)]),
        (3, vec![(9, 4), (7, 3), (8, 3)]),
        (100, vec![(1, 2), (200, 100), (8, 3)]),
    ];
    for (capacity, pairs) in cases {
        let mut items = mk(&pairs);
        let (value, _) = branch_and_bound(capacity, &mut items);
        // the search reorders the items but the optimum is the same
        // whichever order the table is built in
        assert_eq!(value, dynamic_programming(capacity, &items).0);
        assert_eq!(value, brute_force(capacity, &items));
    }
}

#[test]
fn textbook_instance_capacity_fifty() {
    let items = mk(&[(60, 10), (100, 20), (120, 30)]);
    let (value, taken) = dynamic_programming(50, &items);
    assert_eq!(value, 220);
    assert_eq!(taken, vec![0, 1, 1]);
    let mut for_search = items.clone();
    let (best, selection) = solve(50, &mut for_search);
    assert_eq!(best, 220);
    // the selection comes from the greedy pass, which here keeps the
    // two densest items and realizes only 160 of the optimal 220
    assert_eq!(selection, vec![1, 1, 0]);
}

#[test]
fn textbook_instance_capacity_ten() {
    let items = mk(&[(60, 10), (100, 20), (120, 30)]);
    let (value, taken) = dynamic_programming(10, &items);
    assert_eq!(value, 60);
    assert_eq!(taken, vec![1, 0, 0]);
    let mut for_search = items.clone();
    let (best, selection) = solve(10, &mut for_search);
    assert_eq!(best, 60);
    assert_eq!(selection, vec![1, 0, 0]);
}

#[test]
fn single_item_exactly_matching_capacity_is_taken() {
    let items = mk(&[(42, 17)]);
    let (value, taken) = dynamic_programming(17, &items);
    assert_eq!(value, 42);
    assert_eq!(taken, vec![1]);
    let mut for_search = items.clone();
    let (best, selection) = solve(17, &mut for_search);
    assert_eq!(best, 42);
    assert_eq!(selection, vec![1]);
}

#[test]
fn zero_capacity_selects_nothing() {
    for n in 0..5usize {
        let pairs: Vec<(usize, usize)> = (0..n).map(|k| (k + 5, k + 1)).collect();
        let items = mk(&pairs);
        let (value, taken) = dynamic_programming(0, &items);
        assert_eq!(value, 0);
        assert_eq!(taken, vec![0u32; n]);
        let mut for_search = items.clone();
        let (best, selection) = solve(0, &mut for_search);
        assert_eq!(best, 0);
        assert_eq!(selection, vec![0u32; n]);
    }
}

#[test]
fn selection_vectors_are_zero_one_and_full_length() {
    let pairs = vec![(9, 4), (7, 3), (8, 3), (1, 1), (30, 11)];
    let items = mk(&pairs);
    let (_, dp_taken) = dynamic_programming(9, &items);
    assert_eq!(dp_taken.len(), pairs.len());
    assert!(dp_taken.iter().all(|&f| f == 0 || f == 1));
    let mut for_greedy = items.clone();
    let (_, g_taken) = greedy_density(9, &mut for_greedy);
    assert_eq!(g_taken.len(), pairs.len());
    assert!(g_taken.iter().all(|&f| f == 0 || f == 1));
    let mut for_search = items.clone();
    let (_, s_taken) = solve(9, &mut for_search);
    assert_eq!(s_taken.len(), pairs.len());
    assert!(s_taken.iter().all(|&f| f == 0 || f == 1));
}

#[test]
fn empty_instance_yields_nothing() {
    let items: Vec<Item> = Vec::new();
    let (value, taken) = dynamic_programming(9, &items);
    assert_eq!(value, 0);
    assert!(taken.is_empty());
    let mut for_search: Vec<Item> = Vec::new();
    let (best, selection) = solve(9, &mut for_search);
    assert_eq!(best, 0);
    assert!(selection.is_empty());
}

#[test]
fn parsed_input_solves_end_to_end() {
    let input = b"3 50\n60 10\n100 20\n120 30\n".to_vec();
    let (capacity, mut items) = knapsack::parse::parse(&input).unwrap();
    let (value, taken) = solve(capacity, &mut items);
    assert_eq!(value, 220);
    assert_eq!(taken.len(), 3);
    assert!(taken.iter().all(|&f| f == 0 || f == 1));
}

#[test]
fn infeasible_node_bound_is_zero() {
    let items = mk(&[(5, 2), (3, 1)]);
    let mut node = Node::new(4, -1, 0);
    let (num, den) = node.calculate_optimistic_value(&items);
    assert_eq!(num, 0);
    assert_eq!(den, 1);
}
