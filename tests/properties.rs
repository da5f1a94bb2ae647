use knapsack::brute_force::{brute_force, BitString, BruteForceKnapsack};
use knapsack::dynamic_programming::{
    bottom_up, create_bottom_up_table, create_top_down_memoized_table, top_down_memoized,
    UNCOMPUTED,
};
use knapsack::greedy::{greatest_worth_first, largest_value_first, smallest_weight_first};
use knapsack::ordering::{item_rank, Priority};
use knapsack::{Item, ItemSet, Knapsack, SetConfig};
use rand::rngs::StdRng;
use rand::SeedableRng;

fn item(weight: u16, value: u16) -> Item {
    Item { weight, value }
}

fn regression_set() -> ItemSet {
    ItemSet::new(vec![item(2, 29), item(2, 23), item(1, 18), item(1, 13), item(1, 15)])
}

fn greedy_set() -> ItemSet {
    ItemSet::new(vec![item(10, 60), item(20, 100), item(30, 120)])
}

fn small_sets() -> Vec<Vec<Item>> {
    vec![
        vec![item(2, 29), item(2, 23), item(1, 18), item(1, 13), item(1, 15)],
        vec![item(10, 60), item(20, 100), item(30, 120)],
        vec![item(5, 10), item(4, 40), item(6, 30), item(3, 50)],
        vec![item(1, 1), item(1, 1), item(1, 1)],
        vec![item(7, 3), item(3, 7), item(4, 4), item(2, 2), item(9, 20), item(1, 1)],
        vec![item(12, 4), item(2, 2), item(1, 1), item(1, 2), item(4, 10)],
    ]
}

fn solvers() -> Vec<fn(&ItemSet, usize) -> Knapsack> {
    vec![
        bottom_up,
        top_down_memoized,
        brute_force,
        smallest_weight_first,
        largest_value_first,
        greatest_worth_first,
    ]
}

#[test]
fn exact_solvers_agree_with_exhaustive_search() {
    for items in small_sets() {
        let set = ItemSet::new(items);
        for capacity in 0..40 {
            let b = bottom_up(&set, capacity).value();
            let t = top_down_memoized(&set, capacity).value();
            let f = brute_force(&set, capacity).value();
            assert_eq!(b, t);
            assert_eq!(b, f);
        }
    }
}

#[test]
fn every_selection_fits_the_capacity() {
    for items in small_sets() {
        let set = ItemSet::new(items);
        for capacity in 0..40 {
            for solve in solvers() {
                let k = solve(&set, capacity);
                assert!(k.weight() <= capacity);
                let sum: usize = k.items().iter().map(|i| i.weight as usize).sum();
                assert_eq!(sum, k.weight());
            }
        }
    }
}

#[test]
fn greedy_never_beats_the_table() {
    for items in small_sets() {
        let set = ItemSet::new(items);
        for capacity in 0..40 {
            let exact = bottom_up(&set, capacity).value();
            assert!(smallest_weight_first(&set, capacity).value() <= exact);
            assert!(largest_value_first(&set, capacity).value() <= exact);
            assert!(greatest_worth_first(&set, capacity).value() <= exact);
        }
    }
}

#[test]
fn solving_twice_gives_the_same_items() {
    let set = regression_set();
    for solve in solvers() {
        let a = solve(&set, 4);
        let b = solve(&set, 4);
        assert_eq!(a.items(), b.items());
    }
}

#[test]
fn zero_capacity_selects_nothing() {
    let set = regression_set();
    for solve in solvers() {
        let k = solve(&set, 0);
        assert!(k.items().is_empty());
        assert_eq!(k.value(), 0);
    }
}

#[test]
fn empty_set_selects_nothing() {
    let set = ItemSet::new(vec![]);
    for solve in solvers() {
        let k = solve(&set, 10);
        assert!(k.items().is_empty());
        assert_eq!(k.weight(), 0);
    }
}

#[test]
fn regression_totals() {
    let k = bottom_up(&regression_set(), 5);
    assert_eq!(k.weight(), 5);
    assert_eq!(k.value(), 75);
    let t = top_down_memoized(&regression_set(), 5);
    assert_eq!(t.items(), k.items());
}

#[test]
fn greedy_scenario_values() {
    let set = greedy_set();
    assert_eq!(smallest_weight_first(&set, 50).value(), 160);
    assert_eq!(greatest_worth_first(&set, 50).value(), 160);
    assert_eq!(largest_value_first(&set, 50).value(), 220);
    assert_eq!(bottom_up(&set, 50).value(), 220);
}

#[test]
fn bottom_up_table_cells() {
    let v = create_bottom_up_table(&regression_set(), 5);
    assert_eq!(v.len(), 6);
    assert_eq!(v[0], vec![0; 6]);
    assert_eq!(v[1], vec![0, 0, 29, 29, 29, 29]);
    assert_eq!(v[2], vec![0, 0, 29, 29, 52, 52]);
    assert_eq!(v[5][5], 75);
    for row in &v {
        assert_eq!(row[0], 0);
    }
}

#[test]
fn top_down_table_matches_bottom_up() {
    for items in small_sets() {
        let set = ItemSet::new(items);
        for capacity in 0..20 {
            let full = create_bottom_up_table(&set, capacity);
            let (v, metrics) = create_top_down_memoized_table(&set, capacity);
            assert_eq!(v, full);
            assert_eq!(metrics.cache_miss, set.len() * capacity);
            assert!(metrics.cache_hit <= 2 * metrics.cache_miss);
        }
    }
}

#[test]
fn top_down_fills_cells_off_the_recursion_path() {
    let set = ItemSet::new(vec![item(1, 1), item(2, 1)]);
    let (v, _) = create_top_down_memoized_table(&set, 2);
    assert_eq!(v[1][1], 1);
    assert_eq!(v, create_bottom_up_table(&set, 2));
    assert!(v.iter().all(|row| row.iter().all(|c| *c != UNCOMPUTED)));
}

#[test]
fn top_down_cache_counts() {
    let set = ItemSet::new(vec![item(1, 1), item(1, 1), item(1, 1)]);
    let (v, metrics) = create_top_down_memoized_table(&set, 2);
    assert_eq!(metrics.cache_miss, 6);
    assert_eq!(metrics.cache_hit, 12);
    assert_eq!(v[3][1], 1);
    assert_eq!(v[3][2], 2);
}

#[test]
fn top_down_on_empty_set() {
    let (v, metrics) = create_top_down_memoized_table(&ItemSet::new(vec![]), 3);
    assert_eq!(v, vec![vec![0, 0, 0, 0]]);
    assert_eq!(metrics.cache_miss, 0);
    assert_eq!(metrics.cache_hit, 0);
}

#[test]
fn bit_string_operations() {
    let mut b = BitString::new(0b1010_0000);
    assert!(b.is_bit_set(5));
    assert!(!b.is_bit_set(4));
    assert_eq!(b.least_significant_bit(), 5);
    b.flip_bit(5);
    assert_eq!(b.data, 0b1000_0000);
    b.flip_bit(0);
    assert_eq!(b.data, 0b1000_0001);
    assert_eq!(BitString::new(0).least_significant_bit(), 64);
}

#[test]
fn exhaustive_instance_solve() {
    let mut k = BruteForceKnapsack::new(5, 5);
    k.weights = vec![2, 2, 1, 1, 1];
    k.values = vec![29, 23, 18, 13, 15];
    let (subset, value) = k.solve();
    assert_eq!(value, 75);
    assert_eq!(subset.data, 0b11101);
}

#[test]
fn exhaustive_search_over_capacity_skips() {
    let set = ItemSet::new(vec![item(6, 100), item(2, 3), item(3, 4)]);
    let k = brute_force(&set, 5);
    assert_eq!(k.items(), vec![item(2, 3), item(3, 4)]);
    assert_eq!(k.value(), 7);
}

#[test]
fn random_instance_within_bounds() {
    let mut k = BruteForceKnapsack::new(1000, 10);
    let mut rng = StdRng::seed_from_u64(7);
    k.initialize_values(&mut rng);
    assert!(k.weights.iter().all(|w| (50..=100).contains(w)));
    assert!(k.values.iter().all(|v| (100..=500).contains(v)));
    assert!(k.weights.iter().any(|w| *w != k.weights[0]) || k.values.iter().any(|v| *v != k.values[0]));
}

#[test]
fn random_set_within_bounds() {
    let config = SetConfig {
        min_weight: 100,
        max_weight: 1500,
        min_value: 100,
        max_value: 500,
        total: 50,
    };
    let set = ItemSet::new_random(config, StdRng::seed_from_u64(3));
    assert_eq!(set.len(), 50);
    for i in &set.items {
        assert!((100..=1500).contains(&i.weight));
        assert!((100..=500).contains(&i.value));
    }
}

#[test]
fn sorting_by_priority() {
    let set = ItemSet::new(vec![item(3, 30), item(1, 5), item(2, 40), item(1, 7)]);
    let by_weight = set.cloned_sort(Priority::WeightAscending);
    assert_eq!(by_weight.items, vec![item(1, 5), item(1, 7), item(2, 40), item(3, 30)]);
    let by_value = set.cloned_sort(Priority::ValueDescending);
    assert_eq!(by_value.items, vec![item(2, 40), item(3, 30), item(1, 7), item(1, 5)]);
    let by_worth = set.cloned_sort(Priority::WorthDescending);
    assert_eq!(by_worth.items, vec![item(2, 40), item(3, 30), item(1, 7), item(1, 5)]);
}

#[test]
fn worth_ranks_zero_weights_at_the_ends() {
    let set = ItemSet::new(vec![item(4, 8), item(0, 3), item(0, 0), item(1, 2), item(0, 9)]);
    let sorted = set.cloned_sort(Priority::WorthDescending);
    assert_eq!(
        sorted.items,
        vec![item(0, 3), item(0, 9), item(4, 8), item(1, 2), item(0, 0)]
    );
    assert_eq!(item_rank(Priority::WorthDescending, item(0, 5)), 0);
    assert!(
        item_rank(Priority::WorthDescending, item(1, 0))
            < item_rank(Priority::WorthDescending, item(0, 0))
    );
    assert!(
        item_rank(Priority::WorthDescending, item(3, 7))
            < item_rank(Priority::WorthDescending, item(3, 6))
    );
}

#[test]
fn worth_rank_matches_ratio_order() {
    let items: Vec<Item> = (1..40u16)
        .flat_map(|w| (0..40u16).map(move |v| item(w, v * 7)))
        .collect();
    for a in &items {
        for b in &items {
            let ra = a.value as f64 / a.weight as f64;
            let rb = b.value as f64 / b.weight as f64;
            let ka = item_rank(Priority::WorthDescending, *a);
            let kb = item_rank(Priority::WorthDescending, *b);
            assert_eq!(rb.total_cmp(&ra), ka.cmp(&kb));
        }
    }
}

#[test]
fn knapsack_insert_keeps_totals() {
    let mut k = Knapsack::new();
    k.insert(item(3, 4));
    k.insert(item(5, 6));
    assert_eq!(k.weight(), 8);
    assert_eq!(k.value(), 10);
    assert_eq!(k.items(), vec![item(3, 4), item(5, 6)]);
}
