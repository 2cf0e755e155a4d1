use shortest_paths::knapsack::{Item, Memo, Solver};

#[test]
fn memo_operations() {
    let memo = Memo { optimal_value: 7, used_weight: 4 };
    let item = Item::new(2, 3);
    let grown = memo.add(&item);
    assert_eq!(grown.optimal_value, 10);
    assert_eq!(grown.used_weight, 6);
    assert!(grown.makes_weight(6));
    assert!(!grown.makes_weight(5));
    assert!(grown.better_than(&memo));
    assert_eq!(Memo::better_value(&grown, &memo).optimal_value, 10);
}

#[test]
fn solve_small_knapsack() {
    let items = vec![Item::new(3, 4), Item::new(4, 5), Item::new(2, 3)];
    let mut solver = Solver::new(items, 6);
    assert_eq!(solver.solve(), 8);
}

#[test]
fn solve_empty_and_tight() {
    let mut empty = Solver::new(vec![], 10);
    assert_eq!(empty.solve(), 0);

    let mut tight = Solver::new(vec![Item::new(5, 9)], 4);
    assert_eq!(tight.solve(), 0);
}

#[test]
fn solve_matches_exhaustive_search() {
    let weights = [5u32, 4, 6, 3, 7];
    let values = [10u32, 40, 30, 50, 35];
    let cap = 10u32;
    let mut best = 0u32;
    for mask in 0..(1u32 << weights.len()) {
        let mut w = 0u32;
        let mut v = 0u32;
        for i in 0..weights.len() {
            if mask & (1 << i) != 0 {
                w += weights[i];
                v += values[i];
            }
        }
        if w <= cap && v > best {
            best = v;
        }
    }
    let items: Vec<Item> = weights
        .iter()
        .zip(values.iter())
        .map(|(w, v)| Item::new(*w, *v))
        .collect();
    let mut solver = Solver::new(items, cap);
    assert_eq!(solver.solve(), best);
}
