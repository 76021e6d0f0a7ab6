use banded_knapsack::item::{
    is_valid_instance, max_weight, selected_profit, selected_weight, Item,
};

fn items_of(pairs: &[(i64, i64)]) -> Vec<Item> {
    pairs.iter().map(|&(weight, profit)| Item { weight, profit }).collect()
}

#[test]
fn greatest_weight() {
    assert_eq!(max_weight(&Vec::new()), 0);
    assert_eq!(max_weight(&items_of(&[(3, 1)])), 3);
    assert_eq!(max_weight(&items_of(&[(3, 1), (9, 0), (4, 7)])), 9);
    assert_eq!(max_weight(&items_of(&[(0, 1), (0, 2)])), 0);
}

#[test]
fn totals_of_a_selection() {
    let items = items_of(&[(2, 3), (3, 4), (4, 5), (5, -6)]);
    assert_eq!(selected_weight(&items, &vec![]), 0);
    assert_eq!(selected_profit(&items, &vec![]), 0);
    assert_eq!(selected_weight(&items, &vec![0, 1]), 5);
    assert_eq!(selected_profit(&items, &vec![0, 1]), 7);
    assert_eq!(selected_weight(&items, &vec![3, 0, 2]), 11);
    assert_eq!(selected_profit(&items, &vec![3, 0, 2]), 2);
    assert_eq!(selected_weight(&items, &vec![1, 1]), 6);
}

#[test]
fn totals_do_not_overflow() {
    let items = items_of(&[(i64::MAX, i64::MIN), (i64::MAX, i64::MIN)]);
    assert_eq!(selected_weight(&items, &vec![0, 1]), 2 * (i64::MAX as i128));
    assert_eq!(selected_profit(&items, &vec![0, 1]), 2 * (i64::MIN as i128));
}

#[test]
fn accepted_instances() {
    assert!(is_valid_instance(&Vec::new(), 0));
    assert!(is_valid_instance(&items_of(&[(2, 3), (0, -4)]), 5));
    assert!(is_valid_instance(&items_of(&[(1, i64::MAX), (1, i64::MIN)]), 5));
    assert!(is_valid_instance(&items_of(&[(1, i64::MAX), (1, 0), (1, -1)]), i64::MAX));
}

#[test]
fn refused_instances() {
    assert!(!is_valid_instance(&Vec::new(), -1));
    assert!(!is_valid_instance(&items_of(&[(2, 3), (-1, 4)]), 5));
    assert!(!is_valid_instance(&items_of(&[(1, i64::MAX), (1, 1)]), 5));
    assert!(!is_valid_instance(&items_of(&[(1, i64::MIN), (1, 5), (1, -1)]), 5));
}
