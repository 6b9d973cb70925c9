use fer_model::vcsd::{binomial_trials, overallocation, sorted_tenancies};
use std::collections::HashMap;

#[test]
fn tenancies_come_out_sorted() {
    let mut m: HashMap<u64, f64> = HashMap::new();
    for (k, v) in [(9u64, 0.1f64), (2, 0.2), (5, 0.3), (0, 0.4)] {
        m.insert(k, v);
    }
    assert_eq!(sorted_tenancies(&m), vec![0, 2, 5, 9]);
}

#[test]
fn sorted_tenancies_of_empty_map() {
    let m: HashMap<u64, f64> = HashMap::new();
    assert!(sorted_tenancies(&m).is_empty());
}

#[test]
fn trials_are_gaps_between_tenancies() {
    assert_eq!(binomial_trials(&vec![3, 5, 10]), vec![3, 2, 5]);
    assert_eq!(binomial_trials(&vec![0, 1]), vec![0, 1]);
    assert_eq!(binomial_trials(&vec![]), Vec::<u64>::new());
}

#[test]
fn trials_add_up_to_largest_tenancy() {
    let sorted = vec![4, 7, 8, 20, 21];
    let trials = binomial_trials(&sorted);
    assert_eq!(trials.iter().sum::<u64>(), 21);
}

#[test]
fn overallocation_above_pcs() {
    assert_eq!(overallocation(12, 10), Some(2));
    assert_eq!(overallocation(10, 10), None);
    assert_eq!(overallocation(3, 10), None);
}

#[test]
fn overallocation_compares_as_signed() {
    // A size above i64::MAX reads as negative, so it never exceeds the pcs.
    assert_eq!(overallocation(u64::MAX, 1), None);
    assert_eq!(overallocation(5, u64::MAX), Some(6));
}
