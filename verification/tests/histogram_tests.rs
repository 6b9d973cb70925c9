use fer_model::histogram::{tenancy_expectation, tenancy_square_total, total_accesses};

fn float_expectation(td: &Vec<(u64, u64)>) -> u64 {
    let total: u64 = td.iter().map(|(_, c)| *c).sum();
    let e = td.iter().fold(0.0, |acc, (t, c)| acc + *t as f64 * (*c as f64 / total as f64));
    if (e as u64) as f64 == e { e as u64 } else { (e.floor() + 1.0) as u64 }
}

#[test]
fn total_adds_counts() {
    assert_eq!(total_accesses(&vec![(1, 2), (5, 3), (9, 0)]), Some(5));
    assert_eq!(total_accesses(&vec![]), Some(0));
}

#[test]
fn total_that_overflows_is_none() {
    assert_eq!(total_accesses(&vec![(1, u64::MAX), (2, 1)]), None);
    assert_eq!(total_accesses(&vec![(1, u64::MAX), (2, 0)]), Some(u64::MAX));
}

#[test]
fn expectation_of_whole_mean() {
    // mean (2*1 + 4*1) / 2 = 3
    assert_eq!(tenancy_expectation(&vec![(2, 1), (4, 1)]), 3);
}

#[test]
fn expectation_rounds_up() {
    // mean (1*2 + 2*1) / 3 = 4/3 -> 2
    assert_eq!(tenancy_expectation(&vec![(1, 2), (2, 1)]), 2);
    // mean 10/4 = 2.5 -> 3
    assert_eq!(tenancy_expectation(&vec![(1, 1), (2, 1), (3, 2)]), 3);
}

#[test]
fn expectation_matches_float_model() {
    let td = vec![(1, 10), (4, 3), (16, 5), (64, 1)];
    assert_eq!(tenancy_expectation(&td), float_expectation(&td));
    let td = vec![(3, 7), (11, 2)];
    assert_eq!(tenancy_expectation(&td), float_expectation(&td));
}

#[test]
fn expectation_of_empty_histogram_is_zero() {
    assert_eq!(tenancy_expectation(&vec![]), 0);
    assert_eq!(tenancy_expectation(&vec![(5, 0)]), 0);
}

#[test]
fn expectation_stays_within_tenancies() {
    let td = vec![(7, 3), (9, 100), (1000, 0)];
    let pcs = tenancy_expectation(&td);
    assert!(7 <= pcs && pcs <= 9);
    assert_eq!(tenancy_expectation(&vec![(u64::MAX, 3)]), u64::MAX);
}

#[test]
fn square_total_weights_squares() {
    assert_eq!(tenancy_square_total(&vec![(2, 3), (5, 1)]), 4 * 3 + 25);
    assert_eq!(
        tenancy_square_total(&vec![(u32::MAX as u64, u64::MAX)]),
        (u32::MAX as u128) * (u32::MAX as u128) * (u64::MAX as u128)
    );
}
