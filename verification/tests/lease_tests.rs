use fer_model::lease::{classify_reuse, interval_to_u64, plan_tenancies, tally_tenancies, MissingLease, TenancyRule, NO_REUSE};
use std::collections::HashMap;

#[test]
fn reuse_within_short_lease_is_exact() {
    assert_eq!(classify_reuse(5, 10, 20, 0.5f64), TenancyRule::Exact(5));
    assert_eq!(classify_reuse(10, 10, 20, 0.5f64), TenancyRule::Exact(10));
    assert_eq!(classify_reuse(0, 10, 20, 0.5f64), TenancyRule::Exact(0));
}

#[test]
fn reuse_between_leases_blends_with_interval() {
    assert_eq!(
        classify_reuse(15, 10, 20, 0.25f64),
        TenancyRule::Blend { short_lease: 10, other: 15, short_prob: 0.25 }
    );
    assert_eq!(
        classify_reuse(20, 10, 20, 0.25f64),
        TenancyRule::Blend { short_lease: 10, other: 20, short_prob: 0.25 }
    );
}

#[test]
fn reuse_beyond_long_lease_blends_with_long_lease() {
    assert_eq!(
        classify_reuse(21, 10, 20, 0.75f64),
        TenancyRule::Blend { short_lease: 10, other: 20, short_prob: 0.75 }
    );
}

#[test]
fn no_reuse_marker_blends_with_long_lease() {
    // Even when the marker is within the short lease, it is not a reuse.
    assert_eq!(
        classify_reuse(NO_REUSE, 5_000_000_000, 6_000_000_000, 0.5f64),
        TenancyRule::Blend { short_lease: 5_000_000_000, other: 6_000_000_000, short_prob: 0.5 }
    );
}

#[test]
fn negative_interval_wraps_like_a_cast() {
    assert_eq!(interval_to_u64(-1), u64::MAX);
    assert_eq!(interval_to_u64(-1), (-1i64) as u64);
    assert_eq!(interval_to_u64(i64::MIN), i64::MIN as u64);
    assert_eq!(interval_to_u64(42), 42);
    assert_eq!(
        classify_reuse(-1, 10, 20, 0.5f64),
        TenancyRule::Blend { short_lease: 10, other: 20, short_prob: 0.5 }
    );
}

#[test]
fn plan_follows_the_accesses_in_order() {
    let mut leases: HashMap<u64, (u64, u64, f64)> = HashMap::new();
    leases.insert(1, (4, 8, 0.5));
    leases.insert(2, (2, 3, 0.1));
    let accesses = vec![(1, 3), (2, 3), (1, 9), (2, NO_REUSE)];
    let rules = plan_tenancies(&accesses, &leases).unwrap();
    assert_eq!(
        rules,
        vec![
            TenancyRule::Exact(3),
            TenancyRule::Blend { short_lease: 2, other: 3, short_prob: 0.1 },
            TenancyRule::Blend { short_lease: 4, other: 8, short_prob: 0.5 },
            TenancyRule::Blend { short_lease: 2, other: 3, short_prob: 0.1 },
        ]
    );
}

#[test]
fn plan_reports_first_missing_reference() {
    let mut leases: HashMap<u64, (u64, u64, f64)> = HashMap::new();
    leases.insert(1, (4, 8, 0.5));
    let accesses = vec![(1, 3), (7, 3), (9, 1)];
    assert_eq!(plan_tenancies(&accesses, &leases), Err(MissingLease { reference: 7 }));
}

#[test]
fn plan_of_no_access_is_empty() {
    let leases: HashMap<u64, (u64, u64, f64)> = HashMap::new();
    let accesses: Vec<(u64, i64)> = vec![];
    assert_eq!(plan_tenancies(&accesses, &leases), Ok(vec![]));
}

#[test]
fn tally_counts_each_tenancy() {
    let td = tally_tenancies(&vec![3, 5, 3, 3, 7, 5]);
    assert_eq!(td.len(), 3);
    assert_eq!(td[&3], 3);
    assert_eq!(td[&5], 2);
    assert_eq!(td[&7], 1);
    let total: u64 = td.values().sum();
    assert_eq!(total, 6);
}

#[test]
fn tally_ignores_order_of_accesses() {
    assert_eq!(tally_tenancies(&vec![1, 2, 2, 9]), tally_tenancies(&vec![2, 9, 1, 2]));
}

#[test]
fn tally_of_nothing_is_empty() {
    assert!(tally_tenancies(&vec![]).is_empty());
}
