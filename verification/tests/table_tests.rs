use fer_model::table::table_from_records;

#[test]
fn later_record_replaces_earlier() {
    let t = table_from_records(&vec![(1u64, 0.5f64), (2, 0.25), (1, 0.75)]);
    assert_eq!(t.len(), 2);
    assert_eq!(t[&1], 0.75);
    assert_eq!(t[&2], 0.25);
}

#[test]
fn lease_table_keeps_all_fields() {
    let t = table_from_records(&vec![(10u64, (4u64, 8u64, 0.5f64)), (11, (1, 2, 0.9))]);
    assert_eq!(t[&10], (4, 8, 0.5));
    assert_eq!(t[&11], (1, 2, 0.9));
}

#[test]
fn table_of_no_records_is_empty() {
    let t = table_from_records::<u64>(&vec![]);
    assert!(t.is_empty());
}
