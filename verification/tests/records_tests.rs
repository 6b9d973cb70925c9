use fer_model::parse::decimal;
use fer_model::records::{
    distribution_csv, distribution_records, histogram_csv, histogram_records, lease_records, reuse_interval_records,
    RecordError,
};
use std::collections::HashMap;

#[test]
fn reuse_intervals_are_hex() {
    let text = b"a, ff\n 10 ,-1\n";
    assert_eq!(reuse_interval_records(text), Ok(vec![(10, 255), (16, -1)]));
}

#[test]
fn reuse_interval_table_without_rows() {
    assert_eq!(reuse_interval_records(b""), Ok(vec![]));
}

#[test]
fn reuse_interval_row_with_bad_field() {
    assert_eq!(reuse_interval_records(b"1,2\n3,zz\n4,x\n"), Err(RecordError::Row(1)));
}

#[test]
fn reuse_interval_row_too_short() {
    assert_eq!(reuse_interval_records(b"1\n2\n"), Err(RecordError::Row(0)));
}

#[test]
fn rows_of_unequal_length_are_rejected_by_csv() {
    assert_eq!(reuse_interval_records(b"1,2\n3,4,5\n"), Err(RecordError::Csv));
}

#[test]
fn lease_rows() {
    let text = b"x,12,a,1f,0.25\ny, 7 ,0, 10 , 1\n";
    assert_eq!(
        lease_records(text),
        Ok(vec![(12, (10, 31, "0.25".to_string())), (7, (0, 16, " 1".to_string()))])
    );
    assert_eq!(lease_records(b"x,12,a,1f\n"), Err(RecordError::Row(0)));
    assert_eq!(lease_records(b"x,12,a,1g,0.5\n"), Err(RecordError::Row(0)));
}

#[test]
fn distribution_rows_skip_the_header() {
    let text = b"tenancy,probability\n3,0.5\n8,0.5\n";
    assert_eq!(
        distribution_records(text),
        Ok(vec![(3, "0.5".to_string()), (8, "0.5".to_string())])
    );
    // The key is read as it stands, without trimming.
    assert_eq!(distribution_records(b"h,p\n 3,0.5\n"), Err(RecordError::Row(0)));
}

#[test]
fn histogram_rows() {
    let text = b"tenancy,number\n 1 ,10\n4,3\n";
    assert_eq!(histogram_records(text), Ok(vec![(1, 10), (4, 3)]));
}

#[test]
fn histogram_counts_are_read_first() {
    // Row 1 has a bad tenancy, row 2 a padded count: the count is read as it
    // stands on the first reading, so row 2 is named.
    let text = b"t,n\n1,1\nq,2\n3, 4\n";
    assert_eq!(histogram_records(text), Err(RecordError::Row(2)));
    let text = b"t,n\n1,1\nq,2\n3,4\n";
    assert_eq!(histogram_records(text), Err(RecordError::Row(1)));
}

#[test]
fn histogram_writes_sorted_rows() {
    let mut td: HashMap<u64, u64> = HashMap::new();
    td.insert(9, 1);
    td.insert(2, 40);
    td.insert(100, 7);
    let text = histogram_csv(&td).unwrap();
    assert_eq!(String::from_utf8(text).unwrap(), "tenancy,number\n2,40\n9,1\n100,7\n");
}

#[test]
fn histogram_text_reads_back() {
    let mut td: HashMap<u64, u64> = HashMap::new();
    td.insert(0, 5);
    td.insert(u64::MAX, 1);
    td.insert(12345, 67);
    let text = histogram_csv(&td).unwrap();
    assert_eq!(histogram_records(&text), Ok(vec![(0, 5), (12345, 67), (u64::MAX, 1)]));
}

#[test]
fn distribution_writes_sorted_rows() {
    let mut d: HashMap<u64, String> = HashMap::new();
    d.insert(3, "0.25".to_string());
    d.insert(1, "0.75".to_string());
    let text = distribution_csv(&d).unwrap();
    assert_eq!(String::from_utf8(text).unwrap(), "DCS,probability\n1,0.75\n3,0.25\n");
}

#[test]
fn decimal_matches_to_string() {
    for n in [0u64, 7, 10, 99, 100, 4294967295, u64::MAX] {
        assert_eq!(decimal(n), n.to_string());
    }
}
