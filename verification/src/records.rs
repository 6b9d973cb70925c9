//! The input tables, read from csv text: csv splits the text into rows of
//! fields, and each table's fields are read as integers where the model needs
//! integers.
use vstd::prelude::*;

use std::collections::HashMap;
use vstd::string::StringExecFns;

use crate::parse::{
    all_white_space, decimal, decimal_digits, digit_value, is_white_space, lemma_decimal_reads_back, lemma_numeral_reads_back,
    lemma_signed_numeral_reads_back, numeral, parse_trimmed_i64, parse_trimmed_u64, parse_u64,
    parsed_i64, parsed_u64, signed_numeral, trimmed,
};
use crate::vcsd::{sorted_tenancies, strictly_increasing};

verus! {

/// The rows that the csv crate reads from `text` with its default settings
/// (comma-separated, every row as long as the first), skipping the first row
/// when `has_headers`; each row as its fields. `None` where csv rejects the text.
pub uninterp spec fn csv_rows_of(text: Seq<u8>, has_headers: bool) -> Option<Seq<Seq<Seq<char>>>>;

/// Splits csv text into rows of fields with `csv::ReaderBuilder` (its defaults,
/// and `has_headers` as given), reading every record as a `StringRecord`.
/// Trusted: the rows returned are `csv_rows_of(text, has_headers)`, and `None`
/// comes exactly when csv reports an error for some record.
#[verifier::external_body]
fn csv_rows(text: &[u8], has_headers: bool) -> (rows: Option<Vec<Vec<String>>>)
    ensures
        match rows {
            Some(r) => csv_rows_of(text@, has_headers) == Some(r.deep_view()),
            None => csv_rows_of(text@, has_headers) is None,
        },
{
    let mut reader = csv::ReaderBuilder::new().has_headers(has_headers).from_reader(text);
    let mut rows: Vec<Vec<String>> = Vec::new();
    for record in reader.records() {
        match record {
            Ok(record) => rows.push(record.iter().map(|field| field.to_string()).collect()),
            Err(_) => return None,
        }
    }
    Some(rows)
}

/// Why a table could not be read.
#[derive(Debug, Clone, Copy, PartialEq, Eq)]
pub enum RecordError {
    /// csv rejected the text.
    Csv,
    /// This row (counted from 0, after any header row) is the first that lacks
    /// a field the table needs or holds a field that cannot be read.
    Row(usize),
}

/// `res` reads the csv rows `rows`: every row is `ok` and the values agree with
/// the rows one for one; or the error says why not.
pub open spec fn reads_rows<T>(
    res: Result<Vec<T>, RecordError>,
    rows: Option<Seq<Seq<Seq<char>>>>,
    ok: spec_fn(Seq<Seq<char>>) -> bool,
    agrees: spec_fn(T, Seq<Seq<char>>) -> bool,
) -> bool {
    match res {
        Ok(v) => rows matches Some(r) && v@.len() == r.len() && forall|j: int|
            #![trigger r[j]]
            0 <= j < r.len() ==> ok(r[j]) && agrees(v@[j], r[j]),
        Err(RecordError::Csv) => rows is None,
        Err(RecordError::Row(j)) => rows matches Some(r) && j < r.len() && !ok(r[j as int])
            && forall|k: int| #![trigger r[k]] 0 <= k < j ==> ok(r[k]),
    }
}

/// A reading is determined by the rows: it either succeeds or names a row, and
/// the row it names is the same whichever way it is reached, namely the first row
/// that is not accepted.
pub proof fn lemma_reading_names_first_bad_row<T>(
    res: Result<Vec<T>, RecordError>,
    j: usize,
    k: usize,
    rows: Option<Seq<Seq<Seq<char>>>>,
    ok: spec_fn(Seq<Seq<char>>) -> bool,
    agrees: spec_fn(T, Seq<Seq<char>>) -> bool,
)
    requires
        reads_rows(res, rows, ok, agrees),
    ensures
        reads_rows(Err(RecordError::Row(j)), rows, ok, agrees) && reads_rows(
            Err(RecordError::Row(k)),
            rows,
            ok,
            agrees,
        ) ==> j == k,
        res is Ok ==> !reads_rows(Err(RecordError::Row(j)), rows, ok, agrees),
        res is Ok ==> !reads_rows(Err(RecordError::Csv), rows, ok, agrees),
        rows is None ==> res == Err::<Vec<T>, RecordError>(RecordError::Csv),
{
    if reads_rows(Err(RecordError::Row(j)), rows, ok, agrees) && reads_rows(
        Err(RecordError::Row(k)),
        rows,
        ok,
        agrees,
    ) {
        let r = rows.unwrap();
        if j < k {
            assert(ok(r[j as int]));
        } else if k < j {
            assert(ok(r[k as int]));
        }
    }
    if res is Ok && reads_rows(Err(RecordError::Row(j)), rows, ok, agrees) {
        let r = rows.unwrap();
        assert(ok(r[j as int]));
    }
}

/// A row of the reuse-interval table: the reference and the reuse interval, in
/// hexadecimal, each trimmed.
pub open spec fn reuse_row_ok(row: Seq<Seq<char>>) -> bool {
    &&& row.len() >= 2
    &&& parsed_u64(trimmed(row[0]), 16) is Some
    &&& parsed_i64(trimmed(row[1]), 16) is Some
}

pub open spec fn reuse_row_agrees(v: (u64, i64), row: Seq<Seq<char>>) -> bool {
    &&& Some(v.0) == parsed_u64(trimmed(row[0]), 16)
    &&& Some(v.1) == parsed_i64(trimmed(row[1]), 16)
}

/// A row of the lease table: field 1 the reference in decimal, fields 2 and 3
/// the short and long lease in hexadecimal (each trimmed), field 4 the
/// probability of the short lease.
pub open spec fn lease_row_ok(row: Seq<Seq<char>>) -> bool {
    &&& row.len() >= 5
    &&& parsed_u64(trimmed(row[1]), 10) is Some
    &&& parsed_u64(trimmed(row[2]), 16) is Some
    &&& parsed_u64(trimmed(row[3]), 16) is Some
}

pub open spec fn lease_row_agrees(v: (u64, (u64, u64, String)), row: Seq<Seq<char>>) -> bool {
    &&& Some(v.0) == parsed_u64(trimmed(row[1]), 10)
    &&& Some(v.1.0) == parsed_u64(trimmed(row[2]), 16)
    &&& Some(v.1.1) == parsed_u64(trimmed(row[3]), 16)
    &&& v.1.2@ == row[4]
}

/// A row of a distribution table: field 0 the key in decimal (not trimmed),
/// field 1 its probability.
pub open spec fn distribution_row_ok(row: Seq<Seq<char>>) -> bool {
    &&& row.len() >= 2
    &&& parsed_u64(row[0], 10) is Some
}

pub open spec fn distribution_row_agrees(v: (u64, String), row: Seq<Seq<char>>) -> bool {
    &&& Some(v.0) == parsed_u64(row[0], 10)
    &&& v.1@ == row[1]
}

/// The reuse-interval table (no header row): `(reference, reuse interval)` per row.
pub fn reuse_interval_records(text: &[u8]) -> (res: Result<Vec<(u64, i64)>, RecordError>)
    ensures
        reads_rows(
            res,
            csv_rows_of(text@, false),
            (|row: Seq<Seq<char>>| reuse_row_ok(row)),
            (|v: (u64, i64), row: Seq<Seq<char>>| reuse_row_agrees(v, row)),
        ),
{
    let rows = match csv_rows(text, false) {
        Some(rows) => rows,
        None => return Err(RecordError::Csv),
    };
    let ghost r = rows.deep_view();
    let mut out: Vec<(u64, i64)> = Vec::new();
    let mut j: usize = 0;
    while j < rows.len()
        invariant
            r == rows.deep_view(),
            csv_rows_of(text@, false) == Some(r),
            j <= rows@.len(),
            out@.len() == j,
            forall|k: int| #![trigger r[k]] 0 <= k < j ==> reuse_row_ok(r[k]) && reuse_row_agrees(out@[k], r[k]),
        decreases rows@.len() - j,
    {
        let row = &rows[j];
        assert(r[j as int] == row.deep_view());
        if row.len() < 2 {
            return Err(RecordError::Row(j));
        }
        assert(row.deep_view()[0] == row@[0]@ && row.deep_view()[1] == row@[1]@);
        let reference = parse_trimmed_u64(row[0].as_str(), 16);
        let ri = parse_trimmed_i64(row[1].as_str(), 16);
        match (reference, ri) {
            (Some(reference), Some(ri)) => {
                out.push((reference, ri));
            },
            _ => {
                return Err(RecordError::Row(j));
            },
        }
        j = j + 1;
    }
    Ok(out)
}

/// The lease table (no header row): `(reference, (short lease, long lease,
/// probability text))` per row; the probability is handed back as its field.
pub fn lease_records(text: &[u8]) -> (res: Result<Vec<(u64, (u64, u64, String))>, RecordError>)
    ensures
        reads_rows(
            res,
            csv_rows_of(text@, false),
            (|row: Seq<Seq<char>>| lease_row_ok(row)),
            (|v: (u64, (u64, u64, String)), row: Seq<Seq<char>>| lease_row_agrees(v, row)),
        ),
{
    let rows = match csv_rows(text, false) {
        Some(rows) => rows,
        None => return Err(RecordError::Csv),
    };
    let ghost r = rows.deep_view();
    let mut out: Vec<(u64, (u64, u64, String))> = Vec::new();
    let mut j: usize = 0;
    while j < rows.len()
        invariant
            r == rows.deep_view(),
            csv_rows_of(text@, false) == Some(r),
            j <= rows@.len(),
            out@.len() == j,
            forall|k: int| #![trigger r[k]] 0 <= k < j ==> lease_row_ok(r[k]) && lease_row_agrees(out@[k], r[k]),
        decreases rows@.len() - j,
    {
        let row = &rows[j];
        assert(r[j as int] == row.deep_view());
        if row.len() < 5 {
            return Err(RecordError::Row(j));
        }
        assert(row.deep_view()[1] == row@[1]@ && row.deep_view()[2] == row@[2]@);
        assert(row.deep_view()[3] == row@[3]@ && row.deep_view()[4] == row@[4]@);
        let reference = parse_trimmed_u64(row[1].as_str(), 10);
        let short_lease = parse_trimmed_u64(row[2].as_str(), 16);
        let long_lease = parse_trimmed_u64(row[3].as_str(), 16);
        match (reference, short_lease, long_lease) {
            (Some(reference), Some(short_lease), Some(long_lease)) => {
                let prob = row[4].clone();
                out.push((reference, (short_lease, long_lease, prob)));
            },
            _ => {
                return Err(RecordError::Row(j));
            },
        }
        j = j + 1;
    }
    Ok(out)
}

/// A distribution table (with a header row): `(key, probability text)` per row.
pub fn distribution_records(text: &[u8]) -> (res: Result<Vec<(u64, String)>, RecordError>)
    ensures
        reads_rows(
            res,
            csv_rows_of(text@, true),
            (|row: Seq<Seq<char>>| distribution_row_ok(row)),
            (|v: (u64, String), row: Seq<Seq<char>>| distribution_row_agrees(v, row)),
        ),
{
    let rows = match csv_rows(text, true) {
        Some(rows) => rows,
        None => return Err(RecordError::Csv),
    };
    let ghost r = rows.deep_view();
    let mut out: Vec<(u64, String)> = Vec::new();
    let mut j: usize = 0;
    while j < rows.len()
        invariant
            r == rows.deep_view(),
            csv_rows_of(text@, true) == Some(r),
            j <= rows@.len(),
            out@.len() == j,
            forall|k: int| #![trigger r[k]] 0 <= k < j ==> distribution_row_ok(r[k]) && distribution_row_agrees(out@[k], r[k]),
        decreases rows@.len() - j,
    {
        let row = &rows[j];
        assert(r[j as int] == row.deep_view());
        if row.len() < 2 {
            return Err(RecordError::Row(j));
        }
        assert(row.deep_view()[0] == row@[0]@ && row.deep_view()[1] == row@[1]@);
        match parse_u64(row[0].as_str(), 10) {
            Some(key) => {
                let prob = row[1].clone();
                out.push((key, prob));
            },
            None => {
                return Err(RecordError::Row(j));
            },
        }
        j = j + 1;
    }
    Ok(out)
}


/// A row of the tenancy table, as its first reading sees it: field 1, the count,
/// in decimal, as it stands.
pub open spec fn histogram_row_counted(row: Seq<Seq<char>>) -> bool {
    &&& row.len() >= 2
    &&& parsed_u64(row[1], 10) is Some
}

/// A row of the tenancy table, as its second reading sees it: also the tenancy
/// (field 0) and the count, both trimmed, in decimal.
pub open spec fn histogram_row_ok(row: Seq<Seq<char>>) -> bool {
    &&& histogram_row_counted(row)
    &&& parsed_u64(trimmed(row[0]), 10) is Some
    &&& parsed_u64(trimmed(row[1]), 10) is Some
}

pub open spec fn histogram_row_agrees(v: (u64, u64), row: Seq<Seq<char>>) -> bool {
    &&& Some(v.0) == parsed_u64(trimmed(row[0]), 10)
    &&& Some(v.1) == parsed_u64(trimmed(row[1]), 10)
}

/// The tenancy table (with a header row): `(tenancy, count)` per row. The table
/// is read twice: first every count as it stands, then every row trimmed; an
/// error names the first row that fails the first reading, or else the first
/// that fails the second.
pub fn histogram_records(text: &[u8]) -> (res: Result<Vec<(u64, u64)>, RecordError>)
    ensures
        match res {
            Err(RecordError::Row(j)) => csv_rows_of(text@, true) matches Some(r) && j < r.len() && {
                ||| !histogram_row_counted(r[j as int]) && forall|k: int|
                    #![trigger r[k]]
                    0 <= k < j ==> histogram_row_counted(r[k])
                ||| (forall|k: int| #![trigger r[k]] 0 <= k < r.len() ==> histogram_row_counted(r[k]))
                    && !histogram_row_ok(r[j as int]) && forall|k: int|
                    #![trigger r[k]]
                    0 <= k < j ==> histogram_row_ok(r[k])
            },
            _ => reads_rows(
                res,
                csv_rows_of(text@, true),
                (|row: Seq<Seq<char>>| histogram_row_ok(row)),
                (|v: (u64, u64), row: Seq<Seq<char>>| histogram_row_agrees(v, row)),
            ),
        },
{
    let rows = match csv_rows(text, true) {
        Some(rows) => rows,
        None => return Err(RecordError::Csv),
    };
    let ghost r = rows.deep_view();
    let mut j: usize = 0;
    while j < rows.len()
        invariant
            r == rows.deep_view(),
            csv_rows_of(text@, true) == Some(r),
            j <= rows@.len(),
            forall|k: int| #![trigger r[k]] 0 <= k < j ==> histogram_row_counted(r[k]),
        decreases rows@.len() - j,
    {
        let row = &rows[j];
        assert(r[j as int] == row.deep_view());
        if row.len() < 2 {
            return Err(RecordError::Row(j));
        }
        assert(row.deep_view()[1] == row@[1]@);
        if parse_u64(row[1].as_str(), 10).is_none() {
            return Err(RecordError::Row(j));
        }
        j = j + 1;
    }
    let mut out: Vec<(u64, u64)> = Vec::new();
    let mut j: usize = 0;
    while j < rows.len()
        invariant
            r == rows.deep_view(),
            csv_rows_of(text@, true) == Some(r),
            forall|k: int| #![trigger r[k]] 0 <= k < r.len() ==> histogram_row_counted(r[k]),
            j <= rows@.len(),
            out@.len() == j,
            forall|k: int| #![trigger r[k]] 0 <= k < j ==> histogram_row_ok(r[k]) && histogram_row_agrees(out@[k], r[k]),
        decreases rows@.len() - j,
    {
        let row = &rows[j];
        assert(r[j as int] == row.deep_view());
        assert(histogram_row_counted(r[j as int]));
        assert(row.deep_view()[0] == row@[0]@ && row.deep_view()[1] == row@[1]@);
        let tenancy = parse_trimmed_u64(row[0].as_str(), 10);
        let number = parse_trimmed_u64(row[1].as_str(), 10);
        match (tenancy, number) {
            (Some(tenancy), Some(number)) => {
                out.push((tenancy, number));
            },
            _ => {
                return Err(RecordError::Row(j));
            },
        }
        j = j + 1;
    }
    Ok(out)
}

/// The text that the csv crate's `Writer` (its defaults) writes for `rows`, one
/// record per row; `None` where csv refuses them (rows of unequal length).
pub uninterp spec fn csv_text_of(rows: Seq<Seq<Seq<char>>>) -> Option<Seq<u8>>;

/// Writes `rows` as csv text with `csv::Writer::from_writer` over a `Vec<u8>`.
/// Trusted: the text is `csv_text_of(rows)`, and `None` comes exactly when csv
/// reports an error for some record.
#[verifier::external_body]
fn csv_text(rows: &Vec<Vec<String>>) -> (text: Option<Vec<u8>>)
    ensures
        match text {
            Some(t) => csv_text_of(rows.deep_view()) == Some(t@),
            None => csv_text_of(rows.deep_view()) is None,
        },
{
    let mut writer = csv::Writer::from_writer(Vec::new());
    for row in rows.iter() {
        if writer.write_record(row).is_err() {
            return None;
        }
    }
    writer.into_inner().ok()
}

/// A header row, then one row `[key in decimal, value(key)]` per key.
pub open spec fn keyed_rows(header: Seq<Seq<char>>, keys: Seq<u64>, value: spec_fn(u64) -> Seq<char>) -> Seq<Seq<Seq<char>>> {
    seq![header] + Seq::new(keys.len(), |i: int| seq![decimal_digits(keys[i] as nat), value(keys[i])])
}

/// `text` is what csv writes for `rows`.
pub open spec fn writes_rows(text: Option<Vec<u8>>, rows: Seq<Seq<Seq<char>>>) -> bool {
    match text {
        Some(t) => csv_text_of(rows) == Some(t@),
        None => csv_text_of(rows) is None,
    }
}

/// Writes the header and one row per key, in the order of `keys`.
fn write_keyed(header0: String, header1: String, keys: &Vec<u64>, values: &Vec<String>) -> (text: Option<Vec<u8>>)
    requires
        keys@.len() == values@.len(),
    ensures
        writes_rows(
            text,
            seq![seq![header0@, header1@]] + Seq::new(
                keys@.len(),
                |i: int| seq![decimal_digits(keys@[i] as nat), values@[i]@],
            ),
        ),
{
    let ghost body = Seq::new(keys@.len(), |i: int| seq![decimal_digits(keys@[i] as nat), values@[i]@]);
    let ghost header = seq![header0@, header1@];
    let mut head: Vec<String> = Vec::new();
    head.push(header0);
    head.push(header1);
    assert(head.deep_view() =~= header);
    let mut rows: Vec<Vec<String>> = Vec::new();
    rows.push(head);
    assert(rows.deep_view() =~= seq![header] + body.take(0));
    let mut i: usize = 0;
    while i < keys.len()
        invariant
            i <= keys@.len(),
            keys@.len() == values@.len(),
            body == Seq::new(keys@.len(), |i: int| seq![decimal_digits(keys@[i] as nat), values@[i]@]),
            header == seq![header0@, header1@],
            rows.deep_view() =~= seq![header] + body.take(i as int),
        decreases keys@.len() - i,
    {
        let mut row: Vec<String> = Vec::new();
        row.push(decimal(keys[i]));
        row.push(values[i].clone());
        assert(row.deep_view() =~= body[i as int]);
        let ghost before = rows.deep_view();
        rows.push(row);
        assert(rows.deep_view() =~= before.push(body[i as int]));
        assert(body.take(i + 1) =~= body.take(i as int).push(body[i as int]));
        i = i + 1;
    }
    assert(body.take(keys@.len() as int) =~= body);
    csv_text(&rows)
}

/// The tenancy table as csv text: the header `tenancy,number`, then one row per
/// tenancy in increasing order, tenancy and count in decimal.
pub fn histogram_csv(td: &HashMap<u64, u64>) -> (text: Option<Vec<u8>>)
    ensures
        exists|keys: Seq<u64>|
            #![trigger strictly_increasing(keys)]
            strictly_increasing(keys) && keys.to_set() == td@.dom() && writes_rows(
                text,
                keyed_rows(
                    seq!["tenancy"@, "number"@],
                    keys,
                    (|k: u64| decimal_digits(td@[k] as nat)),
                ),
            ),
{
    broadcast use vstd::std_specs::hash::group_hash_axioms;

    let keys = sorted_tenancies(td);
    let mut values: Vec<String> = Vec::new();
    let mut i: usize = 0;
    while i < keys.len()
        invariant
            i <= keys@.len(),
            keys@.to_set() == td@.dom(),
            values@.len() == i,
            forall|j: int| #![trigger values@[j]] 0 <= j < i ==> values@[j]@ == decimal_digits(td@[keys@[j]] as nat),
        decreases keys@.len() - i,
    {
        assert(keys@.to_set().contains(keys@[i as int]));
        let count = match td.get(&keys[i]) {
            Some(c) => *c,
            None => 0,
        };
        values.push(decimal(count));
        i = i + 1;
    }
    let text = write_keyed(String::from_str("tenancy"), String::from_str("number"), &keys, &values);
    assert(keyed_rows(seq!["tenancy"@, "number"@], keys@, |k: u64| decimal_digits(td@[k] as nat))
        =~= seq![seq!["tenancy"@, "number"@]] + Seq::new(
        keys@.len(),
        |i: int| seq![decimal_digits(keys@[i] as nat), values@[i]@],
    ));
    text
}

/// A distribution as csv text: the header `DCS,probability`, then one row per key
/// in increasing order: the key in decimal and its value's text.
pub fn distribution_csv(output: &HashMap<u64, String>) -> (text: Option<Vec<u8>>)
    ensures
        exists|keys: Seq<u64>|
            #![trigger strictly_increasing(keys)]
            strictly_increasing(keys) && keys.to_set() == output@.dom() && writes_rows(
                text,
                keyed_rows(seq!["DCS"@, "probability"@], keys, (|k: u64| output@[k]@)),
            ),
{
    broadcast use vstd::std_specs::hash::group_hash_axioms;

    let keys = sorted_tenancies(output);
    let mut values: Vec<String> = Vec::new();
    let mut i: usize = 0;
    while i < keys.len()
        invariant
            i <= keys@.len(),
            keys@.to_set() == output@.dom(),
            values@.len() == i,
            forall|j: int| #![trigger values@[j]] 0 <= j < i ==> values@[j]@ == output@[keys@[j]]@,
        decreases keys@.len() - i,
    {
        assert(keys@.to_set().contains(keys@[i as int]));
        let value = match output.get(&keys[i]) {
            Some(v) => v.clone(),
            None => String::new(),
        };
        values.push(value);
        i = i + 1;
    }
    let text = write_keyed(String::from_str("DCS"), String::from_str("probability"), &keys, &values);
    assert(keyed_rows(seq!["DCS"@, "probability"@], keys@, |k: u64| output@[k]@) =~= seq![
        seq!["DCS"@, "probability"@],
    ] + Seq::new(keys@.len(), |i: int| seq![decimal_digits(keys@[i] as nat), values@[i]@]));
    text
}


/// A reuse-interval row whose first two fields are a reference and an interval
/// written in hexadecimal (a `-` before a negative interval), with any white
/// space around them, is read, and read as exactly that reference and interval.
pub proof fn lemma_reuse_row_reads_hex(
    row: Seq<Seq<char>>,
    reference: u64,
    ri: i64,
    p0: Seq<char>,
    q0: Seq<char>,
    p1: Seq<char>,
    q1: Seq<char>,
)
    requires
        row.len() >= 2,
        all_white_space(p0),
        all_white_space(q0),
        all_white_space(p1),
        all_white_space(q1),
        row[0] == p0 + numeral(reference as nat, 16) + q0,
        row[1] == p1 + signed_numeral(ri as int, 16) + q1,
    ensures
        reuse_row_ok(row),
        forall|v: (u64, i64)| reuse_row_agrees(v, row) <==> v == (reference, ri),
{
    lemma_numeral_reads_back(reference, 16, p0, q0);
    lemma_signed_numeral_reads_back(ri, 16, p1, q1);
}

/// White space around the fields of a reuse-interval row never matters: two
/// rows whose fields agree once trimmed are accepted alike and read alike.
pub proof fn lemma_reuse_row_ignores_padding(a: Seq<Seq<char>>, b: Seq<Seq<char>>)
    requires
        a.len() >= 2,
        b.len() >= 2,
        trimmed(a[0]) == trimmed(b[0]),
        trimmed(a[1]) == trimmed(b[1]),
    ensures
        reuse_row_ok(a) <==> reuse_row_ok(b),
        forall|v: (u64, i64)| reuse_row_agrees(v, a) <==> reuse_row_agrees(v, b),
{
}

/// A lease row whose field 1 is a reference in decimal and fields 2 and 3 the
/// short and long lease in hexadecimal, with any white space around them, is
/// read, and read as exactly those numbers with field 4 as the probability text.
pub proof fn lemma_lease_row_reads_numerals(
    row: Seq<Seq<char>>,
    reference: u64,
    short_lease: u64,
    long_lease: u64,
    p: Seq<char>,
    q: Seq<char>,
)
    requires
        row.len() >= 5,
        all_white_space(p),
        all_white_space(q),
        row[1] == p + numeral(reference as nat, 10) + q,
        row[2] == p + numeral(short_lease as nat, 16) + q,
        row[3] == p + numeral(long_lease as nat, 16) + q,
    ensures
        lease_row_ok(row),
        forall|v: (u64, (u64, u64, String))|
            lease_row_agrees(v, row) <==> (v.0 == reference && v.1.0 == short_lease && v.1.1
                == long_lease && v.1.2@ == row[4]),
{
    lemma_numeral_reads_back(reference, 10, p, q);
    lemma_numeral_reads_back(short_lease, 16, p, q);
    lemma_numeral_reads_back(long_lease, 16, p, q);
}

/// White space around the integer fields of a lease row never matters: two rows
/// whose fields 1 to 3 agree once trimmed, and whose field 4 is the same, are
/// accepted alike and read alike.
pub proof fn lemma_lease_row_ignores_padding(a: Seq<Seq<char>>, b: Seq<Seq<char>>)
    requires
        a.len() >= 5,
        b.len() >= 5,
        trimmed(a[1]) == trimmed(b[1]),
        trimmed(a[2]) == trimmed(b[2]),
        trimmed(a[3]) == trimmed(b[3]),
        a[4] == b[4],
    ensures
        lease_row_ok(a) <==> lease_row_ok(b),
        forall|v: (u64, (u64, u64, String))| lease_row_agrees(v, a) <==> lease_row_agrees(v, b),
{
}

/// A distribution row whose field 0 is a key in decimal is read, and read as
/// exactly that key with field 1 as the probability text; a field 0 that starts
/// with white space is refused, since the key is read as it stands.
pub proof fn lemma_distribution_row_reads_decimal(row: Seq<Seq<char>>, key: u64)
    requires
        row.len() >= 2,
    ensures
        row[0] == numeral(key as nat, 10) ==> distribution_row_ok(row),
        row[0] == numeral(key as nat, 10) ==> forall|v: (u64, String)|
            distribution_row_agrees(v, row) <==> (v.0 == key && v.1@ == row[1]),
        row[0].len() > 0 && is_white_space(row[0][0]) ==> !distribution_row_ok(row),
{
    lemma_numeral_reads_back(key, 10, Seq::empty(), Seq::empty());
    if row[0].len() > 0 && is_white_space(row[0][0]) {
        assert(digit_value(row[0][0], 10) is None);
    }
}

/// A tenancy-table row whose tenancy is in decimal, with any white space around
/// it, and whose count is in decimal as it stands, is read on both readings, and
/// read as exactly that tenancy and count; a count that starts with white space
/// fails the first reading.
pub proof fn lemma_histogram_row_reads_decimal(
    row: Seq<Seq<char>>,
    tenancy: u64,
    count: u64,
    p: Seq<char>,
    q: Seq<char>,
)
    requires
        row.len() >= 2,
        all_white_space(p),
        all_white_space(q),
    ensures
        row[0] == p + numeral(tenancy as nat, 10) + q && row[1] == numeral(count as nat, 10) ==> {
            &&& histogram_row_counted(row)
            &&& histogram_row_ok(row)
            &&& forall|v: (u64, u64)| histogram_row_agrees(v, row) <==> v == (tenancy, count)
        },
        row[1].len() > 0 && is_white_space(row[1][0]) ==> !histogram_row_counted(row),
{
    lemma_numeral_reads_back(tenancy, 10, p, q);
    lemma_numeral_reads_back(count, 10, Seq::empty(), Seq::empty());
    assert(Seq::<char>::empty() + numeral(count as nat, 10) + Seq::<char>::empty() =~= numeral(
        count as nat,
        10,
    ));
    if row[1].len() > 0 && is_white_space(row[1][0]) {
        assert(digit_value(row[1][0], 10) is None);
    }
}


/// What the tenancy table is written as reads back: every row after the header
/// holds a tenancy and its count, which both readings of the tenancy table accept
/// and read as that tenancy and that count.
pub proof fn lemma_histogram_table_reads_back(keys: Seq<u64>, td: Map<u64, u64>, i: int)
    requires
        0 <= i < keys.len(),
    ensures
        histogram_row_ok(
            keyed_rows(
                seq!["tenancy"@, "number"@],
                keys,
                (|k: u64| decimal_digits(td[k] as nat)),
            )[i + 1],
        ),
        histogram_row_agrees(
            (keys[i], td[keys[i]]),
            keyed_rows(
                seq!["tenancy"@, "number"@],
                keys,
                (|k: u64| decimal_digits(td[k] as nat)),
            )[i + 1],
        ),
{
    let rows = keyed_rows(seq!["tenancy"@, "number"@], keys, |k: u64| decimal_digits(td[k] as nat));
    assert(rows[i + 1] == seq![decimal_digits(keys[i] as nat), decimal_digits(td[keys[i]] as nat)]);
    lemma_decimal_reads_back(keys[i]);
    lemma_decimal_reads_back(td[keys[i]]);
}

/// What a distribution is written as reads back: every row after the header
/// holds a key, which the distribution reading accepts and reads as that key,
/// with the key's value text beside it.
pub proof fn lemma_distribution_table_reads_back(keys: Seq<u64>, output: Map<u64, String>, i: int)
    requires
        0 <= i < keys.len(),
    ensures
        distribution_row_ok(
            keyed_rows(seq!["DCS"@, "probability"@], keys, (|k: u64| output[k]@))[i + 1],
        ),
        forall|x: String|
            #![trigger x@]
            x@ == output[keys[i]]@ ==> distribution_row_agrees(
                (keys[i], x),
                keyed_rows(seq!["DCS"@, "probability"@], keys, (|k: u64| output[k]@))[i + 1],
            ),
{
    let rows = keyed_rows(seq!["DCS"@, "probability"@], keys, |k: u64| output[k]@);
    assert(rows[i + 1] == seq![decimal_digits(keys[i] as nat), output[keys[i]]@]);
    lemma_decimal_reads_back(keys[i]);
}

} // verus!
