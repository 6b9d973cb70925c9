//! Keyed tables built from records, where a later record for a key replaces an
//! earlier one (as repeated `HashMap::insert` does).
use vstd::prelude::*;
use std::collections::HashMap;

verus! {

/// The value of the last record for `key` in `records`, if there is one.
pub open spec fn last_binding<V>(records: Seq<(u64, V)>, key: u64) -> Option<V>
    decreases records.len(),
{
    if records.len() == 0 {
        None
    } else if records.last().0 == key {
        Some(records.last().1)
    } else {
        last_binding(records.drop_last(), key)
    }
}

/// `m` maps each key of `records` to the value of its last record, and nothing else.
pub open spec fn is_table_of<V>(m: Map<u64, V>, records: Seq<(u64, V)>) -> bool {
    forall|key: u64|
        #![trigger m.contains_key(key)]
        #![trigger last_binding(records, key)]
        (m.contains_key(key) <==> last_binding(records, key) is Some) && (m.contains_key(key)
            ==> m[key] == last_binding(records, key).unwrap())
}

/// Builds the table of `records`: each key maps to the value of its last record.
pub fn table_from_records<V: Copy>(records: &Vec<(u64, V)>) -> (table: HashMap<u64, V>)
    ensures
        is_table_of(table@, records@),
{
    broadcast use vstd::std_specs::hash::group_hash_axioms;

    let mut table: HashMap<u64, V> = HashMap::new();
    let mut i: usize = 0;
    while i < records.len()
        invariant
            i <= records@.len(),
            is_table_of(table@, records@.take(i as int)),
        decreases records@.len() - i,
    {
        let (key, value) = records[i];
        assert(records@.take(i + 1).drop_last() =~= records@.take(i as int));
        table.insert(key, value);
        i = i + 1;
    }
    assert(records@.take(records@.len() as int) =~= records@);
    table
}

/// A key's entry in the table is decided by its last record alone: records
/// appended after it for other keys leave it unchanged, and a record appended for
/// it replaces it.
pub proof fn lemma_last_record_wins<V>(records: Seq<(u64, V)>, key: u64, value: V, other: u64)
    requires
        other != key,
    ensures
        last_binding(records.push((key, value)), key) == Some(value),
        last_binding(records.push((key, value)), other) == last_binding(records, other),
{
    assert(records.push((key, value)).drop_last() =~= records);
}

} // verus!
