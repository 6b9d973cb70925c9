//! Tenancies of accesses under a two-lease policy.
use vstd::prelude::*;
use std::collections::HashMap;
use vstd::multiset::Multiset;

verus! {

/// Reuse interval that marks an access whose block is never reused.
pub const NO_REUSE: i64 = 4294967295;

/// The value `ri as u64` has in Rust: a negative interval wraps around modulo 2^64.
pub open spec fn interval_as_u64(ri: i64) -> u64 {
    if ri >= 0 {
        ri as u64
    } else {
        (ri + 0x1_0000_0000_0000_0000) as u64
    }
}

/// How the tenancy of one access is obtained.
#[derive(Debug, PartialEq)]
pub enum TenancyRule<P> {
    /// The tenancy is this reuse interval.
    Exact(u64),
    /// The tenancy is `short_lease * short_prob + other * (1 - short_prob)`,
    /// rounded to the nearest integer.
    Blend { short_lease: u64, other: u64, short_prob: P },
}

/// The rule for an access with reuse interval `ri` under the leases
/// `(short_lease, long_lease, short_prob)`.
pub open spec fn rule_for<P>(ri: i64, short_lease: u64, long_lease: u64, short_prob: P) -> TenancyRule<P> {
    let r = interval_as_u64(ri);
    if ri == NO_REUSE {
        TenancyRule::Blend { short_lease, other: long_lease, short_prob }
    } else if r <= short_lease {
        TenancyRule::Exact(r)
    } else if r <= long_lease {
        TenancyRule::Blend { short_lease, other: r, short_prob }
    } else {
        TenancyRule::Blend { short_lease, other: long_lease, short_prob }
    }
}

/// Leases cap tenancies: an exact tenancy never exceeds the short lease, and the
/// lease a tenancy is blended with never exceeds the long lease.
pub proof fn lemma_tenancy_capped_by_leases<P>(ri: i64, short_lease: u64, long_lease: u64, short_prob: P)
    ensures
        match rule_for(ri, short_lease, long_lease, short_prob) {
            TenancyRule::Exact(t) => t <= short_lease,
            TenancyRule::Blend { short_lease: s, other, short_prob: p } => s == short_lease && other
                <= long_lease && p == short_prob,
        },
{
}

/// The tenancy rule, case by case on the interval `r` an access's reuse interval
/// reads as: the never-reused marker is blended with the long lease; an interval
/// within the short lease is the tenancy itself; an interval past the short lease
/// but within the long lease is blended with that very interval; an interval past
/// both leases is blended with the long lease. A blend always keeps the short
/// lease and its probability.
pub proof fn lemma_tenancy_rule_cases<P>(ri: i64, short_lease: u64, long_lease: u64, short_prob: P)
    ensures
        ri == NO_REUSE ==> rule_for(ri, short_lease, long_lease, short_prob) == (TenancyRule::Blend {
            short_lease,
            other: long_lease,
            short_prob,
        }),
        ri != NO_REUSE && interval_as_u64(ri) <= short_lease ==> rule_for(
            ri,
            short_lease,
            long_lease,
            short_prob,
        ) == TenancyRule::<P>::Exact(interval_as_u64(ri)),
        ri != NO_REUSE && short_lease < interval_as_u64(ri) <= long_lease ==> rule_for(
            ri,
            short_lease,
            long_lease,
            short_prob,
        ) == (TenancyRule::Blend { short_lease, other: interval_as_u64(ri), short_prob }),
        ri != NO_REUSE && short_lease < interval_as_u64(ri) && long_lease < interval_as_u64(ri)
            ==> rule_for(ri, short_lease, long_lease, short_prob) == (TenancyRule::Blend {
            short_lease,
            other: long_lease,
            short_prob,
        }),
{
}

/// A reuse interval reads as the `u64` congruent to it modulo 2^64, so a
/// non-negative interval reads as itself.
pub proof fn lemma_interval_reads_modulo(ri: i64)
    ensures
        (interval_as_u64(ri) - ri) % 0x1_0000_0000_0000_0000 == 0,
        ri >= 0 ==> interval_as_u64(ri) == ri,
{
}

/// Converts a reuse interval to `u64` the way an `as` cast does.
pub fn interval_to_u64(ri: i64) -> (r: u64)
    ensures
        r == interval_as_u64(ri),
{
    if ri >= 0 {
        ri as u64
    } else {
        ((ri as i128) + 0x1_0000_0000_0000_0000i128) as u64
    }
}

/// Decides how the tenancy of an access with reuse interval `ri` is obtained.
pub fn classify_reuse<P: Copy>(ri: i64, short_lease: u64, long_lease: u64, short_prob: P) -> (rule: TenancyRule<P>)
    ensures
        rule == rule_for(ri, short_lease, long_lease, short_prob),
{
    let r = interval_to_u64(ri);
    if ri == NO_REUSE {
        TenancyRule::Blend { short_lease, other: long_lease, short_prob }
    } else if r <= short_lease {
        TenancyRule::Exact(r)
    } else if r <= long_lease {
        TenancyRule::Blend { short_lease, other: r, short_prob }
    } else {
        TenancyRule::Blend { short_lease, other: long_lease, short_prob }
    }
}


/// The rule for the access `(reference, ri)` when `leases` holds the leases of `reference`.
pub open spec fn planned_rule<P>(leases: Map<u64, (u64, u64, P)>, access: (u64, i64)) -> TenancyRule<P> {
    let lease = leases[access.0];
    rule_for(access.1, lease.0, lease.1, lease.2)
}

/// The rule planned for an access is the rule its own reuse interval decides
/// under the leases of its own reference: replacing the leases of any other
/// reference changes nothing.
pub proof fn lemma_plan_uses_own_lease<P>(
    leases: Map<u64, (u64, u64, P)>,
    reference: u64,
    ri: i64,
    other: u64,
    lease: (u64, u64, P),
)
    requires
        other != reference,
    ensures
        planned_rule(leases, (reference, ri)) == rule_for(
            ri,
            leases[reference].0,
            leases[reference].1,
            leases[reference].2,
        ),
        planned_rule(leases.insert(other, lease), (reference, ri)) == planned_rule(
            leases,
            (reference, ri),
        ),
{
}

/// An access names a reference for which no lease is known.
#[derive(Debug, Clone, Copy, PartialEq, Eq)]
pub struct MissingLease {
    pub reference: u64,
}

/// Decides, for each `(reference, ri)` access in order, how its tenancy is obtained
/// from the leases `(short_lease, long_lease, short_prob)` of its reference.
///
/// Fails on the first access whose reference has no lease.
pub fn plan_tenancies<P: Copy>(
    reference_ri_vec: &Vec<(u64, i64)>,
    reference_lease_map: &HashMap<u64, (u64, u64, P)>,
) -> (res: Result<Vec<TenancyRule<P>>, MissingLease>)
    ensures
        match res {
            Ok(rules) => {
                &&& forall|i: int|
                    0 <= i < reference_ri_vec@.len() ==> reference_lease_map@.contains_key(
                        #[trigger] reference_ri_vec@[i].0,
                    )
                &&& rules@.len() == reference_ri_vec@.len()
                &&& forall|i: int|
                    0 <= i < rules@.len() ==> #[trigger] rules@[i] == planned_rule(
                        reference_lease_map@,
                        reference_ri_vec@[i],
                    )
            },
            Err(missing) => exists|i: int|
                #![trigger reference_ri_vec@[i]]
                {
                    &&& 0 <= i < reference_ri_vec@.len()
                    &&& reference_ri_vec@[i].0 == missing.reference
                    &&& !reference_lease_map@.contains_key(missing.reference)
                    &&& forall|j: int|
                        0 <= j < i ==> reference_lease_map@.contains_key(
                            #[trigger] reference_ri_vec@[j].0,
                        )
                },
        },
{
    broadcast use vstd::std_specs::hash::group_hash_axioms;

    let mut rules: Vec<TenancyRule<P>> = Vec::new();
    let mut i: usize = 0;
    while i < reference_ri_vec.len()
        invariant
            i <= reference_ri_vec@.len(),
            rules@.len() == i,
            forall|j: int|
                0 <= j < i ==> reference_lease_map@.contains_key(#[trigger] reference_ri_vec@[j].0),
            forall|j: int|
                0 <= j < i ==> #[trigger] rules@[j] == planned_rule(
                    reference_lease_map@,
                    reference_ri_vec@[j],
                ),
        decreases reference_ri_vec@.len() - i,
    {
        let (reference, ri) = reference_ri_vec[i];
        match reference_lease_map.get(&reference) {
            Some(lease) => {
                let (short_lease, long_lease, short_prob) = *lease;
                let rule = classify_reuse(ri, short_lease, long_lease, short_prob);
                rules.push(rule);
            },
            None => {
                return Err(MissingLease { reference });
            },
        }
        i = i + 1;
    }
    Ok(rules)
}

/// `h` is the histogram of `s`: its keys are the values that occur in `s`, each
/// mapped to the number of times it occurs.
pub open spec fn is_histogram_of(h: Map<u64, u64>, s: Seq<u64>) -> bool {
    &&& forall|t: u64| #[trigger] h.contains_key(t) <==> s.contains(t)
    &&& forall|t: u64| #[trigger] h.contains_key(t) ==> h[t] == s.to_multiset().count(t)
}

/// Counts how often each tenancy occurs.
pub fn tally_tenancies(tenancies: &Vec<u64>) -> (td: HashMap<u64, u64>)
    ensures
        is_histogram_of(td@, tenancies@),
{
    broadcast use vstd::std_specs::hash::group_hash_axioms;
    broadcast use vstd::seq_lib::group_to_multiset_ensures;
    broadcast use vstd::multiset::group_multiset_axioms;

    let mut td: HashMap<u64, u64> = HashMap::new();
    let mut i: usize = 0;
    while i < tenancies.len()
        invariant
            i <= tenancies@.len(),
            is_histogram_of(td@, tenancies@.take(i as int)),
            forall|t: u64| #[trigger] td@.contains_key(t) ==> td@[t] <= i,
        decreases tenancies@.len() - i,
    {
        let t = tenancies[i];
        let ghost before = tenancies@.take(i as int);
        assert(tenancies@.take(i + 1) =~= before.push(t));
        let count: u64 = match td.get(&t) {
            Some(c) => *c,
            None => {
                assert(!before.contains(t));
                proof {
                    vstd::seq_lib::to_multiset_contains(before, t);
                }
                0
            },
        };
        assert(count == before.to_multiset().count(t));
        td.insert(t, count + 1);
        i = i + 1;
        proof {
            let after = tenancies@.take(i as int);
            assert(after[i - 1] == t);
            vstd::seq_lib::to_multiset_build(before, t);
            assert forall|u: u64| u != t implies after.to_multiset().count(u)
                == before.to_multiset().count(u) by {}
            assert forall|u: u64| #[trigger] td@.contains_key(u) <==> after.contains(u) by {
                if u != t {
                    if after.contains(u) {
                        let k = choose|k: int| 0 <= k < after.len() && after[k] == u;
                        assert(before[k] == u);
                    }
                    if before.contains(u) {
                        let k = choose|k: int| 0 <= k < before.len() && before[k] == u;
                        assert(after[k] == u);
                    }
                }
            }
        }
    }
    assert(tenancies@.take(tenancies@.len() as int) =~= tenancies@);
    td
}


/// The multiset whose multiplicities are the counts of the histogram `h`.
pub open spec fn histogram_multiset(h: Map<u64, u64>) -> Multiset<u64> {
    Multiset::from_map(Map::new(|t: u64| h.contains_key(t), |t: u64| h[t] as nat))
}

/// Tallying loses and invents no access: read as a multiset, the histogram of a
/// sequence of tenancies is the multiset of those tenancies, so its counts add up
/// to the number of accesses.
pub proof fn lemma_tally_keeps_every_access(h: Map<u64, u64>, s: Seq<u64>)
    requires
        is_histogram_of(h, s),
    ensures
        histogram_multiset(h) == s.to_multiset(),
        histogram_multiset(h).len() == s.len(),
{
    broadcast use vstd::multiset::group_multiset_axioms;
    broadcast use vstd::seq_lib::group_to_multiset_ensures;
    broadcast use vstd::seq_lib::seq_to_set_is_finite;

    let m = Map::new(|t: u64| h.contains_key(t), |t: u64| h[t] as nat);
    assert(m.dom() =~= s.to_set());
    assert(m.dom().finite());
    assert forall|t: u64| #[trigger] histogram_multiset(h).count(t) == s.to_multiset().count(t) by {
        if h.contains_key(t) {
            assert(m.dom().contains(t));
        } else {
            assert(!m.dom().contains(t));
            assert(!s.contains(t));
        }
    }
    assert(histogram_multiset(h) =~= s.to_multiset());
}

/// The histogram does not depend on the order of the accesses: a histogram of a
/// sequence is the histogram of every rearrangement of it.
pub proof fn lemma_tally_ignores_order(h: Map<u64, u64>, s1: Seq<u64>, s2: Seq<u64>)
    requires
        is_histogram_of(h, s1),
        s1.to_multiset() == s2.to_multiset(),
    ensures
        is_histogram_of(h, s2),
{
    broadcast use vstd::seq_lib::group_to_multiset_ensures;

    assert forall|t: u64| #[trigger] h.contains_key(t) <==> s2.contains(t) by {
        assert(s1.contains(t) <==> s1.to_multiset().count(t) > 0);
        assert(s2.contains(t) <==> s2.to_multiset().count(t) > 0);
    }
}

} // verus!
