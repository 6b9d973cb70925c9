//! The integer skeleton of the virtual-cache-size distribution.
//!
//! The distribution is a convolution of binomial distributions, one per distinct
//! tenancy: taken in increasing order, the stage of a tenancy has as many trials
//! as the gap to the previous tenancy (the first stage: the tenancy itself), and
//! its success probability is the probability of that tenancy or a longer one.
use vstd::prelude::*;
use std::collections::HashMap;
use vstd::std_specs::iter::IteratorSpec;

verus! {

/// Every element of `s` is smaller than every later one.
pub open spec fn strictly_increasing(s: Seq<u64>) -> bool {
    forall|i: int, j: int| 0 <= i < j < s.len() ==> s[i] < s[j]
}

/// The tenancies (keys) of a distribution, in increasing order.
pub fn sorted_tenancies<V>(input: &HashMap<u64, V>) -> (sorted: Vec<u64>)
    ensures
        strictly_increasing(sorted@),
        sorted@.to_set() == input@.dom(),
{
    broadcast use vstd::std_specs::hash::group_hash_axioms;

    let ghost all: Seq<u64> = input.keys().remaining().unref();
    let mut keys: Vec<u64> = Vec::new();
    for k in it: input.keys()
        invariant
            it.seq() == input.keys().remaining(),
            keys@ == it.seq().take(it.index()).unref(),
    {
        keys.push(*k);
    }
    assert(keys@ == all);
    let mut sorted: Vec<u64> = Vec::new();
    let mut i: usize = 0;
    while i < keys.len()
        invariant
            i <= keys@.len(),
            keys@.no_duplicates(),
            keys@.to_set() == input@.dom(),
            strictly_increasing(sorted@),
            sorted@.to_set() == keys@.take(i as int).to_set(),
        decreases keys@.len() - i,
    {
        let k = keys[i];
        let ghost old_sorted = sorted@;
        let ghost prefix = keys@.take(i as int);
        assert(!prefix.contains(k)) by {
            if prefix.contains(k) {
                let j = choose|j: int| 0 <= j < prefix.len() && prefix[j] == k;
                assert(keys@[j] == keys@[i as int]);
            }
        }
        assert(!old_sorted.contains(k)) by {
            if old_sorted.contains(k) {
                assert(old_sorted.to_set().contains(k));
            }
        }
        let mut p: usize = 0;
        while p < sorted.len() && sorted[p] < k
            invariant
                p <= sorted@.len(),
                sorted@ == old_sorted,
                forall|j: int| 0 <= j < p ==> sorted@[j] < k,
            decreases sorted@.len() - p,
        {
            p = p + 1;
        }
        if p < sorted.len() {
            assert(sorted@[p as int] != k);
        }
        sorted.insert(p, k);
        proof {
            let s = sorted@;
            assert forall|a: int, b: int| 0 <= a < b < s.len() implies s[a] < s[b] by {
                if b < p {
                } else if b == p {
                    assert(s[a] == old_sorted[a]);
                } else if a < p {
                    assert(s[b] == old_sorted[b - 1]);
                    assert(old_sorted[p as int] > k);
                } else if a == p {
                    assert(s[b] == old_sorted[b - 1]);
                    assert(old_sorted[p as int] > k);
                } else {
                    assert(s[a] == old_sorted[a - 1]);
                    assert(s[b] == old_sorted[b - 1]);
                }
            }
            assert(keys@.take(i + 1) =~= prefix.push(k));
            assert(s.to_set() =~= old_sorted.to_set().insert(k)) by {
                assert forall|x: u64| s.contains(x) <==> old_sorted.contains(x) || x == k by {
                    if s.contains(x) {
                        let j = choose|j: int| 0 <= j < s.len() && s[j] == x;
                        if j < p {
                            assert(old_sorted[j] == x);
                        } else if j > p {
                            assert(old_sorted[j - 1] == x);
                        }
                    }
                    if old_sorted.contains(x) {
                        let j = choose|j: int| 0 <= j < old_sorted.len() && old_sorted[j] == x;
                        if j < p {
                            assert(s[j] == x);
                        } else {
                            assert(s[j + 1] == x);
                        }
                    }
                    if x == k {
                        assert(s[p as int] == k);
                    }
                }
            }
            assert(prefix.push(k).to_set() =~= prefix.to_set().insert(k)) by {
                assert forall|x: u64| prefix.push(k).contains(x) <==> prefix.contains(x) || x == k by {
                    if prefix.push(k).contains(x) {
                        let j = choose|j: int| 0 <= j < prefix.len() + 1 && prefix.push(k)[j] == x;
                        if j < prefix.len() {
                            assert(prefix[j] == x);
                        }
                    }
                    if prefix.contains(x) {
                        let j = choose|j: int| 0 <= j < prefix.len() && prefix[j] == x;
                        assert(prefix.push(k)[j] == x);
                    }
                    if x == k {
                        assert(prefix.push(k)[prefix.len() as int] == k);
                    }
                }
            }
        }
        i = i + 1;
    }
    assert(keys@.take(keys@.len() as int) =~= keys@);
    sorted
}


/// The number of trials of stage `i` for the tenancies `sorted` (in increasing order):
/// the first tenancy itself, then the gap to the previous tenancy.
pub open spec fn stage_trials(sorted: Seq<u64>, i: int) -> int {
    if i == 0 {
        sorted[0] as int
    } else {
        sorted[i] - sorted[i - 1]
    }
}

/// Sum of the first `n` elements of `s`.
pub open spec fn prefix_sum(s: Seq<u64>, n: int) -> int
    decreases n,
{
    if n <= 0 {
        0
    } else {
        prefix_sum(s, n - 1) + s[n - 1]
    }
}

/// The number of trials of each binomial stage, for the tenancies `sorted` in
/// increasing order.
pub fn binomial_trials(sorted: &Vec<u64>) -> (trials: Vec<u64>)
    requires
        strictly_increasing(sorted@),
    ensures
        trials@.len() == sorted@.len(),
        forall|i: int| 0 <= i < trials@.len() ==> #[trigger] trials@[i] == stage_trials(sorted@, i),
{
    let mut trials: Vec<u64> = Vec::new();
    let mut i: usize = 0;
    while i < sorted.len()
        invariant
            i <= sorted@.len(),
            strictly_increasing(sorted@),
            trials@.len() == i,
            forall|j: int| 0 <= j < i ==> #[trigger] trials@[j] == stage_trials(sorted@, j),
        decreases sorted@.len() - i,
    {
        if i == 0 {
            trials.push(sorted[0]);
        } else {
            trials.push(sorted[i] - sorted[i - 1]);
        }
        i = i + 1;
    }
    trials
}

/// The stages add up to the largest tenancy: the convolution of the binomial
/// stages ranges over the virtual cache sizes `0..=largest tenancy`. Every stage
/// after the first has at least one trial.
pub proof fn lemma_trials_add_up_to_largest_tenancy(sorted: Seq<u64>, trials: Seq<u64>)
    requires
        strictly_increasing(sorted),
        sorted.len() > 0,
        trials.len() == sorted.len(),
        forall|i: int| 0 <= i < trials.len() ==> #[trigger] trials[i] == stage_trials(sorted, i),
    ensures
        prefix_sum(trials, trials.len() as int) == sorted[sorted.len() - 1],
        forall|i: int| 0 < i < trials.len() ==> #[trigger] trials[i] > 0,
{
    lemma_prefix_sum_telescopes(sorted, trials, trials.len() as int);
}

proof fn lemma_prefix_sum_telescopes(sorted: Seq<u64>, trials: Seq<u64>, n: int)
    requires
        strictly_increasing(sorted),
        0 < n <= sorted.len(),
        trials.len() == sorted.len(),
        forall|i: int| 0 <= i < trials.len() ==> #[trigger] trials[i] == stage_trials(sorted, i),
    ensures
        prefix_sum(trials, n) == sorted[n - 1],
    decreases n,
{
    if n > 1 {
        lemma_prefix_sum_telescopes(sorted, trials, n - 1);
        assert(trials[n - 1] == stage_trials(sorted, n - 1));
    } else {
        assert(trials[0] == stage_trials(sorted, 0));
        assert(prefix_sum(trials, 0) == 0);
    }
}

/// `x` read as a 64-bit signed integer, as `x as isize` does on a 64-bit target.
pub open spec fn as_signed(x: u64) -> int {
    if x <= i64::MAX {
        x as int
    } else {
        x - 0x1_0000_0000_0000_0000
    }
}

/// Reading as signed keeps the value modulo 2^64 and lands in the `i64` range.
pub proof fn lemma_as_signed_is_congruent(x: u64)
    ensures
        i64::MIN <= as_signed(x) <= i64::MAX,
        (x - as_signed(x)) % 0x1_0000_0000_0000_0000 == 0,
        x <= i64::MAX ==> as_signed(x) == x,
{
}

/// A strictly increasing sequence repeats no element, and each element is
/// larger than the one before it.
pub proof fn lemma_increasing_has_no_repeats(s: Seq<u64>)
    requires
        strictly_increasing(s),
    ensures
        s.no_duplicates(),
        forall|i: int| 0 < i < s.len() ==> #[trigger] s[i] > s[i - 1],
{
}

/// By how much the virtual cache size `vcs` exceeds the physical cache size `pcs`,
/// or `None` when it does not exceed it. Both sizes are compared as signed
/// 64-bit integers.
pub fn overallocation(vcs: u64, pcs: u64) -> (oa: Option<u64>)
    requires
        i64::MIN <= as_signed(vcs) - as_signed(pcs) <= i64::MAX,
    ensures
        as_signed(vcs) - as_signed(pcs) > 0 ==> oa == Some((as_signed(vcs) - as_signed(pcs)) as u64),
        as_signed(vcs) - as_signed(pcs) <= 0 ==> oa is None,
        vcs <= i64::MAX && pcs <= i64::MAX ==> oa == (if vcs > pcs { Some((vcs - pcs) as u64) } else { None::<u64> }),
{
    let a: i128 = if vcs <= 0x7fff_ffff_ffff_ffffu64 { vcs as i128 } else { vcs as i128 - 0x1_0000_0000_0000_0000i128 };
    let b: i128 = if pcs <= 0x7fff_ffff_ffff_ffffu64 { pcs as i128 } else { pcs as i128 - 0x1_0000_0000_0000_0000i128 };
    let d: i128 = a - b;
    if d > 0 {
        Some(d as u64)
    } else {
        None
    }
}

} // verus!
