//! The tenancy histogram: how many accesses had each tenancy, and the quantities
//! of the model that are exact functions of it.
use vstd::prelude::*;

verus! {

/// Number of accesses in the histogram `td` of `(tenancy, count)` entries.
pub open spec fn total_count(td: Seq<(u64, u64)>) -> int
    decreases td.len(),
{
    if td.len() == 0 {
        0
    } else {
        total_count(td.drop_last()) + td.last().1
    }
}

/// Sum of the tenancies of all accesses: each tenancy weighted by its count.
pub open spec fn weighted_total(td: Seq<(u64, u64)>) -> int
    decreases td.len(),
{
    if td.len() == 0 {
        0
    } else {
        weighted_total(td.drop_last()) + td.last().0 * td.last().1
    }
}

/// Sum of the squared tenancies of all accesses.
pub open spec fn square_total(td: Seq<(u64, u64)>) -> int
    decreases td.len(),
{
    if td.len() == 0 {
        0
    } else {
        square_total(td.drop_last()) + td.last().0 * td.last().0 * td.last().1
    }
}

/// `a / b` rounded up, for `b > 0`.
pub open spec fn ceil_div(a: int, b: int) -> int {
    (a + b - 1) / b
}

/// The physical cache size of a histogram: the mean tenancy rounded up, or 0 when
/// the histogram counts no access.
pub open spec fn spec_pcs(td: Seq<(u64, u64)>) -> int {
    if total_count(td) == 0 {
        0
    } else {
        ceil_div(weighted_total(td), total_count(td))
    }
}

proof fn lemma_take_step(td: Seq<(u64, u64)>, i: int)
    requires
        0 <= i < td.len(),
    ensures
        total_count(td.take(i + 1)) == total_count(td.take(i)) + td[i].1,
        weighted_total(td.take(i + 1)) == weighted_total(td.take(i)) + td[i].0 * td[i].1,
        square_total(td.take(i + 1)) == square_total(td.take(i)) + td[i].0 * td[i].0 * td[i].1,
{
    assert(td.take(i + 1).drop_last() =~= td.take(i));
}

/// Counts of a prefix never exceed the counts of the whole histogram.
proof fn lemma_total_count_prefix(td: Seq<(u64, u64)>, i: int)
    requires
        0 <= i <= td.len(),
    ensures
        0 <= total_count(td.take(i)) <= total_count(td),
    decreases td.len() - i,
{
    if i == td.len() {
        assert(td.take(i) =~= td);
        lemma_total_count_nonneg(td);
    } else {
        lemma_take_step(td, i);
        lemma_total_count_prefix(td, i + 1);
        lemma_total_count_nonneg(td.take(i));
    }
}

proof fn lemma_total_count_nonneg(td: Seq<(u64, u64)>)
    ensures
        total_count(td) >= 0,
    decreases td.len(),
{
    if td.len() > 0 {
        lemma_total_count_nonneg(td.drop_last());
    }
}

/// If every tenancy that has accesses lies in `lo..=hi`, the weighted total lies
/// between `lo` and `hi` times the number of accesses.
proof fn lemma_weighted_total_bounds(td: Seq<(u64, u64)>, lo: int, hi: int)
    requires
        0 <= lo,
        forall|i: int| 0 <= i < td.len() && td[i].1 > 0 ==> lo <= #[trigger] td[i].0 <= hi,
    ensures
        lo * total_count(td) <= weighted_total(td) <= hi * total_count(td),
    decreases td.len(),
{
    if td.len() > 0 {
        let rest = td.drop_last();
        assert forall|i: int| 0 <= i < rest.len() && rest[i].1 > 0 implies lo <= #[trigger] rest[i].0
            <= hi by {
            assert(rest[i] == td[i]);
        }
        lemma_weighted_total_bounds(rest, lo, hi);
        let t = td.last().0 as int;
        let c = td.last().1 as int;
        if c > 0 {
            assert(td[td.len() - 1].1 > 0);
            assert(lo <= t <= hi);
        }
        assert(lo * c <= t * c <= hi * c) by (nonlinear_arith)
            requires
                c >= 0,
                c > 0 ==> lo <= t <= hi,
        ;
        assert(lo * total_count(td) == lo * total_count(rest) + lo * c) by (nonlinear_arith)
            requires
                total_count(td) == total_count(rest) + c,
        ;
        assert(hi * total_count(td) == hi * total_count(rest) + hi * c) by (nonlinear_arith)
            requires
                total_count(td) == total_count(rest) + c,
        ;
    }
}

/// With every squared tenancy within `u64`, the square total is at most
/// `u64::MAX` times the number of accesses.
proof fn lemma_square_total_bound(td: Seq<(u64, u64)>)
    requires
        forall|i: int| 0 <= i < td.len() ==> #[trigger] td[i].0 <= u32::MAX,
    ensures
        0 <= square_total(td) <= u64::MAX * total_count(td),
    decreases td.len(),
{
    if td.len() > 0 {
        let rest = td.drop_last();
        assert forall|i: int| 0 <= i < rest.len() implies #[trigger] rest[i].0 <= u32::MAX by {
            assert(rest[i] == td[i]);
        }
        lemma_square_total_bound(rest);
        let t = td.last().0 as int;
        let c = td.last().1 as int;
        assert(td[td.len() - 1].0 <= u32::MAX);
        assert(0 <= t * t * c <= u64::MAX * c) by (nonlinear_arith)
            requires
                0 <= t <= u32::MAX,
                0 <= c,
        ;
        assert(u64::MAX * total_count(td) == u64::MAX * total_count(rest) + u64::MAX * c)
            by (nonlinear_arith)
            requires
                total_count(td) == total_count(rest) + c,
        ;
    }
}

/// `ceil(w / n)` lies in `lo..=hi` when `w` lies between `lo * n` and `hi * n`.
proof fn lemma_ceil_div_bounds(w: int, n: int, lo: int, hi: int)
    requires
        n > 0,
        lo * n <= w <= hi * n,
    ensures
        lo <= ceil_div(w, n) <= hi,
{
    let q = ceil_div(w, n);
    vstd::arithmetic::div_mod::lemma_fundamental_div_mod(w + n - 1, n);
    let r = (w + n - 1) % n;
    assert(0 <= r < n) by {
        vstd::arithmetic::div_mod::lemma_mod_bound(w + n - 1, n);
    }
    assert(n * q + r == w + n - 1);
    assert(lo <= q) by (nonlinear_arith)
        requires
            n * q + r == w + n - 1,
            0 <= r < n,
            lo * n <= w,
            n > 0,
    ;
    assert(q <= hi) by (nonlinear_arith)
        requires
            n * q + r == w + n - 1,
            0 <= r,
            w <= hi * n,
            n > 0,
    ;
}

/// The number of accesses, or `None` when it does not fit in `u64`.
pub fn total_accesses(td: &Vec<(u64, u64)>) -> (total: Option<u64>)
    ensures
        total_count(td@) <= u64::MAX ==> total == Some(total_count(td@) as u64),
        total_count(td@) > u64::MAX ==> total is None,
{
    let mut total: u64 = 0;
    let mut i: usize = 0;
    while i < td.len()
        invariant
            i <= td@.len(),
            total == total_count(td@.take(i as int)),
        decreases td@.len() - i,
    {
        proof {
            lemma_take_step(td@, i as int);
        }
        match total.checked_add(td[i].1) {
            Some(t) => {
                total = t;
            },
            None => {
                proof {
                    lemma_total_count_prefix(td@, i + 1);
                }
                return None;
            },
        }
        i = i + 1;
    }
    assert(td@.take(td@.len() as int) =~= td@);
    Some(total)
}

/// The physical cache size: the expected tenancy, rounded up to an integer.
pub fn tenancy_expectation(td: &Vec<(u64, u64)>) -> (pcs: u64)
    requires
        total_count(td@) <= u64::MAX,
    ensures
        pcs == spec_pcs(td@),
{
    let mut total: u64 = 0;
    let mut weighted: u128 = 0;
    let mut i: usize = 0;
    while i < td.len()
        invariant
            i <= td@.len(),
            total_count(td@) <= u64::MAX,
            total == total_count(td@.take(i as int)),
            weighted == weighted_total(td@.take(i as int)),
        decreases td@.len() - i,
    {
        proof {
            lemma_take_step(td@, i as int);
            lemma_total_count_prefix(td@, i + 1);
            lemma_weighted_total_bounds(td@.take(i + 1), 0, u64::MAX as int);
            assert(u64::MAX * total_count(td@.take(i + 1)) <= u64::MAX * u64::MAX) by (nonlinear_arith)
                requires
                    total_count(td@.take(i + 1)) <= u64::MAX,
            ;
        }
        let (t, c) = td[i];
        total = total + c;
        weighted = weighted + (t as u128) * (c as u128);
        i = i + 1;
    }
    assert(td@.take(td@.len() as int) =~= td@);
    if total == 0 {
        0
    } else {
        proof {
            lemma_weighted_total_bounds(td@, 0, u64::MAX as int);
            lemma_ceil_div_bounds(weighted as int, total as int, 0, u64::MAX as int);
        }
        ((weighted + (total as u128) - 1) / (total as u128)) as u64
    }
}

/// Sum over all accesses of the squared tenancy.
pub fn tenancy_square_total(td: &Vec<(u64, u64)>) -> (sq: u128)
    requires
        total_count(td@) <= u64::MAX,
        forall|i: int| 0 <= i < td@.len() ==> #[trigger] td@[i].0 <= u32::MAX,
    ensures
        sq == square_total(td@),
{
    let mut sq: u128 = 0;
    let mut i: usize = 0;
    while i < td.len()
        invariant
            i <= td@.len(),
            total_count(td@) <= u64::MAX,
            forall|j: int| 0 <= j < td@.len() ==> #[trigger] td@[j].0 <= u32::MAX,
            sq == square_total(td@.take(i as int)),
        decreases td@.len() - i,
    {
        proof {
            lemma_take_step(td@, i as int);
            lemma_total_count_prefix(td@, i + 1);
            let pre = td@.take(i + 1);
            assert forall|j: int| 0 <= j < pre.len() implies #[trigger] pre[j].0 <= u32::MAX by {
                assert(pre[j] == td@[j]);
            }
            lemma_square_total_bound(pre);
            assert(u64::MAX * total_count(pre) <= u64::MAX * u64::MAX) by (nonlinear_arith)
                requires
                    total_count(pre) <= u64::MAX,
            ;
        }
        let (t, c) = td[i];
        assert(td@[i as int].0 <= u32::MAX);
        assert(t * t <= u64::MAX) by (nonlinear_arith)
            requires
                t <= u32::MAX,
        ;
        let t2: u64 = t * t;
        sq = sq + (t2 as u128) * (c as u128);
        i = i + 1;
    }
    assert(td@.take(td@.len() as int) =~= td@);
    sq
}

/// The physical cache size lies within the range of the tenancies that have
/// accesses: it is at least the shortest and at most the longest of them.
pub proof fn lemma_pcs_within_tenancies(td: Seq<(u64, u64)>, lo: u64, hi: u64)
    requires
        total_count(td) > 0,
        forall|i: int| 0 <= i < td.len() && td[i].1 > 0 ==> lo <= #[trigger] td[i].0 <= hi,
    ensures
        lo <= spec_pcs(td) <= hi,
{
    lemma_weighted_total_bounds(td, lo as int, hi as int);
    lemma_ceil_div_bounds(weighted_total(td), total_count(td), lo as int, hi as int);
}


/// The totals of a histogram add up over its parts, and a single entry
/// `(tenancy, count)` counts `count` accesses, `tenancy * count` tenancy, and
/// `tenancy * tenancy * count` squared tenancy.
pub proof fn lemma_totals_add_up(a: Seq<(u64, u64)>, b: Seq<(u64, u64)>, t: u64, c: u64)
    ensures
        total_count(a + b) == total_count(a) + total_count(b),
        weighted_total(a + b) == weighted_total(a) + weighted_total(b),
        square_total(a + b) == square_total(a) + square_total(b),
        total_count(seq![(t, c)]) == c,
        weighted_total(seq![(t, c)]) == t * c,
        square_total(seq![(t, c)]) == t * t * c,
    decreases b.len(),
{
    let one = seq![(t, c)];
    assert(one.drop_last() =~= Seq::<(u64, u64)>::empty());
    assert(one.last() == (t, c));
    assert(total_count(one.drop_last()) == 0);
    assert(weighted_total(one.drop_last()) == 0);
    assert(square_total(one.drop_last()) == 0);
    if b.len() == 0 {
        assert(a + b =~= a);
    } else {
        assert((a + b).drop_last() =~= a + b.drop_last());
        assert((a + b).last() == b.last());
        lemma_totals_add_up(a, b.drop_last(), t, c);
    }
}

/// The physical cache size is the least whole size that covers the mean: times
/// the number of accesses it reaches the total tenancy, and one less falls short.
pub proof fn lemma_pcs_is_least_cover(td: Seq<(u64, u64)>)
    requires
        total_count(td) > 0,
    ensures
        spec_pcs(td) * total_count(td) >= weighted_total(td),
        (spec_pcs(td) - 1) * total_count(td) < weighted_total(td),
{
    let w = weighted_total(td);
    let n = total_count(td);
    let q = spec_pcs(td);
    vstd::arithmetic::div_mod::lemma_fundamental_div_mod(w + n - 1, n);
    vstd::arithmetic::div_mod::lemma_mod_bound(w + n - 1, n);
    let r = (w + n - 1) % n;
    assert(n * q + r == w + n - 1);
    assert(q * n >= w) by (nonlinear_arith)
        requires
            n * q + r == w + n - 1,
            r < n,
    ;
    assert((q - 1) * n < w) by (nonlinear_arith)
        requires
            n * q + r == w + n - 1,
            0 <= r,
    ;
}

} // verus!
