//! Percentiles of latencies.

use vstd::prelude::*;

use crate::binary64::{self, Binary64};

verus! {

/// The order of numbers.
pub open spec fn ascending() -> spec_fn(u64, u64) -> bool {
    |a: u64, b: u64| a <= b
}

/// Numbers in order.
pub open spec fn sorted(values: Seq<u64>) -> Seq<u64> {
    values.sort_by(ascending())
}

pub open spec fn sum(values: Seq<u64>) -> nat
    decreases values.len(),
{
    if values.len() == 0 {
        0
    } else {
        sum(values.drop_last()) + values.last() as nat
    }
}

/// The place, counted from one, of the value that `p` percent of `len` values are not above:
/// `len * p / 100`, each operation rounded to 53 bits, and then rounded up.
pub open spec fn rank(len: nat, p: binary64::BinaryView) -> nat {
    binary64::BinaryView::of(len).times(p).over(binary64::BinaryView::of(100)).ceil()
}

/// The value of which `p` percent of the values, which are in order, are not above.
pub open spec fn percentile_of(values: Seq<u64>, p: binary64::BinaryView) -> u64 {
    if values.len() == 0 {
        0
    } else {
        let rank = rank(values.len(), p);
        if rank == 0 {
            values[0]
        } else if rank <= values.len() {
            values[rank - 1]
        } else {
            values.last()
        }
    }
}

/// A percentage that is given in tenths of a percent.
pub open spec fn tenths(n: nat) -> binary64::BinaryView {
    binary64::BinaryView::of(n).over(binary64::BinaryView::of(10))
}

/// What a list of latencies amounts to.
#[derive(Debug, Clone, Copy, PartialEq, Eq, Structural)]
pub struct Percentiles {
    pub p50: u64,
    pub p90: u64,
    pub p95: u64,
    pub p99: u64,
    pub p99_9: u64,
    pub max: u64,
    pub min: u64,
    pub mean: u64,
}

/// The percentiles of values: zeros where there are none.
pub open spec fn percentiles(values: Seq<u64>) -> Percentiles {
    let v = sorted(values);
    if values.len() == 0 {
        Percentiles { p50: 0, p90: 0, p95: 0, p99: 0, p99_9: 0, max: 0, min: 0, mean: 0 }
    } else {
        Percentiles {
            p50: percentile_of(v, tenths(500)),
            p90: percentile_of(v, tenths(900)),
            p95: percentile_of(v, tenths(950)),
            p99: percentile_of(v, tenths(990)),
            p99_9: percentile_of(v, tenths(999)),
            max: v.last(),
            min: v[0],
            mean: (sum(values) / values.len()) as u64,
        }
    }
}

impl Default for Percentiles {
    fn default() -> (p: Self)
        ensures
            p == percentiles(Seq::empty()),
    {
        Percentiles { p50: 0, p90: 0, p95: 0, p99: 0, p99_9: 0, max: 0, min: 0, mean: 0 }
    }
}

/// `slice::sort_unstable` on numbers: the same numbers, in order.
#[verifier::external_body]
fn sort(values: &mut Vec<u64>)
    ensures
        vstd::relations::sorted_by(final(values)@, ascending()),
        final(values)@.to_multiset() == old(values)@.to_multiset(),
{
    values.sort_unstable();
}

/// The mean of values is not above the largest of them.
pub(crate) proof fn lemma_sum_bounds(values: Seq<u64>, low: nat, high: nat)
    requires
        forall|i: int| 0 <= i < values.len() ==> low <= #[trigger] values[i] <= high,
    ensures
        low * values.len() <= sum(values) <= high * values.len(),
    decreases values.len(),
{
    if values.len() > 0 {
        let rest = values.drop_last();
        assert forall|i: int| 0 <= i < rest.len() implies low <= #[trigger] rest[i] <= high by {
            assert(rest[i] == values[i]);
        }
        lemma_sum_bounds(rest, low, high);
        assert(low * values.len() == low * rest.len() + low) by (nonlinear_arith)
            requires
                values.len() == rest.len() + 1,
        ;
        assert(high * values.len() == high * rest.len() + high) by (nonlinear_arith)
            requires
                values.len() == rest.len() + 1,
        ;
    }
}

/// The mean of values, rounded down.
fn mean(values: &Vec<u64>) -> (mean: u64)
    requires
        values@.len() > 0,
    ensures
        mean == sum(values@) / values@.len(),
{
    let mut total: u128 = 0;
    let mut n: usize = 0;
    while n < values.len()
        invariant
            n <= values@.len(),
            total == sum(values@.take(n as int)),
            total <= n * u64::MAX,
        decreases values@.len() - n,
    {
        proof {
            assert(values@.take(n + 1).drop_last() =~= values@.take(n as int));
            assert(n * u64::MAX + u64::MAX == (n + 1) * u64::MAX) by (nonlinear_arith);
            assert((n + 1) * u64::MAX <= u64::MAX * u64::MAX) by (nonlinear_arith)
                requires
                    n + 1 <= u64::MAX,
            ;
        }
        total = total + values[n] as u128;
        n = n + 1;
    }
    proof {
        assert(values@.take(n as int) =~= values@);
        lemma_sum_bounds(values@, 0, u64::MAX as nat);
        let len = values@.len() as int;
        assert(total as int / len <= u64::MAX) by (nonlinear_arith)
            requires
                len > 0,
                total <= u64::MAX * len,
        ;
    }
    (total / values.len() as u128) as u64
}

/// The value of which `p` percent of the values, which are in order, are not above.
pub fn percentile(sorted: &[u64], p: Binary64) -> (value: u64)
    requires
        p@.wf(),
        -5000 <= p.exponent <= 5000,
    ensures
        value == percentile_of(sorted@, p@),
{
    if sorted.len() == 0 {
        return 0;
    }
    assert(sorted@.len() == vstd::slice::spec_slice_len(sorted));
    let product: Binary64 = Binary64::of(sorted.len() as u64).times(p);
    let rank: u64 = product.over(Binary64::of(100)).ceil();
    if rank == 0 {
        sorted[0]
    } else if rank <= sorted.len() as u64 {
        sorted[(rank - 1) as usize]
    } else {
        sorted[sorted.len() - 1]
    }
}

/// A percentage that is given in tenths of a percent.
pub fn from_tenths(n: u64) -> (p: Binary64)
    ensures
        p@ == tenths(n as nat),
        p@.wf(),
        -5000 <= p.exponent <= 5000,
{
    Binary64::of(n).over(Binary64::of(10))
}

pub fn compute_percentiles(v: Vec<u64>) -> (p: Percentiles)
    ensures
        p == percentiles(v@),
{
    if v.len() == 0 {
        return Percentiles::default();
    }
    let mut v: Vec<u64> = v;
    let ghost values = v@;
    let mean: u64 = mean(&v);
    sort(&mut v);
    proof {
        values.lemma_sort_by_ensures(ascending());
        vstd::seq_lib::lemma_sorted_unique(v@, sorted(values), ascending());
        values.to_multiset_ensures();
        v@.to_multiset_ensures();
    }
    Percentiles {
        min: v[0],
        p50: percentile(v.as_slice(), from_tenths(500)),
        p90: percentile(v.as_slice(), from_tenths(900)),
        p95: percentile(v.as_slice(), from_tenths(950)),
        p99: percentile(v.as_slice(), from_tenths(990)),
        p99_9: percentile(v.as_slice(), from_tenths(999)),
        max: v[v.len() - 1],
        mean,
    }
}

} // verus!
