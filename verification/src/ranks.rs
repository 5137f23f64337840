//! For lists of ordinary length the percentiles are the nearest ranks.

use vstd::arithmetic::power2::{lemma_pow2_pos, lemma_pow2_unfold, pow2};
use vstd::prelude::*;

use crate::binary64;
use crate::decimals;
use crate::monotone;
use crate::percentiles;

verus! {

/// Whether two numbers are the same.
pub open spec fn same(a: binary64::BinaryView, b: binary64::BinaryView) -> bool {
    a.mantissa * monotone::above(a.exponent - b.exponent) == b.mantissa * monotone::below(
        a.exponent - b.exponent,
    )
}

/// An integer.
pub open spec fn integer(n: nat) -> binary64::BinaryView {
    binary64::BinaryView { mantissa: n, exponent: 0 }
}

/// What is the same is not above, either way.
pub(crate) proof fn lemma_same_is_le(a: binary64::BinaryView, b: binary64::BinaryView)
    requires
        same(a, b),
    ensures
        monotone::le(a, b),
        monotone::le(b, a),
{
    let t = a.exponent - b.exponent;
    vstd::arithmetic::power2::lemma2_to64();
    if t >= 0 {
        monotone::lemma_times_one(b.mantissa, monotone::below(t));
        if t > 0 {
            assert(monotone::below(-t) == pow2(t as nat));
            monotone::lemma_times_one(b.mantissa, monotone::above(-t));
        } else {
            monotone::lemma_times_one(a.mantissa, monotone::below(0));
            monotone::lemma_times_one(b.mantissa, monotone::above(0));
        }
    } else {
        monotone::lemma_times_one(a.mantissa, monotone::above(t));
        monotone::lemma_times_one(a.mantissa, monotone::below(-t));
    }
}

/// A number of at most 53 bits is not changed by rounding.
pub proof fn lemma_rounding_is_exact(num: nat, den: nat, e: int, k: nat, f: int)
    requires
        num > 0,
        den > 0,
        0 < k < binary64::MANTISSA_END,
        num * monotone::above(e - f) == k * den * monotone::below(e - f),
    ensures
        same(
            binary64::rounded(num, den, e),
            binary64::BinaryView { mantissa: k, exponent: f },
        ),
        binary64::rounded(num, den, e).mantissa > 0,
{
    monotone::lemma_shift_exists(num, den);
    let s = choose|shift: int| binary64::fits(num, den, shift);
    let (n, d) = binary64::scaled(num, den, s);
    monotone::lemma_scaled(num, den, s);
    let x = e - f;
    let t = x - s;
    let (ax, bx) = (monotone::above(x), monotone::below(x));
    let (at, bt) = (monotone::above(t), monotone::below(t));
    let (a, b) = (monotone::above(s), monotone::below(s));
    monotone::lemma_powers_are_positive(x);
    monotone::lemma_powers_are_positive(t);
    monotone::lemma_powers_are_positive(s);
    monotone::lemma_powers(x, s, t);
    assert(d > 0) by (nonlinear_arith)
        requires
            d == den * b,
            den > 0,
            b > 0,
    ;
    // n / d * 2 ^ t is k
    assert(n * at == k * d * bt) by {
        assert(num * a * at * bx == k * (den * b) * bt * bx) by (nonlinear_arith)
            requires
                num * ax == k * den * bx,
                a * at * bx == b * bt * ax,
        {
            assert(num * a * at * bx == num * (a * at * bx));
            assert(num * (b * bt * ax) == (num * ax) * (b * bt));
            assert((k * den * bx) * (b * bt) == k * (den * b) * bt * bx);
        }
        assert(num * a * at == k * (den * b) * bt) by (nonlinear_arith)
            requires
                num * a * at * bx == k * (den * b) * bt * bx,
                bx > 0,
        ;
    }
    let least = binary64::LEAST_MANTISSA as nat;
    vstd::arithmetic::power2::lemma2_to64();
    if t > 0 {
        lemma_pow2_unfold(t as nat);
        lemma_pow2_pos((t - 1) as nat);
        monotone::lemma_times_one(k * d, bt);
        assert(false) by (nonlinear_arith)
            requires
                n * at == k * d,
                n >= least * d,
                at >= 2,
                d > 0,
                k < 2 * least,
        {
            assert(n * at >= (least * d) * 2);
            assert(k * d < (2 * least) * d);
        }
    }
    monotone::lemma_times_one(n, at);
    let q = k * bt;
    assert(n == d * q) by (nonlinear_arith)
        requires
            n == k * d * bt,
            q == k * bt,
    ;
    vstd::arithmetic::div_mod::lemma_fundamental_div_mod_converse(n as int, d as int, q as int, 0);
    assert(binary64::nearest(n, d) == q);
    assert(least <= q < 2 * least) by (nonlinear_arith)
        requires
            n == d * q,
            least * d <= n < 2 * least * d,
            d > 0,
    ;
    let r = binary64::rounded(num, den, e);
    assert(r.mantissa == q && r.exponent == e - s);
    monotone::lemma_times_one(q, at);
}

/// The number of an integer of at most 53 bits is that integer.
pub(crate) proof fn lemma_of_is_exact(n: nat)
    requires
        0 < n < binary64::MANTISSA_END,
    ensures
        same(binary64::BinaryView::of(n), integer(n)),
        binary64::BinaryView::of(n).mantissa > 0,
{
    vstd::arithmetic::power2::lemma2_to64();
    assert(n * 1 == n * 1 * 1);
    lemma_rounding_is_exact(n, 1, 0, n, 0);
}

/// How the mantissas of two integers relate.
pub(crate) proof fn lemma_quotient(a: binary64::BinaryView, u: nat, b: binary64::BinaryView, v: nat)
    requires
        same(a, integer(u)),
        same(b, integer(v)),
    ensures
        a.mantissa * v * monotone::above(a.exponent - b.exponent) == u * b.mantissa
            * monotone::below(a.exponent - b.exponent),
{
    let x = a.exponent - b.exponent;
    let (aa, ba) = (monotone::above(a.exponent), monotone::below(a.exponent));
    let (ab, bb) = (monotone::above(b.exponent), monotone::below(b.exponent));
    let (ax, bx) = (monotone::above(x), monotone::below(x));
    monotone::lemma_powers_are_positive(a.exponent);
    monotone::lemma_powers_are_positive(b.exponent);
    monotone::lemma_powers(a.exponent, x, b.exponent);
    let (m, n) = (a.mantissa, b.mantissa);
    assert(m * aa == u * ba && n * ab == v * bb);
    assert((m * v * ax) * (aa * bb) == (m * aa) * (v * bb) * ax) by (nonlinear_arith);
    assert((u * ba) * (n * ab) * ax == (u * n) * (ax * ab * ba)) by (nonlinear_arith);
    assert((u * n) * (bx * bb * aa) == (u * n * bx) * (aa * bb)) by (nonlinear_arith);
    assert(m * v * ax == u * n * bx) by (nonlinear_arith)
        requires
            (m * v * ax) * (aa * bb) == (u * n * bx) * (aa * bb),
            aa > 0,
            bb > 0,
    {
        assert(aa * bb > 0);
    }
}

/// How the mantissas of two integers multiply.
proof fn lemma_product(a: binary64::BinaryView, u: nat, b: binary64::BinaryView, v: nat)
    requires
        same(a, integer(u)),
        same(b, integer(v)),
    ensures
        a.mantissa * b.mantissa * monotone::above(a.exponent + b.exponent) == u * v
            * monotone::below(a.exponent + b.exponent),
{
    let x = a.exponent + b.exponent;
    let (aa, ba) = (monotone::above(a.exponent), monotone::below(a.exponent));
    let (ab, bb) = (monotone::above(b.exponent), monotone::below(b.exponent));
    let (ax, bx) = (monotone::above(x), monotone::below(x));
    monotone::lemma_powers_are_positive(a.exponent);
    monotone::lemma_powers_are_positive(b.exponent);
    monotone::lemma_powers(x, a.exponent, b.exponent);
    let (m, n) = (a.mantissa, b.mantissa);
    assert(m * aa == u * ba && n * ab == v * bb);
    assert((m * n * ax) * (ba * bb) == (m * n) * (ba * bb * ax)) by (nonlinear_arith);
    assert((m * n) * (aa * ab * bx) == (m * aa) * (n * ab) * bx) by (nonlinear_arith);
    assert((u * ba) * (v * bb) * bx == (u * v * bx) * (ba * bb)) by (nonlinear_arith);
    assert(m * n * ax == u * v * bx) by (nonlinear_arith)
        requires
            (m * n * ax) * (ba * bb) == (u * v * bx) * (ba * bb),
            ba > 0,
            bb > 0,
    {
        assert(ba * bb > 0);
    }
}

/// The number of hundredths, rounded up.
pub open spec fn hundredths_up(n: nat) -> nat {
    ((n + 99) / 100) as nat
}

/// The quotient of an integer by a hundred, rounded to 53 bits, has the integers around it that the
/// exact quotient has.
proof fn lemma_hundredths(x: binary64::BinaryView, n: nat)
    requires
        same(x, integer(n)),
        x.mantissa > 0,
        0 < n < 0x4000_0000_0000,
    ensures
        x.over(binary64::BinaryView::of(100)).ceil() == hundredths_up(n),
{
    let h = binary64::BinaryView::of(100);
    let y = x.over(h);
    let q = n / 100;
    let e = x.exponent - h.exponent;
    let (ax, bx) = (monotone::above(e), monotone::below(e));
    let (m, d) = (x.mantissa, h.mantissa);
    lemma_of_is_exact(100);
    lemma_quotient(x, n, h, 100);
    monotone::lemma_powers_are_positive(e);
    vstd::arithmetic::power2::lemma2_to64();
    if n % 100 == 0 {
        assert(m * ax == q * d * bx) by (nonlinear_arith)
            requires
                m * 100 * ax == n * d * bx,
                n == 100 * q,
        ;
        lemma_rounding_is_exact(m, d, e, q, 0);
        lemma_same_is_le(y, integer(q));
        monotone::lemma_ceil_keeps_order(y, integer(q));
        monotone::lemma_ceil_keeps_order(integer(q), y);
        monotone::lemma_times_one(q, 1);
    } else {
        // not above the next integer
        assert(m * 1 * ax <= (q + 1) * d * bx) by (nonlinear_arith)
            requires
                m * 100 * ax == n * d * bx,
                n <= 100 * (q + 1),
        ;
        monotone::lemma_rounding_keeps_order(m, d, e, q + 1, 1, 0);
        lemma_of_is_exact(q + 1);
        let up = binary64::BinaryView::of(q + 1);
        lemma_same_is_le(up, integer(q + 1));
        monotone::lemma_ceil_keeps_order(y, up);
        monotone::lemma_ceil_keeps_order(up, integer(q + 1));
        monotone::lemma_times_one(q + 1, 1);
        // above the integer before by more than the 128th part
        let k = 128 * q + 1;
        let w = -7 - e;
        let (aw, bw) = (monotone::above(w), monotone::below(w));
        monotone::lemma_powers(-7, w, e);
        assert(monotone::below(-7) == 128 && monotone::above(-7) == 1);
        assert(k * d * aw <= m * 1 * bw) by {
            assert(aw * ax * 128 == bw * bx);
            assert((m * bw) * 100 * ax == (128 * n) * d * aw * ax) by (nonlinear_arith)
                requires
                    m * 100 * ax == n * d * bx,
                    aw * ax * 128 == bw * bx,
            {
                assert((m * bw) * 100 * ax == (m * 100 * ax) * bw);
                assert((n * d * bx) * bw == (n * d) * (bw * bx));
                assert((n * d) * (aw * ax * 128) == (128 * n) * d * aw * ax);
            }
            assert((m * bw) * 100 == (128 * n) * d * aw) by (nonlinear_arith)
                requires
                    (m * bw) * 100 * ax == (128 * n) * d * aw * ax,
                    ax > 0,
            ;
            assert((k * d * aw) * 100 <= (128 * n) * d * aw) by (nonlinear_arith)
                requires
                    k * 100 <= 128 * n,
            ;
        }
        monotone::lemma_rounding_keeps_order(k, 1, -7, m, d, e);
        assert(k * monotone::above(0) == k * 1 * monotone::below(0));
        lemma_rounding_is_exact(k, 1, -7, k, -7);
        let over = binary64::BinaryView { mantissa: k, exponent: -7 };
        let near = binary64::rounded(k, 1, -7);
        lemma_same_is_le(near, over);
        monotone::lemma_ceil_keeps_order(over, near);
        monotone::lemma_ceil_keeps_order(near, y);
        assert(over.ceil() == (k + 127) as nat / 128);
    }
}

/// For lists of fewer than 700 billion values, a whole percentage of them is counted exactly.
pub proof fn lemma_rank_is_nearest(len: nat, percent: nat)
    requires
        0 < len < 700_000_000_000,
        0 < percent <= 100,
    ensures
        percentiles::rank(len, percentiles::tenths(10 * percent)) == hundredths_up(len * percent),
{
    let l = binary64::BinaryView::of(len);
    let a = binary64::BinaryView::of(10 * percent);
    let t = binary64::BinaryView::of(10);
    let p = percentiles::tenths(10 * percent);
    lemma_of_is_exact(len);
    lemma_of_is_exact(10 * percent);
    lemma_of_is_exact(10);
    lemma_quotient(a, 10 * percent, t, 10);
    let e = a.exponent - t.exponent;
    let (ae, be) = (monotone::above(e), monotone::below(e));
    let (m, d) = (a.mantissa, t.mantissa);
    assert(m * ae == percent * d * be) by (nonlinear_arith)
        requires
            m * 10 * ae == (10 * percent) * d * be,
    ;
    lemma_rounding_is_exact(m, d, e, percent, 0);
    lemma_product(l, len, p, percent);
    let n = len * percent;
    let (lm, pm) = (l.mantissa, p.mantissa);
    let x = l.times(p);
    assert(0 < n < 0x4000_0000_0000) by (nonlinear_arith)
        requires
            n == len * percent,
            0 < len < 700_000_000_000,
            0 < percent <= 100,
    ;
    assert(lm * pm > 0) by (nonlinear_arith)
        requires
            lm > 0,
            pm > 0,
    ;
    assert(n * 1 == n);
    lemma_rounding_is_exact(lm * pm, 1, l.exponent + p.exponent, n, 0);
    lemma_hundredths(x, n);
}

/// Whether a number is not above another.
pub open spec fn up_to(x: u64) -> spec_fn(u64) -> bool {
    |value: u64| value <= x
}

/// How many values are not above `x`.
pub open spec fn count_up_to(values: Seq<u64>, x: u64) -> nat {
    values.filter(up_to(x)).len()
}

/// `x` is the nearest rank of a percentage: the least of the values such that at least the
/// percentage of them are not above it.
pub open spec fn is_nearest_rank(values: Seq<u64>, percent: nat, x: u64) -> bool {
    &&& values.contains(x)
    &&& 100 * count_up_to(values, x) >= percent * values.len()
    &&& forall|y: u64| #[trigger]
        values.contains(y) && y < x ==> 100 * count_up_to(values, y) < percent * values.len()
}

/// Lists of the same values have as many that are not above `x`.
proof fn lemma_same_count(a: Seq<u64>, b: Seq<u64>, x: u64)
    requires
        a.to_multiset() == b.to_multiset(),
    ensures
        count_up_to(a, x) == count_up_to(b, x),
    decreases a.len(),
{
    broadcast use vstd::seq_lib::group_to_multiset_ensures;
    broadcast use vstd::multiset::group_multiset_axioms;

    reveal(Seq::filter);
    a.to_multiset_ensures();
    b.to_multiset_ensures();
    if a.len() > 0 {
        let last = a.last();
        let rest = a.drop_last();
        assert(a =~= rest.push(last));
        assert(a[a.len() - 1] == last);
        assert(a.contains(last));
        assert(a.to_multiset().count(last) > 0);
        assert(b.contains(last));
        let at = choose|at: int| 0 <= at < b.len() && b[at] == last;
        let other = b.remove(at);
        assert(rest.to_multiset() =~= a.to_multiset().remove(last));
        assert(other.to_multiset() =~= b.to_multiset().remove(last));
        lemma_same_count(rest, other, x);
        lemma_count_without(b, at, x);
    }
}

/// A count without one of the values.
proof fn lemma_count_without(values: Seq<u64>, at: int, x: u64)
    requires
        0 <= at < values.len(),
    ensures
        count_up_to(values, x) == count_up_to(values.remove(at), x) + if values[at] <= x {
            1nat
        } else {
            0nat
        },
{
    let (left, right) = (values.take(at), values.skip(at + 1));
    let one = seq![values[at]];
    assert(values =~= left + one + right);
    assert(values.remove(at) =~= left + right);
    Seq::filter_distributes_over_add(left + one, right, up_to(x));
    Seq::filter_distributes_over_add(left, one, up_to(x));
    Seq::filter_distributes_over_add(left, right, up_to(x));
    assert(one.filter(up_to(x)) =~= if values[at] <= x {
        one
    } else {
        Seq::empty()
    }) by {
        reveal_with_fuel(Seq::filter, 2);
        assert(one.drop_last() =~= Seq::<u64>::empty());
    }
}

/// Where all values are not above `x`, all are counted.
proof fn lemma_count_all(values: Seq<u64>, x: u64)
    requires
        forall|i: int| 0 <= i < values.len() ==> #[trigger] values[i] <= x,
    ensures
        count_up_to(values, x) == values.len(),
    decreases values.len(),
{
    reveal(Seq::filter);
    if values.len() > 0 {
        lemma_count_all(values.drop_last(), x);
    }
}

/// Where all values are above `x`, none is counted.
proof fn lemma_count_none(values: Seq<u64>, x: u64)
    requires
        forall|i: int| 0 <= i < values.len() ==> #[trigger] values[i] > x,
    ensures
        count_up_to(values, x) == 0,
    decreases values.len(),
{
    reveal(Seq::filter);
    if values.len() > 0 {
        lemma_count_none(values.drop_last(), x);
    }
}

/// A percentile of values in order is the nearest rank.
proof fn lemma_sorted_nearest_rank(values: Seq<u64>, percent: nat)
    requires
        0 < values.len() < 700_000_000_000,
        0 < percent <= 100,
        vstd::relations::sorted_by(values, percentiles::ascending()),
    ensures
        is_nearest_rank(
            values,
            percent,
            percentiles::percentile_of(values, percentiles::tenths(10 * percent)),
        ),
{
    let len = values.len();
    let x = percentiles::percentile_of(values, percentiles::tenths(10 * percent));
    let leq = percentiles::ascending();
    lemma_rank_is_nearest(len, percent);
    let n = len * percent;
    let r = hundredths_up(n);
    assert(0 < n <= 100 * len) by (nonlinear_arith)
        requires
            n == len * percent,
            0 < len,
            0 < percent <= 100,
    ;
    assert(percent * len == n) by (nonlinear_arith)
        requires
            n == len * percent,
    ;
    assert(1 <= r <= len);
    assert(x == values[r - 1]);
    let (head, tail) = (values.take(r as int), values.skip(r as int));
    assert(values =~= head + tail);
    Seq::filter_distributes_over_add(head, tail, up_to(x));
    assert forall|i: int| 0 <= i < head.len() implies #[trigger] head[i] <= x by {
        if i < r - 1 {
            assert(leq(values[i], values[r - 1]));
        }
    }
    lemma_count_all(head, x);
    assert forall|y: u64| #[trigger] values.contains(y) && y < x implies 100 * count_up_to(
        values,
        y,
    ) < n by {
        let (low, high) = (values.take(r - 1), values.skip(r - 1));
        assert(values =~= low + high);
        Seq::filter_distributes_over_add(low, high, up_to(y));
        assert forall|i: int| 0 <= i < high.len() implies #[trigger] high[i] > y by {
            if i > 0 {
                assert(leq(values[r - 1], values[r - 1 + i]));
            }
        }
        lemma_count_none(high, y);
        low.lemma_filter_len(up_to(y));
    }
}

/// For lists of ordinary length, the median and the 90th, 95th and 99th percentiles are the
/// nearest ranks.
pub proof fn lemma_percentiles_are_nearest_ranks(values: Seq<u64>)
    requires
        0 < values.len() < 700_000_000_000,
    ensures
        ({
            let p = percentiles::percentiles(values);
            &&& is_nearest_rank(values, 50, p.p50)
            &&& is_nearest_rank(values, 90, p.p90)
            &&& is_nearest_rank(values, 95, p.p95)
            &&& is_nearest_rank(values, 99, p.p99)
        }),
{
    let v = percentiles::sorted(values);
    values.lemma_sort_by_ensures(percentiles::ascending());
    values.to_multiset_ensures();
    v.to_multiset_ensures();
    assert(v.len() == values.len());
    lemma_sorted_nearest_rank(v, 50);
    lemma_sorted_nearest_rank(v, 90);
    lemma_sorted_nearest_rank(v, 95);
    lemma_sorted_nearest_rank(v, 99);
    let p = percentiles::percentiles(values);
    lemma_carries_over(values, v, 50, p.p50);
    lemma_carries_over(values, v, 90, p.p90);
    lemma_carries_over(values, v, 95, p.p95);
    lemma_carries_over(values, v, 99, p.p99);
}

/// A nearest rank does not depend on the order of the values.
proof fn lemma_carries_over(values: Seq<u64>, v: Seq<u64>, percent: nat, x: u64)
    requires
        values.to_multiset() == v.to_multiset(),
        is_nearest_rank(v, percent, x),
    ensures
        is_nearest_rank(values, percent, x),
{
    values.to_multiset_ensures();
    v.to_multiset_ensures();
    assert(values.len() == v.len());
    assert(v.to_multiset().count(x) > 0);
    assert(values.contains(x));
    lemma_same_count(values, v, x);
    assert forall|y: u64| #[trigger] values.contains(y) && y < x implies 100 * count_up_to(
        values,
        y,
    ) < percent * values.len() by {
        assert(values.to_multiset().count(y) > 0);
        assert(v.contains(y));
        lemma_same_count(values, v, y);
    }
}

/// For up to a million values, at least 99.9 percent of them are not above that percentile, and no
/// more than 99.9 percent are not above any lower one of them.
pub proof fn lemma_last_thousandth(values: Seq<u64>)
    requires
        0 < values.len() <= 1_000_000,
    ensures
        ({
            let x = percentiles::percentiles(values).p99_9;
            &&& values.contains(x)
            &&& 1000 * count_up_to(values, x) >= 999 * values.len()
            &&& forall|y: u64| #[trigger]
                values.contains(y) && y < x ==> 1000 * count_up_to(values, y) <= 999 * values.len()
        }),
{
    let v = percentiles::sorted(values);
    let leq = percentiles::ascending();
    let x = percentiles::percentiles(values).p99_9;
    values.lemma_sort_by_ensures(leq);
    values.to_multiset_ensures();
    v.to_multiset_ensures();
    let len = values.len();
    assert(v.len() == len);
    decimals::lemma_rank_of_last_thousandth(len);
    let r = percentiles::rank(len, percentiles::tenths(999));
    assert(1 <= r <= len);
    assert(x == v[r - 1]);
    assert(v.to_multiset().count(x) > 0);
    assert(values.contains(x));
    lemma_sorted_counts(v, r as int);
    lemma_same_count(values, v, x);
    assert forall|y: u64| #[trigger] values.contains(y) && y < x implies 1000 * count_up_to(
        values,
        y,
    ) <= 999 * values.len() by {
        assert(count_up_to(v, y) < r);
        lemma_same_count(values, v, y);
    }
}

/// Of values in order, at least `r` are not above the one in place `r`, and fewer than `r` are not
/// above anything lower.
proof fn lemma_sorted_counts(values: Seq<u64>, r: int)
    requires
        1 <= r <= values.len(),
        vstd::relations::sorted_by(values, percentiles::ascending()),
    ensures
        count_up_to(values, values[r - 1]) >= r,
        forall|y: u64| y < values[r - 1] ==> #[trigger] count_up_to(values, y) < r,
{
    let leq = percentiles::ascending();
    let x = values[r - 1];
    let (head, tail) = (values.take(r), values.skip(r));
    assert(values =~= head + tail);
    Seq::filter_distributes_over_add(head, tail, up_to(x));
    assert forall|i: int| 0 <= i < head.len() implies #[trigger] head[i] <= x by {
        if i < r - 1 {
            assert(leq(values[i], values[r - 1]));
        }
    }
    lemma_count_all(head, x);
    assert forall|y: u64| y < x implies #[trigger] count_up_to(values, y) < r by {
        let (low, high) = (values.take(r - 1), values.skip(r - 1));
        assert(values =~= low + high);
        Seq::filter_distributes_over_add(low, high, up_to(y));
        assert forall|i: int| 0 <= i < high.len() implies #[trigger] high[i] > y by {
            if i > 0 {
                assert(leq(values[r - 1], values[r - 1 + i]));
            }
        }
        lemma_count_none(high, y);
        low.lemma_filter_len(up_to(y));
    }
}

/// The greatest and the least of values are among them, and none is beyond; the mean is their sum
/// over their number, rounded down. Of no values all are zero.
pub proof fn lemma_extremes_and_mean(values: Seq<u64>)
    ensures
        ({
            let p = percentiles::percentiles(values);
            let sum = values.fold_left(0int, |sofar: int, value: u64| sofar + value);
            &&& values.len() == 0 ==> p.max == 0 && p.min == 0 && p.mean == 0 && p.p50 == 0
                && p.p90 == 0 && p.p95 == 0 && p.p99 == 0 && p.p99_9 == 0
            &&& values.len() > 0 ==> {
                &&& values.contains(p.max)
                &&& values.contains(p.min)
                &&& forall|i: int|
                    #![trigger values[i]]
                    0 <= i < values.len() ==> p.min <= values[i] <= p.max
                &&& p.mean * values.len() <= sum < (p.mean + 1) * values.len()
            }
        }),
{
    let p = percentiles::percentiles(values);
    let v = percentiles::sorted(values);
    let leq = percentiles::ascending();
    if values.len() > 0 {
        values.lemma_sort_by_ensures(leq);
        values.to_multiset_ensures();
        v.to_multiset_ensures();
        let n = v.len() as int;
        assert(n == values.len());
        assert(v[n - 1] == p.max && v[0] == p.min);
        assert(v.contains(p.max) && v.contains(p.min));
        assert(v.to_multiset().count(p.max) > 0 && v.to_multiset().count(p.min) > 0);
        assert forall|i: int| #![trigger values[i]] 0 <= i < values.len() implies p.min <= values[i]
            <= p.max by {
            assert(values.contains(values[i]));
            assert(values.to_multiset().count(values[i]) > 0);
            assert(v.contains(values[i]));
            let k = choose|k: int| 0 <= k < n && v[k] == values[i];
            if k < n - 1 {
                assert(leq(v[k], v[n - 1]));
            }
            if k > 0 {
                assert(leq(v[0], v[k]));
            }
        }
        lemma_sum_is_fold(values);
        let sum = percentiles::sum(values);
        percentiles::lemma_sum_bounds(values, 0, u64::MAX as nat);
        vstd::arithmetic::div_mod::lemma_fundamental_div_mod(sum as int, n);
        vstd::arithmetic::div_mod::lemma_mod_bound(sum as int, n);
        let mean = sum as int / n;
        assert(mean <= u64::MAX) by (nonlinear_arith)
            requires
                mean == sum as int / n,
                sum <= u64::MAX * n,
                n > 0,
        ;
        assert(mean * n == n * mean && (mean + 1) * n == n * mean + n) by (nonlinear_arith);
    }
}

proof fn lemma_sum_is_fold(values: Seq<u64>)
    ensures
        percentiles::sum(values) == values.fold_left(
            0int,
            |sofar: int, value: u64| sofar + value,
        ),
    decreases values.len(),
{
    reveal_with_fuel(Seq::fold_left, 2);
    if values.len() > 0 {
        lemma_sum_is_fold(values.drop_last());
    }
}

} // verus!
