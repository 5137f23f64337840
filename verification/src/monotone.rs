//! Rounding to 53 bits keeps the order of numbers, and so do the percentiles that rest on it.

use vstd::arithmetic::power2::{lemma_pow2_adds, lemma_pow2_pos, lemma_pow2_unfold, pow2};
use vstd::prelude::*;

use crate::binary64;
use crate::percentiles;

verus! {

/// The numerator of a power of two.
pub open spec fn above(e: int) -> nat {
    if e >= 0 {
        pow2(e as nat)
    } else {
        1
    }
}

/// The denominator of a power of two.
pub open spec fn below(e: int) -> nat {
    if e >= 0 {
        1
    } else {
        pow2((-e) as nat)
    }
}

/// Whether one number is not above another.
pub open spec fn le(a: binary64::BinaryView, b: binary64::BinaryView) -> bool {
    a.mantissa * above(a.exponent - b.exponent) <= b.mantissa * below(a.exponent - b.exponent)
}

/// Whether `n1 / d1 * 2 ^ e1` is not above `n2 / d2 * 2 ^ e2`.
pub open spec fn ratio_le(n1: nat, d1: nat, e1: int, n2: nat, d2: nat, e2: int) -> bool {
    n1 * d2 * above(e1 - e2) <= n2 * d1 * below(e1 - e2)
}

pub(crate) proof fn lemma_powers_are_positive(e: int)
    ensures
        above(e) > 0,
        below(e) > 0,
{
    lemma_pow2_pos((if e >= 0 {
        e
    } else {
        -e
    }) as nat);
    lemma_pow2_adds(0, 0);
}

/// Powers of two multiply by adding their exponents.
pub(crate) proof fn lemma_powers(a: int, b: int, c: int)
    requires
        a == b + c,
    ensures
        above(b) * above(c) * below(a) == below(b) * below(c) * above(a),
{
    let up = |e: int|
        if e >= 0 {
            e as nat
        } else {
            0nat
        };
    let down = |e: int|
        if e >= 0 {
            0nat
        } else {
            (-e) as nat
        };
    assert(pow2(0) == 1) by {
        vstd::arithmetic::power2::lemma2_to64();
    }
    lemma_pow2_adds(up(b), up(c));
    lemma_pow2_adds(up(b) + up(c), down(a));
    lemma_pow2_adds(down(b), down(c));
    lemma_pow2_adds(down(b) + down(c), up(a));
    assert(up(b) + up(c) + down(a) == down(b) + down(c) + up(a));
}

/// A fraction times a power of two.
pub(crate) proof fn lemma_scaled(num: nat, den: nat, shift: int)
    ensures
        binary64::scaled(num, den, shift) == (num * above(shift), den * below(shift)),
{
    assert(num * 1 == num && den * 1 == den);
}

/// Some power of two brings a fraction into the range of a mantissa.
pub proof fn lemma_shift_exists(num: nat, den: nat)
    requires
        num > 0,
        den > 0,
    ensures
        exists|shift: int| binary64::fits(num, den, shift),
{
    let low = -(num as int);
    let high = 52 + den as int;
    lemma_scaled(num, den, low);
    lemma_scaled(num, den, high);
    lemma_exceeds(num);
    lemma_exceeds(den);
    lemma_pow2_adds(52, den);
    vstd::arithmetic::power2::lemma2_to64_rest();
    assert(num < binary64::LEAST_MANTISSA * (den * pow2(num))) by (nonlinear_arith)
        requires
            num < pow2(num),
            den > 0,
    ;
    assert(num * (binary64::LEAST_MANTISSA * pow2(den)) >= binary64::LEAST_MANTISSA * den)
        by (nonlinear_arith)
        requires
            num > 0,
            pow2(den) > den,
    ;
    lemma_shift_found(num, den, low, high);
}

/// A power of two is above its exponent.
proof fn lemma_exceeds(n: nat)
    ensures
        pow2(n) > n,
    decreases n,
{
    if n == 0 {
        lemma_pow2_pos(0);
    } else {
        lemma_exceeds((n - 1) as nat);
        lemma_pow2_unfold(n);
    }
}

proof fn lemma_shift_found(num: nat, den: nat, low: int, high: int)
    requires
        num > 0,
        den > 0,
        low <= high,
        binary64::scaled(num, den, low).0 < binary64::LEAST_MANTISSA * binary64::scaled(
            num,
            den,
            low,
        ).1,
        binary64::scaled(num, den, high).0 >= binary64::LEAST_MANTISSA * binary64::scaled(
            num,
            den,
            high,
        ).1,
    ensures
        exists|shift: int| binary64::fits(num, den, shift),
    decreases high - low,
{
    let (n, d) = binary64::scaled(num, den, low);
    let (n2, d2) = binary64::scaled(num, den, low + 1);
    lemma_scaled(num, den, low);
    lemma_scaled(num, den, low + 1);
    if low >= 0 {
        lemma_pow2_unfold((low + 1) as nat);
        let p = pow2(low as nat);
        assert(num * (2 * p) == 2 * (num * p)) by (nonlinear_arith);
        assert(n2 == 2 * n && d2 == d);
    } else {
        lemma_pow2_unfold((-low) as nat);
        let p = pow2((-low - 1) as nat);
        assert(den * (2 * p) == 2 * (den * p)) by (nonlinear_arith);
        if low == -1 {
            vstd::arithmetic::power2::lemma2_to64();
        }
        assert(n2 == n && d == 2 * d2);
    }
    if n2 >= binary64::LEAST_MANTISSA * d2 {
        assert(binary64::fits(num, den, low + 1));
    } else {
        lemma_shift_found(num, den, low + 1, high);
    }
}

/// The nearest integer of a fraction is not above that of a larger one.
pub(crate) proof fn lemma_nearest_keeps_order(n1: nat, d1: nat, n2: nat, d2: nat)
    requires
        d1 > 0,
        d2 > 0,
        n1 * d2 <= n2 * d1,
    ensures
        binary64::nearest(n1, d1) <= binary64::nearest(n2, d2),
{
    let (q1, r1) = (n1 / d1, n1 % d1);
    let (q2, r2) = (n2 / d2, n2 % d2);
    vstd::arithmetic::div_mod::lemma_fundamental_div_mod(n1 as int, d1 as int);
    vstd::arithmetic::div_mod::lemma_fundamental_div_mod(n2 as int, d2 as int);
    // (q1 + r1 / d1) <= (q2 + r2 / d2)
    assert((d1 * q1 + r1) * d2 <= (d2 * q2 + r2) * d1);
    assert(q1 <= q2) by (nonlinear_arith)
        requires
            (d1 * q1 + r1) * d2 <= (d2 * q2 + r2) * d1,
            0 <= r1,
            r2 < d2,
            d1 > 0,
            d2 > 0,
    ;
    if q1 == q2 {
        assert(r1 * d2 <= r2 * d1) by (nonlinear_arith)
            requires
                (d1 * q1 + r1) * d2 <= (d2 * q2 + r2) * d1,
                q1 == q2,
        ;
        if 2 * r1 > d1 {
            assert(2 * r2 > d2) by (nonlinear_arith)
                requires
                    r1 * d2 <= r2 * d1,
                    2 * r1 > d1,
                    d1 > 0,
                    d2 > 0,
            ;
        } else if 2 * r1 == d1 {
            assert(2 * r2 >= d2) by (nonlinear_arith)
                requires
                    r1 * d2 <= r2 * d1,
                    2 * r1 == d1,
                    d1 > 0,
                    d2 > 0,
            ;
        }
    }
}

/// The nearest integer of a fraction in the range of a mantissa is one, or the first number beyond.
proof fn lemma_nearest_in_range(n: nat, d: nat)
    requires
        d > 0,
        binary64::in_range(n, d),
    ensures
        binary64::LEAST_MANTISSA <= binary64::nearest(n, d) <= binary64::MANTISSA_END,
{
    vstd::arithmetic::div_mod::lemma_fundamental_div_mod(n as int, d as int);
    let q = n / d;
    let least = binary64::LEAST_MANTISSA as int;
    let end = binary64::MANTISSA_END as int;
    assert(least <= q < end) by (nonlinear_arith)
        requires
            n == d * q + n % d,
            0 <= n % d < d,
            least * d <= n < end * d,
            d > 0,
    ;
}

/// What is not above stays so when both are brought into range.
proof fn lemma_scaling_keeps_order(
    n1: nat,
    d1: nat,
    e1: int,
    s1: int,
    n2: nat,
    d2: nat,
    e2: int,
    s2: int,
)
    requires
        ratio_le(n1, d1, e1, n2, d2, e2),
    ensures
        ratio_le(
            n1 * above(s1),
            d1 * below(s1),
            e1 - s1,
            n2 * above(s2),
            d2 * below(s2),
            e2 - s2,
        ),
{
    let x = e1 - e2;
    let t = (e1 - s1) - (e2 - s2);
    let (ax, bx) = (above(x), below(x));
    let (at, bt) = (above(t), below(t));
    let (a1, b1) = (above(s1), below(s1));
    let (a2, b2) = (above(s2), below(s2));
    lemma_powers_are_positive(x);
    lemma_powers_are_positive(t);
    lemma_powers_are_positive(s1);
    lemma_powers_are_positive(s2);
    // 2^s1 * 2^t == 2^(x + s2), and 2^(x + s2) == 2^x * 2^s2
    let y = x + s2;
    let (ay, by) = (above(y), below(y));
    lemma_powers_are_positive(y);
    lemma_powers(y, s1, t);
    lemma_powers(y, x, s2);
    // so that a1 * at * bx * b2 == b1 * bt * ax * a2
    assert(a1 * at * bx * b2 == b1 * bt * ax * a2) by (nonlinear_arith)
        requires
            a1 * at * by == b1 * bt * ay,
            ax * a2 * by == bx * b2 * ay,
            by > 0,
            ay > 0,
    {
        assert((a1 * at * bx * b2) * (by * ay) == (a1 * at * by) * (bx * b2 * ay));
        assert((b1 * bt * ax * a2) * (by * ay) == (b1 * bt * ay) * (ax * a2 * by));
    }
    let (left, right) = (n1 * d2, n2 * d1);
    let (u, v) = (a1 * at * b2, b1 * bt * a2);
    assert(u * bx == v * ax) by (nonlinear_arith)
        requires
            a1 * at * bx * b2 == b1 * bt * ax * a2,
            u == a1 * at * b2,
            v == b1 * bt * a2,
    ;
    assert(left * u <= right * v) by {
        assert(left * u * bx == left * ax * v) by (nonlinear_arith)
            requires
                u * bx == v * ax,
        ;
        assert(left * ax * v <= right * bx * v) by (nonlinear_arith)
            requires
                left * ax <= right * bx,
        ;
        assert(left * u <= right * v) by (nonlinear_arith)
            requires
                left * u * bx <= right * bx * v,
                bx > 0,
        ;
    }
    assert((n1 * a1) * (d2 * b2) * at == left * u) by (nonlinear_arith)
        requires
            left == n1 * d2,
            u == a1 * at * b2,
    ;
    assert((n2 * a2) * (d1 * b1) * bt == right * v) by (nonlinear_arith)
        requires
            right == n2 * d1,
            v == b1 * bt * a2,
    ;
}

pub(crate) proof fn lemma_times_one(x: nat, one: nat)
    by (nonlinear_arith)
    requires
        one == 1,
    ensures
        x * one == x,
{
}

/// A number with a mantissa of twice the size is the number with an exponent of one more.
proof fn lemma_le_of_double(m: nat, e: int, b: binary64::BinaryView)
    ensures
        le(binary64::BinaryView { mantissa: 2 * m, exponent: e }, b) == le(
            binary64::BinaryView { mantissa: m, exponent: e + 1 },
            b,
        ),
        le(b, binary64::BinaryView { mantissa: 2 * m, exponent: e }) == le(
            b,
            binary64::BinaryView { mantissa: m, exponent: e + 1 },
        ),
{
    let t = e - b.exponent;
    vstd::arithmetic::power2::lemma2_to64();
    if t >= 0 {
        lemma_pow2_unfold((t + 1) as nat);
        let p = pow2(t as nat);
        assert((2 * m) * p == m * (2 * p)) by (nonlinear_arith);
        lemma_times_one(b.mantissa, below(t));
        lemma_times_one(b.mantissa, below(t + 1));
    } else {
        lemma_pow2_unfold((-t) as nat);
        let p = pow2((-t - 1) as nat);
        assert(b.mantissa * (2 * p) == 2 * (b.mantissa * p)) by (nonlinear_arith);
        lemma_times_one(2 * m, above(t));
        lemma_times_one(m, above(t + 1));
        assert(below(t + 1) == p);
    }
    let u = b.exponent - e;
    if u >= 1 {
        lemma_pow2_unfold(u as nat);
        let p = pow2((u - 1) as nat);
        assert(b.mantissa * (2 * p) == 2 * (b.mantissa * p)) by (nonlinear_arith);
        lemma_times_one(2 * m, below(u));
        lemma_times_one(m, below(u - 1));
    } else {
        lemma_pow2_unfold((1 - u) as nat);
        let p = pow2((-u) as nat);
        assert(m * (2 * p) == (2 * m) * p) by (nonlinear_arith);
        lemma_times_one(b.mantissa, above(u));
        lemma_times_one(b.mantissa, above(u - 1));
        assert(below(u) == p);
    }
}

/// Rounding keeps the order of numbers.
pub proof fn lemma_rounding_keeps_order(n1: nat, d1: nat, e1: int, n2: nat, d2: nat, e2: int)
    requires
        n1 > 0,
        d1 > 0,
        n2 > 0,
        d2 > 0,
        ratio_le(n1, d1, e1, n2, d2, e2),
    ensures
        le(binary64::rounded(n1, d1, e1), binary64::rounded(n2, d2, e2)),
        binary64::rounded(n1, d1, e1).mantissa > 0,
        binary64::rounded(n2, d2, e2).mantissa > 0,
{
    lemma_shift_exists(n1, d1);
    lemma_shift_exists(n2, d2);
    let s1 = choose|shift: int| binary64::fits(n1, d1, shift);
    let s2 = choose|shift: int| binary64::fits(n2, d2, shift);
    let (m1, k1) = binary64::scaled(n1, d1, s1);
    let (m2, k2) = binary64::scaled(n2, d2, s2);
    lemma_scaled(n1, d1, s1);
    lemma_scaled(n2, d2, s2);
    lemma_powers_are_positive(s1);
    lemma_powers_are_positive(s2);
    assert(k1 > 0 && k2 > 0) by (nonlinear_arith)
        requires
            k1 == d1 * below(s1),
            k2 == d2 * below(s2),
            d1 > 0,
            d2 > 0,
            below(s1) > 0,
            below(s2) > 0,
    ;
    lemma_scaling_keeps_order(n1, d1, e1, s1, n2, d2, e2, s2);
    let f1 = e1 - s1;
    let f2 = e2 - s2;
    let r1 = binary64::nearest(m1, k1);
    let r2 = binary64::nearest(m2, k2);
    lemma_nearest_in_range(m1, k1);
    lemma_nearest_in_range(m2, k2);
    let least = binary64::LEAST_MANTISSA as nat;
    let x1 = binary64::BinaryView { mantissa: r1, exponent: f1 };
    let x2 = binary64::BinaryView { mantissa: r2, exponent: f2 };
    let t = f1 - f2;
    vstd::arithmetic::power2::lemma2_to64();
    if t == 0 {
        assert(m1 * k2 * 1 <= m2 * k1 * 1);
        lemma_nearest_keeps_order(m1, k1, m2, k2);
        assert(r1 * 1 <= r2 * 1);
    } else if t < 0 {
        lemma_pow2_unfold((-t) as nat);
        lemma_pow2_pos((-t - 1) as nat);
        let p = pow2((-t) as nat);
        assert(r1 <= r2 * p) by (nonlinear_arith)
            requires
                r1 <= 2 * least,
                r2 >= least,
                p >= 2,
        ;
        assert(r1 * 1 == r1);
    } else {
        lemma_pow2_unfold(t as nat);
        lemma_pow2_pos((t - 1) as nat);
        let p = pow2(t as nat);
        assert(false) by (nonlinear_arith)
            requires
                m1 * k2 * p <= m2 * k1 * 1,
                m1 >= least * k1,
                m2 < 2 * least * k2,
                p >= 2,
                k1 > 0,
                k2 > 0,
        {
            assert(m1 * k2 * p >= (least * k1) * k2 * 2);
            assert(m2 * k1 < (2 * least * k2) * k1);
            assert((least * k1) * k2 * 2 == (2 * least * k2) * k1);
        }
    }
    assert(le(x1, x2));
    let y1 = binary64::rounded(n1, d1, e1);
    let y2 = binary64::rounded(n2, d2, e2);
    if r1 == binary64::MANTISSA_END {
        lemma_le_of_double(least, f1, x2);
    }
    assert(le(y1, x2));
    if r2 == binary64::MANTISSA_END {
        lemma_le_of_double(least, f2, y1);
    }
}

/// The least integer that is not below a number is not above that of a larger one.
pub(crate) proof fn lemma_ceil_keeps_order(a: binary64::BinaryView, b: binary64::BinaryView)
    requires
        le(a, b),
    ensures
        a.ceil() <= b.ceil(),
{
    let c = b.ceil();
    let x = a.exponent - b.exponent;
    let (ax, bx) = (above(x), below(x));
    let (aa, ba) = (above(a.exponent), below(a.exponent));
    let (ab, bb) = (above(b.exponent), below(b.exponent));
    lemma_powers_are_positive(x);
    lemma_powers_are_positive(a.exponent);
    lemma_powers_are_positive(b.exponent);
    lemma_powers(a.exponent, x, b.exponent);
    // b <= c
    assert(b.mantissa * ab <= c * bb) by {
        if b.exponent < 0 {
            let n = b.mantissa + bb - 1;
            vstd::arithmetic::div_mod::lemma_fundamental_div_mod(n, bb as int);
            assert(bb * c == c * bb) by (nonlinear_arith);
            lemma_times_one(b.mantissa, ab);
        } else {
            lemma_times_one(c, bb);
        }
    }
    // a <= c
    assert(a.mantissa * aa <= c * ba) by (nonlinear_arith)
        requires
            a.mantissa * ax <= b.mantissa * bx,
            b.mantissa * ab <= c * bb,
            ax * ab * ba == bx * bb * aa,
            bx > 0,
            bb > 0,
            ab > 0,
    {
        let m = a.mantissa;
        assert((m * ax) * ab <= (b.mantissa * bx) * ab);
        assert((b.mantissa * ab) * bx <= (c * bb) * bx);
        assert((b.mantissa * bx) * ab == (b.mantissa * ab) * bx);
        assert((m * ax) * ab * ba <= (c * bb) * bx * ba);
        assert((m * ax) * ab * ba == (m * aa) * (bx * bb));
        assert((c * bb) * bx * ba == (c * ba) * (bx * bb));
        assert(bx * bb > 0);
    }
    if a.exponent >= 0 {
        lemma_times_one(c, ba);
    } else {
        lemma_times_one(a.mantissa, aa);
        let n = a.mantissa + ba - 1;
        let q = n / ba as int;
        vstd::arithmetic::div_mod::lemma_fundamental_div_mod(n, ba as int);
        assert(q <= c) by (nonlinear_arith)
            requires
                n == ba * q + n % (ba as int),
                0 <= n % (ba as int),
                n == a.mantissa + ba - 1,
                a.mantissa <= c * ba,
                ba > 0,
        ;
    }
}

/// A larger percentage has no lower rank.
pub proof fn lemma_rank_keeps_order(len: nat, p: binary64::BinaryView, q: binary64::BinaryView)
    requires
        len > 0,
        p.mantissa > 0,
        q.mantissa > 0,
        le(p, q),
    ensures
        percentiles::rank(len, p) <= percentiles::rank(len, q),
{
    let l = binary64::BinaryView::of(len);
    let h = binary64::BinaryView::of(100);
    lemma_of_keeps_order(len, len);
    lemma_of_keeps_order(100, 100);
    let t = p.exponent - q.exponent;
    let (at, bt) = (above(t), below(t));
    let (m, pm, qm) = (l.mantissa, p.mantissa, q.mantissa);
    assert(m * pm > 0 && m * qm > 0) by (nonlinear_arith)
        requires
            m > 0,
            pm > 0,
            qm > 0,
    ;
    assert((m * pm) * 1 * at <= (m * qm) * 1 * bt) by (nonlinear_arith)
        requires
            pm * at <= qm * bt,
    ;
    lemma_rounding_keeps_order(m * pm, 1, l.exponent + p.exponent, m * qm, 1, l.exponent + q.exponent);
    lemma_over_keeps_order(l.times(p), l.times(q), h);
    lemma_ceil_keeps_order(l.times(p).over(h), l.times(q).over(h));
}

/// Quotients by the same number keep their order.
proof fn lemma_over_keeps_order(
    a: binary64::BinaryView,
    b: binary64::BinaryView,
    by: binary64::BinaryView,
)
    requires
        a.mantissa > 0,
        b.mantissa > 0,
        by.mantissa > 0,
        le(a, b),
    ensures
        le(a.over(by), b.over(by)),
        a.over(by).mantissa > 0,
        b.over(by).mantissa > 0,
{
    let t = a.exponent - b.exponent;
    let (at, bt) = (above(t), below(t));
    let (am, bm, d) = (a.mantissa, b.mantissa, by.mantissa);
    assert(am * d * at <= bm * d * bt) by (nonlinear_arith)
        requires
            am * at <= bm * bt,
    ;
    lemma_rounding_keeps_order(
        am,
        d,
        a.exponent - by.exponent,
        bm,
        d,
        b.exponent - by.exponent,
    );
}

proof fn lemma_of_keeps_order(a: nat, b: nat)
    requires
        0 < a <= b,
    ensures
        le(binary64::BinaryView::of(a), binary64::BinaryView::of(b)),
        binary64::BinaryView::of(a).mantissa > 0,
        binary64::BinaryView::of(b).mantissa > 0,
{
    vstd::arithmetic::power2::lemma2_to64();
    assert(a * 1 * 1 <= b * 1 * 1);
    lemma_rounding_keeps_order(a, 1, 0, b, 1, 0);
}

/// Percentages in tenths keep their order.
proof fn lemma_tenths_keep_order(a: nat, b: nat)
    requires
        0 < a <= b,
    ensures
        le(percentiles::tenths(a), percentiles::tenths(b)),
        percentiles::tenths(a).mantissa > 0,
        percentiles::tenths(b).mantissa > 0,
{
    lemma_of_keeps_order(a, b);
    lemma_of_keeps_order(10, 10);
    lemma_over_keeps_order(
        binary64::BinaryView::of(a),
        binary64::BinaryView::of(b),
        binary64::BinaryView::of(10),
    );
}

/// A larger percentile of values in order is no lower, and lies between the least and the greatest
/// of them.
pub proof fn lemma_percentile_keeps_order(
    values: Seq<u64>,
    p: binary64::BinaryView,
    q: binary64::BinaryView,
)
    requires
        values.len() > 0,
        vstd::relations::sorted_by(values, percentiles::ascending()),
        p.mantissa > 0,
        q.mantissa > 0,
        le(p, q),
    ensures
        values[0] <= percentiles::percentile_of(values, p) <= percentiles::percentile_of(values, q)
            <= values.last(),
{
    lemma_rank_keeps_order(values.len(), p, q);
    let leq = percentiles::ascending();
    assert forall|i: int, j: int| 0 <= i <= j < values.len() implies values[i] <= values[j] by {
        if i < j {
            assert(leq(values[i], values[j]));
        }
    }
}

/// The percentiles of values stand in their order between the least and the greatest of the
/// values, and so does the mean.
pub proof fn lemma_percentiles_in_order(values: Seq<u64>)
    ensures
        ({
            let p = percentiles::percentiles(values);
            &&& p.min <= p.p50 <= p.p90 <= p.p95 <= p.p99 <= p.p99_9 <= p.max
            &&& p.min <= p.mean <= p.max
        }),
{
    if values.len() > 0 {
        let v = percentiles::sorted(values);
        values.lemma_sort_by_ensures(percentiles::ascending());
        values.to_multiset_ensures();
        v.to_multiset_ensures();
        lemma_tenths_keep_order(500, 900);
        lemma_tenths_keep_order(900, 950);
        lemma_tenths_keep_order(950, 990);
        lemma_tenths_keep_order(990, 999);
        lemma_percentile_keeps_order(v, percentiles::tenths(500), percentiles::tenths(900));
        lemma_percentile_keeps_order(v, percentiles::tenths(900), percentiles::tenths(950));
        lemma_percentile_keeps_order(v, percentiles::tenths(950), percentiles::tenths(990));
        lemma_percentile_keeps_order(v, percentiles::tenths(990), percentiles::tenths(999));
        let leq = percentiles::ascending();
        assert forall|i: int| 0 <= i < values.len() implies v[0] <= #[trigger] values[i]
            <= v.last() by {
            assert(values.to_multiset().count(values[i]) > 0);
            assert(v.contains(values[i]));
            let j = choose|j: int| 0 <= j < v.len() && v[j] == values[i];
            if 0 < j {
                assert(leq(v[0], v[j]));
            }
            if j < v.len() - 1 {
                assert(leq(v[j], v[v.len() - 1]));
            }
        }
        percentiles::lemma_sum_bounds(values, v[0] as nat, v.last() as nat);
        let (low, high) = (v[0] as int, v.last() as int);
        let (total, len) = (percentiles::sum(values) as int, values.len() as int);
        assert(low <= total / len <= high) by (nonlinear_arith)
            requires
                low * len <= total <= high * len,
                len > 0,
        ;
    }
}

} // verus!
