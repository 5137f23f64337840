//! How near the numbers that are shown come to those that are meant.

use vstd::arithmetic::power2::{lemma2_to64, lemma_pow2_adds, pow2};
use vstd::prelude::*;

use crate::binary64;
use crate::monotone;
use crate::percentiles;
use crate::ranks;
use crate::table;

verus! {

/// A multiple of a power of one half.
pub open spec fn grid(k: nat, g: nat) -> binary64::BinaryView {
    binary64::BinaryView { mantissa: k, exponent: -(g as int) }
}

/// What is not above stays so.
proof fn lemma_ratio_transitive(
    n1: nat,
    d1: nat,
    e1: int,
    n2: nat,
    d2: nat,
    e2: int,
    n3: nat,
    d3: nat,
    e3: int,
)
    requires
        d2 > 0,
        monotone::ratio_le(n1, d1, e1, n2, d2, e2),
        monotone::ratio_le(n2, d2, e2, n3, d3, e3),
    ensures
        monotone::ratio_le(n1, d1, e1, n3, d3, e3),
{
    let (a12, b12) = (monotone::above(e1 - e2), monotone::below(e1 - e2));
    let (a23, b23) = (monotone::above(e2 - e3), monotone::below(e2 - e3));
    let (a13, b13) = (monotone::above(e1 - e3), monotone::below(e1 - e3));
    monotone::lemma_powers(e1 - e3, e1 - e2, e2 - e3);
    monotone::lemma_powers_are_positive(e1 - e2);
    monotone::lemma_powers_are_positive(e2 - e3);
    monotone::lemma_powers_are_positive(e1 - e3);
    let k = d2 * b12 * b23;
    assert(k > 0) by (nonlinear_arith)
        requires
            k == d2 * b12 * b23,
            d2 > 0,
            b12 > 0,
            b23 > 0,
    ;
    assert((n1 * d3 * a13) * k == (n1 * d2 * a12) * (d3 * a23 * b13)) by {
        assert((n1 * d3 * a13) * (d2 * b12 * b23) == (n1 * d3 * d2) * (b12 * b23 * a13))
            by (nonlinear_arith);
        assert((n1 * d3 * d2) * (a12 * a23 * b13) == (n1 * d2 * a12) * (d3 * a23 * b13))
            by (nonlinear_arith);
    }
    assert((n1 * d2 * a12) * (d3 * a23 * b13) <= (n2 * d1 * b12) * (d3 * a23 * b13))
        by (nonlinear_arith)
        requires
            n1 * d2 * a12 <= n2 * d1 * b12,
    ;
    assert((n2 * d1 * b12) * (d3 * a23 * b13) == (n2 * d3 * a23) * (d1 * b12 * b13))
        by (nonlinear_arith);
    assert((n2 * d3 * a23) * (d1 * b12 * b13) <= (n3 * d2 * b23) * (d1 * b12 * b13))
        by (nonlinear_arith)
        requires
            n2 * d3 * a23 <= n3 * d2 * b23,
    ;
    assert((n3 * d2 * b23) * (d1 * b12 * b13) == (n3 * d1 * b13) * k) by (nonlinear_arith)
        requires
            k == d2 * b12 * b23,
    ;
    assert(n1 * d3 * a13 <= n3 * d1 * b13) by (nonlinear_arith)
        requires
            (n1 * d3 * a13) * k <= (n3 * d1 * b13) * k,
            k > 0,
    ;
}

proof fn lemma_le_is_ratio(a: binary64::BinaryView, b: binary64::BinaryView)
    ensures
        monotone::le(a, b) <==> monotone::ratio_le(
            a.mantissa,
            1,
            a.exponent,
            b.mantissa,
            1,
            b.exponent,
        ),
{
    assert(a.mantissa * 1 == a.mantissa && b.mantissa * 1 == b.mantissa);
}

proof fn lemma_le_transitive(
    a: binary64::BinaryView,
    b: binary64::BinaryView,
    c: binary64::BinaryView,
)
    requires
        monotone::le(a, b),
        monotone::le(b, c),
    ensures
        monotone::le(a, c),
{
    lemma_le_is_ratio(a, b);
    lemma_le_is_ratio(b, c);
    lemma_le_is_ratio(a, c);
    lemma_ratio_transitive(
        a.mantissa,
        1,
        a.exponent,
        b.mantissa,
        1,
        b.exponent,
        c.mantissa,
        1,
        c.exponent,
    );
}

/// Rounding does not go beyond a number of 53 bits.
proof fn lemma_not_above(n: nat, d: nat, e: int, k: nat, g: nat)
    requires
        n > 0,
        d > 0,
        0 < k < binary64::MANTISSA_END,
        monotone::ratio_le(n, d, e, k, 1, -(g as int)),
    ensures
        monotone::le(binary64::rounded(n, d, e), grid(k, g)),
{
    let f = -(g as int);
    lemma2_to64();
    monotone::lemma_rounding_keeps_order(n, d, e, k, 1, f);
    assert(k * monotone::above(0) == k * 1 * monotone::below(0));
    ranks::lemma_rounding_is_exact(k, 1, f, k, f);
    ranks::lemma_same_is_le(binary64::rounded(k, 1, f), grid(k, g));
    lemma_le_transitive(binary64::rounded(n, d, e), binary64::rounded(k, 1, f), grid(k, g));
}

proof fn lemma_not_below(n: nat, d: nat, e: int, k: nat, g: nat)
    requires
        n > 0,
        d > 0,
        0 < k < binary64::MANTISSA_END,
        monotone::ratio_le(k, 1, -(g as int), n, d, e),
    ensures
        monotone::le(grid(k, g), binary64::rounded(n, d, e)),
{
    let f = -(g as int);
    lemma2_to64();
    monotone::lemma_rounding_keeps_order(k, 1, f, n, d, e);
    assert(k * monotone::above(0) == k * 1 * monotone::below(0));
    ranks::lemma_rounding_is_exact(k, 1, f, k, f);
    ranks::lemma_same_is_le(binary64::rounded(k, 1, f), grid(k, g));
    lemma_le_transitive(grid(k, g), binary64::rounded(k, 1, f), binary64::rounded(n, d, e));
}

/// Multiples keep the order of numbers.
proof fn lemma_multiple_keeps_order(a: binary64::BinaryView, b: binary64::BinaryView, factor: nat)
    requires
        monotone::le(a, b),
    ensures
        a.nearest_multiple(factor) <= b.nearest_multiple(factor),
{
    let x = a.exponent - b.exponent;
    let (ax, bx) = (monotone::above(x), monotone::below(x));
    let (aa, ba) = (monotone::above(a.exponent), monotone::below(a.exponent));
    let (ab, bb) = (monotone::above(b.exponent), monotone::below(b.exponent));
    monotone::lemma_powers_are_positive(x);
    monotone::lemma_powers_are_positive(a.exponent);
    monotone::lemma_powers_are_positive(b.exponent);
    monotone::lemma_powers(a.exponent, x, b.exponent);
    monotone::lemma_scaled(a.mantissa * factor, 1, a.exponent);
    monotone::lemma_scaled(b.mantissa * factor, 1, b.exponent);
    let (m, n) = (a.mantissa, b.mantissa);
    assert((m * factor * aa * bb) * bx == (m * ax) * (factor * ab * ba)) by {
        assert((m * factor * aa * bb) * bx == (m * factor) * (bx * bb * aa)) by (nonlinear_arith);
        assert((m * factor) * (ax * ab * ba) == (m * ax) * (factor * ab * ba))
            by (nonlinear_arith);
    }
    assert((m * ax) * (factor * ab * ba) <= (n * bx) * (factor * ab * ba)) by (nonlinear_arith)
        requires
            m * ax <= n * bx,
    ;
    assert((n * bx) * (factor * ab * ba) == (n * factor * ab * ba) * bx) by (nonlinear_arith);
    assert(m * factor * aa * bb <= n * factor * ab * ba) by (nonlinear_arith)
        requires
            (m * factor * aa * bb) * bx <= (n * factor * ab * ba) * bx,
            bx > 0,
    ;
    assert((m * factor * aa) * (1 * bb) == m * factor * aa * bb) by (nonlinear_arith);
    assert((n * factor * ab) * (1 * ba) == n * factor * ab * ba) by (nonlinear_arith);
    assert(1 * ba == ba && 1 * bb == bb);
    monotone::lemma_nearest_keeps_order(m * factor * aa, 1 * ba, n * factor * ab, 1 * bb);
}

/// The nearest integer is no further from a fraction than one half.
pub proof fn lemma_nearest_is_near(num: nat, den: nat)
    requires
        den > 0,
    ensures
        2 * binary64::nearest(num, den) * den <= 2 * num + den,
        2 * num <= 2 * binary64::nearest(num, den) * den + den,
{
    let (q, r) = (num / den, num % den);
    vstd::arithmetic::div_mod::lemma_fundamental_div_mod(num as int, den as int);
    assert(2 * q * den == 2 * (den * q)) by (nonlinear_arith);
    assert(2 * (q + 1) * den == 2 * (den * q) + 2 * den) by (nonlinear_arith);
}

/// The nearest multiple of a number on the grid, between bounds.
proof fn lemma_grid_multiple(k: nat, g: nat, factor: nat, unit: nat, t: nat)
    requires
        g > 0,
        unit == pow2(g),
        unit > 0,
    ensures
        2 * k * factor < (2 * t + 1) * unit ==> grid(k, g).nearest_multiple(factor) <= t,
        2 * k * factor > (2 * t - 1) * unit ==> grid(k, g).nearest_multiple(factor) >= t,
{
    let x = grid(k, g);
    let r = x.nearest_multiple(factor);
    assert(1 * unit == unit);
    assert(r == binary64::nearest(k * factor, unit));
    lemma_nearest_is_near(k * factor, unit);
    assert(2 * (k * factor) == 2 * k * factor) by (nonlinear_arith);
    if 2 * k * factor < (2 * t + 1) * unit {
        assert(r <= t) by (nonlinear_arith)
            requires
                2 * r * unit <= 2 * k * factor + unit,
                2 * k * factor < (2 * t + 1) * unit,
                unit > 0,
        ;
    }
    if 2 * k * factor > (2 * t - 1) * unit {
        assert(r >= t) by (nonlinear_arith)
            requires
                2 * k * factor <= 2 * r * unit + unit,
                2 * k * factor > (2 * t - 1) * unit,
                unit > 0,
        ;
    }
}

/// A quotient of integers lies between numbers on the grid that the exact quotient lies between.
proof fn lemma_quotient_on_grid(n: nat, d: nat, low: nat, high: nat, g: nat, unit: nat)
    requires
        0 < n < binary64::MANTISSA_END,
        0 < d < binary64::MANTISSA_END,
        0 < low < binary64::MANTISSA_END,
        0 < high < binary64::MANTISSA_END,
        unit == pow2(g),
        low * d <= n * unit,
        n * unit <= high * d,
    ensures
        monotone::le(grid(low, g), table::quotient(n, d)),
        monotone::le(table::quotient(n, d), grid(high, g)),
{
    let (a, b) = (binary64::BinaryView::of(n), binary64::BinaryView::of(d));
    let x = a.exponent - b.exponent;
    let f = -(g as int);
    lemma2_to64();
    ranks::lemma_of_is_exact(n);
    ranks::lemma_of_is_exact(d);
    ranks::lemma_quotient(a, n, b, d);
    assert(monotone::ratio_le(a.mantissa, b.mantissa, x, n, d, 0));
    assert(monotone::above(0 - f) == unit && monotone::below(0 - f) == 1);
    assert(monotone::ratio_le(n, d, 0, high, 1, f)) by {
        assert(n * 1 * unit == n * unit && high * d * 1 == high * d);
    }
    lemma_ratio_transitive(a.mantissa, b.mantissa, x, n, d, 0, high, 1, f);
    lemma_not_above(a.mantissa, b.mantissa, x, high, g);
    assert(monotone::ratio_le(n, d, 0, a.mantissa, b.mantissa, x)) by {
        let (p, q) = (monotone::above(0 - x), monotone::below(0 - x));
        assert(p == monotone::below(x) && q == monotone::above(x));
        assert(n * b.mantissa * p <= a.mantissa * d * q);
    }
    assert(monotone::ratio_le(low, 1, f, n, d, 0)) by {
        if g == 0 {
            assert(unit == 1);
        }
        let (p, q) = (monotone::above(f - 0), monotone::below(f - 0));
        assert(p == 1 && q == unit);
        assert(low * d * 1 == low * d && n * 1 * unit == n * unit);
    }
    lemma_ratio_transitive(low, 1, f, n, d, 0, a.mantissa, b.mantissa, x);
    lemma_not_below(a.mantissa, b.mantissa, x, low, g);
}

/// A quotient is rounded to the multiple of its last place that is nearest: where a place is `unit`
/// units, no further off than half of that.
pub proof fn lemma_quotient_to_places(n: nat, d: nat, places: nat, unit: nat)
    requires
        0 < n < 0x10_0000_0000_0000,
        n < 0x40_0000 * d,
        0 < d <= 1_000_000_000,
        0 < unit,
        d == places * unit,
    ensures
        ({
            let shown = table::quotient(n, d).nearest_multiple(places);
            &&& 2 * unit * shown <= 2 * n + unit
            &&& 2 * n <= 2 * unit * shown + unit
        }),
{
    let g: nat = 31;
    let one: nat = 0x8000_0000;
    lemma2_to64();
    assert(pow2(31) == one);
    let x = table::quotient(n, d);
    let all = n * one;
    let high = ((all + d - 1) as nat / d) as nat;
    let low = (all / d) as nat;
    vstd::arithmetic::div_mod::lemma_fundamental_div_mod((all + d - 1) as int, d as int);
    vstd::arithmetic::div_mod::lemma_fundamental_div_mod(all as int, d as int);
    vstd::arithmetic::div_mod::lemma_mod_bound((all + d - 1) as int, d as int);
    vstd::arithmetic::div_mod::lemma_mod_bound(all as int, d as int);
    assert(high * d == d * high && low * d == d * low) by (nonlinear_arith);
    assert(all <= high * d < all + d);
    assert(low * d <= all < low * d + d);
    assert(high < binary64::MANTISSA_END) by (nonlinear_arith)
        requires
            high * d < all + d,
            all == n * one,
            one == 0x8000_0000,
            n < 0x40_0000 * d,
            n + 1 <= 0x40_0000 * d,
            0 < d,
            d <= 0x4000_0000,
    {
        assert(all <= (0x40_0000 * d - 1) * 0x8000_0000);
        assert(high * d < 0x20_0000_0000_0000 * d);
    }
    assert(low > 0) by (nonlinear_arith)
        requires
            all < low * d + d,
            all == n * one,
            one == 0x8000_0000,
            n >= 1,
            d <= 1_000_000_000,
    ;
    assert(low <= high) by (nonlinear_arith)
        requires
            low * d <= all,
            all <= high * d,
            d > 0,
    ;
    lemma_quotient_on_grid(n, d, low, high, g, one);
    lemma_multiple_keeps_order(x, grid(high, g), places);
    lemma_multiple_keeps_order(grid(low, g), x, places);
    let shown = x.nearest_multiple(places);
    // not above
    let t = ((2 * n + unit) / (2 * unit)) as nat;
    vstd::arithmetic::div_mod::lemma_fundamental_div_mod((2 * n + unit) as int, (2 * unit) as int);
    vstd::arithmetic::div_mod::lemma_mod_bound((2 * n + unit) as int, (2 * unit) as int);
    assert((2 * unit) * t <= 2 * n + unit < (2 * unit) * t + 2 * unit);
    assert(2 * n + 1 <= (2 * t + 1) * unit) by (nonlinear_arith)
        requires
            2 * n + unit < (2 * unit) * t + 2 * unit,
    ;
    assert(2 * high * places < (2 * t + 1) * one) by {
        assert((2 * high * places) * unit == 2 * (high * d)) by (nonlinear_arith)
            requires
                d == places * unit,
        ;
        assert((2 * n + 1) * one <= ((2 * t + 1) * unit) * one) by (nonlinear_arith)
            requires
                2 * n + 1 <= (2 * t + 1) * unit,
        ;
        assert((2 * n + 1) * one == 2 * (n * one) + one) by (nonlinear_arith);
        assert((2 * high * places) * unit < ((2 * t + 1) * unit) * one);
        assert(((2 * t + 1) * unit) * one == ((2 * t + 1) * one) * unit) by (nonlinear_arith);
        assert(2 * high * places < (2 * t + 1) * one) by (nonlinear_arith)
            requires
                (2 * high * places) * unit < ((2 * t + 1) * one) * unit,
                unit > 0,
        ;
    }
    lemma_grid_multiple(high, g, places, one, t);
    assert(2 * unit * shown <= 2 * n + unit) by (nonlinear_arith)
        requires
            shown <= t,
            (2 * unit) * t <= 2 * n + unit,
    ;
    // not below
    let u = ((2 * n + unit - 1) as nat / (2 * unit) as nat) as nat;
    vstd::arithmetic::div_mod::lemma_fundamental_div_mod(
        (2 * n + unit - 1) as int,
        (2 * unit) as int,
    );
    vstd::arithmetic::div_mod::lemma_mod_bound((2 * n + unit - 1) as int, (2 * unit) as int);
    assert((2 * unit) * u <= 2 * n + unit - 1 < (2 * unit) * u + 2 * unit);
    assert((2 * u - 1) * unit + 1 <= 2 * n) by (nonlinear_arith)
        requires
            (2 * unit) * u <= 2 * n + unit - 1,
    ;
    assert(2 * low * places > (2 * u - 1) * one) by {
        assert((2 * low * places) * unit == 2 * (low * d)) by (nonlinear_arith)
            requires
                d == places * unit,
        ;
        assert(((2 * u - 1) * unit + 1) * one <= (2 * n) * one) by (nonlinear_arith)
            requires
                (2 * u - 1) * unit + 1 <= 2 * n,
        ;
        assert((2 * n) * one == 2 * (n * one)) by (nonlinear_arith);
        assert(((2 * u - 1) * unit + 1) * one == ((2 * u - 1) * one) * unit + one)
            by (nonlinear_arith);
        assert((2 * low * places) * unit > ((2 * u - 1) * one) * unit);
        assert(2 * low * places > (2 * u - 1) * one) by (nonlinear_arith)
            requires
                (2 * low * places) * unit > ((2 * u - 1) * one) * unit,
                unit > 0,
        ;
    }
    lemma_grid_multiple(low, g, places, one, u);
    assert(2 * n <= 2 * unit * shown + unit) by (nonlinear_arith)
        requires
            shown >= u,
            2 * n + unit - 1 < (2 * unit) * u + 2 * unit,
    ;
}

/// A product with an integer is not above what the bound of the other factor gives.
proof fn lemma_product_bounds(
    a: binary64::BinaryView,
    h: binary64::BinaryView,
    v: nat,
    k: nat,
    g: nat,
)
    requires
        ranks::same(h, ranks::integer(v)),
    ensures
        monotone::le(a, grid(k, g)) ==> monotone::ratio_le(
            a.mantissa * h.mantissa,
            1,
            a.exponent + h.exponent,
            k * v,
            1,
            -(g as int),
        ),
        monotone::le(grid(k, g), a) ==> monotone::ratio_le(
            k * v,
            1,
            -(g as int),
            a.mantissa * h.mantissa,
            1,
            a.exponent + h.exponent,
        ),
{
    let f = -(g as int);
    let x = a.exponent - f;
    let y = x + h.exponent;
    let (a1, b1) = (monotone::above(x), monotone::below(x));
    let (a2, b2) = (monotone::above(h.exponent), monotone::below(h.exponent));
    let (a3, b3) = (monotone::above(y), monotone::below(y));
    monotone::lemma_powers(y, x, h.exponent);
    monotone::lemma_powers_are_positive(x);
    monotone::lemma_powers_are_positive(h.exponent);
    monotone::lemma_powers_are_positive(y);
    lemma2_to64();
    assert(monotone::above(-y) == b3 && monotone::below(-y) == a3);
    assert(monotone::above(-x) == b1 && monotone::below(-x) == a1);
    assert(a.exponent + h.exponent - f == y && f - (a.exponent + h.exponent) == -y);
    assert(f - a.exponent == -x);
    let (m, n) = (a.mantissa, h.mantissa);
    assert(n * a2 == v * b2);
    let c = b1 * b2;
    assert(c > 0) by (nonlinear_arith)
        requires
            c == b1 * b2,
            b1 > 0,
            b2 > 0,
    ;
    assert((m * n * a3) * c == (m * a1) * (n * a2) * b3) by {
        assert((m * n * a3) * (b1 * b2) == (m * n) * (b1 * b2 * a3)) by (nonlinear_arith);
        assert((m * n) * (a1 * a2 * b3) == (m * a1) * (n * a2) * b3) by (nonlinear_arith);
    }
    assert((k * b1) * (v * b2) * b3 == (k * v * b3) * c) by (nonlinear_arith)
        requires
            c == b1 * b2,
    ;
    assert(m * n * 1 == m * n && k * v * 1 == k * v);
    if monotone::le(a, grid(k, g)) {
        assert((m * a1) * (n * a2) * b3 <= (k * b1) * (v * b2) * b3) by (nonlinear_arith)
            requires
                m * a1 <= k * b1,
                n * a2 == v * b2,
        ;
        assert(m * n * a3 <= k * v * b3) by (nonlinear_arith)
            requires
                (m * n * a3) * c <= (k * v * b3) * c,
                c > 0,
        ;
    }
    if monotone::le(grid(k, g), a) {
        assert((k * b1) * (v * b2) * b3 <= (m * a1) * (n * a2) * b3) by (nonlinear_arith)
            requires
                k * b1 <= m * a1,
                n * a2 == v * b2,
        ;
        assert(k * v * b3 <= m * n * a3) by (nonlinear_arith)
            requires
                (k * v * b3) * c <= (m * n * a3) * c,
                c > 0,
        ;
    }
}

/// A quotient by an integer is not above what the bound of the dividend gives.
proof fn lemma_division_bounds(
    a: binary64::BinaryView,
    h: binary64::BinaryView,
    v: nat,
    k: nat,
    g: nat,
)
    requires
        ranks::same(h, ranks::integer(v)),
    ensures
        monotone::le(a, grid(k, g)) ==> monotone::ratio_le(
            a.mantissa,
            h.mantissa,
            a.exponent - h.exponent,
            k,
            v,
            -(g as int),
        ),
        monotone::le(grid(k, g), a) ==> monotone::ratio_le(
            k,
            v,
            -(g as int),
            a.mantissa,
            h.mantissa,
            a.exponent - h.exponent,
        ),
{
    let f = -(g as int);
    let x = a.exponent - f;
    let y = x - h.exponent;
    let (a1, b1) = (monotone::above(x), monotone::below(x));
    let (a2, b2) = (monotone::above(h.exponent), monotone::below(h.exponent));
    let (a3, b3) = (monotone::above(y), monotone::below(y));
    monotone::lemma_powers(x, y, h.exponent);
    monotone::lemma_powers_are_positive(x);
    monotone::lemma_powers_are_positive(h.exponent);
    monotone::lemma_powers_are_positive(y);
    lemma2_to64();
    assert(monotone::above(-y) == b3 && monotone::below(-y) == a3);
    assert(monotone::above(-x) == b1 && monotone::below(-x) == a1);
    assert(a.exponent - h.exponent - f == y && f - (a.exponent - h.exponent) == -y);
    assert(f - a.exponent == -x);
    let (m, n) = (a.mantissa, h.mantissa);
    assert(n * a2 == v * b2);
    let c = a2 * b1;
    assert(c > 0) by (nonlinear_arith)
        requires
            c == a2 * b1,
            a2 > 0,
            b1 > 0,
    ;
    assert((m * v * a3) * c == (m * a1) * (v * b2) * b3) by {
        assert((m * v * a3) * (a2 * b1) == (m * v) * (a3 * a2 * b1)) by (nonlinear_arith);
        assert((m * v) * (b3 * b2 * a1) == (m * a1) * (v * b2) * b3) by (nonlinear_arith);
    }
    assert((k * b1) * (n * a2) * b3 == (k * n * b3) * c) by (nonlinear_arith)
        requires
            c == a2 * b1,
    ;
    if monotone::le(a, grid(k, g)) {
        assert((m * a1) * (v * b2) * b3 <= (k * b1) * (n * a2) * b3) by (nonlinear_arith)
            requires
                m * a1 <= k * b1,
                n * a2 == v * b2,
        ;
        assert(m * v * a3 <= k * n * b3) by (nonlinear_arith)
            requires
                (m * v * a3) * c <= (k * n * b3) * c,
                c > 0,
        ;
    }
    if monotone::le(grid(k, g), a) {
        assert((k * b1) * (n * a2) * b3 <= (m * a1) * (v * b2) * b3) by (nonlinear_arith)
            requires
                k * b1 <= m * a1,
                n * a2 == v * b2,
        ;
        assert(k * n * b3 <= m * v * a3) by (nonlinear_arith)
            requires
                (k * n * b3) * c <= (m * v * a3) * c,
                c > 0,
        ;
    }
}

/// A number between bounds on one grid, times an integer, lies between bounds on a coarser grid.
proof fn lemma_product_on_grid(
    a: binary64::BinaryView,
    v: nat,
    low: nat,
    high: nat,
    g: nat,
    less: nat,
    more: nat,
    c: nat,
    step: nat,
)
    requires
        a.mantissa > 0,
        0 < v < binary64::MANTISSA_END,
        monotone::le(grid(low, g), a),
        monotone::le(a, grid(high, g)),
        c <= g,
        step == pow2((g - c) as nat),
        0 < less < binary64::MANTISSA_END,
        0 < more < binary64::MANTISSA_END,
        0 < low,
        0 < high,
        less * step <= low * v,
        high * v <= more * step,
    ensures
        monotone::le(grid(less, c), a.times(binary64::BinaryView::of(v))),
        monotone::le(a.times(binary64::BinaryView::of(v)), grid(more, c)),
        a.times(binary64::BinaryView::of(v)).mantissa > 0,
{
    let h = binary64::BinaryView::of(v);
    let (f, e) = (-(g as int), -(c as int));
    lemma2_to64();
    ranks::lemma_of_is_exact(v);
    lemma_product_bounds(a, h, v, high, g);
    lemma_product_bounds(a, h, v, low, g);
    let m = a.mantissa * h.mantissa;
    let x = a.exponent + h.exponent;
    assert(m > 0) by (nonlinear_arith)
        requires
            m == a.mantissa * h.mantissa,
            a.mantissa > 0,
            h.mantissa > 0,
    ;
    assert(monotone::ratio_le(high * v, 1, f, more, 1, e)) by {
        let (p, q) = (monotone::above(f - e), monotone::below(f - e));
        assert(p == 1 && q == step) by {
            if g == c {
                assert(pow2(0) == 1);
            }
        }
        assert(high * v * 1 * 1 == high * v && more * 1 * step == more * step);
    }
    lemma_ratio_transitive(m, 1, x, high * v, 1, f, more, 1, e);
    lemma_not_above(m, 1, x, more, c);
    assert(monotone::ratio_le(less, 1, e, low * v, 1, f)) by {
        let (p, q) = (monotone::above(e - f), monotone::below(e - f));
        assert(p == step && q == 1);
        assert(less * 1 * step == less * step && low * v * 1 * 1 == low * v);
    }
    lemma_ratio_transitive(less, 1, e, low * v, 1, f, m, 1, x);
    lemma_not_below(m, 1, x, less, c);
    monotone::lemma_rounding_keeps_order(less, 1, e, m, 1, x);
}

/// A number between bounds on one grid, over an integer, lies between bounds on a finer grid.
proof fn lemma_division_on_grid(
    a: binary64::BinaryView,
    v: nat,
    low: nat,
    high: nat,
    g: nat,
    less: nat,
    more: nat,
    c: nat,
    step: nat,
)
    requires
        a.mantissa > 0,
        0 < v < binary64::MANTISSA_END,
        monotone::le(grid(low, g), a),
        monotone::le(a, grid(high, g)),
        g <= c,
        step == pow2((c - g) as nat),
        0 < less < binary64::MANTISSA_END,
        0 < more < binary64::MANTISSA_END,
        0 < low,
        0 < high,
        less * v <= low * step,
        high * step <= more * v,
    ensures
        monotone::le(grid(less, c), a.over(binary64::BinaryView::of(v))),
        monotone::le(a.over(binary64::BinaryView::of(v)), grid(more, c)),
{
    let h = binary64::BinaryView::of(v);
    let (f, e) = (-(g as int), -(c as int));
    lemma2_to64();
    ranks::lemma_of_is_exact(v);
    lemma_division_bounds(a, h, v, high, g);
    lemma_division_bounds(a, h, v, low, g);
    let x = a.exponent - h.exponent;
    assert(monotone::ratio_le(high, v, f, more, 1, e)) by {
        let (p, q) = (monotone::above(f - e), monotone::below(f - e));
        assert(p == step && q == 1);
        assert(high * 1 * step == high * step && more * v * 1 == more * v);
    }
    lemma_ratio_transitive(a.mantissa, h.mantissa, x, high, v, f, more, 1, e);
    lemma_not_above(a.mantissa, h.mantissa, x, more, c);
    assert(monotone::ratio_le(less, 1, e, low, v, f)) by {
        let (p, q) = (monotone::above(e - f), monotone::below(e - f));
        assert(p == 1 && q == step) by {
            if g == c {
                assert(pow2(0) == 1);
            }
        }
        assert(less * v * 1 == less * v && low * 1 * step == low * step);
    }
    lemma_ratio_transitive(less, 1, e, low, v, f, a.mantissa, h.mantissa, x);
    lemma_not_below(a.mantissa, h.mantissa, x, less, c);
}

/// The integers around a quotient.
proof fn quotients(n: nat, d: nat) -> (bounds: (nat, nat))
    requires
        d > 0,
    ensures
        bounds.0 * d <= n < bounds.0 * d + d,
        n <= bounds.1 * d < n + d,
{
    let low = (n / d) as nat;
    let high = ((n + d - 1) as nat / d) as nat;
    vstd::arithmetic::div_mod::lemma_fundamental_div_mod(n as int, d as int);
    vstd::arithmetic::div_mod::lemma_mod_bound(n as int, d as int);
    vstd::arithmetic::div_mod::lemma_fundamental_div_mod((n + d - 1) as int, d as int);
    vstd::arithmetic::div_mod::lemma_mod_bound((n + d - 1) as int, d as int);
    assert(low * d == d * low && high * d == d * high) by (nonlinear_arith);
    (low, high)
}

/// A percentage is rounded to the nearest tenth: no further off than half of one.
pub proof fn lemma_percent_to_tenths(part: nat, whole: nat)
    requires
        0 < part <= whole,
        whole < 0x100_0000_0000,
    ensures
        ({
            let shown = table::percent(part, whole).nearest_multiple(10);
            &&& 2 * whole * shown <= 2000 * part + whole
            &&& 2000 * part <= 2 * whole * shown + whole
        }),
{
    lemma2_to64();
    let fine: nat = 0x10_0000_0000_0000;
    let coarse: nat = 0x4000_0000_0000;
    lemma_pow2_adds(26, 26);
    lemma_pow2_adds(23, 23);
    assert(pow2(26) == 0x400_0000 && pow2(23) == 0x80_0000);
    assert(pow2(52) == fine) by (nonlinear_arith)
        requires
            pow2(52) == pow2(26) * pow2(26),
            pow2(26) == 0x400_0000,
            fine == 0x10_0000_0000_0000,
    ;
    assert(pow2(46) == coarse) by (nonlinear_arith)
        requires
            pow2(46) == pow2(23) * pow2(23),
            pow2(23) == 0x80_0000,
            coarse == 0x4000_0000_0000,
    ;
    let (low, high) = quotients(part * fine, whole);
    assert(high <= fine) by (nonlinear_arith)
        requires
            high * whole < part * fine + whole,
            part <= whole,
            whole > 0,
    ;
    assert(low >= 0x1000) by (nonlinear_arith)
        requires
            part * fine < low * whole + whole,
            part >= 1,
            whole < 0x100_0000_0000,
            fine == 0x10_0000_0000_0000,
    {
        assert(part * fine >= fine);
    }
    assert(low <= high) by (nonlinear_arith)
        requires
            low * whole <= part * fine,
            part * fine <= high * whole,
            whole > 0,
    ;
    lemma_quotient_on_grid(part, whole, low, high, 52, fine);
    let q = table::quotient(part, whole);
    assert(q.mantissa > 0) by {
        let (a, b) = (binary64::BinaryView::of(part), binary64::BinaryView::of(whole));
        ranks::lemma_of_is_exact(part);
        ranks::lemma_of_is_exact(whole);
        let x = a.exponent - b.exponent;
        assert(monotone::ratio_le(a.mantissa, b.mantissa, x, a.mantissa, b.mantissa, x));
        monotone::lemma_rounding_keeps_order(
            a.mantissa,
            b.mantissa,
            x,
            a.mantissa,
            b.mantissa,
            x,
        );
    }
    let less = quotients(low * 100, 64).0;
    let more = quotients(high * 100, 64).1;
    assert(pow2(6) == 64);
    lemma_product_on_grid(q, 100, low, high, 52, less, more, 46, 64);
    let x = table::percent(part, whole);
    let shown = x.nearest_multiple(10);
    lemma_multiple_keeps_order(x, grid(more, 46), 10);
    lemma_multiple_keeps_order(grid(less, 46), x, 10);
    // not above
    let t = quotients(2000 * part + whole, 2 * whole).0;
    assert(2000 * part + 1 <= (2 * t + 1) * whole) by (nonlinear_arith)
        requires
            2000 * part + whole < t * (2 * whole) + 2 * whole,
    ;
    assert(2 * more * 10 < (2 * t + 1) * coarse) by {
        assert((64 * more) * whole <= (high * 100 + 63) * whole) by (nonlinear_arith)
            requires
                more * 64 <= high * 100 + 63,
        ;
        assert((high * 100 + 63) * whole == 100 * (high * whole) + 63 * whole)
            by (nonlinear_arith);
        assert(high * whole <= part * fine + whole);
        assert((2000 * part + 1) * coarse <= ((2 * t + 1) * whole) * coarse) by (nonlinear_arith)
            requires
                2000 * part + 1 <= (2 * t + 1) * whole,
        ;
        assert((2000 * part + 1) * coarse == 2000 * (part * coarse) + coarse) by (nonlinear_arith);
        assert(part * fine == 64 * (part * coarse)) by (nonlinear_arith)
            requires
                fine == 64 * coarse,
        ;
        assert(64 * (more * whole) == (64 * more) * whole) by (nonlinear_arith);
        assert(64 * (20 * (more * whole)) <= 20 * (100 * (64 * (part * coarse)) + 163 * whole));
        assert(20 * (more * whole) < ((2 * t + 1) * whole) * coarse);
        assert(((2 * t + 1) * whole) * coarse == ((2 * t + 1) * coarse) * whole)
            by (nonlinear_arith);
        assert(20 * more < (2 * t + 1) * coarse) by (nonlinear_arith)
            requires
                20 * (more * whole) < ((2 * t + 1) * coarse) * whole,
                whole > 0,
        ;
    }
    lemma_grid_multiple(more, 46, 10, coarse, t);
    assert(2 * whole * shown <= 2000 * part + whole) by (nonlinear_arith)
        requires
            shown <= t,
            t * (2 * whole) <= 2000 * part + whole,
    ;
    // not below
    let u = quotients((2000 * part + whole - 1) as nat, 2 * whole).0;
    assert((2 * u - 1) * whole + 1 <= 2000 * part) by (nonlinear_arith)
        requires
            u * (2 * whole) <= 2000 * part + whole - 1,
    ;
    assert(2 * less * 10 > (2 * u - 1) * coarse) by {
        assert((64 * less) * whole + 64 * whole >= (low * 100) * whole) by (nonlinear_arith)
            requires
                low * 100 < less * 64 + 64,
        ;
        assert((low * 100) * whole == 100 * (low * whole)) by (nonlinear_arith);
        assert(((2 * u - 1) * whole + 1) * coarse <= (2000 * part) * coarse) by (nonlinear_arith)
            requires
                (2 * u - 1) * whole + 1 <= 2000 * part,
        ;
        assert((2000 * part) * coarse == 2000 * (part * coarse)) by (nonlinear_arith);
        assert(((2 * u - 1) * whole + 1) * coarse == ((2 * u - 1) * coarse) * whole + coarse)
            by (nonlinear_arith);
        assert(part * fine == 64 * (part * coarse)) by (nonlinear_arith)
            requires
                fine == 64 * coarse,
        ;
        assert(64 * (less * whole) == (64 * less) * whole) by (nonlinear_arith);
        assert(64 * (less * whole) + 164 * whole >= 100 * (64 * (part * coarse)));
        assert(20 * (less * whole) > ((2 * u - 1) * coarse) * whole);
        assert(20 * less > (2 * u - 1) * coarse) by (nonlinear_arith)
            requires
                20 * (less * whole) > ((2 * u - 1) * coarse) * whole,
                whole > 0,
        ;
    }
    lemma_grid_multiple(less, 46, 10, coarse, u);
    assert(2000 * part <= 2 * whole * shown + whole) by (nonlinear_arith)
        requires
            shown >= u,
            2000 * part + whole - 1 < u * (2 * whole) + 2 * whole,
    ;
}

/// For up to a million values, the place of the value that 99.9 percent are not above is the exact
/// one, rounded up, or, where the exact one is an integer, at most the next.
pub proof fn lemma_rank_of_last_thousandth(len: nat)
    requires
        0 < len <= 1_000_000,
    ensures
        ({
            let rank = percentiles::rank(len, percentiles::tenths(999));
            &&& 999 * len <= 1000 * rank
            &&& 1000 * rank <= 999 * len + 1000
        }),
{
    lemma2_to64();
    let fine: nat = 0x4000_0000_0000;
    lemma_pow2_adds(23, 23);
    assert(pow2(23) == 0x80_0000);
    assert(pow2(46) == fine) by (nonlinear_arith)
        requires
            pow2(46) == pow2(23) * pow2(23),
            pow2(23) == 0x80_0000,
            fine == 0x4000_0000_0000,
    ;
    let p = percentiles::tenths(999);
    let l = binary64::BinaryView::of(len);
    let low: nat = 7_029_837_543_348_633;
    let high: nat = 7_029_837_543_348_634;
    assert(p == table::quotient(999, 10));
    assert(999 * fine == 70_298_375_433_486_336);
    assert(low * 10 <= 999 * fine && 999 * fine <= high * 10);
    lemma_quotient_on_grid(999, 10, low, high, 46, fine);
    assert(p.mantissa > 0) by {
        let (a, b) = (binary64::BinaryView::of(999), binary64::BinaryView::of(10));
        ranks::lemma_of_is_exact(999);
        ranks::lemma_of_is_exact(10);
        let x = a.exponent - b.exponent;
        monotone::lemma_rounding_keeps_order(
            a.mantissa,
            b.mantissa,
            x,
            a.mantissa,
            b.mantissa,
            x,
        );
    }
    let step: nat = 0x10_0000;
    assert(pow2(20) == step);
    let less = quotients(low * len, step).0;
    let more = quotients(high * len, step).1;
    assert(0 < less);
    assert(more < 0x20_0000_0000_0000);
    lemma_product_on_grid(p, len, low, high, 46, less, more, 26, step);
    assert(p.times(l) == l.times(p)) by {
        assert(p.mantissa * l.mantissa == l.mantissa * p.mantissa) by (nonlinear_arith);
    }
    let x = l.times(p);
    assert(pow2(7) == 128);
    let small = quotients(less * 128, 100).0;
    let large = quotients(more * 128, 100).1;
    lemma_division_on_grid(x, 100, less, more, 26, small, large, 33, 128);
    let y = x.over(binary64::BinaryView::of(100));
    monotone::lemma_ceil_keeps_order(y, grid(large, 33));
    monotone::lemma_ceil_keeps_order(grid(small, 33), y);
    let unit: nat = 0x2_0000_0000;
    lemma_pow2_adds(16, 17);
    assert(pow2(33) == unit) by (nonlinear_arith)
        requires
            pow2(33) == pow2(16) * pow2(17),
            pow2(16) == 0x1_0000,
            pow2(17) == 0x2_0000,
            unit == 0x2_0000_0000,
    ;
    let rank = percentiles::rank(len, p);
    assert(rank == y.ceil());
    let top = grid(large, 33).ceil();
    let bottom = grid(small, 33).ceil();
    assert(top == (large + unit - 1) as nat / unit);
    assert(bottom == (small + unit - 1) as nat / unit);
    assert(1000 * large <= 999 * len * unit + 5000);
    assert(1000 * small >= 999 * len * unit - 5000);
    vstd::arithmetic::div_mod::lemma_fundamental_div_mod((large + unit - 1) as int, unit as int);
    vstd::arithmetic::div_mod::lemma_mod_bound((large + unit - 1) as int, unit as int);
    vstd::arithmetic::div_mod::lemma_fundamental_div_mod((small + unit - 1) as int, unit as int);
    vstd::arithmetic::div_mod::lemma_mod_bound((small + unit - 1) as int, unit as int);
    assert(unit * top <= large + unit - 1);
    assert(unit * bottom >= small);
    assert(1000 * top <= 999 * len + 1000) by (nonlinear_arith)
        requires
            unit * top <= large + unit - 1,
            1000 * large <= 999 * len * unit + 5000,
            unit == 0x2_0000_0000,
    ;
    assert(999 * len <= 1000 * bottom) by (nonlinear_arith)
        requires
            unit * bottom >= small,
            1000 * small >= 999 * len * unit - 5000,
            unit == 0x2_0000_0000,
    ;
}

} // verus!
