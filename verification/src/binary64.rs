//! Numbers of 53 significant bits: what the arithmetic of IEEE 754 double precision does to
//! positive numbers, but for the limits of their exponents.

use vstd::arithmetic::power2::pow2;
use vstd::prelude::*;

verus! {

/// The least mantissa of a number other than zero.
pub const LEAST_MANTISSA: u64 = 0x10_0000_0000_0000;

/// The first number that is too large for a mantissa.
pub const MANTISSA_END: u64 = 0x20_0000_0000_0000;

/// The integer nearest to a fraction, and of two that are equally near the even one.
pub open spec fn nearest(num: nat, den: nat) -> nat {
    let floor = num / den;
    let rest = num % den;
    if 2 * rest < den {
        floor
    } else if 2 * rest > den {
        floor + 1
    } else if floor % 2 == 0 {
        floor
    } else {
        floor + 1
    }
}

/// A fraction times a power of two.
pub open spec fn scaled(num: nat, den: nat, shift: int) -> (nat, nat) {
    if shift >= 0 {
        (num * pow2(shift as nat), den)
    } else {
        (num, den * pow2((-shift) as nat))
    }
}

/// Whether the integral part of a fraction is a mantissa.
pub open spec fn in_range(num: nat, den: nat) -> bool {
    LEAST_MANTISSA * den <= num < MANTISSA_END * den
}

/// Whether a power of two brings a fraction into the range of a mantissa.
pub open spec fn fits(num: nat, den: nat, shift: int) -> bool {
    in_range(scaled(num, den, shift).0, scaled(num, den, shift).1)
}

/// The number `mantissa * 2 ^ exponent`.
pub struct BinaryView {
    pub mantissa: nat,
    pub exponent: int,
}

/// The number of 53 significant bits that is nearest to `num / den * 2 ^ exponent`.
pub open spec fn rounded(num: nat, den: nat, exponent: int) -> BinaryView {
    if num == 0 {
        BinaryView { mantissa: 0, exponent: 0 }
    } else {
        let shift = choose|shift: int| fits(num, den, shift);
        let (n, d) = scaled(num, den, shift);
        if nearest(n, d) == MANTISSA_END {
            BinaryView { mantissa: LEAST_MANTISSA as nat, exponent: exponent - shift + 1 }
        } else {
            BinaryView { mantissa: nearest(n, d), exponent: exponent - shift }
        }
    }
}

impl BinaryView {
    pub open spec fn wf(self) -> bool {
        ||| self.mantissa == 0 && self.exponent == 0
        ||| LEAST_MANTISSA <= self.mantissa < MANTISSA_END
    }

    pub open spec fn of(n: nat) -> BinaryView {
        rounded(n, 1, 0)
    }

    pub open spec fn times(self, other: BinaryView) -> BinaryView {
        rounded(self.mantissa * other.mantissa, 1, self.exponent + other.exponent)
    }

    /// For a divisor other than zero.
    pub open spec fn over(self, other: BinaryView) -> BinaryView {
        rounded(self.mantissa, other.mantissa, self.exponent - other.exponent)
    }

    /// The least integer that is not below the number.
    pub open spec fn ceil(self) -> nat {
        if self.exponent >= 0 {
            self.mantissa * pow2(self.exponent as nat)
        } else {
            let unit = pow2((-self.exponent) as nat);
            ((self.mantissa + unit - 1) as nat / unit) as nat
        }
    }

    /// The integer nearest to the number times `factor`, and of two that are equally near the even
    /// one.
    pub open spec fn nearest_multiple(self, factor: nat) -> nat {
        let (n, d) = scaled(self.mantissa * factor, 1, self.exponent);
        nearest(n, d)
    }
}

/// No two powers of two bring a fraction into the range of a mantissa.
pub proof fn lemma_shift_is_unique(num: nat, den: nat, first: int, second: int)
    requires
        den > 0,
        fits(num, den, first),
        fits(num, den, second),
    ensures
        first == second,
{
    if first < second {
        lemma_larger_shift_is_out(num, den, first, second);
    } else if second < first {
        lemma_larger_shift_is_out(num, den, second, first);
    }
}

/// A hundred is a number of 53 bits.
pub(crate) proof fn lemma_hundred()
    ensures
        BinaryView::of(100) == (BinaryView {
            mantissa: (100 * 0x4000_0000_0000) as nat,
            exponent: -46,
        }),
{
    vstd::arithmetic::power2::lemma2_to64_rest();
    assert(fits(100, 1, 46));
    lemma_shift_is_unique(100, 1, 46, choose|shift: int| fits(100, 1, shift));
}

proof fn lemma_larger_shift_is_out(num: nat, den: nat, low: int, high: int)
    requires
        den > 0,
        low < high,
        fits(num, den, low),
    ensures
        !fits(num, den, high),
{
    let (n1, d1) = scaled(num, den, low);
    let (n2, d2) = scaled(num, den, high);
    let p = pow2((high - low) as nat);
    vstd::arithmetic::power2::lemma_pow2_pos((high - low) as nat);
    vstd::arithmetic::power2::lemma_pow2_pos((if low >= 0 { low } else { -low }) as nat);
    vstd::arithmetic::power2::lemma_pow2_pos((if high >= 0 { high } else { -high }) as nat);
    assert(p >= 2) by {
        vstd::arithmetic::power2::lemma_pow2_unfold((high - low) as nat);
        vstd::arithmetic::power2::lemma_pow2_pos((high - low - 1) as nat);
    }
    // the fraction at the larger shift is that at the smaller one times `p`
    assert(n2 * d1 == n1 * d2 * p) by {
        if low >= 0 {
            vstd::arithmetic::power2::lemma_pow2_adds(low as nat, (high - low) as nat);
            let pl = pow2(low as nat);
            assert(num * (pl * p) * den == num * pl * den * p) by (nonlinear_arith);
        } else if high >= 0 {
            vstd::arithmetic::power2::lemma_pow2_adds(high as nat, (-low) as nat);
            let ph = pow2(high as nat);
            let pl = pow2((-low) as nat);
            assert((num * ph) * (den * pl) == num * den * (ph * pl)) by (nonlinear_arith);
        } else {
            vstd::arithmetic::power2::lemma_pow2_adds((-high) as nat, (high - low) as nat);
            let ph = pow2((-high) as nat);
            assert(num * (den * (ph * p)) == num * (den * ph) * p) by (nonlinear_arith);
        }
    }
    assert(d1 > 0 && d2 > 0) by (nonlinear_arith)
        requires
            den > 0,
            d1 == den || d1 == den * pow2((-low) as nat),
            d2 == den || d2 == den * pow2((-high) as nat),
            pow2((-low) as nat) > 0 || d1 == den,
            pow2((-high) as nat) > 0 || d2 == den,
    ;
    if in_range(n2, d2) {
        let least = LEAST_MANTISSA as nat;
        assert(n1 * d2 * p >= (least * d1) * d2 * 2) by (nonlinear_arith)
            requires
                n1 >= least * d1,
                p >= 2,
        ;
        assert(n2 * d1 < (2 * least * d2) * d1) by (nonlinear_arith)
            requires
                n2 < 2 * least * d2,
                d1 > 0,
        ;
        assert((least * d1) * d2 * 2 == (2 * least * d2) * d1) by (nonlinear_arith);
    }
}

/// The number `mantissa * 2 ^ exponent`.
#[derive(Clone, Copy, Debug, PartialEq, Eq, Structural)]
pub struct Binary64 {
    pub mantissa: u64,
    pub exponent: i32,
}

impl View for Binary64 {
    type V = BinaryView;

    open spec fn view(&self) -> BinaryView {
        BinaryView { mantissa: self.mantissa as nat, exponent: self.exponent as int }
    }
}

/// The farthest that an exponent may be from zero.
pub const EXPONENT_LIMIT: i32 = 1_000_000;

/// The number nearest to `num / den * 2 ^ exponent`.
fn round(num: u128, den: u64, exponent: i32) -> (x: Binary64)
    requires
        num < MANTISSA_END * MANTISSA_END,
        0 < den < MANTISSA_END,
        -EXPONENT_LIMIT <= exponent <= EXPONENT_LIMIT,
    ensures
        x@ == rounded(num as nat, den as nat, exponent as int),
        x@.wf(),
        num == 0 <==> x.mantissa == 0,
        num == 0 ==> x.exponent == 0,
        num > 0 ==> exponent - 106 <= x.exponent <= exponent + 54,
        num >= den ==> exponent - 52 <= x.exponent,
        0 < num < 2 * den ==> x.exponent <= exponent - 51,
        0 < num <= u64::MAX ==> x.exponent <= exponent + 12,
{
    if num == 0 {
        return Binary64 { mantissa: 0, exponent: 0 };
    }
    let mut n: u128 = num;
    let mut d: u128 = den as u128;
    let mut shift: i32 = 0;
    proof {
        vstd::arithmetic::power2::lemma2_to64();
        vstd::arithmetic::power2::lemma2_to64_rest();
        vstd::arithmetic::power2::lemma_pow2_adds(53, 53);
        assert(num * 1 == num && den * 1 == den) by (nonlinear_arith);
    }
    while n < d * LEAST_MANTISSA as u128
        invariant
            num > 0,
            d == den,
            0 < den < MANTISSA_END,
            0 < n < MANTISSA_END * MANTISSA_END,
            0 <= shift <= 106,
            n == num * pow2(shift as nat),
            shift > 0 ==> n < d * MANTISSA_END,
            num >= den ==> shift <= 52 && n >= den * pow2(shift as nat),
            num < 2 * den ==> n < 2 * den * pow2(shift as nat),
            pow2(52) == LEAST_MANTISSA,
            pow2(106) == MANTISSA_END * MANTISSA_END,
        decreases MANTISSA_END * MANTISSA_END - n,
    {
        proof {
            let before = pow2(shift as nat);
            vstd::arithmetic::power2::lemma_pow2_unfold((shift + 1) as nat);
            assert(num * (2 * before) == 2 * (num * before)) by (nonlinear_arith);
            assert(num * before >= before) by (nonlinear_arith)
                requires
                    num > 0,
            ;
            assert(den * (2 * before) == 2 * (den * before)) by (nonlinear_arith);
            assert(2 * den * (2 * before) == 2 * (2 * den * before)) by (nonlinear_arith);
            assert(shift < 106);
            assert(num >= den ==> shift < 52);
        }
        n = n * 2;
        shift = shift + 1;
    }
    assert(shift == 0 ==> n == num && d == den * pow2(0));
    proof {
        if num < 2 * den && shift < 52 {
            vstd::arithmetic::power2::lemma_pow2_strictly_increases(shift as nat, 52);
            vstd::arithmetic::power2::lemma_pow2_unfold(52);
            if shift < 51 {
                vstd::arithmetic::power2::lemma_pow2_strictly_increases(shift as nat, 51);
            }
            assert(2 * den * pow2(shift as nat) <= 2 * den * pow2(51)) by (nonlinear_arith)
                requires
                    pow2(shift as nat) <= pow2(51),
            ;
            assert(2 * den * pow2(51) == den * pow2(52)) by (nonlinear_arith)
                requires
                    pow2(52) == 2 * pow2(51),
            ;
            assert(false);
        }
    }
    while n >= d * MANTISSA_END as u128
        invariant
            num > 0,
            0 < den,
            0 < d,
            d >= den,
            0 < n < MANTISSA_END * MANTISSA_END,
            d * LEAST_MANTISSA <= n,
            -53 <= shift <= 106,
            shift > 0 ==> n == num * pow2(shift as nat) && d == den && n < d * MANTISSA_END,
            shift <= 0 ==> n == num && d == den * pow2((-shift) as nat),
            pow2(53) == MANTISSA_END,
            pow2(11) == 0x800,
            num < 2 * den ==> shift >= 52,
            num >= den ==> shift <= 52,
            num <= u64::MAX ==> shift >= -11,
        decreases 2 * MANTISSA_END - d,
    {
        proof {
            let before = pow2((-shift) as nat);
            vstd::arithmetic::power2::lemma_pow2_unfold((1 - shift) as nat);
            assert(den * (2 * before) == 2 * (den * before)) by (nonlinear_arith);
            assert(den * before >= before) by (nonlinear_arith)
                requires
                    den > 0,
            ;
            assert(d < MANTISSA_END);
            assert(shift > -53);
            assert(num <= u64::MAX ==> d < 0x800);
            assert(num <= u64::MAX ==> shift > -11);
        }
        d = d * 2;
        shift = shift - 1;
    }
    let floor: u128 = n / d;
    let rest: u128 = n % d;
    proof {
        assert(fits(num as nat, den as nat, shift as int));
        let chosen = choose|s: int| fits(num as nat, den as nat, s);
        lemma_shift_is_unique(num as nat, den as nat, shift as int, chosen);
        assert(LEAST_MANTISSA <= floor < MANTISSA_END) by (nonlinear_arith)
            requires
                floor == n / d,
                d > 0,
                d * LEAST_MANTISSA <= n,
                n < d * MANTISSA_END,
        ;
        assert(rest < d);
        assert(d <= n) by (nonlinear_arith)
            requires
                d * LEAST_MANTISSA <= n,
        ;
    }
    let up: bool = rest > d - rest || (rest == d - rest && floor % 2 == 1);
    let mantissa: u64 = if up {
        floor as u64 + 1
    } else {
        floor as u64
    };
    if mantissa == MANTISSA_END {
        Binary64 { mantissa: LEAST_MANTISSA, exponent: exponent - shift + 1 }
    } else {
        Binary64 { mantissa, exponent: exponent - shift }
    }
}

impl Binary64 {
    /// The number nearest to `n`.
    pub fn of(n: u64) -> (x: Binary64)
        ensures
            x@ == BinaryView::of(n as nat),
            x@.wf(),
            n == 0 <==> x.mantissa == 0,
            -52 <= x.exponent <= 12,
    {
        round(n as u128, 1, 0)
    }

    /// The number nearest to a product.
    pub fn times(self, other: Binary64) -> (x: Binary64)
        requires
            self@.wf(),
            other@.wf(),
            -EXPONENT_LIMIT <= self.exponent + other.exponent <= EXPONENT_LIMIT,
        ensures
            x@ == self@.times(other@),
            x@.wf(),
            x.mantissa == 0 <==> self.mantissa == 0 || other.mantissa == 0,
            x.mantissa == 0 ==> x.exponent == 0,
            x.mantissa != 0 ==> self.exponent + other.exponent - 52 <= x.exponent <= self.exponent
                + other.exponent + 54,
    {
        proof {
            assert(self.mantissa * other.mantissa < MANTISSA_END * MANTISSA_END) by (nonlinear_arith)
                requires
                    self.mantissa < MANTISSA_END,
                    other.mantissa < MANTISSA_END,
            ;
            assert(self.mantissa * other.mantissa == 0 <==> self.mantissa == 0 || other.mantissa
                == 0) by (nonlinear_arith);
        }
        round(self.mantissa as u128 * other.mantissa as u128, 1, self.exponent + other.exponent)
    }

    /// The number nearest to a quotient.
    pub fn over(self, other: Binary64) -> (x: Binary64)
        requires
            self@.wf(),
            other@.wf(),
            other.mantissa != 0,
            -EXPONENT_LIMIT <= self.exponent - other.exponent <= EXPONENT_LIMIT,
        ensures
            x@ == self@.over(other@),
            x@.wf(),
            x.mantissa == 0 <==> self.mantissa == 0,
            x.mantissa == 0 ==> x.exponent == 0,
            x.mantissa != 0 ==> self.exponent - other.exponent - 106 <= x.exponent
                <= self.exponent - other.exponent - 51,
    {
        round(self.mantissa as u128, other.mantissa, self.exponent - other.exponent)
    }

    /// The least integer that is not below the number, or the largest there is.
    pub fn ceil(self) -> (n: u64)
        requires
            self@.wf(),
        ensures
            n == (if self@.ceil() <= u64::MAX {
                self@.ceil()
            } else {
                u64::MAX as nat
            }),
    {
        proof {
            vstd::arithmetic::power2::lemma2_to64();
        }
        if self.mantissa == 0 {
            assert(0 * pow2(0) == 0) by (nonlinear_arith);
            return 0;
        }
        if self.exponent >= 12 {
            proof {
                let power = pow2(self.exponent as nat);
                if self.exponent > 12 {
                    vstd::arithmetic::power2::lemma_pow2_strictly_increases(
                        12,
                        self.exponent as nat,
                    );
                }
                assert(self.mantissa * power >= LEAST_MANTISSA * 0x1000) by (nonlinear_arith)
                    requires
                        self.mantissa >= LEAST_MANTISSA,
                        power >= 0x1000,
                ;
            }
            return u64::MAX;
        }
        if self.exponent >= 0 {
            let power: u128 = power_of_two(self.exponent as u32);
            proof {
                if self.exponent < 11 {
                    vstd::arithmetic::power2::lemma_pow2_strictly_increases(
                        self.exponent as nat,
                        11,
                    );
                }
                assert(self.mantissa * power <= (MANTISSA_END - 1) * 0x800) by (nonlinear_arith)
                    requires
                        self.mantissa <= MANTISSA_END - 1,
                        power <= 0x800,
                ;
            }
            return (self.mantissa as u128 * power) as u64;
        }
        if self.exponent <= -64 {
            proof {
                let down = (-self.exponent) as nat;
                let unit = pow2(down);
                if down > 64 {
                    vstd::arithmetic::power2::lemma_pow2_strictly_increases(64, down);
                }
                vstd::arithmetic::div_mod::lemma_fundamental_div_mod_converse(
                    self.mantissa + unit - 1,
                    unit as int,
                    1,
                    self.mantissa - 1,
                );
            }
            return 1;
        }
        let unit: u128 = power_of_two((-self.exponent) as u32);
        proof {
            vstd::arithmetic::power2::lemma_pow2_strictly_increases(
                (-self.exponent) as nat,
                64,
            );
            vstd::arithmetic::power2::lemma_pow2_pos((-self.exponent) as nat);
            assert((self.mantissa + unit - 1) / unit as int <= self.mantissa) by (nonlinear_arith)
                requires
                    unit >= 1,
                    self.mantissa >= 1,
            ;
        }
        ((self.mantissa as u128 + (unit - 1)) / unit) as u64
    }

    /// The integer nearest to the number times `factor`, and of two that are equally near the even
    /// one.
    pub fn nearest_multiple(self, factor: u64) -> (n: u128)
        requires
            self@.wf(),
            factor <= 100,
            self.exponent <= 60,
        ensures
            n == self@.nearest_multiple(factor as nat),
    {
        proof {
            vstd::arithmetic::power2::lemma2_to64();
            vstd::arithmetic::power2::lemma2_to64_rest();
            assert(self.mantissa * factor <= MANTISSA_END * 1000) by (nonlinear_arith)
                requires
                    self.mantissa <= MANTISSA_END,
                    factor <= 1000,
            ;
        }
        let product: u128 = self.mantissa as u128 * factor as u128;
        if self.exponent >= 0 {
            let power: u128 = power_of_two(self.exponent as u32);
            proof {
                if self.exponent < 60 {
                    vstd::arithmetic::power2::lemma_pow2_strictly_increases(
                        self.exponent as nat,
                        60,
                    );
                }
                assert(product * power <= MANTISSA_END * 1000 * 0x1000_0000_0000_0000)
                    by (nonlinear_arith)
                    requires
                        product <= MANTISSA_END * 1000,
                        power <= 0x1000_0000_0000_0000,
                ;
                assert(nearest((product * power) as nat, 1) == product * power);
            }
            return product * power;
        }
        if self.exponent <= -65 {
            proof {
                let down = (-self.exponent) as nat;
                vstd::arithmetic::power2::lemma_pow2_strictly_increases(64, down);
                vstd::arithmetic::div_mod::lemma_fundamental_div_mod_converse(
                    product as int,
                    pow2(down) as int,
                    0,
                    product as int,
                );
            }
            return 0;
        }
        let unit: u128 = power_of_two((-self.exponent) as u32);
        proof {
            vstd::arithmetic::power2::lemma_pow2_pos((-self.exponent) as nat);
            assert(product / unit <= product) by (nonlinear_arith)
                requires
                    unit >= 1,
            ;
        }
        let floor: u128 = product / unit;
        let rest: u128 = product % unit;
        if rest > unit - rest || (rest == unit - rest && floor % 2 == 1) {
            floor + 1
        } else {
            floor
        }
    }
}

/// A power of two.
fn power_of_two(exponent: u32) -> (power: u128)
    requires
        exponent <= 64,
    ensures
        power == pow2(exponent as nat),
        power <= 0x1_0000_0000_0000_0000,
{
    let mut power: u128 = 1;
    let mut n: u32 = 0;
    proof {
        vstd::arithmetic::power2::lemma2_to64();
    }
    while n < exponent
        invariant
            n <= exponent <= 64,
            power == pow2(n as nat),
            power <= 0x1_0000_0000_0000_0000,
            pow2(64) == 0x1_0000_0000_0000_0000,
        decreases exponent - n,
    {
        proof {
            vstd::arithmetic::power2::lemma_pow2_unfold((n + 1) as nat);
            if n + 1 < 64 {
                vstd::arithmetic::power2::lemma_pow2_strictly_increases((n + 1) as nat, 64);
            }
        }
        power = power * 2;
        n = n + 1;
    }
    power
}

} // verus!
