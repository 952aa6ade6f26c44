//! The scalar type of the library: an exact decimal with nine fractional
//! digits, stored as a signed mantissa (`value = m / SCALE`).  All scalar
//! arithmetic is integer arithmetic on mantissas, so every operation has an
//! exact contract; products and quotients truncate toward zero below the
//! ninth decimal digit.

use vstd::prelude::*;
use vstd::arithmetic::div_mod::lemma_fundamental_div_mod;
use vstd::arithmetic::div_mod::lemma_mod_bound;
use vstd::arithmetic::div_mod::lemma_div_pos_is_pos;

verus! {

broadcast use vstd::arithmetic::mul::lemma_mul_is_commutative;

/// Mantissa units per 1.0: the scalar resolution is `1 / SCALE`.
pub const SCALE: i64 = 1_000_000_000;

/// An exact decimal scalar: the represented value is `m / SCALE`.
#[derive(Debug, Clone, Copy, PartialEq, Eq, Structural)]
pub struct Fixed {
    pub m: i64,
}

/// Truncating division for a positive divisor: rounds the quotient toward
/// zero, as machine division of mantissas does.
pub open spec fn div_trunc(a: int, b: int) -> int {
    if a >= 0 {
        a / b
    } else {
        -((-a) / b)
    }
}

/// Mantissa of the product of two scalars given by mantissas:
/// `(a / SCALE) * (b / SCALE)` has mantissa `a * b / SCALE`, truncated.
pub open spec fn fxmul(a: int, b: int) -> int {
    div_trunc(a * b, SCALE as int)
}

/// Mantissa of the quotient of two scalars given by mantissas (`b != 0`):
/// `(a / SCALE) / (b / SCALE)` has mantissa `a * SCALE / b`, truncated.
pub open spec fn fxdiv(a: int, b: int) -> int {
    if b >= 0 {
        div_trunc(a * (SCALE as int), b)
    } else {
        -div_trunc(a * (SCALE as int), -b)
    }
}

/// Ten to the `k`-th power.
pub open spec fn pow10(k: nat) -> int
    decreases k,
{
    if k == 0 {
        1
    } else {
        10 * pow10((k - 1) as nat)
    }
}

/// The mantissa `m` rounded to the nearest multiple of the unit `u`, halves
/// away from zero.
pub open spec fn round_unit(m: int, u: int) -> int {
    if m >= 0 {
        ((m + u / 2) / u) * u
    } else {
        -((((-m) + u / 2) / u) * u)
    }
}

/// The mantissa `m` rounded to `p` decimal digits after the point, halves
/// away from zero.  At `p == 9`, the scalar resolution, this is the identity.
pub open spec fn round_prec(m: int, p: nat) -> int {
    round_unit(m, pow10((9 - p) as nat))
}

/// The rounding unit of a precision of at most nine digits lies between one
/// and the scalar resolution.
pub proof fn lemma_pow10_in_range(p: nat)
    requires
        p <= 9,
    ensures
        1 <= pow10((9 - p) as nat) <= 1_000_000_000,
{
    reveal_with_fuel(pow10, 11);
}

/// Rounding to a multiple of `u` moves a mantissa by less than `u`.
pub proof fn lemma_round_unit_close(m: int, u: int)
    requires
        u >= 1,
    ensures
        m - u < round_unit(m, u) < m + u,
        m >= 0 ==> round_unit(m, u) >= 0,
        m < 0 ==> round_unit(m, u) <= 0,
{
    let h = u / 2;
    assert(0 <= h < u);
    if m >= 0 {
        let q = (m + h) / u;
        lemma_fundamental_div_mod(m + h, u);
        lemma_mod_bound(m + h, u);
        lemma_div_pos_is_pos(m + h, u);
        assert(q * u == m + h - (m + h) % u);
    } else {
        let q = ((-m) + h) / u;
        lemma_fundamental_div_mod((-m) + h, u);
        lemma_mod_bound((-m) + h, u);
        lemma_div_pos_is_pos((-m) + h, u);
        assert(q * u == (-m) + h - ((-m) + h) % u);
    }
}

impl Fixed {
    /// The scalar holding the integer `v` exactly.
    pub fn from_int(v: i64) -> (r: Fixed)
        requires
            -9_223_372_036 <= v <= 9_223_372_036,
        ensures
            r.m == v * SCALE,
    {
        proof {
            assert(-9_223_372_036_000_000_000 <= v * (SCALE as int) <= 9_223_372_036_000_000_000)
                by (nonlinear_arith)
                requires -9_223_372_036 <= v <= 9_223_372_036;
        }
        Fixed { m: v * SCALE }
    }

    /// Exact sum of two scalars.
    pub fn add(&self, rhs: &Fixed) -> (r: Fixed)
        requires
            i64::MIN <= self.m + rhs.m <= i64::MAX,
        ensures
            r.m == self.m + rhs.m,
    {
        Fixed { m: self.m + rhs.m }
    }

    /// Exact difference of two scalars.
    pub fn sub(&self, rhs: &Fixed) -> (r: Fixed)
        requires
            i64::MIN <= self.m - rhs.m <= i64::MAX,
        ensures
            r.m == self.m - rhs.m,
    {
        Fixed { m: self.m - rhs.m }
    }

    /// Absolute value.
    pub fn abs(&self) -> (r: Fixed)
        requires
            self.m != i64::MIN,
        ensures
            r.m == if self.m >= 0 { self.m as int } else { -self.m },
    {
        if self.m < 0 {
            Fixed { m: -self.m }
        } else {
            *self
        }
    }

    /// Product, truncated to the scalar resolution.
    pub fn mul(&self, rhs: &Fixed) -> (r: Fixed)
        requires
            -i64::MAX <= fxmul(self.m as int, rhs.m as int) <= i64::MAX,
        ensures
            r.m == fxmul(self.m as int, rhs.m as int),
    {
        let a: i128 = self.m as i128;
        let b: i128 = rhs.m as i128;
        proof {
            assert(-0x4000_0000_0000_0000_0000_0000_0000_0000
                <= (self.m as int) * (rhs.m as int)
                <= 0x4000_0000_0000_0000_0000_0000_0000_0000) by (nonlinear_arith)
                requires
                    i64::MIN <= self.m <= i64::MAX,
                    i64::MIN <= rhs.m <= i64::MAX;
        }
        let p: i128 = a * b;
        let q: i128 = if p >= 0 {
            p / (SCALE as i128)
        } else {
            -((-p) / (SCALE as i128))
        };
        Fixed { m: q as i64 }
    }

    /// Quotient, truncated to the scalar resolution.
    pub fn div(&self, rhs: &Fixed) -> (r: Fixed)
        requires
            rhs.m != 0,
            -i64::MAX <= fxdiv(self.m as int, rhs.m as int) <= i64::MAX,
        ensures
            r.m == fxdiv(self.m as int, rhs.m as int),
    {
        let a: i128 = self.m as i128;
        let b: i128 = rhs.m as i128;
        let num: i128 = a * (SCALE as i128);
        proof {
            assert(-0x4000_0000_0000_0000_0000_0000_0000_0000
                <= (self.m as int) * (SCALE as int)
                <= 0x4000_0000_0000_0000_0000_0000_0000_0000) by (nonlinear_arith)
                requires
                    i64::MIN <= self.m <= i64::MAX;
        }
        let q: i128 = if num >= 0 {
            if b >= 0 { num / b } else { -(num / -b) }
        } else {
            if b >= 0 { -((-num) / b) } else { (-num) / -b }
        };
        Fixed { m: q as i64 }
    }

    /// This scalar rounded to `p` decimal digits after the point, halves away
    /// from zero.
    pub fn round_to(&self, p: usize) -> (r: Fixed)
        requires
            p <= 9,
            -(i64::MAX - 500_000_000) <= self.m <= i64::MAX - 500_000_000,
        ensures
            r.m == round_prec(self.m as int, p as nat),
    {
        let unit: i64 = pow10_i64(9 - p);
        let half: i64 = unit / 2;
        assert(0 <= half <= 500_000_000);
        if self.m >= 0 {
            let q: i64 = (self.m + half) / unit;
            proof {
                lemma_fundamental_div_mod(self.m + half, unit as int);
                lemma_mod_bound(self.m + half, unit as int);
                lemma_div_pos_is_pos(self.m + half, unit as int);
            }
            Fixed { m: q * unit }
        } else {
            let neg: i64 = -self.m;
            let q: i64 = (neg + half) / unit;
            proof {
                lemma_fundamental_div_mod(neg + half, unit as int);
                lemma_mod_bound(neg + half, unit as int);
                lemma_div_pos_is_pos(neg + half, unit as int);
            }
            Fixed { m: -(q * unit) }
        }
    }
}

impl Default for Fixed {
    /// The zero scalar.
    fn default() -> (r: Fixed)
        ensures
            r.m == 0,
    {
        Fixed { m: 0 }
    }
}

/// Ten to the `k`-th power as a machine integer, for the exponents a scalar's
/// fractional digits can take.
fn pow10_i64(k: usize) -> (r: i64)
    requires
        k <= 9,
    ensures
        r == pow10(k as nat),
        1 <= r <= 1_000_000_000,
{
    proof {
        reveal_with_fuel(pow10, 11);
    }
    if k == 0 { 1 }
    else if k == 1 { 10 }
    else if k == 2 { 100 }
    else if k == 3 { 1_000 }
    else if k == 4 { 10_000 }
    else if k == 5 { 100_000 }
    else if k == 6 { 1_000_000 }
    else if k == 7 { 10_000_000 }
    else if k == 8 { 100_000_000 }
    else { 1_000_000_000 }
}

} // verus!
