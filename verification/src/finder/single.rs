//! Single-precision fractions without floating point.
//!
//! The thresholds of the subtitle search are fractions with a significand of
//! 24 bits, and every product with a pixel count is rounded to 24 significant
//! bits, half to even. [`Single`] keeps such a fraction as two integers, so the
//! rounding is exact integer arithmetic.

use vstd::arithmetic::div_mod::*;
use vstd::arithmetic::mul::*;
use vstd::arithmetic::power2::*;
use vstd::prelude::*;

verus! {

/// The first integer that needs more than 24 significant bits.
pub const LIMIT: u64 = 16_777_216;

/// The number of low bits that do not fit into 24 significant bits of `p`.
pub open spec fn excess_bits(p: nat) -> nat
    decreases p,
{
    if p < 16_777_216 {
        0
    } else {
        1 + excess_bits(p / 2)
    }
}

/// `p` rounded to the nearest multiple of `unit`, half to the even multiple.
pub open spec fn round_to_multiple(p: nat, unit: nat) -> nat {
    let q = p / unit;
    let r = p % unit;
    if 2 * r > unit || (2 * r == unit && q % 2 == 1) {
        (q + 1) * unit
    } else {
        q * unit
    }
}

/// `p` rounded to 24 significant bits, half to even.
pub open spec fn round24(p: nat) -> nat {
    round_to_multiple(p, pow2(excess_bits(p)))
}

/// The fraction `mant / 2^shift`.
#[derive(Clone, Copy, Debug, PartialEq, Eq, Structural)]
pub struct Single {
    pub mant: u32,
    pub shift: u32,
}

impl Single {
    /// The significand has at most 24 bits, and the scale is in the range of a
    /// single-precision number near one.
    pub open spec fn wf(self) -> bool {
        self.mant < 16_777_216 && self.shift <= 60
    }

    /// The rounded product with `n`, as a numerator over `2^shift`.
    pub open spec fn product(self, n: nat) -> nat {
        round24(self.mant as nat * round24(n))
    }

    /// The rounded product with `n`, cut to its integer part.
    pub open spec fn part_of(self, n: nat) -> nat {
        self.product(n) / pow2(self.shift as nat)
    }

    /// Whether `s`, rounded, is less than the rounded product with `n`.
    pub open spec fn above(self, s: nat, n: nat) -> bool {
        round24(s) * pow2(self.shift as nat) < self.product(n)
    }

    /// Whether the quotient `num / den` exceeds the fraction.
    pub open spec fn exceeded_by(self, num: nat, den: nat) -> bool {
        num * pow2(self.shift as nat) > self.mant * den
    }
}

proof fn lemma_round_bounds(p: nat)
    ensures
        round24(p) <= 2 * p,
        p < 16_777_216 ==> round24(p) == p,
        pow2(excess_bits(p)) > 0,
{
    let k = excess_bits(p);
    lemma_pow2_pos(k);
    let u = pow2(k);
    let q = p / u;
    let r = p % u;
    lemma_fundamental_div_mod(p as int, u as int);
    assert(q * u + r == p) by {
        lemma_mul_is_commutative(q as int, u as int);
    }
    assert((q + 1) * u == q * u + u) by (nonlinear_arith);
    if p < 16_777_216 {
        lemma2_to64();
        assert(u == 1);
        assert(q * 1 == q);
    }
}

/// `2^n`, for exponents of up to 60.
fn two_to(n: u32) -> (r: u64)
    requires
        n <= 60,
    ensures
        r == pow2(n as nat),
        r >= 1,
{
    let mut r: u64 = 1;
    let mut i: u32 = 0;
    proof {
        lemma2_to64();
        lemma2_to64_rest();
    }
    while i < n
        invariant
            i <= n <= 60,
            r == pow2(i as nat),
            pow2(60) == 0x1000000000000000,
        decreases n - i,
    {
        proof {
            lemma_pow2_unfold((i + 1) as nat);
            if i + 1 < 60 {
                lemma_pow2_strictly_increases((i + 1) as nat, 60);
            }
        }
        r = r * 2;
        i = i + 1;
    }
    proof {
        lemma_pow2_pos(n as nat);
    }
    r
}

/// Rounds to 24 significant bits, half to even.
pub fn round_to_24_bits(p: u64) -> (r: u64)
    requires
        p <= 0x1000_0000_0000_0000,
    ensures
        r == round24(p as nat),
{
    let mut rest: u64 = p;
    let mut unit: u64 = 1;
    let ghost mut k: nat = 0;
    proof {
        lemma2_to64();
        lemma_div_basics(p as int);
    }
    while rest >= LIMIT
        invariant
            k + excess_bits(rest as nat) == excess_bits(p as nat),
            unit == pow2(k),
            unit >= 1,
            k > 0 ==> rest >= 1,
            unit * rest <= p,
            p <= 0x1000_0000_0000_0000,
        decreases rest,
    {
        let half: u64 = rest / 2;
        proof {
            lemma_pow2_unfold(k + 1);
            assert(unit * 2 * half <= unit * rest) by (nonlinear_arith)
                requires
                    half * 2 <= rest,
            ;
            assert(unit * 2 <= unit * 2 * half) by (nonlinear_arith)
                requires
                    half >= 1,
            ;
            assert((unit * 2) * half == unit * 2 * half);
            k = k + 1;
        }
        unit = unit * 2;
        rest = half;
    }
    let q: u64 = p / unit;
    let r: u64 = p % unit;
    proof {
        assert(excess_bits(rest as nat) == 0);
        lemma_fundamental_div_mod(p as int, unit as int);
        assert(q * unit == unit * q) by (nonlinear_arith);
        assert((q + 1) * unit == q * unit + unit) by (nonlinear_arith);
        assert(unit <= p || unit == 1) by {
            if k > 0 {
                assert(unit * 1 <= unit * rest) by (nonlinear_arith)
                    requires
                        rest >= 1,
                ;
            } else {
                assert(pow2(0) == 1);
            }
        }
    }
    if 2 * r > unit || (2 * r == unit && q % 2 == 1) {
        (q + 1) * unit
    } else {
        q * unit
    }
}

impl Single {
    /// The rounded product with `n`, as a numerator over `2^shift`.
    pub fn times(self, n: u32) -> (r: u64)
        requires
            self.wf(),
        ensures
            r == self.product(n as nat),
            r <= 0x1000_0000_0000_0000,
    {
        let m: u64 = round_to_24_bits(n as u64);
        proof {
            lemma_round_bounds(n as nat);
            assert(self.mant * m <= 16_777_216 * 0x2_0000_0000) by (nonlinear_arith)
                requires
                    self.mant < 16_777_216,
                    m <= 0x2_0000_0000,
            ;
            lemma_round_bounds(self.mant as nat * m as nat);
        }
        round_to_24_bits(self.mant as u64 * m)
    }

    /// The rounded product with `n`, cut to its integer part.
    pub fn part(self, n: u32) -> (r: u64)
        requires
            self.wf(),
        ensures
            r == self.part_of(n as nat),
    {
        self.times(n) / two_to(self.shift)
    }

    /// Whether `s`, rounded, is less than the rounded product with `n`.
    pub fn is_above(self, s: u32, n: u32) -> (r: bool)
        requires
            self.wf(),
        ensures
            r == self.above(s as nat, n as nat),
    {
        let left: u64 = round_to_24_bits(s as u64);
        proof {
            lemma_round_bounds(s as nat);
        }
        let scale: u64 = two_to(self.shift);
        proof {
            lemma2_to64_rest();
            if self.shift < 60 {
                lemma_pow2_strictly_increases(self.shift as nat, 60);
            }
            assert(left * scale <= 0x2_0000_0000 * 0x1000_0000_0000_0000) by (nonlinear_arith)
                requires
                    left <= 0x2_0000_0000,
                    scale <= 0x1000_0000_0000_0000,
            ;
        }
        (left as u128) * (scale as u128) < (self.times(n) as u128)
    }

    /// Whether the quotient `num / den` exceeds the fraction.
    pub fn is_exceeded_by(self, num: u64, den: u64) -> (r: bool)
        requires
            self.wf(),
        ensures
            r == self.exceeded_by(num as nat, den as nat),
    {
        let scale: u64 = two_to(self.shift);
        proof {
            assert(num * scale <= 0xffff_ffff_ffff_ffff * 0xffff_ffff_ffff_ffff)
                by (nonlinear_arith)
                requires
                    num <= 0xffff_ffff_ffff_ffff,
                    scale <= 0xffff_ffff_ffff_ffff,
            ;
            assert(self.mant * den <= 0xffff_ffff * 0xffff_ffff_ffff_ffff) by (nonlinear_arith)
                requires
                    self.mant <= 0xffff_ffff,
                    den <= 0xffff_ffff_ffff_ffff,
            ;
        }
        (num as u128) * (scale as u128) > (self.mant as u128) * (den as u128)
    }
}

} // verus!
