//! How close the parts of a size are to what they stand for.
use super::params::Params;
use super::single;
use super::single::Single;
use vstd::arithmetic::power2::{lemma2_to64, lemma_pow2_pos, lemma_pow2_unfold, pow2};
use vstd::prelude::*;

verus! {

/// Whether two numbers differ by no more than one part in two to the twenty-fourth
/// of the second one.
pub open spec fn close(a: int, b: int) -> bool {
    16_777_216 * (a - b) <= b && 16_777_216 * (b - a) <= b
}

proof fn lemma_unit(p: nat)
    requires
        p >= 16_777_216,
    ensures
        single::excess_bits(p) >= 1,
        pow2(single::excess_bits(p)) * 8_388_608 <= p,
    decreases p,
{
    let q = p / 2;
    let e = single::excess_bits(q);
    lemma_pow2_unfold(e + 1);
    if q >= 16_777_216 {
        lemma_unit(q);
    } else {
        lemma2_to64();
    }
    assert(single::excess_bits(p) == e + 1);
}

proof fn lemma_multiple(p: nat, unit: nat)
    requires
        unit > 0,
    ensures
        2 * (single::round_to_multiple(p, unit) - p) <= unit,
        2 * (p - single::round_to_multiple(p, unit)) <= unit,
{
    let q = p / unit;
    let r = p % unit;
    assert(p == q * unit + r && 0 <= r < unit) by (nonlinear_arith)
        requires
            q == p / unit,
            r == p % unit,
            unit > 0,
    ;
    assert((q + 1) * unit == q * unit + unit) by (nonlinear_arith);
}

/// Rounding to twenty-four binary digits changes no number that has no more of
/// them, and any other one by no more than a part in two to the twenty-fourth.
pub proof fn rounding_stays_close(p: nat)
    ensures
        p < 16_777_216 ==> single::round24(p) == p,
        close(single::round24(p) as int, p as int),
{
    lemma2_to64();
    lemma_pow2_pos(single::excess_bits(p));
    let unit = pow2(single::excess_bits(p));
    lemma_multiple(p, unit);
    if p < 16_777_216 {
        assert(unit == 1);
        assert(single::round_to_multiple(p, 1) == p) by {
            assert(p % 1 == 0 && p / 1 == p);
        }
    } else {
        lemma_unit(p);
    }
}

/// A part of a size of less than twenty-four binary digits is the size times the
/// factor: exactly where that has no more digits either, as closely as rounding
/// allows else, and without what is behind the point.
pub proof fn parts_are_products(f: Single, n: nat)
    requires
        n < 16_777_216,
    ensures
        close(f.product(n) as int, f.mant * n),
        f.mant * n < 16_777_216 ==> f.part_of(n) == (f.mant * n) as nat / pow2(f.shift as nat),
        f.part_of(n) * pow2(f.shift as nat) <= f.product(n),
        f.product(n) < (f.part_of(n) + 1) * pow2(f.shift as nat),
{
    rounding_stays_close(n);
    let m = f.mant as nat;
    let p = m * n;
    assert(p == f.mant * n);
    rounding_stays_close(p);
    lemma_pow2_pos(f.shift as nat);
    let d = pow2(f.shift as nat);
    let a = f.product(n);
    let q = a / d;
    assert(q * d <= a && a < (q + 1) * d) by (nonlinear_arith)
        requires
            q == a / d,
            d > 0,
    ;
}

/// A factor of a size lies above a number just when the product does; a ratio
/// exceeds a factor just when the numerator exceeds the product with the
/// denominator.
pub proof fn factors_are_compared_as_products(f: Single, s: nat, n: nat)
    requires
        s < 16_777_216,
    ensures
        f.above(s, n) <==> s * pow2(f.shift as nat) < f.product(n),
        f.exceeded_by(s, n) <==> s * pow2(f.shift as nat) > f.mant * n,
{
    rounding_stays_close(s);
}

/// Whether a factor is the one next to a fraction: no further from it than half of
/// its last binary digit, which is worth one part in `unit`.
pub open spec fn is_fraction(f: Single, unit: int, n: int, d: int) -> bool {
    &&& pow2(f.shift as nat) == unit
    &&& 2 * (d * f.mant - n * unit) <= d
    &&& 2 * (n * unit - d * f.mant) <= d
}

/// The settings of a search unless others are given.
pub proof fn standard_settings()
    ensures
        ({
            let p = Params::standard();
            &&& p.dl == 6
            &&& p.segh == 3
            &&& p.segw == 8
            &&& p.msegc == 2
            &&& p.mpn == 50
            &&& p.scd == 800
            &&& p.max_dl_down == 20
            &&& p.max_dl_up == 40
            &&& p.roi_y is None
            &&& is_fraction(p.tp, 33_554_432, 3, 10)
            &&& is_fraction(p.mtpl, 536_870_912, 22, 1000)
            &&& is_fraction(p.veple, 33_554_432, 3, 10)
            &&& is_fraction(p.ilaple, 33_554_432, 3, 10)
            &&& is_fraction(p.min_h, 536_870_912, 12, 720)
            &&& is_fraction(p.mthr, 33_554_432, 4, 10)
            &&& is_fraction(p.mnthr, 33_554_432, 3, 10)
            &&& is_fraction(p.btd, 268_435_456, 5, 100)
            &&& is_fraction(p.to, 134_217_728, 1, 10)
            &&& is_fraction(p.mpd, 33_554_432, 3, 10)
            &&& is_fraction(p.mpned, 33_554_432, 3, 10)
            &&& is_fraction(p.msh, 1_073_741_824, 1, 100)
        }),
{
    lemma2_to64();
}

} // verus!
