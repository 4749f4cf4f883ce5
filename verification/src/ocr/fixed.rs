//! Fixed-point numbers. Confidences and pixel coordinates are integers that
//! count billionths; a quotient is rounded down to a whole billionth.
use vstd::prelude::*;

verus! {

/// The number one, in billionths.
pub const ONE: i64 = 1_000_000_000;

/// The sum of some numbers.
pub open spec fn total(s: Seq<int>) -> int
    decreases s.len(),
{
    if s.len() == 0 {
        0
    } else {
        total(s.drop_last()) + s.last()
    }
}

/// The mean of some numbers, rounded down; zero where there are none.
pub open spec fn mean(s: Seq<int>) -> int {
    if s.len() == 0 {
        0
    } else {
        total(s) / (s.len() as int)
    }
}

/// The mathematical values of machine integers.
pub open spec fn ints(s: Seq<i64>) -> Seq<int> {
    s.map_values(|x: i64| x as int)
}

/// The part of `a` that the fixed-point number `b` tells.
pub open spec fn scaled(a: int, b: int) -> int {
    (a * b) / (ONE as int)
}

/// The quotient of two numbers of the same unit, as a fixed-point number.
pub open spec fn ratio(a: int, b: int) -> int {
    (a * ONE) / b
}

pub open spec fn magnitude(a: int) -> int {
    if a < 0 {
        -a
    } else {
        a
    }
}

pub open spec fn smaller(a: int, b: int) -> int {
    if a < b {
        a
    } else {
        b
    }
}

pub open spec fn larger(a: int, b: int) -> int {
    if a < b {
        b
    } else {
        a
    }
}

/// A number no less than `low` and no more than `high`.
pub open spec fn clamped(a: int, low: int, high: int) -> int {
    if a < low {
        low
    } else if a > high {
        high
    } else {
        a
    }
}

/// A sum lies between what the smallest and the largest value would give.
pub proof fn lemma_total_bounds(s: Seq<int>, low: int, high: int)
    requires
        forall|i: int| 0 <= i < s.len() ==> low <= #[trigger] s[i] <= high,
    ensures
        s.len() * low <= total(s) <= s.len() * high,
    decreases s.len(),
{
    if s.len() > 0 {
        let t = s.drop_last();
        assert forall|i: int| 0 <= i < t.len() implies low <= #[trigger] t[i] <= high by {
            assert(t[i] == s[i]);
        }
        lemma_total_bounds(t, low, high);
        assert(low <= s[s.len() - 1] <= high);
        assert(s.len() * low == t.len() * low + low) by (nonlinear_arith)
            requires
                s.len() == t.len() + 1,
        ;
        assert(s.len() * high == t.len() * high + high) by (nonlinear_arith)
            requires
                s.len() == t.len() + 1,
        ;
    }
}

/// A mean lies between the smallest and the largest value.
pub proof fn mean_lies_between(s: Seq<int>, low: int, high: int)
    requires
        s.len() > 0,
        forall|i: int| 0 <= i < s.len() ==> low <= #[trigger] s[i] <= high,
    ensures
        low <= mean(s) <= high,
{
    lemma_total_bounds(s, low, high);
    lemma_quotient(total(s), s.len() as int, low, high);
}

pub proof fn lemma_quotient(a: int, b: int, low: int, high: int)
    requires
        b > 0,
        b * low <= a <= b * high,
    ensures
        low <= a / b <= high,
{
    vstd::arithmetic::div_mod::lemma_fundamental_div_mod(a, b);
    let q = a / b;
    assert(q >= low) by (nonlinear_arith)
        requires
            a == b * q + a % b,
            0 <= a % b < b,
            b * low <= a,
            b > 0,
    ;
    assert(q <= high) by (nonlinear_arith)
        requires
            a == b * q + a % b,
            0 <= a % b < b,
            a <= b * high,
            b > 0,
    ;
}

/// The quotient rounded down, also for negative numbers.
pub(crate) fn floor_div(a: i128, b: i128) -> (q: i128)
    requires
        b > 0,
        a > i128::MIN,
    ensures
        q == a as int / b as int,
{
    if a >= 0 {
        a / b
    } else {
        let m: i128 = -a;
        let q: i128 = m / b;
        let r: i128 = m % b;
        proof {
            vstd::arithmetic::div_mod::lemma_fundamental_div_mod(m as int, b as int);
            let mi = m as int;
            let bi = b as int;
            assert(mi == bi * (mi / bi) + mi % bi);
            if r == 0 {
                assert(a == (-q) * b + 0) by (nonlinear_arith)
                    requires
                        m == b * q + r,
                        r == 0,
                        a == -m,
                ;
                vstd::arithmetic::div_mod::lemma_fundamental_div_mod_converse(
                    a as int,
                    bi,
                    -(q as int),
                    0,
                );
            } else {
                assert(a == (-q - 1) * b + (b - r)) by (nonlinear_arith)
                    requires
                        m == b * q + r,
                        a == -m,
                ;
                vstd::arithmetic::div_mod::lemma_fundamental_div_mod_converse(
                    a as int,
                    bi,
                    -(q as int) - 1,
                    b - r,
                );
            }
            assert(q < m || r == 0) by (nonlinear_arith)
                requires
                    m == b * q + r,
                    0 <= r < b,
                    b > 0,
                    q >= 0,
            ;
        }
        if r == 0 {
            -q
        } else {
            -q - 1
        }
    }
}

/// The mean of some numbers, rounded down; zero where there are none.
pub fn mean_of(values: &[i64]) -> (m: i64)
    ensures
        m == mean(ints(values@)),
{
    if values.len() == 0 {
        return 0;
    }
    let n: usize = values.len();
    let mut sum: i128 = 0;
    let mut i: usize = 0;
    proof {
        assert(ints(values@.take(0)) =~= Seq::<int>::empty());
    }
    while i < n
        invariant
            i <= n,
            n == values@.len(),
            sum == total(ints(values@.take(i as int))),
            i * i64::MIN <= sum <= i * i64::MAX,
        decreases n - i,
    {
        proof {
            assert(ints(values@.take(i + 1)).drop_last() =~= ints(values@.take(i as int)));
            assert(ints(values@.take(i + 1)).last() == values@[i as int]);
        }
        sum = sum + values[i] as i128;
        i = i + 1;
    }
    proof {
        assert(values@.take(n as int) =~= values@);
        lemma_quotient(sum as int, n as int, i64::MIN as int, i64::MAX as int);
    }
    floor_div(sum, n as i128) as i64
}

pub(crate) fn min_i64(a: i64, b: i64) -> (r: i64)
    ensures
        r == smaller(a as int, b as int),
{
    if a < b {
        a
    } else {
        b
    }
}

pub(crate) fn max_i64(a: i64, b: i64) -> (r: i64)
    ensures
        r == larger(a as int, b as int),
{
    if a < b {
        b
    } else {
        a
    }
}

} // verus!
