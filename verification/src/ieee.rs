//! IEEE-754 single-precision numbers as bit patterns.
//!
//! The engine keeps every real number as the 32-bit pattern of a single:
//! one sign bit, eight exponent bits, twenty-three fraction bits. This
//! module reads such patterns: whether one is zero or not a number, how two
//! compare, and which fixed-point fraction a probability comes to. It does
//! no arithmetic on them.

use vstd::prelude::*;
use vstd::arithmetic::power2::{lemma2_to64, lemma_pow2_adds, lemma_pow2_pos, lemma_pow2_strictly_increases, pow2};

verus! {

/// The pattern of positive infinity; larger magnitudes are not numbers.
pub const INFINITY: u32 = 0x7F80_0000;

/// The pattern of the number one.
pub const ONE: u32 = 0x3F80_0000;

/// The pattern of a number without its sign bit.
pub open spec fn magnitude(bits: u32) -> int {
    bits as int % 0x8000_0000
}

/// Whether the sign bit is set.
pub open spec fn negative(bits: u32) -> bool {
    bits >= 0x8000_0000
}

/// Whether the pattern is not a number.
pub open spec fn is_nan(bits: u32) -> bool {
    magnitude(bits) > INFINITY
}

/// Whether the pattern is zero, of either sign.
pub open spec fn is_zero(bits: u32) -> bool {
    magnitude(bits) == 0
}

/// An integer that orders the patterns as the numbers they stand for are
/// ordered: the magnitude, negated under the sign bit. The two zeros share
/// a rank.
pub open spec fn rank(bits: u32) -> int {
    if negative(bits) {
        -magnitude(bits)
    } else {
        magnitude(bits)
    }
}

/// Whether `a` is greater than `b` as numbers. Nothing is greater than, or
/// less than, a pattern that is not a number.
pub open spec fn greater(a: u32, b: u32) -> bool {
    !is_nan(a) && !is_nan(b) && rank(a) > rank(b)
}

/// The exponent field.
pub open spec fn exponent(bits: u32) -> int {
    magnitude(bits) / 0x80_0000
}

/// The fraction field.
pub open spec fn fraction(bits: u32) -> int {
    magnitude(bits) % 0x80_0000
}

/// The integer whose quotient by `pow2(scale(bits))` is the magnitude of
/// the number: the fraction, with the hidden bit where the exponent field
/// is not zero.
pub open spec fn significand(bits: u32) -> int {
    if exponent(bits) == 0 {
        fraction(bits)
    } else {
        0x80_0000 + fraction(bits)
    }
}

/// The power of two that the significand is divided by. Defined for
/// magnitudes below two to the 24th, which is all that is asked of it.
pub open spec fn scale(bits: u32) -> nat {
    if exponent(bits) == 0 {
        149
    } else {
        (150 - exponent(bits)) as nat
    }
}

/// A probability as a fixed-point fraction of 32 bits: the number times two
/// to the 32nd, rounded down. What is negative or not a number counts as
/// zero, what is one or more as the largest fraction.
pub open spec fn fixed(bits: u32) -> int {
    if negative(bits) || is_nan(bits) {
        0
    } else if bits >= ONE {
        0xFFFF_FFFF
    } else {
        (significand(bits) * pow2(32)) / (pow2(scale(bits)) as int)
    }
}

/// Whether the pattern is not a number.
pub fn nan(bits: u32) -> (yes: bool)
    ensures
        yes == is_nan(bits),
{
    bits % 0x8000_0000 > INFINITY
}

/// Whether the pattern is zero, of either sign.
pub fn zero(bits: u32) -> (yes: bool)
    ensures
        yes == is_zero(bits),
{
    bits % 0x8000_0000 == 0
}

/// Whether `a` is greater than `b` as numbers.
pub fn gt(a: u32, b: u32) -> (yes: bool)
    ensures
        yes == greater(a, b),
{
    if nan(a) || nan(b) {
        return false;
    }
    let ma: u32 = a % 0x8000_0000;
    let mb: u32 = b % 0x8000_0000;
    if a >= 0x8000_0000 {
        b >= 0x8000_0000 && ma < mb
    } else {
        if b >= 0x8000_0000 {
            ma > 0 || mb > 0
        } else {
            ma > mb
        }
    }
}

/// Whether the number is at most zero: not greater than zero, and a number.
pub fn at_most_zero(bits: u32) -> (yes: bool)
    ensures
        yes == (!is_nan(bits) && rank(bits) <= 0),
{
    !nan(bits) && (bits >= 0x8000_0000 || bits == 0)
}

/// Whether the number is at least one.
pub fn at_least_one(bits: u32) -> (yes: bool)
    ensures
        yes == (!is_nan(bits) && rank(bits) >= ONE),
{
    ONE <= bits && bits <= INFINITY
}

/// The probability `bits` as a fixed-point fraction of 32 bits.
pub fn to_fixed(bits: u32) -> (q: u32)
    ensures
        q == fixed(bits),
{
    if bits >= 0x8000_0000 || bits > INFINITY {
        return 0;
    }
    if bits >= ONE {
        return 0xFFFF_FFFF;
    }
    let e: u32 = bits / 0x80_0000;
    let f: u32 = bits % 0x80_0000;
    let m: u32 = if e == 0 {
        f
    } else {
        0x80_0000 + f
    };
    let s: u32 = if e == 0 {
        149
    } else {
        150 - e
    };
    proof {
        lemma_fixed_by_cases(m as int, s as nat);
    }
    if s <= 32 {
        let up: u32 = 32 - s;
        proof {
            lemma2_to64();
            lemma_pow2_strictly_increases(up as nat, 9);
            assert(m * pow2(up as nat) <= 0xFFFF_FFFF) by (nonlinear_arith)
                requires
                    0 <= m < 0x100_0000,
                    0 < pow2(up as nat) <= 0x100,
            ;
            vstd::bits::lemma_u32_shl_is_mul(m, up);
        }
        m << up
    } else if s - 32 < 32 {
        let down: u32 = s - 32;
        proof {
            vstd::bits::lemma_u32_shr_is_div(m, down);
        }
        m >> down
    } else {
        0
    }
}

/// The pattern of the number `numerator` over two to the 24th, which a
/// single holds exactly.
pub fn unit_fraction(numerator: u32) -> (bits: u32)
    requires
        numerator < 0x100_0000,
    ensures
        bits < ONE,
        numerator == 0 ==> bits == 0,
        numerator > 0 ==> exponent(bits) >= 1,
        significand(bits) * pow2(24) == numerator * pow2(scale(bits)),
{
    if numerator == 0 {
        assert(significand(0) * pow2(24) == 0 * pow2(scale(0))) by (nonlinear_arith)
            requires
                significand(0) == 0,
        ;
        return 0;
    }
    let mut m: u32 = numerator;
    let mut e: u32 = 126;
    proof {
        lemma2_to64();
        assert(numerator * pow2(0) == numerator) by (nonlinear_arith)
            requires
                pow2(0) == 1,
        ;
    }
    while m < 0x80_0000
        invariant
            1 <= m < 0x100_0000,
            103 <= e <= 126,
            m == numerator * pow2((126 - e) as nat),
            numerator >= 1,
        decreases e,
    {
        proof {
            let j = (126 - e) as nat;
            lemma_pow2_adds(j, 1);
            lemma2_to64();
            assert(numerator * pow2(j + 1) == 2 * (numerator * pow2(j))) by (nonlinear_arith)
                requires
                    pow2(j + 1) == pow2(j) * 2,
            ;
            if e == 103 {
                assert(pow2(23) == 0x80_0000);
                assert(numerator * pow2(23) >= 0x80_0000) by (nonlinear_arith)
                    requires
                        numerator >= 1,
                        pow2(23) == 0x80_0000,
                ;
            }
        }
        m = m * 2;
        e = e - 1;
    }
    let bits: u32 = e * 0x80_0000 + (m - 0x80_0000);
    proof {
        let j = (126 - e) as nat;
        lemma_pow2_adds(j, 24);
        assert(exponent(bits) == e);
        assert(fraction(bits) == m - 0x80_0000);
        assert(scale(bits) == j + 24);
        assert(m * pow2(24) == numerator * pow2(j + 24)) by (nonlinear_arith)
            requires
                m == numerator * pow2(j),
                pow2(j + 24) == pow2(j) * pow2(24),
        ;
    }
    bits
}

/// A fixed-point fraction fits in 32 bits.
pub proof fn lemma_fixed_range(bits: u32)
    ensures
        0 <= fixed(bits) <= 0xFFFF_FFFF,
{
    if !negative(bits) && !is_nan(bits) && bits < ONE {
        lemma_fixed_by_cases(significand(bits), scale(bits));
    }
}

/// The fixed-point fraction of a significand below two to the 24th over a
/// power of two from the 24th on: a multiple of the significand while the
/// power is at most the 32nd, a quotient of it beyond, and nothing from the
/// 56th on.
pub proof fn lemma_fixed_by_cases(m: int, s: nat)
    requires
        0 <= m < 0x100_0000,
        24 <= s,
    ensures
        0 <= (m * pow2(32)) / (pow2(s) as int) <= 0xFFFF_FFFF,
        s <= 32 ==> (m * pow2(32)) / (pow2(s) as int) == m * pow2((32 - s) as nat),
        s > 32 ==> (m * pow2(32)) / (pow2(s) as int) == m / (pow2((s - 32) as nat) as int),
        s >= 56 ==> (m * pow2(32)) / (pow2(s) as int) == 0,
{
    lemma2_to64();
    lemma_pow2_pos(s);
    let p32 = pow2(32) as int;
    let ps = pow2(s) as int;
    if s <= 32 {
        let up = (32 - s) as nat;
        lemma_pow2_adds(up, s);
        lemma_pow2_pos(up);
        lemma_pow2_strictly_increases(up, 9);
        let pu = pow2(up) as int;
        assert(p32 == pu * ps);
        assert((m * p32) / ps == m * pu) by (nonlinear_arith)
            requires
                p32 == pu * ps,
                ps > 0,
        ;
        assert(0 <= m * pu <= 0xFFFF_FFFF) by (nonlinear_arith)
            requires
                0 <= m < 0x100_0000,
                0 < pu <= 0x100,
        ;
    } else {
        let down = (s - 32) as nat;
        lemma_pow2_adds(down, 32);
        lemma_pow2_pos(down);
        let pd = pow2(down) as int;
        assert(ps == pd * p32);
        assert((m * p32) / ps == m / pd) by (nonlinear_arith)
            requires
                ps == pd * p32,
                p32 > 0,
                pd > 0,
                m >= 0,
        ;
        assert(0 <= m / pd <= m) by (nonlinear_arith)
            requires
                pd >= 1,
                m >= 0,
        ;
        if s >= 56 {
            if down > 24 {
                lemma_pow2_strictly_increases(24, down);
            }
            assert(m / pd == 0) by (nonlinear_arith)
                requires
                    0 <= m < 0x100_0000,
                    pd >= 0x100_0000,
            ;
        }
    }
}

} // verus!
