//! IEEE 754 binary64 arithmetic on bit patterns, in integers only.
//!
//! A value is the 64-bit pattern of a double: one sign bit, eleven exponent
//! bits, fifty-two fraction bits. Every result is rounded to the nearest
//! representable value, ties to the even significand, so that it is the
//! same on every machine. All NaNs are treated alike.

use crate::rounding::{
    bit_length, divide_significands, lemma_bit_length_bounds, lemma_cut_is_representable,
    lemma_limit, lemma_pow2_monotone, lemma_rounded_exact, lemma_rounded_far,
    multiply_significands, power_of_two, round_pack, rounded, rounded_ratio,
};
use vstd::arithmetic::power2::{lemma2_to64, lemma_pow2_pos, pow2};
use vstd::prelude::*;

verus! {

/// The sign bit.
pub const SIGN: u64 = 0x8000_0000_0000_0000;

/// Positive infinity; as a magnitude, the least that is not finite.
pub const INFINITY: u64 = 0x7FF0_0000_0000_0000;

/// 2^52: the implicit leading bit of a normal significand.
pub const HIDDEN: u64 = 0x0010_0000_0000_0000;

/// The NaN that operations return.
pub const NAN: u64 = 0x7FF8_0000_0000_0000;

/// 10^-9 rounded to binary64: the tolerance below which a value counts
/// as zero.
pub const EPSILON: u64 = 0x3E11_2E0B_E826_D695;

/// The pattern without its sign bit.
pub open spec fn magnitude(x: u64) -> u64 {
    x % SIGN
}

/// Whether the sign bit is set.
pub open spec fn is_negative(x: u64) -> bool {
    x >= SIGN
}

/// Whether `x` is not a number.
pub open spec fn is_nan(x: u64) -> bool {
    magnitude(x) > INFINITY
}

/// Whether `x` is positive or negative infinity.
pub open spec fn is_infinite(x: u64) -> bool {
    magnitude(x) == INFINITY
}

/// Whether `x` is positive or negative zero.
pub open spec fn is_zero(x: u64) -> bool {
    magnitude(x) == 0
}

/// The significand of a finite magnitude: the fraction, with the implicit
/// leading bit unless the value is subnormal.
pub open spec fn significand(mag: u64) -> nat {
    if mag < HIDDEN {
        mag as nat
    } else {
        (HIDDEN + mag % HIDDEN) as nat
    }
}

/// The exponent of the significand's last bit: a finite magnitude `mag`
/// stands for `significand(mag) * 2^exponent(mag)`.
pub open spec fn exponent(mag: u64) -> int {
    if mag < HIDDEN {
        -1074
    } else {
        mag / HIDDEN - 1075
    }
}

/// `mag` with the sign bit set if `negative`.
pub open spec fn with_sign(negative: bool, mag: u64) -> u64 {
    if negative {
        (mag + SIGN) as u64
    } else {
        mag
    }
}

/// The pattern of `-x`.
pub open spec fn negated(x: u64) -> u64 {
    if x >= SIGN {
        (x - SIGN) as u64
    } else {
        (x + SIGN) as u64
    }
}

/// Whether the absolute value of `x` is greater than the tolerance. False
/// for a NaN.
pub open spec fn exceeds_tolerance(x: u64) -> bool {
    EPSILON < magnitude(x) <= INFINITY
}

/// The value of the integer `n`, which is exact below 2^53.
pub open spec fn from_integer(n: nat) -> u64 {
    rounded(n, 0, false)
}

/// `a * b`: the exact product of the two values, rounded.
pub open spec fn product_of(a: u64, b: u64) -> u64 {
    let negative = is_negative(a) != is_negative(b);
    if is_nan(a) || is_nan(b) {
        NAN
    } else if is_infinite(a) || is_infinite(b) {
        if is_zero(a) || is_zero(b) {
            NAN
        } else {
            with_sign(negative, INFINITY)
        }
    } else {
        let ma = magnitude(a);
        let mb = magnitude(b);
        with_sign(
            negative,
            rounded(significand(ma) * significand(mb), exponent(ma) + exponent(mb), false),
        )
    }
}

/// `a / b`: the quotient of the two values, rounded.
pub open spec fn quotient_of(a: u64, b: u64) -> u64 {
    let negative = is_negative(a) != is_negative(b);
    if is_nan(a) || is_nan(b) {
        NAN
    } else if is_infinite(a) {
        if is_infinite(b) {
            NAN
        } else {
            with_sign(negative, INFINITY)
        }
    } else if is_infinite(b) {
        with_sign(negative, 0)
    } else if is_zero(b) {
        if is_zero(a) {
            NAN
        } else {
            with_sign(negative, INFINITY)
        }
    } else if is_zero(a) {
        with_sign(negative, 0)
    } else {
        let ma = magnitude(a);
        let mb = magnitude(b);
        with_sign(
            negative,
            rounded_ratio(significand(ma), exponent(ma), significand(mb), exponent(mb)),
        )
    }
}

/// The sum of two finite values, given by sign and magnitude: both are
/// written in units of the smaller exponent, added or subtracted exactly,
/// and the result is rounded. A zero result is positive unless both
/// values are negative.
pub open spec fn sum_finite(na: bool, ma: u64, nb: bool, mb: u64) -> u64 {
    let low = if exponent(ma) <= exponent(mb) {
        exponent(ma)
    } else {
        exponent(mb)
    };
    let x = significand(ma) * pow2((exponent(ma) - low) as nat);
    let y = significand(mb) * pow2((exponent(mb) - low) as nat);
    if na == nb {
        with_sign(na, rounded(x + y, low, false))
    } else if x == y {
        0
    } else if x > y {
        with_sign(na, rounded((x - y) as nat, low, false))
    } else {
        with_sign(nb, rounded((y - x) as nat, low, false))
    }
}

/// `a + b`: the exact sum of the two values, rounded.
pub open spec fn sum_of(a: u64, b: u64) -> u64 {
    if is_nan(a) || is_nan(b) {
        NAN
    } else if is_infinite(a) {
        if is_infinite(b) && is_negative(a) != is_negative(b) {
            NAN
        } else {
            a
        }
    } else if is_infinite(b) {
        b
    } else {
        sum_finite(is_negative(a), magnitude(a), is_negative(b), magnitude(b))
    }
}

/// `a - b`: the exact difference of the two values, rounded.
pub open spec fn difference_of(a: u64, b: u64) -> u64 {
    sum_of(a, negated(b))
}

/// The order of the two values does not matter to their sum.
pub proof fn lemma_sum_finite_commutes(na: bool, ma: u64, nb: bool, mb: u64)
    ensures
        sum_finite(na, ma, nb, mb) == sum_finite(nb, mb, na, ma),
{
}

/// Every positive 16-bit integer is at least 1, far beyond the tolerance.
pub proof fn lemma_integer_exceeds_tolerance(n: u16)
    requires
        n != 0,
    ensures
        exceeds_tolerance(from_integer(n as nat)),
        from_integer(n as nat) >= 0x3FF0_0000_0000_0000,
        from_integer(n as nat) < INFINITY,
{
    let sig = n as nat;
    let len = bit_length(sig);
    lemma_limit();
    lemma2_to64();
    lemma_bit_length_bounds(sig);
    if len > 16 {
        lemma_pow2_monotone(16, (len - 1) as nat);
    }
    lemma_cut_is_representable(sig, 0, false);
}



/// Whether `x` is negative, and its magnitude.
fn split(x: u64) -> (parts: (bool, u64))
    ensures
        parts.0 == is_negative(x),
        parts.1 == magnitude(x),
{
    (x >= SIGN, x % SIGN)
}

/// The significand and exponent of a finite magnitude.
fn unpack(mag: u64) -> (parts: (u64, i64))
    requires
        mag < INFINITY,
    ensures
        parts.0 == significand(mag),
        parts.1 == exponent(mag),
        parts.0 < 0x20_0000_0000_0000,
        -1074 <= parts.1 <= 971,
        mag != 0 ==> parts.0 != 0,
        parts.1 > -1074 ==> parts.0 >= HIDDEN,
{
    if mag < HIDDEN {
        (mag, -1074)
    } else {
        (HIDDEN + mag % HIDDEN, (mag / HIDDEN) as i64 - 1075)
    }
}

/// `mag` with the sign bit set if `negative`.
fn signed(negative: bool, mag: u64) -> (x: u64)
    requires
        mag < SIGN,
    ensures
        x == with_sign(negative, mag),
        magnitude(x) == mag,
        is_negative(x) == negative,
{
    if negative {
        mag + SIGN
    } else {
        mag
    }
}

/// Whether the absolute value of `x` is greater than 10^-9.
pub fn exceeds(x: u64) -> (yes: bool)
    ensures
        yes == exceeds_tolerance(x),
{
    let mag: u64 = x % SIGN;
    EPSILON < mag && mag <= INFINITY
}

/// The binary64 value of a 16-bit integer.
pub fn from_u16(n: u16) -> (x: u64)
    ensures
        x == from_integer(n as nat),
{
    round_pack(n as u128, 0, false)
}

/// `a * b`.
#[verifier::rlimit(40)]
pub fn product(a: u64, b: u64) -> (x: u64)
    ensures
        x == product_of(a, b),
{
    let (na, ma) = split(a);
    let (nb, mb) = split(b);
    let negative: bool = na != nb;
    if ma > INFINITY || mb > INFINITY {
        return NAN;
    }
    if ma == INFINITY || mb == INFINITY {
        if ma == 0 || mb == 0 {
            return NAN;
        }
        return signed(negative, INFINITY);
    }
    let (sa, ea) = unpack(ma);
    let (sb, eb) = unpack(mb);
    let mag: u64 = multiply_significands(sa, ea, sb, eb);
    signed(negative, mag)
}

/// `a / b`.
#[verifier::rlimit(40)]
pub fn quotient(a: u64, b: u64) -> (x: u64)
    ensures
        x == quotient_of(a, b),
{
    let (na, ma) = split(a);
    let (nb, mb) = split(b);
    let negative: bool = na != nb;
    if ma > INFINITY || mb > INFINITY {
        return NAN;
    }
    if ma == INFINITY {
        if mb == INFINITY {
            return NAN;
        }
        return signed(negative, INFINITY);
    }
    if mb == INFINITY {
        return signed(negative, 0);
    }
    if mb == 0 {
        if ma == 0 {
            return NAN;
        }
        return signed(negative, INFINITY);
    }
    if ma == 0 {
        return signed(negative, 0);
    }
    let (sa, ea) = unpack(ma);
    let (sb, eb) = unpack(mb);
    let mag: u64 = divide_significands(sa, ea, sb, eb);
    signed(negative, mag)
}

/// The sum of two finite values, the first of which is not the smaller
/// in magnitude.
#[verifier::rlimit(40)]
fn add_ordered(nbig: bool, mbig: u64, nsmall: bool, msmall: u64) -> (x: u64)
    requires
        msmall <= mbig < INFINITY,
    ensures
        x == sum_finite(nbig, mbig, nsmall, msmall),
{
    proof {
        lemma_limit();
        lemma2_to64();
    }
    if msmall == 0 {
        assert(significand(msmall) * pow2(0) == 0) by (nonlinear_arith)
            requires
                significand(msmall) == 0,
        ;
        if mbig == 0 {
            return if nbig && nsmall {
                SIGN
            } else {
                0
            };
        }
        proof {
            let k = (exponent(mbig) + 1074) as nat;
            lemma_rounded_exact(mbig, k);
            lemma_pow2_pos(k);
            assert(significand(mbig) * pow2(k) > 0) by (nonlinear_arith)
                requires
                    significand(mbig) > 0,
                    pow2(k) > 0,
            ;
        }
        return signed(nbig, mbig);
    }
    let (sb, eb) = unpack(mbig);
    let (ss, es) = unpack(msmall);
    let d: i64 = eb - es;
    assert(ss as nat * pow2(0) == ss) by (nonlinear_arith)
        requires
            pow2(0) == 1,
    ;
    if d > 64 {
        proof {
            lemma_rounded_far(mbig, ss as nat, d as nat);
            lemma_pow2_monotone(1, d as nat);
            assert(sb as nat * pow2(d as nat) > ss) by (nonlinear_arith)
                requires
                    sb >= 0x10_0000_0000_0000,
                    pow2(d as nat) >= 2,
                    ss < 0x20_0000_0000_0000,
            ;
        }
        return signed(nbig, mbig);
    }
    let unit: u128 = power_of_two(d as u32);
    proof {
        lemma_pow2_monotone(d as nat, 64);
        assert((sb as u128) * unit <= 0x20_0000_0000_0000 * 0x1_0000_0000_0000_0000)
            by (nonlinear_arith)
            requires
                sb < 0x20_0000_0000_0000,
                unit <= 0x1_0000_0000_0000_0000,
        ;
        if d > 0 {
            lemma_pow2_monotone(1, d as nat);
            assert((sb as u128) * unit >= 0x20_0000_0000_0000) by (nonlinear_arith)
                requires
                    sb >= 0x10_0000_0000_0000,
                    unit >= 2,
            ;
        } else {
            assert((sb as u128) * unit == sb) by (nonlinear_arith)
                requires
                    unit == 1,
            ;
        }
    }
    let x: u128 = (sb as u128) * unit;
    let y: u128 = ss as u128;
    if nbig == nsmall {
        let mag: u64 = round_pack(x + y, es, false);
        signed(nbig, mag)
    } else if x == y {
        0
    } else {
        let mag: u64 = round_pack(x - y, es, false);
        signed(nbig, mag)
    }
}

/// `a + b`.
#[verifier::rlimit(40)]
pub fn sum(a: u64, b: u64) -> (x: u64)
    ensures
        x == sum_of(a, b),
{
    let (na, ma) = split(a);
    let (nb, mb) = split(b);
    if ma > INFINITY || mb > INFINITY {
        return NAN;
    }
    if ma == INFINITY {
        if mb == INFINITY && na != nb {
            return NAN;
        }
        return a;
    }
    if mb == INFINITY {
        return b;
    }
    if ma >= mb {
        add_ordered(na, ma, nb, mb)
    } else {
        proof {
            lemma_sum_finite_commutes(na, ma, nb, mb);
        }
        add_ordered(nb, mb, na, ma)
    }
}

/// `a - b`.
pub fn difference(a: u64, b: u64) -> (x: u64)
    ensures
        x == difference_of(a, b),
{
    let flipped: u64 = if b >= SIGN {
        b - SIGN
    } else {
        b + SIGN
    };
    sum(a, flipped)
}

} // verus!
