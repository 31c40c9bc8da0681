//! Rounding to binary64: how an exact value, given as an integer times a
//! power of two, becomes the nearest value that the format holds.

use crate::binary64::{exponent, significand, HIDDEN, INFINITY};
use vstd::arithmetic::div_mod::{
    lemma_basic_div, lemma_div_is_ordered, lemma_div_multiples_vanish,
    lemma_fundamental_div_mod, lemma_fundamental_div_mod_converse, lemma_mod_bound,
    lemma_multiply_divide_lt, lemma_small_mod,
};
use vstd::arithmetic::mul::{lemma_mul_inequality, lemma_mul_strict_inequality};
use vstd::arithmetic::power2::{
    lemma2_to64, lemma2_to64_rest, lemma_pow2_adds, lemma_pow2_pos,
    lemma_pow2_strictly_increases, lemma_pow2_unfold, pow2,
};
use vstd::bits::lemma_u128_shr_is_div;
use vstd::prelude::*;

verus! {

/// 2^120: significands handed to rounding stay below it.
pub const LIMIT: u128 = 0x100_0000_0000_0000_0000_0000_0000_0000;

/// The number of bits of `n`: the least `k` with `n < 2^k`.
pub open spec fn bit_length(n: nat) -> nat
    decreases n,
{
    if n == 0 {
        0
    } else {
        1 + bit_length(n / 2)
    }
}

/// `sig / 2^sh` rounded to the nearest integer, ties to even. With `sticky`
/// the number rounded lies strictly between `sig` and `sig + 1`.
pub open spec fn round_shift(sig: nat, sh: nat, sticky: bool) -> nat {
    let q = sig / pow2(sh);
    let r = sig % pow2(sh);
    let half = pow2(sh) / 2;
    if r > half || (r == half && (sticky || q % 2 == 1)) {
        q + 1
    } else {
        q
    }
}

/// The exponent of the last bit that is kept when `sig * 2^e` is rounded:
/// the one that leaves 53 bits, but never below that of the subnormals.
pub open spec fn unit_exponent(sig: nat, e: int) -> int {
    if e + bit_length(sig) - 53 < -1074 {
        -1074
    } else {
        e + bit_length(sig) - 53
    }
}

/// The significand of `sig * 2^e` after rounding, in units of
/// `2^unit_exponent(sig, e)`.
pub open spec fn cut(sig: nat, e: int, sticky: bool) -> nat {
    let t = unit_exponent(sig, e);
    if t <= e {
        sig * pow2((e - t) as nat)
    } else {
        round_shift(sig, (t - e) as nat, sticky)
    }
}

/// The magnitude nearest to `sig * 2^e`: the significand is cut to 53 bits,
/// or fewer where the result is subnormal, and what exceeds the largest
/// finite value becomes infinity. `sticky` goes only with a `sig` of more
/// than 54 bits, where it can no longer decide anything but a tie.
pub open spec fn rounded(sig: nat, e: int, sticky: bool) -> u64 {
    if sig == 0 {
        0
    } else {
        let mag = (unit_exponent(sig, e) + 1074) * HIDDEN + cut(sig, e, sticky);
        if mag >= INFINITY {
            INFINITY
        } else {
            mag as u64
        }
    }
}

/// By how many bits the dividend `sa` is scaled up, so that its integer
/// quotient by `sb` has 56 or 57 bits.
pub open spec fn quotient_shift(sa: nat, sb: nat) -> nat {
    (56 + bit_length(sb) - bit_length(sa)) as nat
}

/// The rounded magnitude of `sa * 2^ea / (sb * 2^eb)`. The integer quotient
/// of the scaled significands carries at least three bits beyond the
/// result's precision, and its remainder tells whether it is exact.
pub open spec fn rounded_ratio(sa: nat, ea: int, sb: nat, eb: int) -> u64 {
    let s = quotient_shift(sa, sb);
    let n = sa * pow2(s);
    rounded(n / sb, ea - eb - s, n % sb != 0)
}

/// How far apart two numbers are.
pub open spec fn distance(x: nat, y: nat) -> nat {
    if x >= y {
        (x - y) as nat
    } else {
        (y - x) as nat
    }
}

/// `2^a <= 2^b` for `a <= b`.
pub proof fn lemma_pow2_monotone(a: nat, b: nat)
    requires
        a <= b,
    ensures
        pow2(a) <= pow2(b),
{
    if a < b {
        lemma_pow2_strictly_increases(a, b);
    }
}

/// 2^120 as a constant.
pub proof fn lemma_limit()
    ensures
        pow2(120) == LIMIT,
        pow2(53) == 0x20_0000_0000_0000,
        pow2(52) == HIDDEN,
{
    lemma2_to64_rest();
    lemma_pow2_adds(60, 60);
    assert(0x1000_0000_0000_0000int * 0x1000_0000_0000_0000int
        == 0x100_0000_0000_0000_0000_0000_0000_0000int) by (nonlinear_arith);
}

/// `a < 2^x` gives `a * 2^y < 2^(x + y)`.
pub proof fn lemma_scaled_below(a: nat, x: nat, y: nat)
    requires
        a < pow2(x),
    ensures
        a * pow2(y) < pow2(x + y),
{
    lemma_pow2_pos(y);
    lemma_pow2_adds(x, y);
    lemma_mul_strict_inequality(a as int, pow2(x) as int, pow2(y) as int);
}

/// A number of `k` bits lies in `[2^(k-1), 2^k)`.
pub proof fn lemma_bit_length_bounds(n: nat)
    requires
        n > 0,
    ensures
        bit_length(n) >= 1,
        pow2((bit_length(n) - 1) as nat) <= n < pow2(bit_length(n)),
    decreases n,
{
    if n == 1 {
        assert(bit_length(0) == 0);
        assert(bit_length(1) == 1 + bit_length(0));
        lemma2_to64();
    } else {
        lemma_bit_length_bounds(n / 2);
        lemma_pow2_unfold(bit_length(n / 2));
        lemma_pow2_unfold(bit_length(n));
    }
}

/// The bit length is the only `k` with `2^(k-1) <= n < 2^k`.
pub proof fn lemma_bit_length_unique(n: nat, k: nat)
    requires
        k >= 1,
        pow2((k - 1) as nat) <= n < pow2(k),
    ensures
        bit_length(n) == k,
{
    lemma_pow2_pos((k - 1) as nat);
    lemma_bit_length_bounds(n);
    let b = bit_length(n);
    if b < k {
        if b < k - 1 {
            lemma_pow2_strictly_increases(b, (k - 1) as nat);
        }
    } else if b > k {
        if k < b - 1 {
            lemma_pow2_strictly_increases(k, (b - 1) as nat);
        }
    }
}

/// Scaling by `2^k` adds `k` bits.
pub proof fn lemma_bit_length_scaled(n: nat, k: nat)
    requires
        n > 0,
    ensures
        bit_length(n * pow2(k)) == bit_length(n) + k,
{
    lemma_bit_length_bounds(n);
    let b = bit_length(n);
    lemma_scaled_below(n, b, k);
    lemma_pow2_adds((b - 1) as nat, k);
    lemma_pow2_pos(k);
    lemma_mul_inequality(pow2((b - 1) as nat) as int, n as int, pow2(k) as int);
    lemma_bit_length_unique(n * pow2(k), b + k);
}

/// What rounding yields fits the format: at most 53 bits, and a full 53
/// unless the result is subnormal.
pub proof fn lemma_cut_is_representable(sig: nat, e: int, sticky: bool)
    requires
        sig > 0,
    ensures
        unit_exponent(sig, e) >= -1074,
        cut(sig, e, sticky) <= pow2(53),
        unit_exponent(sig, e) > -1074 ==> cut(sig, e, sticky) >= pow2(52),
{
    let len = bit_length(sig);
    let t = unit_exponent(sig, e);
    lemma_bit_length_bounds(sig);
    if t <= e {
        let k = (e - t) as nat;
        lemma_scaled_below(sig, len, k);
        lemma_pow2_monotone(len + k, 53);
        if t > -1074 {
            lemma_pow2_adds((len - 1) as nat, k);
            lemma_pow2_pos(k);
            lemma_mul_inequality(pow2((len - 1) as nat) as int, sig as int, pow2(k) as int);
        }
    } else {
        let sh = (t - e) as nat;
        let unit = pow2(sh);
        lemma_pow2_pos(sh);
        lemma_pow2_adds(sh, 53);
        lemma_pow2_monotone(len, sh + 53);
        lemma_multiply_divide_lt(sig as int, unit as int, pow2(53) as int);
        if t > -1074 {
            lemma_pow2_adds(52, sh);
            lemma_div_is_ordered((pow2(52) * unit) as int, sig as int, unit as int);
            lemma_div_multiples_vanish(pow2(52) as int, unit as int);
            assert(pow2(52) * unit == unit * pow2(52)) by (nonlinear_arith);
        }
    }
}

/// Rounding an exact value takes the nearest multiple of the unit: the
/// result is off by at most half a unit, and where it is off by exactly a
/// half, its significand is even.
pub proof fn lemma_cut_is_nearest(sig: nat, e: int)
    requires
        sig > 0,
    ensures
        ({
            let t = unit_exponent(sig, e);
            let m = cut(sig, e, false);
            if t <= e {
                m == sig * pow2((e - t) as nat)
            } else {
                let unit = pow2((t - e) as nat);
                &&& 2 * distance(sig, m * unit) <= unit
                &&& 2 * distance(sig, m * unit) == unit ==> m % 2 == 0
            }
        }),
{
    let t = unit_exponent(sig, e);
    if t > e {
        let sh = (t - e) as nat;
        let unit = pow2(sh);
        let q = sig / unit;
        let r = sig % unit;
        lemma_pow2_pos(sh);
        lemma_pow2_unfold(sh);
        lemma_fundamental_div_mod(sig as int, unit as int);
        lemma_mod_bound(sig as int, unit as int);
        assert((q + 1) * unit == q * unit + unit) by (nonlinear_arith);
        assert(unit * q == q * unit) by (nonlinear_arith);
    }
}

/// The integer quotient that division rounds has at least 56 bits, so
/// that at least three of them lie beyond the result's precision.
pub proof fn lemma_quotient_has_spare_bits(sa: nat, sb: nat)
    requires
        sa > 0,
        sb > 0,
        bit_length(sa) <= 56 + bit_length(sb),
    ensures
        (sa * pow2(quotient_shift(sa, sb))) / sb >= pow2(55),
        bit_length((sa * pow2(quotient_shift(sa, sb))) / sb) >= 56,
{
    let la = bit_length(sa);
    let lb = bit_length(sb);
    let s = quotient_shift(sa, sb);
    let n = sa * pow2(s);
    lemma_bit_length_bounds(sa);
    lemma_bit_length_bounds(sb);
    lemma_pow2_adds((la - 1) as nat, s);
    lemma_pow2_adds(55, lb);
    lemma_pow2_pos(s);
    lemma_pow2_pos(55);
    lemma_mul_inequality(pow2((la - 1) as nat) as int, sa as int, pow2(s) as int);
    assert(sb * pow2(55) <= pow2(55) * pow2(lb)) by (nonlinear_arith)
        requires
            sb <= pow2(lb),
    ;
    lemma_div_is_ordered((sb * pow2(55)) as int, n as int, sb as int);
    lemma_div_multiples_vanish(pow2(55) as int, sb as int);
    let q = n / sb;
    lemma_bit_length_bounds(q);
    if bit_length(q) < 56 {
        lemma_pow2_monotone(bit_length(q), 55);
    }
}

/// Division is correctly rounded: the result differs from the exact
/// quotient by at most half a unit, and where by exactly a half, its
/// significand is even. In integers, with `n = sa * 2^s` the scaled
/// dividend and `unit` the result's unit in the scale of `n / sb`:
/// `m * sb * unit` is as near to `n` as a multiple of `sb * unit` can be.
pub proof fn lemma_quotient_is_nearest(sa: nat, ea: int, sb: nat, eb: int)
    requires
        sa > 0,
        sb > 0,
        bit_length(sa) <= 56 + bit_length(sb),
    ensures
        ({
            let s = quotient_shift(sa, sb);
            let n = sa * pow2(s);
            let e = ea - eb - s;
            let t = unit_exponent(n / sb, e);
            let m = cut(n / sb, e, n % sb != 0);
            let unit = pow2((t - e) as nat);
            &&& t > e
            &&& 2 * distance(n, m * sb * unit) <= sb * unit
            &&& 2 * distance(n, m * sb * unit) == sb * unit ==> m % 2 == 0
        }),
{
    let s = quotient_shift(sa, sb);
    let n = sa * pow2(s);
    let e = ea - eb - s;
    let q = n / sb;
    let r0 = n % sb;
    lemma_quotient_has_spare_bits(sa, sb);
    let t = unit_exponent(q, e);
    let sh = (t - e) as nat;
    let unit = pow2(sh);
    let m = cut(q, e, r0 != 0);
    let big = q / unit;
    let r = q % unit;
    let half = unit / 2;
    lemma_pow2_pos(sh);
    lemma_pow2_unfold(sh);
    lemma_fundamental_div_mod(n as int, sb as int);
    lemma_mod_bound(n as int, sb as int);
    lemma_fundamental_div_mod(q as int, unit as int);
    lemma_mod_bound(q as int, unit as int);
    let rest = r * sb + r0;
    assert(n == big * sb * unit + rest) by (nonlinear_arith)
        requires
            n == sb * q + r0,
            q == unit * big + r,
            rest == r * sb + r0,
    ;
    assert((big + 1) * sb * unit == big * sb * unit + sb * unit) by (nonlinear_arith);
    assert(2 * (half * sb) == sb * unit) by (nonlinear_arith)
        requires
            unit == 2 * half,
    ;
    let whole = big * sb * unit;
    let step = sb * unit;
    assert(t > e);
    assert(m == round_shift(q, sh, r0 != 0));
    if r < half {
        assert(rest < half * sb) by (nonlinear_arith)
            requires
                rest == r * sb + r0,
                r + 1 <= half,
                r0 < sb,
        ;
        assert(m == big);
        assert(distance(n, m * sb * unit) == rest);
    } else if r > half {
        assert(rest >= half * sb + sb) by (nonlinear_arith)
            requires
                rest == r * sb + r0,
                r >= half + 1,
                r0 >= 0,
        ;
        assert(rest < sb * unit) by (nonlinear_arith)
            requires
                rest == r * sb + r0,
                r + 1 <= unit,
                r0 < sb,
        ;
        assert(m == big + 1);
        assert(m * sb * unit == whole + step);
        assert(distance(n, m * sb * unit) == step - rest);
    } else {
        assert(r * sb == half * sb);
        assert(rest < sb * unit) by (nonlinear_arith)
            requires
                rest == half * sb + r0,
                unit == 2 * half,
                half >= 1,
                r0 < sb,
        ;
        if r0 != 0 || big % 2 == 1 {
            assert(m == big + 1);
            assert(m * sb * unit == whole + step);
            assert(distance(n, m * sb * unit) == step - rest);
        } else {
            assert(m == big);
            assert(distance(n, m * sb * unit) == rest);
        }
    }
}

/// A finite magnitude is what its own significand and exponent round to,
/// in whatever smaller unit the significand is written.
pub proof fn lemma_rounded_exact(mag: u64, k: nat)
    requires
        0 < mag < INFINITY,
    ensures
        rounded(significand(mag) * pow2(k), exponent(mag) - k, false) == mag,
{
    let sig = significand(mag);
    let e = exponent(mag);
    let n = sig * pow2(k);
    lemma_limit();
    lemma_pow2_pos(k);
    lemma_bit_length_scaled(sig, k);
    lemma_bit_length_bounds(sig);
    if mag < HIDDEN {
        if bit_length(sig) > 52 {
            lemma_pow2_monotone(52, (bit_length(sig) - 1) as nat);
        }
    } else {
        lemma_bit_length_unique(sig, 53);
    }
    assert(n > 0) by (nonlinear_arith)
        requires
            n == sig * pow2(k),
            sig > 0,
            pow2(k) > 0,
    ;
    if k == 0 {
        lemma2_to64();
        assert(n * pow2(0) == sig) by (nonlinear_arith)
            requires
                n == sig * pow2(k),
                pow2(k) == 1,
                pow2(0) == 1,
        ;
    } else {
        lemma_fundamental_div_mod_converse(n as int, pow2(k) as int, sig as int, 0);
        lemma_pow2_unfold(k);
        lemma_pow2_pos((k - 1) as nat);
    }
}

/// Where two finite values lie more than 64 binary places apart, adding
/// or subtracting the smaller leaves the larger unchanged.
#[verifier::rlimit(40)]
pub proof fn lemma_rounded_far(big: u64, small: nat, d: nat)
    requires
        HIDDEN <= big < INFINITY,
        0 < small < 0x20_0000_0000_0000,
        d > 64,
        exponent(big) - d >= -1074,
    ensures
        rounded(significand(big) * pow2(d) + small, exponent(big) - d, false) == big,
        rounded((significand(big) * pow2(d) - small) as nat, exponent(big) - d, false) == big,
{
    let sig = significand(big);
    let e = exponent(big);
    let unit = pow2(d);
    let half = pow2((d - 1) as nat);
    let quarter = pow2((d - 2) as nat);
    lemma_limit();
    lemma_pow2_unfold(d);
    lemma_pow2_unfold((d - 1) as nat);
    lemma_pow2_monotone(53, (d - 2) as nat);
    lemma_pow2_adds(52, d);
    lemma_pow2_adds(53, d);
    lemma_pow2_adds(51, d);
    lemma_pow2_adds(53, (d - 1) as nat);
    assert(pow2(53) * half == pow2(52) * unit) by (nonlinear_arith)
        requires
            pow2(53) == 2 * pow2(52),
            unit == 2 * half,
    ;
    assert(pow2(51 + d) * 2 == pow2(52 + d)) by {
        lemma_pow2_unfold(52 + d);
    }
    // Adding: the sum keeps 53 + d bits, and the low part stays under a half.
    let up = sig * unit + small;
    assert(pow2(52) * unit <= sig * unit && sig * unit + unit <= pow2(53) * unit)
        by (nonlinear_arith)
        requires
            pow2(52) <= sig,
            sig + 1 <= pow2(53),
            unit > 0,
    ;
    lemma_bit_length_unique(up, 53 + d);
    lemma_fundamental_div_mod_converse(up as int, unit as int, sig as int, small as int);
    // Subtracting.
    let down = (sig * unit - small) as nat;
    if sig > HIDDEN {
        assert(pow2(52) * unit + unit <= sig * unit) by (nonlinear_arith)
            requires
                pow2(52) + 1 <= sig,
                unit > 0,
        ;
        lemma_bit_length_unique(down, 53 + d);
        assert(down == (sig - 1) * unit + (unit - small)) by (nonlinear_arith)
            requires
                down == sig * unit - small,
        ;
        lemma_fundamental_div_mod_converse(
            down as int,
            unit as int,
            sig - 1,
            unit - small,
        );
    } else {
        assert(sig * unit == pow2(52 + d));
        lemma_bit_length_unique(down, 52 + d);
        assert(down == (pow2(53) - 1) * half + (half - small)) by (nonlinear_arith)
            requires
                down == sig * unit - small,
                sig * unit == pow2(53) * half,
        ;
        lemma_fundamental_div_mod_converse(
            down as int,
            half as int,
            pow2(53) - 1,
            half - small,
        );
        assert(half / 2 == quarter);
    }
}

proof fn lemma_shl_one(k: u32)
    requires
        k < 128,
    ensures
        (1u128 << k) == pow2(k as nat),
    decreases k,
{
    if k == 0 {
        assert(1u128 << 0u32 == 1) by (bit_vector);
        lemma2_to64();
    } else {
        let j: u32 = (k - 1) as u32;
        lemma_shl_one(j);
        lemma_pow2_strictly_increases(j as nat, 127);
        lemma2_to64_rest();
        assert((1u128 << k) == 2 * (1u128 << j)) by (bit_vector)
            requires
                k == j + 1,
                k < 128,
        ;
        lemma_pow2_unfold(k as nat);
    }
}

/// 2^k as a machine word.
pub(crate) fn power_of_two(k: u32) -> (p: u128)
    requires
        k < 128,
    ensures
        p == pow2(k as nat),
{
    proof {
        lemma_shl_one(k);
    }
    1u128 << k
}

/// The number of bits of `x`.
pub(crate) fn bit_len(x: u128) -> (len: u32)
    requires
        x < LIMIT,
    ensures
        len == bit_length(x as nat),
        len <= 120,
{
    if x == 0 {
        return 0;
    }
    proof {
        lemma_limit();
        lemma2_to64();
    }
    let mut lo: u32 = 1;
    let mut hi: u32 = 120;
    while lo < hi
        invariant
            1 <= lo <= hi <= 120,
            pow2((lo - 1) as nat) <= x < pow2(hi as nat),
        decreases hi - lo,
    {
        let mid: u32 = lo + (hi - lo) / 2;
        if x < power_of_two(mid) {
            hi = mid;
        } else {
            lo = mid + 1;
        }
    }
    proof {
        lemma_bit_length_unique(x as nat, lo as nat);
    }
    lo
}

/// Rounds `sig * 2^e` to a magnitude.
#[verifier::rlimit(40)]
pub(crate) fn round_pack(sig: u128, e: i64, sticky: bool) -> (mag: u64)
    requires
        sig < LIMIT,
        -4096 <= e <= 4096,
    ensures
        mag == rounded(sig as nat, e as int, sticky),
        mag <= INFINITY,
{
    if sig == 0 {
        return 0;
    }
    let len: i64 = bit_len(sig) as i64;
    let mut t: i64 = e + len - 53;
    if t < -1074 {
        t = -1074;
    }
    proof {
        lemma_limit();
        lemma_bit_length_bounds(sig as nat);
    }
    let m: u64;
    if t <= e {
        let shift: u32 = (e - t) as u32;
        let unit: u128 = power_of_two(shift);
        proof {
            lemma_scaled_below(sig as nat, len as nat, shift as nat);
            lemma_pow2_monotone((len + shift) as nat, 53);
        }
        m = (sig * unit) as u64;
    } else if t - e > 121 {
        proof {
            let sh = (t - e) as nat;
            lemma_pow2_unfold(sh);
            lemma_pow2_monotone(120, (sh - 1) as nat);
            lemma_basic_div(sig as int, pow2(sh) as int);
            lemma_small_mod(sig as nat, pow2(sh));
        }
        m = 0;
    } else {
        let sh: u32 = (t - e) as u32;
        let unit: u128 = power_of_two(sh);
        let q: u128 = sig >> sh;
        proof {
            lemma_u128_shr_is_div(sig, sh as u128);
            lemma_pow2_pos(sh as nat);
            lemma_fundamental_div_mod(sig as int, unit as int);
            lemma_pow2_adds(sh as nat, 53);
            lemma_pow2_monotone(len as nat, (sh + 53) as nat);
            lemma_multiply_divide_lt(sig as int, pow2(sh as nat) as int, pow2(53) as int);
            lemma_pow2_unfold(sh as nat);
        }
        let r: u128 = sig - q * unit;
        let half: u128 = unit / 2;
        let up: bool = r > half || (r == half && (sticky || q % 2 == 1));
        m = if up {
            (q + 1) as u64
        } else {
            q as u64
        };
    }
    let biased: i64 = t + 1074;
    if biased >= 2047 {
        return INFINITY;
    }
    let mag: u64 = (biased as u64) * HIDDEN + m;
    if mag >= INFINITY {
        INFINITY
    } else {
        mag
    }
}

/// The rounded magnitude of `sa * 2^ea * sb * 2^eb`.
pub(crate) fn multiply_significands(sa: u64, ea: i64, sb: u64, eb: i64) -> (mag: u64)
    requires
        sa < 0x20_0000_0000_0000,
        sb < 0x20_0000_0000_0000,
        -1074 <= ea <= 971,
        -1074 <= eb <= 971,
    ensures
        mag <= INFINITY,
        mag == rounded(sa as nat * sb as nat, ea + eb, false),
{
    assert((sa as u128) * (sb as u128) < LIMIT) by (nonlinear_arith)
        requires
            sa < 0x20_0000_0000_0000,
            sb < 0x20_0000_0000_0000,
    ;
    round_pack((sa as u128) * (sb as u128), ea + eb, false)
}

/// The rounded magnitude of `sa * 2^ea / (sb * 2^eb)`.
pub(crate) fn divide_significands(sa: u64, ea: i64, sb: u64, eb: i64) -> (mag: u64)
    requires
        0 < sa < 0x20_0000_0000_0000,
        0 < sb < 0x20_0000_0000_0000,
        -1074 <= ea <= 971,
        -1074 <= eb <= 971,
    ensures
        mag <= INFINITY,
        mag == rounded_ratio(sa as nat, ea as int, sb as nat, eb as int),
{
    let la: u32 = bit_len(sa as u128);
    let lb: u32 = bit_len(sb as u128);
    proof {
        lemma_limit();
        lemma_bit_length_bounds(sa as nat);
        lemma_bit_length_bounds(sb as nat);
        if la > 53 {
            lemma_pow2_monotone(53, (la - 1) as nat);
        }
        if lb > 53 {
            lemma_pow2_monotone(53, (lb - 1) as nat);
        }
    }
    let s: u32 = 56 + lb - la;
    let unit: u128 = power_of_two(s);
    proof {
        lemma_scaled_below(sa as nat, la as nat, s as nat);
        lemma_pow2_monotone((la + s) as nat, 120);
    }
    let n: u128 = (sa as u128) * unit;
    let q: u128 = n / (sb as u128);
    let r: u128 = n % (sb as u128);
    round_pack(q, ea - eb - (s as i64), r != 0)
}

} // verus!
