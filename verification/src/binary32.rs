//! Single-precision (IEEE 754 binary32) numbers as their 32-bit patterns.
//!
//! Every finite single-precision number is an integer multiple of 2^-149, the
//! least subnormal. The specifications below therefore speak of a number as an
//! integer, its count of such units, and of arithmetic as exact rational
//! arithmetic followed by rounding to nearest, ties to even.

use vstd::arithmetic::power2::*;
use vstd::prelude::*;

verus! {

/// The pattern without its sign bit.
pub open spec fn magnitude_bits(bits: u32) -> int {
    bits as int % 0x8000_0000
}

/// Whether the sign bit is set.
pub open spec fn negative(bits: u32) -> bool {
    bits >= 0x8000_0000
}

/// The biased exponent field.
pub open spec fn exponent_field(bits: u32) -> int {
    magnitude_bits(bits) / 0x80_0000
}

/// Neither infinite nor NaN.
pub open spec fn finite(bits: u32) -> bool {
    exponent_field(bits) < 255
}

/// Finite, nonzero and not subnormal.
pub open spec fn normal(bits: u32) -> bool {
    1 <= exponent_field(bits) < 255
}

/// The significand, with the leading one that normal numbers leave implicit.
pub open spec fn significand(bits: u32) -> int {
    if exponent_field(bits) == 0 {
        magnitude_bits(bits)
    } else {
        magnitude_bits(bits) % 0x80_0000 + 0x80_0000
    }
}

/// The power of two, in units, that the significand is scaled by.
pub open spec fn scaling(bits: u32) -> nat {
    if exponent_field(bits) == 0 {
        0
    } else {
        (exponent_field(bits) - 1) as nat
    }
}

/// The number that a finite pattern stands for, in units of 2^-149.
pub open spec fn units(bits: u32) -> int {
    let size = significand(bits) * pow2(scaling(bits));
    if negative(bits) {
        -size
    } else {
        size
    }
}

/// 2^128 in units: the least magnitude that is out of range. As the result of an
/// operation it stands for infinity.
pub open spec fn infinity() -> int {
    pow2(277) as int
}

/// The absolute value.
pub open spec fn absolute(n: int) -> int {
    if n < 0 {
        -n
    } else {
        n
    }
}

/// The integer nearest to `n / d`; of two that are equally near, the even one.
pub open spec fn nearest_even(n: int, d: int) -> int {
    let quotient = n / d;
    let twice_rest = 2 * (n % d);
    if twice_rest < d || (twice_rest == d && quotient % 2 == 0) {
        quotient
    } else {
        quotient + 1
    }
}

/// `n / d` units rounded to a 24-bit significand, as if exponents had no upper
/// limit: below 2^24 units the spacing is one unit, and it doubles with every
/// further power of two.
pub open spec fn round_size(n: int, d: int) -> int
    decreases n - d,
{
    if d <= 0 || n < d * 0x100_0000 {
        nearest_even(n, d)
    } else {
        2 * round_size(n, 2 * d)
    }
}

/// `n / d` units as the nearest single-precision number, for a positive `d`.
pub open spec fn rounded(n: int, d: int) -> int {
    let size = round_size(absolute(n), d);
    let bounded = if size < infinity() {
        size
    } else {
        infinity()
    };
    if n < 0 {
        -bounded
    } else {
        bounded
    }
}

/// Single-precision `a - b` for a finite `b`.
pub open spec fn difference(a: int, b: int) -> int {
    if absolute(a) >= infinity() {
        a
    } else {
        rounded(a - b, 1)
    }
}

/// Single-precision `a * b` for a finite, nonzero `b`.
pub open spec fn product(a: int, b: int) -> int {
    if absolute(a) >= infinity() {
        if b < 0 {
            -a
        } else {
            a
        }
    } else {
        rounded(a * b, pow2(149) as int)
    }
}

/// Single-precision `a / b` for a finite `a` and a finite, nonzero `b`.
pub open spec fn quotient(a: int, b: int) -> int {
    if b < 0 {
        rounded(-a * pow2(149), -b)
    } else {
        rounded(a * pow2(149), b)
    }
}

/// Whether `n / d` lies above the midpoint between `h * 2^k` and the next number
/// of 24 significant bits, or on it and is rounded up.
pub open spec fn past_midpoint(n: int, d: int, h: int, k: nat) -> bool {
    let midpoint = (2 * h + 1) * pow2(k) * d;
    2 * n > midpoint || (2 * n == midpoint && h % 2 == 1)
}

/// Rounding to an integer passes `h` exactly from the midpoint on.
proof fn lemma_nearest_even(n: int, d: int, h: int)
    requires
        0 <= n,
        0 < d,
    ensures
        (2 * n > (2 * h + 1) * d || (2 * n == (2 * h + 1) * d && h % 2 == 1)) ==> nearest_even(n, d)
            >= h + 1,
        !(2 * n > (2 * h + 1) * d || (2 * n == (2 * h + 1) * d && h % 2 == 1)) ==> nearest_even(
            n,
            d,
        ) <= h,
{
    let q = n / d;
    let r = n % d;
    vstd::arithmetic::div_mod::lemma_fundamental_div_mod(n, d);
    vstd::arithmetic::div_mod::lemma_mod_bound(n, d);
    assert(n == d * q + r);
    assert((2 * h + 1) * d == 2 * (h * d) + d) by (nonlinear_arith);
    assert(d * q == q * d) by (nonlinear_arith);
    if q < h {
        assert(q * d <= (h - 1) * d) by (nonlinear_arith)
            requires
                q <= h - 1,
                0 < d,
        ;
        assert((h - 1) * d == h * d - d) by (nonlinear_arith);
    } else if q > h {
        assert(q * d >= (h + 1) * d) by (nonlinear_arith)
            requires
                q >= h + 1,
                0 < d,
        ;
        assert((h + 1) * d == h * d + d) by (nonlinear_arith);
    }
}

/// Scaling numerator and denominator alike leaves the nearest integer alone.
pub(crate) proof fn lemma_nearest_even_scale(n: int, d: int, c: int)
    requires
        0 <= n,
        0 < d,
        0 < c,
    ensures
        nearest_even(c * n, c * d) == nearest_even(n, d),
{
    assert(0 < c * d) by (nonlinear_arith)
        requires
            0 < c,
            0 < d,
    ;
    vstd::arithmetic::div_mod::lemma_truncate_middle(n, c, d);
    vstd::arithmetic::div_mod::lemma_div_multiples_vanish_quotient(c, n, d);
    let r = n % d;
    assert((c * n) % (c * d) == c * r);
    assert((c * n) / (c * d) == n / d);
    assert(2 * (c * r) < c * d <==> 2 * r < d) by (nonlinear_arith)
        requires
            0 < c,
    ;
    assert(2 * (c * r) == c * d <==> 2 * r == d) by (nonlinear_arith)
        requires
            0 < c,
    ;
}

/// Scaling numerator and denominator alike leaves a rounded number alone.
pub(crate) proof fn lemma_round_size_scale(n: int, d: int, c: int)
    requires
        0 <= n,
        0 < d,
        0 < c,
    ensures
        round_size(c * n, c * d) == round_size(n, d),
    decreases n - d,
{
    assert(0 < c * d) by (nonlinear_arith)
        requires
            0 < c,
            0 < d,
    ;
    assert(c * n < c * d * 0x100_0000 <==> n < d * 0x100_0000) by (nonlinear_arith)
        requires
            0 < c,
    ;
    if n < d * 0x100_0000 {
        lemma_nearest_even_scale(n, d, c);
    } else {
        lemma_round_size_scale(n, 2 * d, c);
        assert(c * (2 * d) == 2 * (c * d)) by (nonlinear_arith);
    }
}

/// Rounding a nonnegative number gives a nonnegative one.
pub(crate) proof fn lemma_round_size_nonnegative(n: int, d: int)
    requires
        0 <= n,
        0 < d,
    ensures
        round_size(n, d) >= 0,
    decreases n - d,
{
    if n < d * 0x100_0000 {
        assert(n / d >= 0) by (nonlinear_arith)
            requires
                0 <= n,
                0 < d,
        ;
    } else {
        lemma_round_size_nonnegative(n, 2 * d);
    }
}

/// A number of 24 significant bits is rounded to itself.
pub(crate) proof fn lemma_round_size_exact(m: int, k: nat)
    requires
        0x80_0000 <= m < 0x100_0000,
    ensures
        round_size(m * pow2(k), 1) == m * pow2(k),
{
    lemma2_to64();
    lemma_pow2_pos(k);
    lemma_pow2_adds(23, k);
    lemma_pow2_adds(24, k);
    let p = pow2(k) as int;
    let n = m * p;
    assert(0x80_0000 * p <= n < 0x100_0000 * p) by (nonlinear_arith)
        requires
            n == m * p,
            0x80_0000 <= m < 0x100_0000,
            p > 0,
    ;
    lemma_round_size_spacing(n, 1, k);
    lemma_nearest_even_scale(m, 1, p);
    assert(p * m == n) by (nonlinear_arith)
        requires
            n == m * p,
    ;
}

/// What rounds in the spacing 2^k.
pub(crate) proof fn lemma_round_size_spacing(n: int, d: int, k: nat)
    requires
        0 < d,
        0 <= n < d * pow2(k + 24),
        k > 0 ==> n >= d * pow2((k + 23) as nat),
    ensures
        round_size(n, d) == pow2(k) * nearest_even(n, d * pow2(k)),
    decreases k,
{
    lemma2_to64();
    if k > 0 {
        let j = (k - 1) as nat;
        lemma_pow2_unfold(k);
        lemma_pow2_unfold(k + 24);
        lemma_pow2_unfold((k + 23) as nat);
        lemma_pow2_pos((k + 22) as nat);
        lemma_pow2_pos(j);
        assert(d * pow2((k + 23) as nat) >= d * 0x100_0000) by {
            lemma_pow2_adds(24, j);
            assert(pow2((k + 23) as nat) == 0x100_0000 * pow2(j));
            assert(d * (0x100_0000 * pow2(j)) >= d * 0x100_0000) by (nonlinear_arith)
                requires
                    d > 0,
                    pow2(j) >= 1,
            ;
        }
        assert(2 * d * pow2(j + 24) == d * pow2(k + 24)) by (nonlinear_arith)
            requires
                pow2(k + 24) == 2 * pow2(j + 24),
        ;
        assert(2 * d * pow2((k + 22) as nat) == d * pow2((k + 23) as nat)) by (nonlinear_arith)
            requires
                pow2((k + 23) as nat) == 2 * pow2((k + 22) as nat),
        ;
        lemma_round_size_spacing(n, 2 * d, j);
        assert(2 * d * pow2(j) == d * pow2(k)) by (nonlinear_arith)
            requires
                pow2(k) == 2 * pow2(j),
        ;
        let m = nearest_even(n, d * pow2(k));
        assert(2 * (pow2(j) * m) == pow2(k) * m) by (nonlinear_arith)
            requires
                pow2(k) == 2 * pow2(j),
        ;
    } else {
        let m = nearest_even(n, d);
        assert(d * pow2(0) == d && d * pow2(24) == d * 0x100_0000 && pow2(0) * m == m)
            by (nonlinear_arith)
            requires
                pow2(0) == 1,
                pow2(24) == 0x100_0000,
        ;
    }
}

/// Below a power of two the rounded number is at most that power.
proof fn lemma_round_size_below(n: int, d: int, k: nat)
    requires
        0 < d,
        0 <= n <= d * pow2(k + 23),
    ensures
        round_size(n, d) <= pow2(k + 23),
    decreases k,
{
    lemma2_to64();
    lemma_pow2_pos(k);
    lemma_pow2_adds(23, k);
    if n < d * 0x100_0000 {
        let h = pow2(k + 23) as int;
        assert(2 * n <= 2 * h * d) by (nonlinear_arith)
            requires
                n <= d * h,
        ;
        assert((2 * h + 1) * d == 2 * h * d + d) by (nonlinear_arith);
        lemma_nearest_even(n, d, h);
    } else {
        assert(k > 0) by {
            if k == 0 {
                assert(d * pow2(23) < d * 0x100_0000) by (nonlinear_arith)
                    requires
                        pow2(23) == 0x80_0000,
                        0 < d,
                ;
            }
        }
        let j = (k - 1) as nat;
        lemma_pow2_unfold(k + 23);
        assert(2 * d * pow2(j + 23) == d * pow2(k + 23)) by (nonlinear_arith)
            requires
                pow2(k + 23) == 2 * pow2(j + 23),
        ;
        lemma_round_size_below(n, 2 * d, j);
    }
}

/// From a power of two on the rounded number is at least that power.
proof fn lemma_round_size_above(n: int, d: int, k: nat)
    requires
        0 < d,
        n >= d * pow2(k),
    ensures
        round_size(n, d) >= pow2(k),
    decreases n - d,
{
    lemma2_to64();
    lemma_pow2_pos(k);
    let p = pow2(k) as int;
    assert(d * p > 0) by (nonlinear_arith)
        requires
            d > 0,
            p > 0,
    ;
    if n < d * 0x100_0000 {
        assert((2 * (p - 1) + 1) * d == 2 * (d * p) - d) by (nonlinear_arith);
        lemma_nearest_even(n, d, p - 1);
    } else if k > 0 {
        let j = (k - 1) as nat;
        lemma_pow2_unfold(k);
        assert(2 * d * pow2(j) == d * pow2(k)) by (nonlinear_arith)
            requires
                pow2(k) == 2 * pow2(j),
        ;
        lemma_round_size_above(n, 2 * d, j);
    } else {
        assert(2 * d * pow2(0) == 2 * d) by (nonlinear_arith)
            requires
                pow2(0) == 1,
        ;
        lemma_round_size_above(n, 2 * d, 0);
    }
}

/// The rounded number passes `h * 2^k`, a number of 24 significant bits, exactly
/// from the midpoint to its successor on, and then reaches the successor.
pub(crate) proof fn lemma_round_size_midpoint(n: int, d: int, h: int, k: nat)
    requires
        0 <= n,
        0 < d,
        0x80_0000 <= h < 0x100_0000,
    ensures
        past_midpoint(n, d, h, k) ==> round_size(n, d) >= (h + 1) * pow2(k),
        !past_midpoint(n, d, h, k) ==> round_size(n, d) <= h * pow2(k),
{
    lemma2_to64();
    let p = pow2(k) as int;
    lemma_pow2_pos(k);
    lemma_pow2_adds(23, k);
    lemma_pow2_adds(24, k);
    let dp = d * p;
    assert(dp > 0) by (nonlinear_arith)
        requires
            dp == d * p,
            d > 0,
            p > 0,
    ;
    assert(d * (0x80_0000 * p) == 0x80_0000 * dp) by (nonlinear_arith)
        requires
            dp == d * p,
    ;
    assert(d * (0x100_0000 * p) == 0x100_0000 * dp) by (nonlinear_arith)
        requires
            dp == d * p,
    ;
    assert((2 * h + 1) * p * d == (2 * h + 1) * dp) by (nonlinear_arith)
        requires
            dp == d * p,
    ;
    if n < d * pow2(k + 23) && k > 0 {
        lemma_round_size_below(n, d, k);
        assert((2 * h + 1) * dp > 2 * (0x80_0000 * dp)) by (nonlinear_arith)
            requires
                h >= 0x80_0000,
                dp > 0,
        ;
        assert(0x80_0000 * p <= h * p) by (nonlinear_arith)
            requires
                h >= 0x80_0000,
                p > 0,
        ;
    } else if n >= d * pow2(k + 24) {
        lemma_round_size_above(n, d, k + 24);
        assert((2 * h + 1) * dp < 2 * (0x100_0000 * dp)) by (nonlinear_arith)
            requires
                h < 0x100_0000,
                dp > 0,
        ;
        assert(0x100_0000 * p >= (h + 1) * p) by (nonlinear_arith)
            requires
                h < 0x100_0000,
                p > 0,
        ;
    } else {
        lemma_round_size_spacing(n, d, k);
        lemma_nearest_even(n, dp, h);
        let m = nearest_even(n, dp);
        if past_midpoint(n, d, h, k) {
            assert(p * m >= (h + 1) * p) by (nonlinear_arith)
                requires
                    m >= h + 1,
                    p > 0,
            ;
        } else {
            assert(p * m <= h * p) by (nonlinear_arith)
                requires
                    m <= h,
                    p > 0,
            ;
        }
    }
}

/// Every finite number is below infinity.
pub(crate) proof fn lemma_finite_in_range(bits: u32)
    requires
        finite(bits),
    ensures
        absolute(units(bits)) < infinity(),
{
    lemma2_to64();
    let e = scaling(bits);
    let m = significand(bits);
    let p = pow2(e) as int;
    lemma_pow2_pos(e);
    lemma_pow2_adds(24, e);
    if e < 253 {
        lemma_pow2_strictly_increases((24 + e) as nat, 277);
    }
    assert(0 <= m * p < 0x100_0000 * p) by (nonlinear_arith)
        requires
            0 <= m < 0x100_0000,
            p > 0,
    ;
}

/// A finite number taken apart.
pub struct Parts {
    /// Whether the number carries a minus sign.
    pub negative: bool,
    /// The significand, below 2^24.
    pub significand: u32,
    /// The power of two, in units, that the significand is scaled by.
    pub scaling: u32,
}

/// Whether a pattern is neither infinite nor NaN.
pub fn is_finite(bits: u32) -> (r: bool)
    ensures
        r == finite(bits),
        r == (bits as int % 0x8000_0000 < 0x7f80_0000),
{
    bits % 0x8000_0000 < 0x7f80_0000
}

/// Whether a pattern is finite, nonzero and not subnormal.
pub fn is_normal(bits: u32) -> (r: bool)
    ensures
        r == normal(bits),
        r == (0x80_0000 <= bits as int % 0x8000_0000 < 0x7f80_0000),
{
    let magnitude: u32 = bits % 0x8000_0000;
    0x80_0000 <= magnitude && magnitude < 0x7f80_0000
}

/// Takes a finite number apart.
pub fn decode(bits: u32) -> (parts: Parts)
    requires
        finite(bits),
    ensures
        parts.negative == negative(bits),
        parts.significand == significand(bits),
        parts.scaling == scaling(bits),
        parts.significand < 0x100_0000,
        parts.scaling <= 253,
        normal(bits) ==> parts.significand >= 0x80_0000,
        parts.scaling > 0 ==> parts.significand >= 0x80_0000,
        absolute(units(bits)) == parts.significand * pow2(parts.scaling as nat),
{
    let magnitude: u32 = bits % 0x8000_0000;
    let exponent: u32 = magnitude / 0x80_0000;
    proof {
        lemma_pow2_pos(scaling(bits));
        let m = significand(bits);
        let p = pow2(scaling(bits)) as int;
        assert(m * p >= 0) by (nonlinear_arith)
            requires
                m >= 0,
                p > 0,
        ;
    }
    if exponent == 0 {
        Parts { negative: bits >= 0x8000_0000, significand: magnitude, scaling: 0 }
    } else {
        Parts {
            negative: bits >= 0x8000_0000,
            significand: magnitude % 0x80_0000 + 0x80_0000,
            scaling: exponent - 1,
        }
    }
}

/// An integer times a power of two.
pub open spec fn scaled(m: int, e: u32) -> int {
    m * pow2(e as nat)
}

/// `m * 2^gap` for a small `gap`.
fn shift_up(m: i128, gap: u32) -> (r: i128)
    requires
        gap < 32,
        -0x400_0000_0000_0000 < m < 0x400_0000_0000_0000,
    ensures
        r == scaled(m as int, gap),
        m >= 0 ==> 0 <= r <= m * 0x8000_0000,
        m <= 0 ==> m * 0x8000_0000 <= r <= 0,
{
    let factor: u64 = 1u64 << gap;
    proof {
        lemma2_to64();
        if gap < 31 {
            lemma_pow2_strictly_increases(gap as nat, 31);
        }
        lemma_pow2_pos(gap as nat);
        vstd::bits::lemma_u64_shl_is_mul(1, gap as u64);
        assert(factor == pow2(gap as nat));
        assert(m >= 0 ==> 0 <= m * factor <= m * 0x8000_0000) by (nonlinear_arith)
            requires
                0 < factor <= 0x8000_0000,
        ;
        assert(m <= 0 ==> m * 0x8000_0000 <= m * factor <= 0) by (nonlinear_arith)
            requires
                0 < factor <= 0x8000_0000,
        ;
    }
    m * factor as i128
}

/// A scaled integer expressed in a smaller power of two.
proof fn lemma_rescale(m: int, e: u32, f: u32)
    requires
        f <= e,
    ensures
        scaled(m, e) == scaled(scaled(m, (e - f) as u32), f),
{
    lemma_pow2_adds((e - f) as nat, f as nat);
    let p = pow2((e - f) as nat) as int;
    let q = pow2(f as nat) as int;
    assert(m * (p * q) == m * p * q) by (nonlinear_arith);
}

/// A nonzero integer scaled by a large gap outweighs any small remainder.
proof fn lemma_outweighs(m: int, gap: u32, rest: int)
    requires
        m != 0,
        gap >= 32,
        -0x1_0000_0000 < rest < 0x1_0000_0000,
    ensures
        scaled(m, gap) + rest != 0,
        scaled(m, gap) + rest > 0 <==> m > 0,
{
    lemma2_to64();
    if gap > 32 {
        lemma_pow2_strictly_increases(32, gap as nat);
    }
    let p = pow2(gap as nat) as int;
    if m > 0 {
        assert(m * p >= 0x1_0000_0000) by (nonlinear_arith)
            requires
                m >= 1,
                p >= 0x1_0000_0000,
        ;
    } else {
        assert(m * p <= -0x1_0000_0000) by (nonlinear_arith)
            requires
                m <= -1,
                p >= 0x1_0000_0000,
        ;
    }
}

/// A scaled integer has the sign of the integer.
proof fn lemma_scaled_sign(m: int, e: u32)
    ensures
        scaled(m, e) > 0 <==> m > 0,
        scaled(m, e) < 0 <==> m < 0,
{
    lemma_pow2_pos(e as nat);
    let p = pow2(e as nat) as int;
    assert(m * p > 0 <==> m > 0) by (nonlinear_arith)
        requires
            p > 0,
    ;
    assert(m * p < 0 <==> m < 0) by (nonlinear_arith)
        requires
            p > 0,
    ;
}

/// Scaling distributes over a sum.
proof fn lemma_scaled_sum(m: int, n: int, e: u32)
    ensures
        scaled(m, e) + scaled(n, e) == scaled(m + n, e),
{
    let p = pow2(e as nat) as int;
    assert(m * p + n * p == (m + n) * p) by (nonlinear_arith);
}

/// The sign of `m0 * 2^e0 + m1 * 2^e1 + m2 * 2^e2`, largest power first.
fn sign_of_descending_sum(m0: i64, e0: u32, m1: i64, e1: u32, m2: i64, e2: u32) -> (sign: i128)
    requires
        -0x400_0000 < m0 < 0x400_0000,
        -0x400_0000 < m1 < 0x400_0000,
        -0x400_0000 < m2 < 0x400_0000,
        e2 <= e1 <= e0,
    ensures
        sign > 0 <==> scaled(m0 as int, e0) + scaled(m1 as int, e1) + scaled(m2 as int, e2) > 0,
        sign < 0 <==> scaled(m0 as int, e0) + scaled(m1 as int, e1) + scaled(m2 as int, e2) < 0,
{
    let ghost total = scaled(m0 as int, e0) + scaled(m1 as int, e1) + scaled(m2 as int, e2);
    let gap: u32 = e0 - e1;
    proof {
        lemma_rescale(m0 as int, e0, e1);
        lemma_rescale(m1 as int, e1, e2);
        lemma_rescale(scaled(m0 as int, gap), e1, e2);
    }
    let ghost g2 = (e1 - e2) as u32;
    if m0 != 0 && gap >= 32 {
        proof {
            lemma_pow2_pos(g2 as nat);
            let p = pow2(g2 as nat) as int;
            let a = scaled(m0 as int, gap);
            lemma_outweighs(m0 as int, gap, m1 as int);
            lemma_outweighs(m0 as int, gap, m1 as int + 0x400_0000);
            lemma_outweighs(m0 as int, gap, m1 as int - 0x400_0000);
            lemma_scaled_sum(a, m1 as int, g2);
            let s = a + m1;
            // The last term is smaller than one step of the first two.
            assert(s * p + m2 > 0 <==> m0 > 0) by (nonlinear_arith)
                requires
                    s + 0x400_0000 > 0 <==> m0 > 0,
                    s - 0x400_0000 > 0 <==> m0 > 0,
                    m0 != 0,
                    s - 0x400_0000 != 0,
                    s + 0x400_0000 != 0,
                    -0x400_0000 < m2 < 0x400_0000,
                    p >= 1,
            ;
            assert(s * p + m2 < 0 <==> m0 < 0) by (nonlinear_arith)
                requires
                    s + 0x400_0000 > 0 <==> m0 > 0,
                    s - 0x400_0000 > 0 <==> m0 > 0,
                    m0 != 0,
                    s - 0x400_0000 != 0,
                    s + 0x400_0000 != 0,
                    -0x400_0000 < m2 < 0x400_0000,
                    p >= 1,
            ;
            lemma_scaled_sum(scaled(s, g2), m2 as int, e2);
            lemma_scaled_sum(scaled(a, g2), scaled(m1 as int, g2), e2);
            assert(total == scaled(scaled(s, g2) + m2, e2));
            lemma_scaled_sign(scaled(s, g2) + m2, e2);
        }
        return m0 as i128;
    }
    let lead: i128 = if m0 == 0 {
        m1 as i128
    } else {
        shift_up(m0 as i128, gap) + m1 as i128
    };
    proof {
        assert(scaled(0, gap) == 0) by (nonlinear_arith);
        assert(lead == scaled(m0 as int, gap) + m1);
        lemma_scaled_sum(scaled(m0 as int, gap), m1 as int, e1);
        lemma_rescale(lead as int, e1, e2);
        lemma_scaled_sum(scaled(lead as int, g2), m2 as int, e2);
        assert(total == scaled(scaled(lead as int, g2) + m2, e2));
        lemma_scaled_sign(scaled(lead as int, g2) + m2, e2);
    }
    let gap_to_last: u32 = e1 - e2;
    if lead != 0 && gap_to_last >= 32 {
        proof {
            lemma_outweighs(lead as int, g2, m2 as int);
        }
        return lead;
    }
    proof {
        assert(scaled(0, g2) == 0) by (nonlinear_arith);
    }
    if lead == 0 {
        m2 as i128
    } else {
        shift_up(lead, gap_to_last) + m2 as i128
    }
}

/// The sign of `m0 * 2^e0 + m1 * 2^e1 + m2 * 2^e2`.
pub fn sign_of_sum(m0: i64, e0: u32, m1: i64, e1: u32, m2: i64, e2: u32) -> (sign: i128)
    requires
        -0x400_0000 < m0 < 0x400_0000,
        -0x400_0000 < m1 < 0x400_0000,
        -0x400_0000 < m2 < 0x400_0000,
    ensures
        sign > 0 <==> scaled(m0 as int, e0) + scaled(m1 as int, e1) + scaled(m2 as int, e2) > 0,
        sign < 0 <==> scaled(m0 as int, e0) + scaled(m1 as int, e1) + scaled(m2 as int, e2) < 0,
        sign > 0 <==> m0 * pow2(e0 as nat) + m1 * pow2(e1 as nat) + m2 * pow2(e2 as nat) > 0,
        sign < 0 <==> m0 * pow2(e0 as nat) + m1 * pow2(e1 as nat) + m2 * pow2(e2 as nat) < 0,
{
    if e0 >= e1 {
        if e1 >= e2 {
            sign_of_descending_sum(m0, e0, m1, e1, m2, e2)
        } else if e0 >= e2 {
            sign_of_descending_sum(m0, e0, m2, e2, m1, e1)
        } else {
            sign_of_descending_sum(m2, e2, m0, e0, m1, e1)
        }
    } else if e0 >= e2 {
        sign_of_descending_sum(m1, e1, m0, e0, m2, e2)
    } else if e1 >= e2 {
        sign_of_descending_sum(m1, e1, m2, e2, m0, e0)
    } else {
        sign_of_descending_sum(m2, e2, m1, e1, m0, e0)
    }
}

/// How patterns stand for numbers: up to 2^24 a pattern is its own count of units, each
/// further step of the exponent doubles the number, and the sign bit negates it.
pub proof fn law_numbers_of_patterns(bits: u32)
    ensures
        bits < 0x100_0000 ==> units(bits) == bits,
        0x80_0000 <= bits < 0x7f00_0000 ==> units((bits + 0x80_0000) as u32) == 2 * units(bits),
        bits < 0x7f80_0000 ==> units((bits + 0x8000_0000) as u32) == -units(bits),
{
    lemma2_to64();
    if bits < 0x100_0000 {
        let m = significand(bits);
        assert(m * pow2(0) == m) by (nonlinear_arith)
            requires
                pow2(0) == 1,
        ;
    }
    if 0x80_0000 <= bits < 0x7f00_0000 {
        let next = (bits + 0x80_0000) as u32;
        let k = scaling(bits);
        assert(exponent_field(next) == exponent_field(bits) + 1);
        assert(significand(next) == significand(bits));
        lemma_pow2_unfold(k + 1);
        let m = significand(bits);
        assert(m * pow2(k + 1) == 2 * (m * pow2(k))) by (nonlinear_arith)
            requires
                pow2(k + 1) == 2 * pow2(k),
        ;
    }
    if bits < 0x7f80_0000 {
        let negated = (bits + 0x8000_0000) as u32;
        assert(magnitude_bits(negated) == magnitude_bits(bits));
    }
}

/// Which patterns are finite, and which are normal.
pub proof fn law_classes_of_patterns(bits: u32)
    ensures
        finite(bits) <==> bits as int % 0x8000_0000 < 0x7f80_0000,
        normal(bits) <==> 0x80_0000 <= bits as int % 0x8000_0000 < 0x7f80_0000,
        negative(bits) <==> bits as int / 0x8000_0000 == 1,
{
}

/// Rounding leaves single-precision numbers alone.
pub proof fn law_rounding_keeps_numbers(bits: u32, d: int)
    requires
        finite(bits),
        d > 0,
    ensures
        rounded(units(bits) * d, d) == units(bits),
{
    let m = significand(bits);
    let e = scaling(bits);
    let size = m * pow2(e);
    lemma_pow2_pos(e);
    lemma2_to64();
    lemma_finite_in_range(bits);
    assert(size >= 0) by (nonlinear_arith)
        requires
            size == m * pow2(e),
            m >= 0,
            pow2(e) > 0,
    ;
    lemma_round_size_scale(size, 1, d);
    if m >= 0x80_0000 {
        lemma_round_size_exact(m, e);
    } else {
        assert(size == m) by (nonlinear_arith)
            requires
                size == m * pow2(e),
                pow2(e) == 1,
        ;
    }
    assert(d * size == size * d && -size * d == -(size * d)) by (nonlinear_arith);
    assert(size * d >= 0 && (size * d == 0 ==> size == 0)) by (nonlinear_arith)
        requires
            size >= 0,
            d > 0,
    ;
}

} // verus!
