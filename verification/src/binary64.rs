//! Double-precision (IEEE 754 binary64) numbers as their 64-bit patterns, and the
//! widening of single-precision ones.

use vstd::arithmetic::power2::*;
use vstd::prelude::*;

use crate::binary32;
use crate::binary32::{decode, law_rounding_keeps_numbers};

verus! {

/// Whether the sign bit is set.
pub open spec fn negative(bits: u64) -> bool {
    bits >= 0x8000_0000_0000_0000
}

/// The biased exponent field.
pub open spec fn exponent_field(bits: u64) -> int {
    bits as int % 0x8000_0000_0000_0000 / 0x10_0000_0000_0000
}

/// Neither infinite nor NaN.
pub open spec fn finite(bits: u64) -> bool {
    exponent_field(bits) < 2047
}

/// The significand, with the leading one that normal numbers leave implicit.
pub open spec fn significand(bits: u64) -> int {
    let fraction = bits as int % 0x10_0000_0000_0000;
    if exponent_field(bits) == 0 {
        fraction
    } else {
        fraction + 0x10_0000_0000_0000
    }
}

/// The power of two, in units, that the significand is scaled by.
pub open spec fn scaling(bits: u64) -> nat {
    if exponent_field(bits) == 0 {
        0
    } else {
        (exponent_field(bits) - 1) as nat
    }
}

/// The number that a finite pattern stands for, in units of 2^-1074.
pub open spec fn units(bits: u64) -> int {
    let size = significand(bits) * pow2(scaling(bits));
    if negative(bits) {
        -size
    } else {
        size
    }
}

/// Whether a double-precision pattern stands for the same number, and the same sign
/// of zero, as a single-precision one.
pub open spec fn widened(wide: u64, narrow: u32) -> bool {
    &&& finite(wide)
    &&& negative(wide) == binary32::negative(narrow)
    &&& units(wide) == binary32::units(narrow) * pow2(925)
}

/// The double-precision pattern of a finite single-precision number.
pub fn widen(narrow: u32) -> (wide: u64)
    requires
        binary32::finite(narrow),
    ensures
        widened(wide, narrow),
        finite(wide),
        negative(wide) == binary32::negative(narrow),
        units(wide) == binary32::units(narrow) * pow2(925),
{
    let parts = decode(narrow);
    let sign: u64 = if parts.negative {
        0x8000_0000_0000_0000
    } else {
        0
    };
    if parts.significand == 0 {
        assert(units(sign) == 0) by (nonlinear_arith)
            requires
                significand(sign) == 0,
                units(sign) == significand(sign) * pow2(scaling(sign)) || units(sign) == -(
                significand(sign) * pow2(scaling(sign))),
        ;
        assert(0 * pow2(binary32::scaling(narrow)) == 0 && 0 * pow2(925) == 0) by (nonlinear_arith);
        return sign;
    }
    // Bring the leading one of the significand to the place that a double keeps
    // implicit.
    let mut significand: u64 = parts.significand as u64 * 0x2000_0000;
    let mut exponent: u64 = parts.scaling as u64 + 897;
    let ghost size = parts.significand * pow2(parts.scaling as nat) * pow2(925);
    proof {
        lemma2_to64();
        lemma_pow2_adds(parts.scaling as nat, 925);
        lemma_pow2_adds(29, (parts.scaling + 896) as nat);
        let q = pow2((parts.scaling + 896) as nat) as int;
        assert(size == significand * q) by (nonlinear_arith)
            requires
                size == parts.significand * pow2(parts.scaling as nat) * pow2(925),
                pow2((parts.scaling + 925) as nat) == pow2(parts.scaling as nat) * pow2(925),
                pow2((parts.scaling + 925) as nat) == 0x2000_0000 * q,
                significand == parts.significand * 0x2000_0000,
        ;
        if significand < 0x10_0000_0000_0000 {
            assert(exponent == 897);
            assert(significand * pow2(27) >= 0x10_0000_0000_0000) by (nonlinear_arith)
                requires
                    significand >= 0x2000_0000,
                    pow2(27) == 0x800_0000,
            ;
        }
    }
    while significand < 0x10_0000_0000_0000
        invariant
            0x2000_0000 <= significand < 0x20_0000_0000_0000,
            870 <= exponent <= 1150,
            significand >= 0x10_0000_0000_0000 || significand * pow2(
                (exponent - 870) as nat,
            ) >= 0x10_0000_0000_0000,
            size == significand * pow2((exponent - 1) as nat),
        decreases 0x20_0000_0000_0000 - significand,
    {
        proof {
            lemma2_to64();
            assert(exponent > 870) by {
                if exponent == 870 {
                    assert(significand * pow2(0) == significand) by (nonlinear_arith)
                        requires
                            pow2(0) == 1,
                    ;
                }
            }
            lemma_pow2_unfold((exponent - 1) as nat);
            lemma_pow2_unfold((exponent - 870) as nat);
            let p = pow2((exponent - 2) as nat) as int;
            assert(significand * (2 * p) == 2 * significand * p) by (nonlinear_arith);
            let r = pow2((exponent - 871) as nat) as int;
            assert(significand * (2 * r) == 2 * significand * r) by (nonlinear_arith);
        }
        significand = 2 * significand;
        exponent = exponent - 1;
    }
    let wide: u64 = sign + exponent * 0x10_0000_0000_0000 + (significand - 0x10_0000_0000_0000);
    proof {
        let p = pow2(binary32::scaling(narrow)) as int;
        let m = binary32::significand(narrow);
        let c = pow2(925) as int;
        assert(-(m * p) * c == -(m * p * c)) by (nonlinear_arith);
    }
    wide
}

/// Narrowing brings a widened number back: rounded to single precision, it is the number
/// that was widened.
pub proof fn law_narrowing_brings_back(wide: u64, narrow: u32)
    requires
        binary32::finite(narrow),
        widened(wide, narrow),
    ensures
        binary32::rounded(units(wide), pow2(925) as int) == binary32::units(narrow),
{
    lemma_pow2_pos(925);
    law_rounding_keeps_numbers(narrow, pow2(925) as int);
}

/// Widening forgets nothing: no two single-precision patterns are widened to the same
/// double-precision one, so that a widened number can be brought back unchanged.
pub proof fn law_widening_is_injective(wide: u64, a: u32, b: u32)
    requires
        binary32::finite(a),
        binary32::finite(b),
        widened(wide, a),
        widened(wide, b),
    ensures
        a == b,
{
    lemma_pow2_pos(925);
    let c = pow2(925) as int;
    let x = binary32::units(a);
    let y = binary32::units(b);
    assert(x == y) by (nonlinear_arith)
        requires
            x * c == y * c,
            c > 0,
    ;
    let size_a = binary32::significand(a) * pow2(binary32::scaling(a));
    let size_b = binary32::significand(b) * pow2(binary32::scaling(b));
    assert(size_a == size_b);
    if binary32::scaling(a) > binary32::scaling(b) {
        lemma_larger(
            binary32::significand(a),
            binary32::scaling(a),
            binary32::significand(b),
            binary32::scaling(b),
        );
    } else if binary32::scaling(b) > binary32::scaling(a) {
        lemma_larger(
            binary32::significand(b),
            binary32::scaling(b),
            binary32::significand(a),
            binary32::scaling(a),
        );
    } else {
        let p = pow2(binary32::scaling(a)) as int;
        lemma_pow2_pos(binary32::scaling(a));
        let m = binary32::significand(a);
        let n = binary32::significand(b);
        assert(m == n) by (nonlinear_arith)
            requires
                m * p == n * p,
                p > 0,
        ;
        assert(binary32::magnitude_bits(a) == binary32::magnitude_bits(b));
    }
}

/// A full significand at a larger power of two makes a larger number.
proof fn lemma_larger(m: int, e: nat, n: int, f: nat)
    requires
        0x80_0000 <= m,
        0 <= n < 0x100_0000,
        f < e,
    ensures
        m * pow2(e) > n * pow2(f),
{
    lemma_pow2_unfold(e);
    if f < e - 1 {
        lemma_pow2_strictly_increases(f, (e - 1) as nat);
    }
    lemma_pow2_pos(f);
    let p = pow2(e) as int;
    let q = pow2(f) as int;
    assert(m * p > n * q) by (nonlinear_arith)
        requires
            m >= 0x80_0000,
            0 <= n < 0x100_0000,
            p >= 2 * q,
            q > 0,
    ;
}

/// How patterns stand for numbers: up to 2^53 a pattern is its own count of units, each
/// further step of the exponent doubles the number, and the sign bit negates it.
pub proof fn law_numbers_of_patterns(bits: u64)
    ensures
        bits < 0x20_0000_0000_0000 ==> units(bits) == bits,
        0x10_0000_0000_0000 <= bits < 0x7fe0_0000_0000_0000 ==> units(
            (bits + 0x10_0000_0000_0000) as u64,
        ) == 2 * units(bits),
        bits < 0x7ff0_0000_0000_0000 ==> units((bits + 0x8000_0000_0000_0000) as u64) == -units(
            bits,
        ),
        finite(bits) <==> bits as int % 0x8000_0000_0000_0000 < 0x7ff0_0000_0000_0000,
        negative(bits) <==> bits as int / 0x8000_0000_0000_0000 == 1,
{
    lemma2_to64();
    if bits < 0x20_0000_0000_0000 {
        let m = significand(bits);
        assert(m * pow2(0) == m) by (nonlinear_arith)
            requires
                pow2(0) == 1,
        ;
    }
    if 0x10_0000_0000_0000 <= bits < 0x7fe0_0000_0000_0000 {
        let next = (bits + 0x10_0000_0000_0000) as u64;
        let k = scaling(bits);
        assert(exponent_field(next) == exponent_field(bits) + 1);
        assert(significand(next) == significand(bits));
        lemma_pow2_unfold(k + 1);
        let m = significand(bits);
        assert(m * pow2(k + 1) == 2 * (m * pow2(k))) by (nonlinear_arith)
            requires
                pow2(k + 1) == 2 * pow2(k),
        ;
    }
    if bits < 0x7ff0_0000_0000_0000 {
        let negated = (bits + 0x8000_0000_0000_0000) as u64;
        assert(negated as int % 0x8000_0000_0000_0000 == bits);
    }
}

/// Two finite patterns of one sign that stand for one number are the same.
proof fn lemma_one_pattern(a: u64, b: u64)
    requires
        finite(a),
        finite(b),
        negative(a) == negative(b),
        units(a) == units(b),
    ensures
        a == b,
{
    let m = significand(a);
    let n = significand(b);
    if scaling(a) > scaling(b) {
        lemma_larger_double(m, scaling(a), n, scaling(b));
    } else if scaling(b) > scaling(a) {
        lemma_larger_double(n, scaling(b), m, scaling(a));
    } else {
        let p = pow2(scaling(a)) as int;
        lemma_pow2_pos(scaling(a));
        assert(m == n) by (nonlinear_arith)
            requires
                m * p == n * p,
                p > 0,
        ;
    }
}

/// A full significand at a larger power of two makes a larger number.
proof fn lemma_larger_double(m: int, e: nat, n: int, f: nat)
    requires
        0x10_0000_0000_0000 <= m,
        0 <= n < 0x20_0000_0000_0000,
        f < e,
    ensures
        m * pow2(e) > n * pow2(f),
{
    lemma_pow2_unfold(e);
    if f < e - 1 {
        lemma_pow2_strictly_increases(f, (e - 1) as nat);
    }
    lemma_pow2_pos(f);
    let p = pow2(e) as int;
    let q = pow2(f) as int;
    assert(m * p > n * q) by (nonlinear_arith)
        requires
            m >= 0x10_0000_0000_0000,
            0 <= n < 0x20_0000_0000_0000,
            p >= 2 * q,
            q > 0,
    ;
}

/// What a widened pattern looks like: the sign bit moves to the top, and the rest of a
/// normal pattern moves up by 29 bits, with 896 added to its exponent; zeros stay zeros
/// of their sign. There is one such pattern for each number, whose value is the same.
pub proof fn law_widened_pattern(wide: u64, other: u64, narrow: u32)
    requires
        binary32::finite(narrow),
        widened(wide, narrow),
        widened(other, narrow),
    ensures
        wide == other,
        units(wide) == binary32::units(narrow) * pow2(925),
        wide as int / 0x8000_0000_0000_0000 == narrow as int / 0x8000_0000,
        narrow as int % 0x8000_0000 == 0 ==> wide as int % 0x8000_0000_0000_0000 == 0,
        narrow as int % 0x8000_0000 >= 0x80_0000 ==> wide as int % 0x8000_0000_0000_0000 == (
        narrow as int % 0x8000_0000) * 0x2000_0000 + 0x3800_0000_0000_0000,
{
    lemma_one_pattern(wide, other);
    let top: int = if binary32::negative(narrow) {
        0x8000_0000_0000_0000
    } else {
        0
    };
    let low = narrow as int % 0x8000_0000;
    if low == 0 {
        let zero = top as u64;
        let c = pow2(925) as int;
        let p = pow2(binary32::scaling(narrow)) as int;
        let q = pow2(scaling(zero)) as int;
        assert(0 * p == 0 && 0 * c == 0 && 0 * q == 0) by (nonlinear_arith);
        assert(binary32::units(narrow) == 0);
        assert(significand(zero) == 0);
        assert(units(zero) == 0);
        lemma_one_pattern(wide, zero);
    }
    if low >= 0x80_0000 {
        let image = (top + low * 0x2000_0000 + 0x3800_0000_0000_0000) as u64;
        lemma_image_of_normal(image, narrow);
        lemma_one_pattern(wide, image);
    }
}

/// The fields of the widened pattern of a normal number, and its value.
#[verifier::spinoff_prover]
proof fn lemma_image_of_normal(image: u64, narrow: u32)
    requires
        binary32::normal(narrow),
        image == (if binary32::negative(narrow) {
            0x8000_0000_0000_0000int
        } else {
            0
        }) + (narrow as int % 0x8000_0000) * 0x2000_0000 + 0x3800_0000_0000_0000,
    ensures
        widened(image, narrow),
        image as int % 0x8000_0000_0000_0000 == (narrow as int % 0x8000_0000) * 0x2000_0000
            + 0x3800_0000_0000_0000,
{
    let exponent = binary32::exponent_field(narrow);
    let fraction = narrow as int % 0x8000_0000 % 0x80_0000;
    let rest = (exponent + 896) * 0x10_0000_0000_0000 + fraction * 0x2000_0000;
    assert(narrow as int % 0x8000_0000 == exponent * 0x80_0000 + fraction);
    assert(rest == (narrow as int % 0x8000_0000) * 0x2000_0000 + 0x3800_0000_0000_0000);
    assert(image as int % 0x8000_0000_0000_0000 == rest);
    assert(rest / 0x10_0000_0000_0000 == exponent + 896);
    assert(rest % 0x10_0000_0000_0000 == fraction * 0x2000_0000);
    assert(image as int % 0x10_0000_0000_0000 == fraction * 0x2000_0000);
    let m = binary32::significand(narrow);
    let k = binary32::scaling(narrow);
    assert(significand(image) == m * 0x2000_0000);
    assert(scaling(image) == k + 896);
    lemma2_to64();
    lemma_pow2_adds(k, 925);
    lemma_pow2_adds(29, k + 896);
    let p = pow2(k) as int;
    let c = pow2(925) as int;
    let q = pow2(k + 896) as int;
    assert(m * 0x2000_0000 * q == m * p * c && -(m * p) * c == -(m * p * c)) by (nonlinear_arith)
        requires
            0x2000_0000 * q == p * c,
    ;
}

} // verus!
