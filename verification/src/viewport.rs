//! Where the camera looks, and when it has left what was last rendered.

use vstd::arithmetic::power2::*;
use vstd::prelude::*;

use crate::binary32;
use crate::binary32::{
    decode, is_finite, is_normal, lemma_finite_in_range, lemma_nearest_even_scale,
    lemma_round_size_exact, lemma_round_size_midpoint, lemma_round_size_nonnegative,
    lemma_round_size_scale, lemma_round_size_spacing, sign_of_sum, Parts,
};

verus! {

/// Width and height of the basemap texture in pixels.
pub const TEXTURE_SIZE: u32 = 1024;

/// `TEXTURE_SIZE` as a single-precision number.
pub const TEXTURE_SIZE_BITS: u32 = 0x4480_0000;

/// 0.08: re-render if `|new_scale / old_scale - 1|` exceeds this.
pub const SCALE_DELTA_BITS: u32 = 0x3da3_d70a;

/// 0.1: re-render if the camera moves more than this fraction of the texture's
/// world-space half-width away from the rendered center.
pub const PAN_DELTA_BITS: u32 = 0x3dcc_cccd;

/// 1.0
pub const ONE_BITS: u32 = 0x3f80_0000;

/// 0.5
pub const HALF_BITS: u32 = 0x3f00_0000;

/// The single-precision patterns of a place and a scale, which need not be usable.
#[derive(Clone, Copy)]
pub struct PoseBits {
    pub center_x: u32,
    pub center_y: u32,
    pub scale: u32,
}

impl PoseBits {
    /// A pose that a map can be rendered at: a finite center and a normal scale.
    pub open spec fn usable(self) -> bool {
        &&& binary32::finite(self.center_x)
        &&& binary32::finite(self.center_y)
        &&& binary32::normal(self.scale)
    }
}

/// A place on the map and a scale in world units per pixel, each component held
/// as the pattern of a single-precision number. Every pose is usable.
#[derive(Clone, Copy)]
pub struct Pose {
    center_x: u32,
    center_y: u32,
    scale: u32,
}

impl View for Pose {
    type V = PoseBits;

    closed spec fn view(&self) -> PoseBits {
        PoseBits { center_x: self.center_x, center_y: self.center_y, scale: self.scale }
    }
}

/// `|camera_scale / rendered_scale - 1| > 0.08`, in single precision.
pub open spec fn scale_changed(camera_scale: u32, rendered_scale: u32) -> bool {
    let ratio = binary32::quotient(
        binary32::units(camera_scale),
        binary32::units(rendered_scale),
    );
    binary32::absolute(
        binary32::difference(ratio, binary32::units(ONE_BITS)),
    ) > binary32::units(SCALE_DELTA_BITS)
}

/// `1024 * rendered_scale * 0.5 * 0.1`, in single precision.
pub open spec fn pan_threshold(rendered_scale: u32) -> int {
    let texture_world_width = binary32::product(
        binary32::units(TEXTURE_SIZE_BITS),
        binary32::units(rendered_scale),
    );
    let texture_world_half = binary32::product(
        texture_world_width,
        binary32::units(HALF_BITS),
    );
    binary32::product(texture_world_half, binary32::units(PAN_DELTA_BITS))
}

/// `|camera - rendered| > pan_threshold(rendered_scale)` along one axis, in single
/// precision.
pub open spec fn pan_changed(camera: u32, rendered: u32, rendered_scale: u32) -> bool {
    binary32::absolute(
        binary32::difference(
            binary32::units(camera),
            binary32::units(rendered),
        ),
    ) > pan_threshold(rendered_scale)
}

/// Whether a camera has zoomed or panned away from what was rendered.
pub open spec fn moved_away(camera: PoseBits, rendered: PoseBits) -> bool {
    ||| scale_changed(camera.scale, rendered.scale)
    ||| pan_changed(camera.center_x, rendered.center_x, rendered.scale)
    ||| pan_changed(camera.center_y, rendered.center_y, rendered.scale)
}

/// 10737418 * 2^122 units are 0.08, and `n` units rounded exceed them from the
/// next midpoint on.
proof fn lemma_exceeds_scale_delta(n: int)
    requires
        0 <= n,
    ensures
        binary32::rounded(n, 1) > binary32::units(SCALE_DELTA_BITS) <==> 2 * n
            > 21474837 * pow2(122),
        binary32::rounded(n, 1) >= 0,
        binary32::units(SCALE_DELTA_BITS) < binary32::infinity(),
{
    lemma_round_size_midpoint(n, 1, 10737418, 122);
    lemma_round_size_nonnegative(n, 1);
    lemma_pow2_pos(122);
    lemma_pow2_pos(277);
    lemma2_to64();
    lemma_pow2_adds(122, 155);
    lemma_pow2_strictly_increases(64, 155);
    lemma2_to64_rest();
    let p = pow2(122) as int;
    assert(pow2(277) == p * pow2(155));
    assert(p * pow2(155) > 10737418 * p) by (nonlinear_arith)
        requires
            pow2(155) > 10737418,
            p > 0,
    ;
    assert(binary32::units(SCALE_DELTA_BITS) == 10737418 * p);
}

/// The zoom test as an interval of ratios: the scale counts as unchanged exactly
/// if `30870077 / 2^25 < camera_scale / rendered_scale <= 18119393 / 2^24`.
#[verifier::spinoff_prover]
pub proof fn law_zoom_interval(camera_scale: u32, rendered_scale: u32)
    requires
        binary32::normal(camera_scale),
        binary32::normal(rendered_scale),
    ensures
        scale_changed(camera_scale, rendered_scale) <==> !({
            let a = binary32::absolute(binary32::units(camera_scale));
            let b = binary32::absolute(binary32::units(rendered_scale));
            &&& binary32::negative(camera_scale) == binary32::negative(rendered_scale)
            &&& 0x200_0000 * a > 30870077 * b
            &&& 0x100_0000 * a <= 18119393 * b
        }),
{
    let a = binary32::units(camera_scale);
    let b = binary32::units(rendered_scale);
    lemma_pow2_pos(binary32::scaling(camera_scale));
    lemma_pow2_pos(binary32::scaling(rendered_scale));
    let size_a = binary32::absolute(a);
    let size_b = binary32::absolute(b);
    lemma_units_sign(camera_scale);
    lemma_units_sign(rendered_scale);
    let n = size_a * pow2(149);
    lemma_pow2_pos(149);
    assert(n > 0) by (nonlinear_arith)
        requires
            n == size_a * pow2(149),
            size_a > 0,
            pow2(149) > 0,
    ;
    assert(-a * pow2(149) == -(a * pow2(149))) by (nonlinear_arith);
    assert(a < 0 ==> -a * pow2(149) == n);
    assert(a > 0 ==> a * pow2(149) == n);
    let size = binary32::round_size(n, size_b);
    let q = if size < binary32::infinity() {
        size
    } else {
        binary32::infinity()
    };
    lemma_round_size_nonnegative(n, size_b);
    let one = pow2(149) as int;
    let u = pow2(122) as int;
    lemma2_to64();
    lemma2_to64_rest();
    lemma_pow2_adds(122, 27);
    lemma_pow2_pos(122);
    lemma_pow2_pos(277);
    assert(one == 0x800_0000 * u);
    assert(binary32::units(ONE_BITS) == one) by {
        lemma_pow2_adds(23, 126);
        assert(0x80_0000 * pow2(126) == pow2(149));
    }
    let ratio = binary32::quotient(a, b);
    lemma_exceeds_scale_delta(one);
    if (a < 0) != (b < 0) {
        assert(ratio == -q);
        lemma_exceeds_scale_delta(q + one);
        assert(binary32::rounded(-q - one, 1) == -binary32::rounded(q + one, 1));
    } else {
        assert(ratio == q);
        // The two ends of the interval, as neighbours of 0.92 and 1.08.
        lemma_pow2_adds(122, 3);
        lemma_pow2_adds(122, 4);
        let low = pow2(125) as int;
        let high = pow2(126) as int;
        assert(low == 8 * u && high == 16 * u);
        lemma_round_size_midpoint(n, size_b, 15435038, 125);
        lemma_round_size_midpoint(n, size_b, 9059696, 126);
        assert(n == size_a * 0x800_0000 * u) by (nonlinear_arith)
            requires
                n == size_a * pow2(149),
                pow2(149) == 0x800_0000 * u,
        ;
        assert((2 * 15435038 + 1) * low * size_b == 30870077 * 8 * (size_b * u))
            by (nonlinear_arith)
            requires
                low == 8 * u,
        ;
        assert((2 * 9059696 + 1) * high * size_b == 18119393 * 16 * (size_b * u))
            by (nonlinear_arith)
            requires
                high == 16 * u,
        ;
        assert(2 * (size_a * 0x800_0000 * u) > 30870077 * 8 * (size_b * u) <==> 0x200_0000 * size_a
            > 30870077 * size_b) by (nonlinear_arith)
            requires
                u > 0,
        ;
        assert(2 * (size_a * 0x800_0000 * u) > 18119393 * 16 * (size_b * u) <==> 0x100_0000 * size_a
            > 18119393 * size_b) by (nonlinear_arith)
            requires
                u > 0,
        ;
        lemma_pow2_adds(122, 155);
        lemma_pow2_strictly_increases(64, 155);
        assert(binary32::infinity() >= 0x1_0000_0000 * u) by (nonlinear_arith)
            requires
                binary32::infinity() == u * pow2(155),
                pow2(155) >= 0x1_0000_0000,
                u > 0,
        ;
        if q >= one {
            lemma_exceeds_scale_delta(q - one);
        } else {
            lemma_exceeds_scale_delta(one - q);
            assert(binary32::rounded(q - one, 1) == -binary32::rounded(one - q, 1));
        }
    }
}

/// A normal number is nonzero and has the sign of its pattern.
proof fn lemma_units_sign(bits: u32)
    requires
        binary32::normal(bits),
    ensures
        binary32::units(bits) != 0,
        binary32::units(bits) < 0 <==> binary32::negative(bits),
{
    let p = pow2(binary32::scaling(bits)) as int;
    lemma_pow2_pos(binary32::scaling(bits));
    let m = binary32::significand(bits);
    assert(m * p > 0) by (nonlinear_arith)
        requires
            m > 0,
            p > 0,
    ;
}

/// The significand of the pan threshold for a rendered scale of significand `m`.
spec fn threshold_significand(m: int) -> int {
    if m * 13421773 < 0x8000_0000_0000 {
        binary32::nearest_even(m * 13421773, 0x80_0000)
    } else {
        binary32::nearest_even(m * 13421773, 0x100_0000)
    }
}

/// Its power of two, for a rendered scale of `m * 2^e` units.
spec fn threshold_scaling(m: int, e: nat) -> nat {
    if m * 13421773 < 0x8000_0000_0000 {
        e + 5
    } else {
        e + 6
    }
}

/// A tenth of `m * 2^(e + 9)` units, rounded.
#[verifier::spinoff_prover]
proof fn lemma_tenth(m: int, e: nat)
    requires
        0x80_0000 <= m < 0x100_0000,
    ensures
        binary32::round_size(m * pow2(e + 9) * (13421773 * pow2(122)), pow2(149) as int)
            == threshold_significand(m) * pow2(threshold_scaling(m, e)),
        binary32::round_size(m * 13421773 * pow2(e), 0x4_0000) == threshold_significand(m) * pow2(
            threshold_scaling(m, e),
        ),
        0x80_0000 <= threshold_significand(m) <= 0x100_0000,
{
    lemma2_to64();
    lemma2_to64_rest();
    lemma_pow2_pos(e);
    let p = pow2(e) as int;
    let w = m * 13421773;
    lemma_pow2_adds(e, 9);
    lemma_pow2_adds(122, 9);
    lemma_pow2_adds(131, 18);
    let c = pow2(131) as int;
    lemma_pow2_pos(131);
    let n = w * p;
    assert(m * pow2(e + 9) * (13421773 * pow2(122)) == c * n) by (nonlinear_arith)
        requires
            pow2(e + 9) == p * 512,
            c == pow2(122) * 512,
            n == m * 13421773 * p,
    ;
    assert(n >= 0) by (nonlinear_arith)
        requires
            n == w * p,
            w >= 0,
            p >= 0,
    ;
    lemma_round_size_scale(n, 0x4_0000, c);
    let k = threshold_scaling(m, e);
    lemma_pow2_adds(e, (k - e) as nat);
    lemma_pow2_adds(e, (k + 24 - e) as nat);
    lemma_pow2_adds(e, (k + 23 - e) as nat);
    if w < 0x8000_0000_0000 {
        assert(0x4_0000 * (p * 0x2000_0000) == 0x8000_0000_0000 * p) by (nonlinear_arith);
        assert(0x4_0000 * (p * 0x1000_0000) == 0x4000_0000_0000 * p) by (nonlinear_arith);
        assert(0x4000_0000_0000 * p <= n < 0x8000_0000_0000 * p) by (nonlinear_arith)
            requires
                n == w * p,
                0x4000_0000_0000 <= w < 0x8000_0000_0000,
                p > 0,
        ;
        lemma_round_size_spacing(n, 0x4_0000, k);
        lemma_nearest_even_scale(w, 0x80_0000, p);
        assert(0x4_0000 * (p * 0x20) == p * 0x80_0000) by (nonlinear_arith);
    } else {
        assert(0x4_0000 * (p * 0x4000_0000) == 0x1_0000_0000_0000 * p) by (nonlinear_arith);
        assert(0x4_0000 * (p * 0x2000_0000) == 0x8000_0000_0000 * p) by (nonlinear_arith);
        assert(0x8000_0000_0000 * p <= n < 0x1_0000_0000_0000 * p) by (nonlinear_arith)
            requires
                n == w * p,
                0x8000_0000_0000 <= w < 0x1_0000_0000_0000,
                p > 0,
        ;
        lemma_round_size_spacing(n, 0x4_0000, k);
        lemma_nearest_even_scale(w, 0x100_0000, p);
        assert(0x4_0000 * (p * 0x40) == p * 0x100_0000) by (nonlinear_arith);
    }
    assert(p * w == n) by (nonlinear_arith)
        requires
            n == w * p,
    ;
    let h = threshold_significand(m);
    assert(pow2(k) * h == h * pow2(k)) by (nonlinear_arith);
}

/// The pan threshold in closed form.
#[verifier::spinoff_prover]
proof fn lemma_pan_threshold(rendered_scale: u32)
    requires
        binary32::normal(rendered_scale),
    ensures
        binary32::negative(rendered_scale) ==> pan_threshold(rendered_scale) < 0,
        !binary32::negative(rendered_scale) && binary32::scaling(rendered_scale) >= 244
            ==> pan_threshold(rendered_scale) == binary32::infinity(),
        !binary32::negative(rendered_scale) && binary32::scaling(rendered_scale) < 244 ==> {
            let m = binary32::significand(rendered_scale);
            let e = binary32::scaling(rendered_scale);
            &&& pan_threshold(rendered_scale) == threshold_significand(m) * pow2(
                threshold_scaling(m, e),
            )
            &&& pan_threshold(rendered_scale) < binary32::infinity()
        },
        0x80_0000 <= threshold_significand(binary32::significand(rendered_scale)) <= 0x100_0000,
{
    let m = binary32::significand(rendered_scale);
    let e = binary32::scaling(rendered_scale);
    let p = pow2(e) as int;
    let s = m * p;
    lemma2_to64();
    lemma2_to64_rest();
    lemma_pow2_pos(e);
    lemma_pow2_pos(277);
    assert(s > 0) by (nonlinear_arith)
        requires
            s == m * p,
            m > 0,
            p > 0,
    ;
    let unit = pow2(149) as int;
    let texture = binary32::units(TEXTURE_SIZE_BITS);
    let half = binary32::units(HALF_BITS);
    let tenth = binary32::units(PAN_DELTA_BITS);
    lemma_pow2_pos(149);
    lemma_pow2_pos(148);
    lemma_pow2_adds(23, 136);
    lemma_pow2_adds(149, 10);
    assert(texture == 1024 * unit);
    lemma_pow2_adds(23, 125);
    lemma_pow2_adds(148, 1);
    assert(half == pow2(148));
    lemma_pow2_pos(122);
    assert(tenth == 13421773 * pow2(122));
    assert(tenth > 0) by (nonlinear_arith)
        requires
            tenth == 13421773 * pow2(122),
            pow2(122) > 0,
    ;
    // The texture's width, exact unless it overflows.
    lemma_pow2_adds(e, 10);
    let width = m * pow2(e + 10);
    assert(texture * s == unit * width) by (nonlinear_arith)
        requires
            texture == 1024 * unit,
            s == m * p,
            width == m * (p * 1024),
    ;
    assert(texture * -s == -(texture * s)) by (nonlinear_arith);
    assert(width > 0) by (nonlinear_arith)
        requires
            width == m * (p * 1024),
            m > 0,
            p > 0,
    ;
    assert(texture * s > 0) by (nonlinear_arith)
        requires
            texture * s == unit * width,
            unit > 0,
            width > 0,
    ;
    lemma_round_size_scale(width, 1, unit);
    lemma_round_size_exact(m, e + 10);
    assert(binary32::round_size(texture * s, unit) == width);
    assert(texture < binary32::infinity()) by {
        lemma_pow2_strictly_increases(159, 277);
    }
    let world_width = binary32::product(texture, binary32::units(rendered_scale));
    let bounded = if width < binary32::infinity() {
        width
    } else {
        binary32::infinity()
    };
    assert(world_width == if binary32::negative(rendered_scale) {
        -bounded
    } else {
        bounded
    });
    assert(width < binary32::infinity() <==> e < 244) by {
        lemma_pow2_adds(23, e + 10);
        lemma_pow2_adds(24, e + 10);
        let q = pow2(e + 10) as int;
        lemma_pow2_pos(e + 10);
        assert(0x80_0000 * q <= m * q < 0x100_0000 * q) by (nonlinear_arith)
            requires
                0x80_0000 <= m < 0x100_0000,
                q > 0,
        ;
        if e < 243 {
            lemma_pow2_strictly_increases((e + 34) as nat, 277);
        } else if e > 244 {
            lemma_pow2_strictly_increases(277, (e + 33) as nat);
        }
    }
    if width < binary32::infinity() {
        // Half of it, exact.
        lemma_pow2_adds(e, 9);
        let world_half = m * pow2(e + 9);
        assert(width == 2 * world_half) by (nonlinear_arith)
            requires
                width == m * (p * 1024),
                world_half == m * (p * 512),
        ;
        assert(width * half == unit * world_half) by (nonlinear_arith)
            requires
                width == 2 * world_half,
                unit == half * 2,
        ;
        assert(-width * half == -(width * half)) by (nonlinear_arith);
        assert(width * half > 0) by (nonlinear_arith)
            requires
                width > 0,
                half > 0,
        ;
        lemma_round_size_scale(world_half, 1, unit);
        lemma_round_size_exact(m, e + 9);
        let signed_half = binary32::product(world_width, half);
        assert(signed_half == if binary32::negative(rendered_scale) {
            -world_half
        } else {
            world_half
        });
        // A tenth of that, rounded.
        lemma_tenth(m, e);
        assert(-world_half * tenth == -(world_half * tenth)) by (nonlinear_arith);
        assert(world_half * tenth > 0) by (nonlinear_arith)
            requires
                world_half > 0,
                tenth > 0,
        ;
        let h = threshold_significand(m);
        let k = threshold_scaling(m, e);
        assert(0 < h * pow2(k) < binary32::infinity()) by {
            lemma_pow2_pos(k);
            lemma_pow2_adds(24, k);
            lemma_pow2_strictly_increases((k + 24) as nat, 277);
            let q = pow2(k) as int;
            assert(0 < h * q <= 0x100_0000 * q) by (nonlinear_arith)
                requires
                    0 < h <= 0x100_0000,
                    q > 0,
            ;
        }
    } else {
        lemma_tenth(m, e);
    }
}

/// Tests `scale_changed` by comparing the exact ratio with the ends of the interval
/// of unchanged scales.
#[verifier::spinoff_prover]
fn zoomed_away(camera_scale: u32, rendered_scale: u32) -> (changed: bool)
    requires
        binary32::normal(camera_scale),
        binary32::normal(rendered_scale),
    ensures
        changed == scale_changed(camera_scale, rendered_scale),
{
    let a: Parts = decode(camera_scale);
    let b: Parts = decode(rendered_scale);
    let ghost size_a = binary32::absolute(binary32::units(camera_scale));
    let ghost size_b = binary32::absolute(binary32::units(rendered_scale));
    proof {
        law_zoom_interval(camera_scale, rendered_scale);
        lemma_units_sign(camera_scale);
        lemma_units_sign(rendered_scale);
        lemma2_to64();
        assert(size_a == a.significand * pow2(a.scaling as nat));
        assert(size_b == b.significand * pow2(b.scaling as nat));
    }
    if a.negative != b.negative {
        return true;
    }
    if a.scaling > b.scaling + 1 {
        proof {
            lemma_far_apart(
                a.significand as int,
                a.scaling as nat,
                b.significand as int,
                b.scaling as nat,
            );
        }
        return true;
    }
    if b.scaling > a.scaling + 1 {
        proof {
            lemma_far_apart(
                b.significand as int,
                b.scaling as nat,
                a.significand as int,
                a.scaling as nat,
            );
        }
        return true;
    }
    let mut x: u64 = a.significand as u64;
    let mut y: u64 = b.significand as u64;
    let ghost mut common: nat = a.scaling as nat;
    if a.scaling > b.scaling {
        x = 2 * x;
        proof {
            common = b.scaling as nat;
            lemma_pow2_unfold(a.scaling as nat);
        }
    } else if b.scaling > a.scaling {
        y = 2 * y;
        proof {
            lemma_pow2_unfold(b.scaling as nat);
        }
    }
    proof {
        let p = pow2(common) as int;
        lemma_pow2_pos(common);
        assert(size_a == x * p) by (nonlinear_arith)
            requires
                size_a == a.significand * pow2(a.scaling as nat),
                (x == a.significand && pow2(a.scaling as nat) == p) || (x == 2 * a.significand
                    && pow2(a.scaling as nat) == 2 * p),
        ;
        assert(size_b == y * p) by (nonlinear_arith)
            requires
                size_b == b.significand * pow2(b.scaling as nat),
                (y == b.significand && pow2(b.scaling as nat) == p) || (y == 2 * b.significand
                    && pow2(b.scaling as nat) == 2 * p),
        ;
        assert(0x200_0000 * (x * p) > 30870077 * (y * p) <==> 0x200_0000 * x > 30870077 * y)
            by (nonlinear_arith)
            requires
                p > 0,
        ;
        assert(0x100_0000 * (x * p) <= 18119393 * (y * p) <==> 0x100_0000 * x <= 18119393 * y)
            by (nonlinear_arith)
            requires
                p > 0,
        ;
    }
    !(0x200_0000 * x > 30870077 * y && 0x100_0000 * x <= 18119393 * y)
}

/// Two numbers whose powers of two differ by more than one are more than a factor
/// of two apart.
proof fn lemma_far_apart(m: int, e: nat, n: int, f: nat)
    requires
        0x80_0000 <= m < 0x100_0000,
        0x80_0000 <= n < 0x100_0000,
        e > f + 1,
    ensures
        m * pow2(e) > 2 * (n * pow2(f)),
{
    lemma2_to64();
    lemma_pow2_adds(f, (e - f) as nat);
    if e > f + 2 {
        lemma_pow2_strictly_increases(2, (e - f) as nat);
    }
    lemma_pow2_pos(f);
    let p = pow2(f) as int;
    let g = pow2((e - f) as nat) as int;
    assert(p * g >= 4 * p) by (nonlinear_arith)
        requires
            g >= 4,
            p > 0,
    ;
    assert(m * (p * g) >= 0x80_0000 * (4 * p)) by (nonlinear_arith)
        requires
            m >= 0x80_0000,
            p * g >= 4 * p,
            p > 0,
    ;
    assert(n * p < 0x100_0000 * p) by (nonlinear_arith)
        requires
            n < 0x100_0000,
            p > 0,
    ;
}

/// The nearest integer to `n / d`, ties to even.
fn divide_to_nearest(n: u64, d: u64) -> (r: u64)
    requires
        n < 0x1_0000_0000_0000,
        0 < d < 0x8000_0000,
    ensures
        r == binary32::nearest_even(n as int, d as int),
{
    let quotient: u64 = n / d;
    let twice_rest: u64 = 2 * (n % d);
    if twice_rest < d || (twice_rest == d && quotient % 2 == 0) {
        quotient
    } else {
        assert(quotient <= n) by (nonlinear_arith)
            requires
                quotient == n / d,
                0 < d,
        ;
        quotient + 1
    }
}

/// Whether the camera lies more than the pan threshold away from the rendered
/// center along one axis, for a threshold of `h * 2^k` units.
fn past_threshold(camera: u32, rendered: u32, h: u32, k: u32) -> (past: bool)
    requires
        binary32::finite(camera),
        binary32::finite(rendered),
        0x80_0000 <= h < 0x100_0000,
        0 < k < 0x400,
        binary32::scaled(h as int, k) < binary32::infinity(),
    ensures
        past == (binary32::absolute(
            binary32::difference(binary32::units(camera), binary32::units(rendered)),
        ) > binary32::scaled(h as int, k)),
{
    let a: Parts = decode(camera);
    let b: Parts = decode(rendered);
    let m: i64 = if a.negative {
        -(a.significand as i64)
    } else {
        a.significand as i64
    };
    let n: i64 = if b.negative {
        b.significand as i64
    } else {
        -(b.significand as i64)
    };
    let midpoint: i64 = -(2 * (h as i64) + 1);
    let ghost distance = binary32::units(camera) - binary32::units(rendered);
    proof {
        lemma_threshold(distance, h as int, k as nat);
        lemma_finite_in_range(camera);
        lemma_negated(a.significand as int, a.scaling);
        lemma_negated(b.significand as int, b.scaling);
        lemma_negated(m as int, a.scaling);
        lemma_negated(n as int, b.scaling);
        lemma_negated(2 * (h as int) + 1, (k - 1) as u32);
        assert(binary32::scaled(m as int, a.scaling) == binary32::units(camera));
        assert(binary32::scaled(n as int, b.scaling) == -binary32::units(rendered));
    }
    let ahead: i128 = sign_of_sum(m, a.scaling, n, b.scaling, midpoint, k - 1);
    let behind: i128 = sign_of_sum(-m, a.scaling, -n, b.scaling, midpoint, k - 1);
    ahead > 0 || behind > 0 || (h % 2 == 1 && (ahead == 0 || behind == 0))
}

/// Scaling a negated integer negates the scaled one.
proof fn lemma_negated(m: int, e: u32)
    ensures
        binary32::scaled(-m, e) == -binary32::scaled(m, e),
{
    let p = pow2(e as nat) as int;
    assert(-m * p == -(m * p)) by (nonlinear_arith);
}

/// A rounded distance exceeds `h * 2^k` exactly from the midpoint to the next number
/// on.
proof fn lemma_threshold(distance: int, h: int, k: nat)
    requires
        0x80_0000 <= h < 0x100_0000,
        0 < k,
        h * pow2(k) < binary32::infinity(),
    ensures
        ({
            let midpoint = (2 * h + 1) * pow2((k - 1) as nat);
            binary32::absolute(binary32::rounded(distance, 1)) > h * pow2(k) <==> {
                ||| distance > midpoint
                ||| -distance > midpoint
                ||| (h % 2 == 1 && (distance == midpoint || -distance == midpoint))
            }
        }),
{
    let size = binary32::absolute(distance);
    lemma_round_size_midpoint(size, 1, h, k);
    lemma_round_size_nonnegative(size, 1);
    lemma_pow2_unfold(k);
    lemma_pow2_pos(k);
    lemma_pow2_pos((k - 1) as nat);
    lemma_pow2_pos(277);
    let p = pow2(k) as int;
    let q = pow2((k - 1) as nat) as int;
    assert((2 * h + 1) * p * 1 == 2 * ((2 * h + 1) * q)) by (nonlinear_arith)
        requires
            p == 2 * q,
    ;
    assert((h + 1) * p == h * p + p) by (nonlinear_arith);
    assert((2 * h + 1) * q > 0) by (nonlinear_arith)
        requires
            h > 0,
            q > 0,
    ;
}

/// Tests `pan_changed` along both axes.
fn panned_away(camera: &Pose, rendered: &Pose) -> (changed: bool)
    requires
        camera@.usable(),
        rendered@.usable(),
    ensures
        changed == (pan_changed(camera@.center_x, rendered@.center_x, rendered@.scale)
            || pan_changed(camera@.center_y, rendered@.center_y, rendered@.scale)),
{
    let scale: Parts = decode(rendered.scale);
    proof {
        lemma_pan_threshold(rendered.scale);
        lemma_difference_in_range(camera.center_x, rendered.center_x);
        lemma_difference_in_range(camera.center_y, rendered.center_y);
    }
    if scale.negative {
        return true;
    }
    if scale.scaling >= 244 {
        return false;
    }
    let tenth: u64 = scale.significand as u64 * 13421773;
    let mut h: u64 = 0;
    let mut k: u32 = 0;
    if tenth < 0x8000_0000_0000 {
        h = divide_to_nearest(tenth, 0x80_0000);
        k = scale.scaling + 5;
    } else {
        h = divide_to_nearest(tenth, 0x100_0000);
        k = scale.scaling + 6;
    }
    if h == 0x100_0000 {
        proof {
            lemma_pow2_unfold((k + 1) as nat);
            assert(0x100_0000 * pow2(k as nat) == 0x80_0000 * pow2((k + 1) as nat))
                by (nonlinear_arith)
                requires
                    pow2((k + 1) as nat) == 2 * pow2(k as nat),
            ;
        }
        h = 0x80_0000;
        k = k + 1;
    }
    assert(binary32::scaled(h as int, k) == pan_threshold(rendered.scale));
    past_threshold(camera.center_x, rendered.center_x, h as u32, k) || past_threshold(
        camera.center_y,
        rendered.center_y,
        h as u32,
        k,
    )
}

/// A difference is at most infinite.
proof fn lemma_difference_in_range(a: u32, b: u32)
    requires
        binary32::finite(a),
        binary32::finite(b),
    ensures
        0 <= binary32::absolute(
            binary32::difference(binary32::units(a), binary32::units(b)),
        ) <= binary32::infinity(),
{
    lemma_finite_in_range(a);
    lemma_pow2_pos(277);
    lemma_round_size_nonnegative(
        binary32::absolute(binary32::units(a) - binary32::units(b)),
        1,
    );
}

impl Pose {
    #[verifier::type_invariant]
    spec fn type_invariant(self) -> bool {
        self@.usable()
    }

    /// A pose from the patterns of its components, unless one of the center's is
    /// infinite or NaN or the scale's is not normal.
    pub fn new(bits: PoseBits) -> (pose: Option<Pose>)
        ensures
            pose is Some <==> bits.usable(),
            pose is Some <==> {
                &&& bits.center_x as int % 0x8000_0000 < 0x7f80_0000
                &&& bits.center_y as int % 0x8000_0000 < 0x7f80_0000
                &&& 0x80_0000 <= bits.scale as int % 0x8000_0000 < 0x7f80_0000
            },
            pose matches Some(p) ==> p@ == bits,
    {
        if !is_normal(bits.scale) || !is_finite(bits.center_x) || !is_finite(bits.center_y) {
            None
        } else {
            Some(Pose { center_x: bits.center_x, center_y: bits.center_y, scale: bits.scale })
        }
    }

    /// The pattern of the center's first coordinate.
    pub fn center_x(&self) -> (bits: u32)
        ensures
            bits == self@.center_x,
            self@.usable(),
    {
        proof {
            use_type_invariant(self);
        }
        self.center_x
    }

    /// The pattern of the center's second coordinate.
    pub fn center_y(&self) -> (bits: u32)
        ensures
            bits == self@.center_y,
            self@.usable(),
    {
        proof {
            use_type_invariant(self);
        }
        self.center_y
    }

    /// The pattern of the scale.
    pub fn scale(&self) -> (bits: u32)
        ensures
            bits == self@.scale,
            self@.usable(),
    {
        proof {
            use_type_invariant(self);
        }
        self.scale
    }

    /// Whether this camera has zoomed or panned away from what was rendered.
    pub fn moved_away_from(&self, rendered: &Pose) -> (away: bool)
        ensures
            away == moved_away(self@, rendered@),
            self@.usable(),
            rendered@.usable(),
    {
        proof {
            use_type_invariant(self);
            use_type_invariant(rendered);
        }
        zoomed_away(self.scale, rendered.scale) || panned_away(self, rendered)
    }
}

/// A camera that looks where the map was rendered, at a positive scale, has not
/// moved away; a map rendered at a negative scale is always left.
pub proof fn law_at_rest(camera: PoseBits, rendered: PoseBits)
    requires
        camera.usable(),
        rendered.usable(),
    ensures
        camera == rendered && !binary32::negative(rendered.scale) ==> !moved_away(camera, rendered),
        binary32::negative(rendered.scale) ==> moved_away(camera, rendered),
{
    law_zoom_interval(camera.scale, rendered.scale);
    lemma_pan_threshold(rendered.scale);
    lemma_units_sign(rendered.scale);
    lemma_difference_in_range(camera.center_x, rendered.center_x);
    if camera == rendered && !binary32::negative(rendered.scale) {
        lemma_finite_in_range(rendered.center_x);
        lemma_finite_in_range(rendered.center_y);
        lemma_pow2_pos(277);
        assert(binary32::rounded(0, 1) == 0);
        let h = threshold_significand(binary32::significand(rendered.scale));
        let k = threshold_scaling(
            binary32::significand(rendered.scale),
            binary32::scaling(rendered.scale),
        );
        lemma_pow2_pos(k);
        assert(h * pow2(k) > 0) by (nonlinear_arith)
            requires
                h > 0,
                pow2(k) > 0,
        ;
    }
}

/// Along each axis the camera may stray a tenth of the texture's world-space
/// half-width, which is 256/5 times the scale: farther by one part in 2^22 counts as
/// moved away, and short of it by one part in 2^22 does not. The texture's width at
/// that scale has to be finite.
#[verifier::spinoff_prover]
pub proof fn law_pan_margin(camera: u32, rendered: u32, rendered_scale: u32)
    requires
        binary32::finite(camera),
        binary32::finite(rendered),
        binary32::normal(rendered_scale),
        !binary32::negative(rendered_scale),
        1024 * binary32::units(rendered_scale) < binary32::infinity(),
    ensures
        ({
            let distance = binary32::absolute(
                binary32::units(camera) - binary32::units(rendered),
            );
            let scale = binary32::units(rendered_scale);
            &&& 0x40_0000 * (5 * distance) >= 0x40_0001 * (256 * scale) ==> pan_changed(
                camera,
                rendered,
                rendered_scale,
            )
            &&& 0x40_0000 * (5 * distance) <= 0x3f_ffff * (256 * scale) ==> !pan_changed(
                camera,
                rendered,
                rendered_scale,
            )
        }),
{
    let m = binary32::significand(rendered_scale);
    let e = binary32::scaling(rendered_scale);
    let p = pow2(e) as int;
    let scale = m * p;
    lemma2_to64();
    lemma_pow2_pos(e);
    lemma_finite_in_range(camera);
    lemma_pan_threshold(rendered_scale);
    assert(scale >= 0x80_0000 * p) by (nonlinear_arith)
        requires
            scale == m * p,
            m >= 0x80_0000,
            p > 0,
    ;
    assert(e < 244) by {
        if e >= 244 {
            lemma_pow2_adds(33, 244);
            if e > 244 {
                lemma_pow2_strictly_increases(244, e);
            }
            lemma2_to64_rest();
        }
    }
    let w = m * 13421773;
    let h = threshold_significand(m);
    let k = threshold_scaling(m, e);
    let d: int = if w < 0x8000_0000_0000 {
        0x80_0000
    } else {
        0x100_0000
    };
    let step: int = if w < 0x8000_0000_0000 {
        32
    } else {
        64
    };
    lemma_pow2_adds(e, (k - e) as nat);
    assert(pow2(k) == step * p) by (nonlinear_arith)
        requires
            pow2(k) == p * step,
    ;
    vstd::arithmetic::div_mod::lemma_fundamental_div_mod(w, d);
    assert(-d <= 2 * (d * h) - 2 * w <= d) by {
        let q = w / d;
        let r = w % d;
        assert(h == q || h == q + 1);
        assert(d * (q + 1) == d * q + d) by (nonlinear_arith);
    }
    let hp = h * p;
    assert(w * p == 13421773 * scale) by (nonlinear_arith)
        requires
            w == m * 13421773,
            scale == m * p,
    ;
    assert(-(d * p) <= 2 * (d * hp) - 2 * (w * p) <= d * p) by (nonlinear_arith)
        requires
            -d <= 2 * (d * h) - 2 * w <= d,
            hp == h * p,
            p > 0,
    ;
    assert(h * pow2(k) == step * hp) by (nonlinear_arith)
        requires
            pow2(k) == step * p,
            hp == h * p,
    ;
    let distance = binary32::units(camera) - binary32::units(rendered);
    lemma_pow2_unfold(k);
    if h == 0x100_0000 {
        lemma_pow2_unfold(k + 1);
        assert(0x80_0000 * pow2(k + 1) == h * pow2(k)) by (nonlinear_arith)
            requires
                pow2(k + 1) == 2 * pow2(k),
                h == 0x100_0000,
        ;
        lemma_threshold(distance, 0x80_0000, k + 1);
    } else {
        lemma_threshold(distance, h, k);
        assert(2 * ((2 * h + 1) * pow2((k - 1) as nat)) == 2 * (step * hp) + step * p)
            by (nonlinear_arith)
            requires
                pow2(k) == 2 * pow2((k - 1) as nat),
                pow2(k) == step * p,
                hp == h * p,
        ;
    }
}

/// Which poses are usable, by their patterns: an infinite or NaN coordinate, or a scale
/// that is zero, subnormal, infinite or NaN, makes a pose unusable, and nothing else does;
/// signs play no part.
pub proof fn law_usable_patterns(bits: PoseBits)
    ensures
        bits.usable() <==> {
            &&& bits.center_x as int % 0x8000_0000 < 0x7f80_0000
            &&& bits.center_y as int % 0x8000_0000 < 0x7f80_0000
            &&& 0x80_0000 <= bits.scale as int % 0x8000_0000 < 0x7f80_0000
        },
{
    binary32::law_classes_of_patterns(bits.center_x);
    binary32::law_classes_of_patterns(bits.center_y);
    binary32::law_classes_of_patterns(bits.scale);
}

/// Zooming alone is enough to move away, and so is panning along either axis; a camera
/// that does neither has not moved away. The scale is left outside of the interval of
/// `law_zoom_interval`, and an axis beyond the margin of `law_pan_margin`.
pub proof fn law_each_motion_counts(camera: PoseBits, rendered: PoseBits)
    requires
        camera.usable(),
        rendered.usable(),
    ensures
        ({
            let a = binary32::units(camera.scale);
            let b = binary32::units(rendered.scale);
            let far_x = binary32::absolute(
                binary32::units(camera.center_x) - binary32::units(rendered.center_x),
            );
            let far_y = binary32::absolute(
                binary32::units(camera.center_y) - binary32::units(rendered.center_y),
            );
            &&& b > 0 && 0x200_0000 * a <= 30870077 * b ==> moved_away(camera, rendered)
            &&& b > 0 && 0x100_0000 * a > 18119393 * b ==> moved_away(camera, rendered)
            &&& b < 0 ==> moved_away(camera, rendered)
            &&& b > 0 && 1024 * b < pow2(277) && 0x40_0000 * (5 * far_x) >= 0x40_0001 * (256 * b)
                ==> moved_away(camera, rendered)
            &&& b > 0 && 1024 * b < pow2(277) && 0x40_0000 * (5 * far_y) >= 0x40_0001 * (256 * b)
                ==> moved_away(camera, rendered)
            &&& b > 0 && 1024 * b < pow2(277) && 0x200_0000 * a > 30870077 * b && 0x100_0000 * a
                <= 18119393 * b && 0x40_0000 * (5 * far_x) <= 0x3f_ffff * (256 * b) && 0x40_0000 * (5
                * far_y) <= 0x3f_ffff * (256 * b) ==> !moved_away(camera, rendered)
        }),
{
    law_zoom_interval(camera.scale, rendered.scale);
    lemma_units_sign(camera.scale);
    lemma_units_sign(rendered.scale);
    law_at_rest(camera, rendered);
    let b = binary32::units(rendered.scale);
    if b > 0 && 1024 * b < pow2(277) {
        law_pan_margin(camera.center_x, rendered.center_x, rendered.scale);
        law_pan_margin(camera.center_y, rendered.center_y, rendered.scale);
    }
}

/// Whether a number, given by its pattern, is the one nearest to the rendered scale
/// times `512 * 13421773 / 2^27`, which is a tenth of half the texture; of two that are
/// equally near, the one with the even pattern.
pub open spec fn is_pan_limit(limit: u32, rendered_scale: u32) -> bool {
    let twice = 2 * (13421773 * binary32::units(rendered_scale));
    let below = 0x4_0000 * (binary32::units((limit - 1) as u32) + binary32::units(limit));
    let above = 0x4_0000 * (binary32::units(limit) + binary32::units((limit + 1) as u32));
    &&& 0x100_0000 < limit < 0x7f7f_ffff
    &&& below <= twice <= above
    &&& (twice == below || twice == above) ==> limit % 2 == 0
}

/// Consecutive patterns are one step of the significand apart.
proof fn lemma_successor(bits: u32)
    requires
        0x80_0000 <= bits < 0x7f7f_ffff,
    ensures
        binary32::units(bits) == binary32::significand(bits) * pow2(binary32::scaling(bits)),
        binary32::units((bits + 1) as u32) == (binary32::significand(bits) + 1) * pow2(
            binary32::scaling(bits),
        ),
        0x80_0000 <= binary32::significand(bits) < 0x100_0000,
        binary32::significand(bits) % 2 == bits % 2,
{
    let next = (bits + 1) as u32;
    if binary32::exponent_field(next) != binary32::exponent_field(bits) {
        let k = binary32::scaling(bits);
        lemma_pow2_unfold(k + 1);
        assert(binary32::significand(bits) == 0xff_ffff);
        assert(binary32::significand(next) == 0x80_0000);
        assert(binary32::scaling(next) == k + 1);
        assert(0x80_0000 * pow2(k + 1) == (0xff_ffff + 1) * pow2(k)) by (nonlinear_arith)
            requires
                pow2(k + 1) == 2 * pow2(k),
        ;
    } else {
        assert(binary32::significand(next) == binary32::significand(bits) + 1);
    }
}

/// The pattern of `h * 2^k` units and its neighbours.
#[verifier::spinoff_prover]
proof fn lemma_pattern_of(h: int, k: nat, limit: u32)
    requires
        0x80_0000 <= h <= 0x100_0000,
        5 <= k <= 249,
        limit == k * 0x80_0000 + h,
    ensures
        0x100_0000 < limit < 0x7f7f_ffff,
        limit % 2 == h % 2,
        binary32::units(limit) == h * pow2(k),
        binary32::units((limit + 1) as u32) >= h * pow2(k) + pow2(k),
        h < 0x100_0000 ==> binary32::units((limit + 1) as u32) == h * pow2(k) + pow2(k),
        h > 0x80_0000 ==> binary32::units((limit - 1) as u32) == h * pow2(k) - pow2(k),
        binary32::units((limit - 1) as u32) < h * pow2(k),
{
    let prior = (limit - 1) as u32;
    assert((prior + 1) as u32 == limit);
    lemma_successor(limit);
    lemma_successor(prior);
    let spacing = pow2(k) as int;
    lemma_pow2_pos(k);
    assert((h + 1) * spacing == h * spacing + spacing) by (nonlinear_arith);
    assert((h - 1) * spacing == h * spacing - spacing) by (nonlinear_arith);
    if h == 0x100_0000 {
        lemma_pow2_unfold(k + 1);
        assert(binary32::exponent_field(limit) == k + 2);
        assert(binary32::significand(limit) == 0x80_0000 && binary32::scaling(limit) == k + 1);
        assert(0x80_0000 * pow2(k + 1) == h * spacing && (0x80_0000 + 1) * pow2(k + 1) == h
            * spacing + 2 * spacing) by (nonlinear_arith)
            requires
                pow2(k + 1) == 2 * spacing,
                h == 0x100_0000,
        ;
        assert(binary32::exponent_field(prior) == k + 1);
    } else {
        assert(binary32::exponent_field(limit) == k + 1);
        assert(binary32::significand(limit) == h && binary32::scaling(limit) == k);
        if h > 0x80_0000 {
            assert(binary32::exponent_field(prior) == k + 1);
        } else {
            assert(binary32::exponent_field(prior) == k);
            lemma_pow2_pos((k - 1) as nat);
            let finer = pow2((k - 1) as nat) as int;
            assert((0xff_ffff + 1) * finer == 0xff_ffff * finer + finer) by (nonlinear_arith);
        }
    }
}

/// How near the nearest integer is, at any scale.
proof fn lemma_nearest_even_error(w: int, d: int, p: int)
    requires
        0 <= w,
        0 < d,
        0 < p,
    ensures
        ({
            let off = 2 * (binary32::nearest_even(w, d) * (d * p)) - 2 * (w * p);
            &&& -(d * p) <= off <= d * p
            &&& (off == d * p || off == -(d * p)) ==> binary32::nearest_even(w, d) % 2 == 0
        }),
{
    let h = binary32::nearest_even(w, d);
    let q = w / d;
    vstd::arithmetic::div_mod::lemma_fundamental_div_mod(w, d);
    vstd::arithmetic::div_mod::lemma_mod_bound(w, d);
    assert(d * (q + 1) == d * q + d) by (nonlinear_arith);
    let off = 2 * (d * h) - 2 * w;
    assert(-d <= off <= d);
    assert(off == d || off == -d ==> h % 2 == 0);
    assert(2 * (h * (d * p)) - 2 * (w * p) == off * p) by (nonlinear_arith)
        requires
            off == 2 * (d * h) - 2 * w,
    ;
    assert(-(d * p) <= off * p <= d * p && (off * p == d * p ==> off == d) && (off * p == -(d * p)
        ==> off == -d)) by (nonlinear_arith)
        requires
            -d <= off <= d,
            p > 0,
    ;
}

/// Every scale at which the texture's width is finite has a pan limit.
#[verifier::spinoff_prover]
pub proof fn law_pan_limit_exists(rendered_scale: u32)
    requires
        binary32::normal(rendered_scale),
        rendered_scale < 0x7a80_0000,
    ensures
        exists|limit: u32| is_pan_limit(limit, rendered_scale),
{
    let m = binary32::significand(rendered_scale);
    let e = binary32::scaling(rendered_scale);
    let p = pow2(e) as int;
    lemma2_to64();
    lemma_pow2_pos(e);
    let w = m * 13421773;
    let h = threshold_significand(m);
    let k = threshold_scaling(m, e);
    let d: int = if w < 0x8000_0000_0000 {
        0x80_0000
    } else {
        0x100_0000
    };
    lemma_tenth(m, e);
    lemma_pow2_adds(e, (k - e) as nat);
    lemma_nearest_even_error(w, d, p);
    let limit = (k * 0x80_0000 + h) as u32;
    lemma_pattern_of(h, k, limit);
    let n = 13421773 * binary32::units(rendered_scale);
    assert(n == w * p) by (nonlinear_arith)
        requires
            n == 13421773 * binary32::units(rendered_scale),
            binary32::units(rendered_scale) == m * p,
            w == m * 13421773,
    ;
    let spacing = pow2(k) as int;
    let dp = d * p;
    let step = pow2((k - e) as nat) as int;
    assert(0x4_0000 * spacing == dp) by (nonlinear_arith)
        requires
            spacing == p * step,
            0x4_0000 * step == d,
            dp == d * p,
    ;
    assert(0x4_0000 * (h * spacing) == h * dp) by (nonlinear_arith)
        requires
            0x4_0000 * spacing == dp,
    ;
    if h == 0x80_0000 {
        assert(n >= h * dp) by (nonlinear_arith)
            requires
                n == w * p,
                w >= d * h,
                dp == d * p,
                p > 0,
        ;
    }
    assert(is_pan_limit(limit, rendered_scale));
}

/// The pan limit is the pan threshold.
#[verifier::spinoff_prover]
proof fn lemma_pan_limit(limit: u32, rendered_scale: u32)
    requires
        binary32::normal(rendered_scale),
        rendered_scale < 0x7a80_0000,
        is_pan_limit(limit, rendered_scale),
    ensures
        pan_threshold(rendered_scale) == binary32::units(limit),
{
    let m = binary32::significand(rendered_scale);
    let e = binary32::scaling(rendered_scale);
    let n = m * 13421773 * pow2(e);
    assert(n == 13421773 * binary32::units(rendered_scale)) by (nonlinear_arith)
        requires
            n == m * 13421773 * pow2(e),
            binary32::units(rendered_scale) == m * pow2(e),
    ;
    lemma_pan_threshold(rendered_scale);
    lemma_tenth(m, e);
    lemma_pow2_pos(e);
    assert(n >= 0) by (nonlinear_arith)
        requires
            n == m * 13421773 * pow2(e),
            m >= 0,
            pow2(e) > 0,
    ;
    let prior = (limit - 1) as u32;
    lemma_successor(limit);
    lemma_successor(prior);
    let h = binary32::significand(limit);
    let k = binary32::scaling(limit);
    let g = binary32::significand(prior);
    let j = binary32::scaling(prior);
    lemma_round_size_midpoint(n, 0x4_0000, h, k);
    lemma_round_size_midpoint(n, 0x4_0000, g, j);
    let p = pow2(k) as int;
    let q = pow2(j) as int;
    assert((2 * h + 1) * p * 0x4_0000 == 0x4_0000 * (h * p + (h + 1) * p)) by (nonlinear_arith);
    assert((2 * g + 1) * q * 0x4_0000 == 0x4_0000 * (g * q + (g + 1) * q)) by (nonlinear_arith);
    assert((prior + 1) as u32 == limit);
    assert(binary32::units(limit) == h * p && binary32::units((limit + 1) as u32) == (h + 1) * p);
    assert(binary32::units(prior) == g * q && binary32::units(limit) == (g + 1) * q);
    assert(!binary32::past_midpoint(n, 0x4_0000, h, k));
    assert(binary32::past_midpoint(n, 0x4_0000, g, j));
}

/// Exactly when a camera has moved away, in whole units: if the ratio of the scales lies
/// outside of the interval, or if along an axis it is farther from the rendered center
/// than the midpoint between the pan limit and the next number, or on the midpoint of an
/// odd pattern. At scales whose texture width overflows only the ratio counts.
pub proof fn law_moved_away_exactly(camera: PoseBits, rendered: PoseBits, limit: u32)
    requires
        camera.usable(),
        rendered.usable(),
        rendered.scale < 0x8000_0000,
    ensures
        ({
            let a = binary32::units(camera.scale);
            let b = binary32::units(rendered.scale);
            let zoomed = 0x200_0000 * a <= 30870077 * b || 0x100_0000 * a > 18119393 * b;
            let far_x = binary32::units(camera.center_x) - binary32::units(rendered.center_x);
            let far_y = binary32::units(camera.center_y) - binary32::units(rendered.center_y);
            let reach = binary32::units(limit) + binary32::units((limit + 1) as u32);
            &&& rendered.scale >= 0x7a80_0000 ==> (moved_away(camera, rendered) <==> zoomed)
            &&& rendered.scale < 0x7a80_0000 && is_pan_limit(limit, rendered.scale) ==> (moved_away(
                camera,
                rendered,
            ) <==> {
                ||| zoomed
                ||| 2 * far_x > reach || -2 * far_x > reach
                ||| 2 * far_y > reach || -2 * far_y > reach
                ||| limit % 2 == 1 && (2 * far_x == reach || -2 * far_x == reach)
                ||| limit % 2 == 1 && (2 * far_y == reach || -2 * far_y == reach)
            })
        }),
{
    law_zoom_interval(camera.scale, rendered.scale);
    lemma_units_sign(camera.scale);
    lemma_units_sign(rendered.scale);
    lemma_pan_threshold(rendered.scale);
    lemma_difference_in_range(camera.center_x, rendered.center_x);
    lemma_difference_in_range(camera.center_y, rendered.center_y);
    if rendered.scale < 0x7a80_0000 && is_pan_limit(limit, rendered.scale) {
        lemma_pan_limit(limit, rendered.scale);
        lemma_successor(limit);
        lemma_finite_in_range(limit);
        lemma_finite_in_range(camera.center_x);
        lemma_finite_in_range(camera.center_y);
        let h = binary32::significand(limit);
        let k = binary32::scaling(limit);
        lemma_pow2_pos(k);
        lemma_pow2_unfold(k);
        let p = pow2(k) as int;
        let q = pow2((k - 1) as nat) as int;
        assert(h * p >= 0) by (nonlinear_arith)
            requires
                h >= 0,
                p >= 0,
        ;
        assert(2 * ((2 * h + 1) * q) == h * p + (h + 1) * p) by (nonlinear_arith)
            requires
                p == 2 * q,
        ;
        let far_x = binary32::units(camera.center_x) - binary32::units(rendered.center_x);
        let far_y = binary32::units(camera.center_y) - binary32::units(rendered.center_y);
        lemma_threshold(far_x, h, k);
        lemma_threshold(far_y, h, k);
    }
}

} // verus!
