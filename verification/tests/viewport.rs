use rgis_basemap::binary32::{decode, is_finite, is_normal, sign_of_sum};
use rgis_basemap::binary64::widen;
use rgis_basemap::viewport::{
    Pose, PoseBits, HALF_BITS, ONE_BITS, PAN_DELTA_BITS, SCALE_DELTA_BITS, TEXTURE_SIZE,
    TEXTURE_SIZE_BITS,
};

/// The rule in native single-precision arithmetic.
fn left_natively(camera: (f32, f32, f32), rendered: (f32, f32, f32)) -> bool {
    let (cam_x, cam_y, cam_scale) = camera;
    let (center_x, center_y, scale) = rendered;
    let scale_changed = ((cam_scale / scale) - 1.0).abs() > 0.08;
    let texture_world_half = (TEXTURE_SIZE as f32 * scale) * 0.5;
    let pan_threshold = texture_world_half * 0.1;
    let pan_changed =
        (cam_x - center_x).abs() > pan_threshold || (cam_y - center_y).abs() > pan_threshold;
    scale_changed || pan_changed
}

fn pose(x: f32, y: f32, scale: f32) -> Option<Pose> {
    Pose::new(PoseBits {
        center_x: x.to_bits(),
        center_y: y.to_bits(),
        scale: scale.to_bits(),
    })
}

fn left(camera: (f32, f32, f32), rendered: (f32, f32, f32)) -> bool {
    let camera = pose(camera.0, camera.1, camera.2).unwrap();
    let rendered = pose(rendered.0, rendered.1, rendered.2).unwrap();
    camera.moved_away_from(&rendered)
}

/// A xorshift generator.
struct Numbers(u64);

impl Numbers {
    fn next(&mut self) -> u64 {
        self.0 ^= self.0 << 13;
        self.0 ^= self.0 >> 7;
        self.0 ^= self.0 << 17;
        self.0
    }

    fn finite(&mut self) -> f32 {
        loop {
            let number = f32::from_bits((self.next() >> 16) as u32);
            if number.is_finite() {
                return number;
            }
        }
    }

    fn normal(&mut self) -> f32 {
        loop {
            let number = self.finite();
            if number.is_normal() {
                return number;
            }
        }
    }

    fn nudge(&mut self, number: f32, spread: u32) -> f32 {
        let offset = (self.next() >> 20) as u32 % (2 * spread + 1);
        f32::from_bits(number.to_bits().wrapping_add(offset).wrapping_sub(spread))
    }
}

#[test]
fn constants_are_the_patterns_of_their_numbers() {
    assert_eq!(TEXTURE_SIZE_BITS, 1024.0f32.to_bits());
    assert_eq!(TEXTURE_SIZE, 1024);
    assert_eq!(SCALE_DELTA_BITS, 0.08f32.to_bits());
    assert_eq!(PAN_DELTA_BITS, 0.1f32.to_bits());
    assert_eq!(ONE_BITS, 1.0f32.to_bits());
    assert_eq!(HALF_BITS, 0.5f32.to_bits());
}

#[test]
fn classifies_like_native_numbers() {
    let mut numbers = Numbers(0x1234_5678_9abc_def1);
    for number in [
        0.0f32,
        -0.0,
        1.0,
        -1.0,
        f32::MAX,
        f32::MIN,
        f32::MIN_POSITIVE,
        f32::from_bits(1),
        f32::from_bits(0x7f_ffff),
        f32::INFINITY,
        f32::NEG_INFINITY,
        f32::NAN,
    ] {
        assert_eq!(is_finite(number.to_bits()), number.is_finite());
        assert_eq!(is_normal(number.to_bits()), number.is_normal());
    }
    for _ in 0..100_000 {
        let bits = (numbers.next() >> 8) as u32;
        assert_eq!(is_finite(bits), f32::from_bits(bits).is_finite());
        assert_eq!(is_normal(bits), f32::from_bits(bits).is_normal());
    }
}

#[test]
fn takes_numbers_apart() {
    let parts = decode((-1.5f32).to_bits());
    assert!(parts.negative);
    assert_eq!(parts.significand, 0xc0_0000);
    assert_eq!(parts.scaling, 126);
    let parts = decode(f32::from_bits(5).to_bits());
    assert!(!parts.negative);
    assert_eq!(parts.significand, 5);
    assert_eq!(parts.scaling, 0);
}

#[test]
fn adds_terms_that_lie_far_apart() {
    assert!(sign_of_sum(1, 200, -3, 100, -5, 0) > 0);
    assert!(sign_of_sum(-5, 0, 1, 200, -1, 200) < 0);
    assert!(sign_of_sum(1, 3, -2, 2, 0, 9) == 0);
    assert!(sign_of_sum(-2, 2, 1, 3, 1, 0) > 0);
    assert!(sign_of_sum(-1, 90, 1, 31, 1, 5) < 0);
    assert!(sign_of_sum(7, 1, -7, 0, -8, 0) < 0);
}

#[test]
fn poses_need_a_finite_center_and_a_normal_scale() {
    assert!(pose(0.0, -0.0, 1.0).is_some());
    assert!(pose(f32::from_bits(1), f32::MAX, -2.0).is_some());
    assert!(pose(f32::NAN, 0.0, 1.0).is_none());
    assert!(pose(0.0, f32::INFINITY, 1.0).is_none());
    assert!(pose(0.0, 0.0, 0.0).is_none());
    assert!(pose(0.0, 0.0, f32::from_bits(1)).is_none());
    assert!(pose(0.0, 0.0, f32::NAN).is_none());
    assert!(pose(0.0, 0.0, f32::NEG_INFINITY).is_none());
    let kept = pose(3.5, -4.25, 0.125).unwrap();
    assert_eq!(f32::from_bits(kept.center_x()), 3.5);
    assert_eq!(f32::from_bits(kept.center_y()), -4.25);
    assert_eq!(f32::from_bits(kept.scale()), 0.125);
}

#[test]
fn zoom_threshold() {
    let at = |scale: f32| left((0.0, 0.0, scale), (0.0, 0.0, 1.0));
    assert!(!at(1.0));
    assert!(!at(1.079));
    assert!(at(1.081));
    assert!(!at(0.921));
    assert!(at(0.919));
    assert!(!at(f32::from_bits(0x3f8a_3d70)));
    assert!(at(f32::from_bits(0x3f8a_3d71)));
    assert!(at(2.0));
    assert!(at(-1.0));
    assert!(at(f32::MAX));
    assert!(at(f32::MIN_POSITIVE));
}

#[test]
fn pan_threshold() {
    // A tenth of half of 1024 pixels at ten world units per pixel.
    let at = |x: f32, y: f32| left((x, y, 10.0), (1000.0, 2000.0, 10.0));
    assert!(!at(1000.0, 2000.0));
    assert!(!at(1511.0, 2000.0));
    assert!(at(1513.0, 2000.0));
    assert!(!at(489.0, 2000.0));
    assert!(at(487.0, 2000.0));
    assert!(!at(1000.0, 2511.0));
    assert!(at(1000.0, 2513.0));
    assert!(!at(1000.0, 1489.0));
    assert!(at(1000.0, 1487.0));
}

#[test]
fn at_rest_only_with_a_positive_scale() {
    let here = (12345.678, -9876.543, 150.0);
    assert!(!left(here, here));
    let mirrored = (12345.678, -9876.543, -150.0);
    assert!(left(mirrored, mirrored));
}

#[test]
fn overflowing_texture_width_is_never_panned_away_from() {
    let scale = 3.4e35f32;
    assert!((1024.0 * scale).is_infinite());
    assert!(!left((f32::MAX, 0.0, scale), (-f32::MAX, 0.0, scale)));
    let scale = 3.3e35f32;
    assert!(left((f32::MAX, 0.0, scale), (-f32::MAX, 0.0, scale)));
}

#[test]
fn agrees_with_native_arithmetic_everywhere() {
    let mut numbers = Numbers(0xdead_beef_cafe_f00d);
    for _ in 0..300_000 {
        let camera = (numbers.finite(), numbers.finite(), numbers.normal());
        let rendered = (numbers.finite(), numbers.finite(), numbers.normal());
        assert_eq!(left(camera, rendered), left_natively(camera, rendered));
    }
}

#[test]
fn agrees_with_native_arithmetic_near_the_zoom_threshold() {
    let mut numbers = Numbers(0x0123_4567_89ab_cdef);
    for round in 0..300_000 {
        let scale = numbers.normal().abs();
        let factor = [0.92f32, 1.08, 1.0, 0.5, 2.0][round % 5];
        let zoomed = numbers.nudge(scale * factor, 3);
        if !zoomed.is_normal() {
            continue;
        }
        let camera = (0.0, 0.0, zoomed);
        let rendered = (0.0, 0.0, scale);
        assert_eq!(left(camera, rendered), left_natively(camera, rendered));
    }
}

#[test]
fn agrees_with_native_arithmetic_near_the_pan_threshold() {
    let mut numbers = Numbers(0xfeed_face_0bad_c0de);
    for round in 0..300_000 {
        let scale = f32::from_bits(
            0x80_0000 + (numbers.next() >> 13) as u32 % (0x7b00_0000 - 0x80_0000),
        );
        let threshold = 1024.0 * scale * 0.5 * 0.1;
        let center = match round % 3 {
            0 => 0.0,
            1 => numbers.nudge(threshold, 0x200_0000),
            _ => -numbers.nudge(threshold, 0x100_0000),
        };
        let x = numbers.nudge(center + threshold, 2);
        let y = numbers.nudge(center - threshold, 2);
        if !x.is_finite() || !y.is_finite() || !center.is_finite() {
            continue;
        }
        for camera in [(x, center, scale), (center, y, scale), (center, x, scale)] {
            let rendered = (center, center, scale);
            assert_eq!(left(camera, rendered), left_natively(camera, rendered));
        }
    }
}

#[test]
fn widens_like_native_numbers() {
    let mut numbers = Numbers(0x5555_aaaa_3333_cccc);
    for number in [
        0.0f32,
        -0.0,
        1.0,
        -1.0,
        f32::MAX,
        f32::MIN,
        f32::MIN_POSITIVE,
        f32::from_bits(1),
        f32::from_bits(0x8000_0003),
        f32::from_bits(0x7f_ffff),
    ] {
        assert_eq!(widen(number.to_bits()), (number as f64).to_bits());
    }
    for _ in 0..200_000 {
        let number = numbers.finite();
        let wide = widen(number.to_bits());
        assert_eq!(wide, (number as f64).to_bits());
        assert_eq!((f64::from_bits(wide) as f32).to_bits(), number.to_bits());
    }
    for _ in 0..10_000 {
        let subnormal = f32::from_bits((numbers.next() >> 30) as u32 % 0x80_0000);
        assert_eq!(widen(subnormal.to_bits()), (subnormal as f64).to_bits());
    }
}
