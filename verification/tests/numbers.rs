use fp8_linear::convert::{narrow_to_bf16, narrow_to_e4m3, narrow_to_f16, widen_bf16, widen_e4m3};
use fp8_linear::single::{clamp, divide, multiply, INFINITY, NAN, ONE};

/// A stream of bit patterns.
fn next(state: &mut u64) -> u32 {
    *state = state
        .wrapping_mul(6364136223846793005)
        .wrapping_add(1442695040888963407);
    (*state >> 32) as u32
}

fn bits(x: f32) -> u32 {
    if x.is_nan() {
        NAN
    } else {
        x.to_bits()
    }
}

const CORNERS: [u32; 22] = [
    0x0000_0000, 0x8000_0000, 0x0000_0001, 0x8000_0001, 0x0000_0002, 0x0000_0003, 0x007f_ffff,
    0x0080_0000, 0x0080_0001, 0x00ff_ffff, 0x3f7f_ffff, 0x3f80_0000, 0x3f80_0001, 0xbf80_0000,
    0x4000_0000, 0x43e0_0000, 0x7f7f_ffff, 0xff7f_ffff, 0x7f80_0000, 0xff80_0000, 0x7fc0_0000,
    0x7f80_0001,
];

#[test]
fn products_are_those_of_the_processor() {
    for a in CORNERS {
        for b in CORNERS {
            let expected = f32::from_bits(a) * f32::from_bits(b);
            assert_eq!(multiply(a, b), bits(expected), "{a:#x} * {b:#x}");
        }
    }
    let mut state = 1;
    for _ in 0..200_000 {
        let (a, b) = (next(&mut state), next(&mut state));
        let expected = f32::from_bits(a) * f32::from_bits(b);
        assert_eq!(multiply(a, b), bits(expected), "{a:#x} * {b:#x}");
    }
}

#[test]
fn subnormal_products_are_those_of_the_processor() {
    let mut state = 2;
    for _ in 0..100_000 {
        let a = next(&mut state) % 0x2000_0000;
        let b = 0x3000_0000 + next(&mut state) % 0x1000_0000;
        let expected = f32::from_bits(a) * f32::from_bits(b);
        assert_eq!(multiply(a, b), bits(expected), "{a:#x} * {b:#x}");
    }
}

#[test]
fn quotients_are_those_of_the_processor() {
    for a in CORNERS {
        for b in CORNERS {
            let expected = f32::from_bits(a) / f32::from_bits(b);
            assert_eq!(divide(a, b), bits(expected), "{a:#x} / {b:#x}");
        }
    }
    let mut state = 3;
    for _ in 0..200_000 {
        let (a, b) = (next(&mut state), next(&mut state));
        let expected = f32::from_bits(a) / f32::from_bits(b);
        assert_eq!(divide(a, b), bits(expected), "{a:#x} / {b:#x}");
    }
}

#[test]
fn subnormal_quotients_are_those_of_the_processor() {
    let mut state = 4;
    for _ in 0..100_000 {
        let a = next(&mut state) % 0x1000_0000;
        let b = 0x4000_0000 + next(&mut state) % 0x1000_0000;
        let expected = f32::from_bits(a) / f32::from_bits(b);
        assert_eq!(divide(a, b), bits(expected), "{a:#x} / {b:#x}");
    }
}

#[test]
fn clamping_holds_numbers_between_two_limits() {
    let limit = 448.0f32.to_bits();
    let mut state = 5;
    for _ in 0..100_000 {
        let x = next(&mut state);
        let value = f32::from_bits(x);
        if !value.is_nan() {
            assert_eq!(clamp(x, limit), value.clamp(-448.0, 448.0).to_bits());
        }
    }
    assert_eq!(clamp(NAN, limit), NAN);
    assert_eq!(clamp(INFINITY, limit), limit);
    assert_eq!(clamp((-1000.0f32).to_bits(), limit), (-448.0f32).to_bits());
}

#[test]
fn every_fp8_number_widens_to_its_value() {
    for x in 0..=255u8 {
        let expected = float8::F8E4M3::from_bits(x).to_f32();
        assert_eq!(widen_e4m3(x), bits(expected), "{x:#x}");
    }
    assert_eq!(widen_e4m3(0x38), ONE);
    assert_eq!(widen_e4m3(0x7e), 448.0f32.to_bits());
    assert_eq!(widen_e4m3(0x01), (1.0f32 / 512.0).to_bits());
    assert_eq!(widen_e4m3(0xff), NAN);
}

#[test]
fn every_brain_float_widens_to_its_value() {
    for x in 0..=0xffffu16 {
        let quiet = if x % 0x8000 > 0x7f80 { x | 0x40 } else { x };
        assert_eq!(widen_bf16(x), (quiet as u32) << 16, "{x:#x}");
        assert_eq!(widen_bf16(x), half::bf16::from_bits(x).to_f32().to_bits(), "{x:#x}");
    }
    assert_eq!(widen_bf16(0x3f80), ONE);
}

#[test]
fn brain_floats_are_rounded_as_by_half() {
    let mut state = 6;
    for _ in 0..300_000 {
        let x = next(&mut state);
        let expected = half::bf16::from_f32(f32::from_bits(x)).to_bits();
        assert_eq!(narrow_to_bf16(x), expected, "{x:#x}");
    }
    for x in CORNERS {
        let expected = half::bf16::from_f32(f32::from_bits(x)).to_bits();
        assert_eq!(narrow_to_bf16(x), expected, "{x:#x}");
    }
    // Two ties: down to the even neighbour, and up to it.
    assert_eq!(narrow_to_bf16(0x3f80_8000), 0x3f80);
    assert_eq!(narrow_to_bf16(0x3f81_8000), 0x3f82);
}

#[test]
fn half_floats_are_rounded_as_by_half() {
    let mut state = 7;
    for _ in 0..200_000 {
        let x = next(&mut state);
        let expected = half::f16::from_f32(f32::from_bits(x)).to_bits();
        assert_eq!(narrow_to_f16(x), expected, "{x:#x}");
    }
    for _ in 0..200_000 {
        let x = 0x3000_0000 + next(&mut state) % 0x2000_0000;
        let expected = half::f16::from_f32(f32::from_bits(x)).to_bits();
        assert_eq!(narrow_to_f16(x), expected, "{x:#x}");
    }
    for x in CORNERS {
        let expected = half::f16::from_f32(f32::from_bits(x)).to_bits();
        assert_eq!(narrow_to_f16(x), expected, "{x:#x}");
    }
}

#[test]
fn fp8_numbers_are_rounded_as_by_float8() {
    let mut state = 8;
    for _ in 0..200_000 {
        let x = 0x3a00_0000 + next(&mut state) % 0x0c00_0000;
        let expected = float8::F8E4M3::from_f32(f32::from_bits(x)).to_bits();
        assert_eq!(narrow_to_e4m3(x), expected, "{x:#x}");
        let expected = float8::F8E4M3::from_f32(-f32::from_bits(x)).to_bits();
        assert_eq!(narrow_to_e4m3(x | 0x8000_0000), expected, "-{x:#x}");
    }
    for _ in 0..200_000 {
        let x = next(&mut state);
        let expected = float8::F8E4M3::from_f32(f32::from_bits(x)).to_bits();
        assert_eq!(narrow_to_e4m3(x), expected, "{x:#x}");
    }
    for x in CORNERS {
        let expected = float8::F8E4M3::from_f32(f32::from_bits(x)).to_bits();
        assert_eq!(narrow_to_e4m3(x), expected, "{x:#x}");
    }
}

#[test]
fn fp8_saturates_at_448() {
    assert_eq!(narrow_to_e4m3(448.0f32.to_bits()), 0x7e);
    assert_eq!(narrow_to_e4m3(1000.0f32.to_bits()), 0x7e);
    assert_eq!(narrow_to_e4m3(f32::INFINITY.to_bits()), 0x7e);
    assert_eq!(narrow_to_e4m3(f32::NEG_INFINITY.to_bits()), 0xfe);
    assert_eq!(narrow_to_e4m3(f32::NAN.to_bits()), 0x7f);
    assert_eq!(narrow_to_e4m3(431.9f32.to_bits()), 0x7d);
}

#[test]
fn every_fp8_number_survives_widening_and_narrowing() {
    for x in 0..=255u8 {
        if x % 0x80 != 0x7f {
            assert_eq!(narrow_to_e4m3(widen_e4m3(x)), x);
        }
    }
}

#[test]
fn every_brain_float_survives_widening_and_narrowing() {
    for x in 0..=0xffffu16 {
        if x % 0x8000 <= 0x7f80 {
            assert_eq!(narrow_to_bf16(widen_bf16(x)), x);
        }
    }
}
