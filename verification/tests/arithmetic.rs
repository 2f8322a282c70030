use rust_signals::Binary32;

fn next(state: &mut u64) -> u32 {
    *state = state.wrapping_mul(6364136223846793005).wrapping_add(1442695040888963407);
    (*state >> 32) as u32
}

fn same(ours: Binary32, native: f32) -> bool {
    if native.is_nan() {
        let bits = ours.to_bits();
        (bits & 0x7f80_0000) == 0x7f80_0000 && (bits & 0x007f_ffff) != 0
    } else {
        ours.to_bits() == native.to_bits()
    }
}

fn edge_patterns() -> Vec<u32> {
    let magnitudes: [u32; 26] = [
        0x0000_0000, 0x0000_0001, 0x0000_0002, 0x0000_0003, 0x003f_ffff, 0x0040_0000, 0x007f_ffff,
        0x0080_0000, 0x0080_0001, 0x00ff_ffff, 0x0100_0000, 0x3300_0000, 0x3380_0000, 0x3400_0000,
        0x3f00_0000, 0x3f7f_ffff, 0x3f80_0000, 0x3f80_0001, 0x4000_0000, 0x4b00_0000, 0x4b80_0000,
        0x7f00_0000, 0x7f7f_ffff, 0x7f80_0000, 0x7f80_0001, 0x7fc0_0000,
    ];
    let mut all = Vec::new();
    for m in magnitudes {
        all.push(m);
        all.push(m | 0x8000_0000);
    }
    all
}

fn check_pair(a: u32, b: u32) {
    let x = Binary32::from_bits(a);
    let y = Binary32::from_bits(b);
    let fx = f32::from_bits(a);
    let fy = f32::from_bits(b);
    assert!(same(x.times(y), fx * fy), "{:#x} * {:#x}", a, b);
    assert!(same(x.plus(y), fx + fy), "{:#x} + {:#x}", a, b);
    assert!(same(x.minus(y), fx - fy), "{:#x} - {:#x}", a, b);
    assert!(same(x.divided_by(y), fx / fy), "{:#x} / {:#x}", a, b);
}

#[test]
fn arithmetic_agrees_with_hardware_on_edge_values() {
    let edges = edge_patterns();
    for &a in &edges {
        for &b in &edges {
            check_pair(a, b);
        }
    }
}

#[test]
fn arithmetic_agrees_with_hardware_on_scattered_values() {
    let mut state: u64 = 0x1234_5678_9abc_def0;
    for _ in 0..200_000 {
        let a = next(&mut state);
        let b = next(&mut state);
        check_pair(a, b);
    }
}

#[test]
fn arithmetic_agrees_with_hardware_on_near_values() {
    // Operands whose exponents are close, where sums cancel and round.
    let mut state: u64 = 0x0fed_cba9_8765_4321;
    for _ in 0..200_000 {
        let a = next(&mut state);
        let shift = next(&mut state) % 60;
        let exponent = ((a >> 23) & 0xff) as i32 + shift as i32 - 30;
        let exponent = exponent.clamp(0, 254) as u32;
        let b = (next(&mut state) & 0x807f_ffff) | (exponent << 23);
        check_pair(a, b);
    }
}

#[test]
fn arithmetic_agrees_with_hardware_on_edge_against_scattered() {
    let edges = edge_patterns();
    let mut state: u64 = 0x5555_aaaa_3333_cccc;
    for &a in &edges {
        for _ in 0..2000 {
            let b = next(&mut state);
            check_pair(a, b);
            check_pair(b, a);
        }
    }
}

#[test]
fn every_sample_converts_exactly_and_back() {
    for s in i16::MIN..=i16::MAX {
        let x = Binary32::from_sample(s);
        assert_eq!(x.to_bits(), (s as f32).to_bits());
        assert_eq!(x.to_sample(), s);
    }
}

#[test]
fn to_sample_agrees_with_hardware_cast() {
    let mut state: u64 = 0x0bad_cafe_dead_beef;
    for _ in 0..500_000 {
        let a = next(&mut state);
        assert_eq!(Binary32::from_bits(a).to_sample(), f32::from_bits(a) as i16, "{:#x}", a);
    }
    for &a in &edge_patterns() {
        assert_eq!(Binary32::from_bits(a).to_sample(), f32::from_bits(a) as i16, "{:#x}", a);
    }
}

#[test]
fn to_sample_drops_the_fraction_and_saturates() {
    let cases: [(f32, i16); 12] = [
        (0.0, 0),
        (-0.0, 0),
        (0.99, 0),
        (-0.99, 0),
        (1.5, 1),
        (-1.5, -1),
        (32766.5, 32766),
        (32767.0, 32767),
        (32768.0, 32767),
        (-32768.0, -32768),
        (-32769.0, -32768),
        (1.0e30, 32767),
    ];
    for (value, sample) in cases {
        assert_eq!(Binary32::from_bits(value.to_bits()).to_sample(), sample);
    }
    assert_eq!(Binary32::from_bits(f32::NAN.to_bits()).to_sample(), 0);
    assert_eq!(Binary32::from_bits(f32::INFINITY.to_bits()).to_sample(), 32767);
    assert_eq!(Binary32::from_bits(f32::NEG_INFINITY.to_bits()).to_sample(), -32768);
}

#[test]
fn parts_of_one_and_of_the_least_values() {
    let one = Binary32::from_bits(0x3f80_0000);
    assert!(!one.sign_bit());
    assert_eq!(one.exponent_bits(), 127);
    assert_eq!(one.fraction_bits(), 0);
    assert_eq!(one.significand_bits(), 0x80_0000);
    assert_eq!(one.exponent_value(), -23);
    let least = Binary32::from_bits(0x8000_0001);
    assert!(least.sign_bit());
    assert_eq!(least.significand_bits(), 1);
    assert_eq!(least.exponent_value(), -149);
    assert_eq!(one.negate().to_bits(), 0xbf80_0000);
    assert_eq!(one.negate().negate(), one);
}

fn value(x: f32) -> Binary32 {
    Binary32::from_bits(x.to_bits())
}

#[test]
fn sums_halfway_between_two_values_go_to_the_even_one() {
    // 2^24 + 1 and 2^24 + 3 lie halfway between two values each.
    assert_eq!(value(16777216.0).plus(value(1.0)), value(16777216.0));
    assert_eq!(value(16777216.0).plus(value(3.0)), value(16777220.0));
    assert_eq!(value(-16777216.0).minus(value(1.0)), value(-16777216.0));
    assert_eq!(value(-16777216.0).minus(value(3.0)), value(-16777220.0));
}

#[test]
fn quotients_and_products_at_the_ends_of_the_range() {
    assert_eq!(value(1.0).divided_by(value(3.0)).to_bits(), 0x3eaa_aaab);
    assert_eq!(value(-2.0).divided_by(value(3.0)).to_bits(), 0xbf2a_aaab);
    assert_eq!(value(f32::MAX).times(value(2.0)), value(f32::INFINITY));
    assert_eq!(value(f32::MAX).plus(value(f32::MAX)), value(f32::INFINITY));
    assert_eq!(value(1.0).divided_by(value(0.0)), value(f32::INFINITY));
    assert_eq!(value(-1.0).divided_by(value(0.0)), value(f32::NEG_INFINITY));
    assert_eq!(value(0.0).divided_by(value(0.0)).to_bits(), 0x7fc0_0000);
    assert_eq!(value(f32::INFINITY).minus(value(f32::INFINITY)).to_bits(), 0x7fc0_0000);
    assert_eq!(value(f32::INFINITY).times(value(0.0)).to_bits(), 0x7fc0_0000);
    // Half the least value goes to zero, three quarters of it to the least value.
    let least = Binary32::from_bits(1);
    assert_eq!(least.times(value(0.5)).to_bits(), 0);
    assert_eq!(least.times(value(0.75)).to_bits(), 1);
    assert_eq!(least.negate().times(value(0.5)).to_bits(), 0x8000_0000);
    assert_eq!(least.divided_by(value(f32::MAX)).to_bits(), 0);
}

#[test]
fn zeros_keep_their_signs() {
    assert_eq!(value(0.0).plus(value(-0.0)).to_bits(), 0);
    assert_eq!(value(-0.0).plus(value(-0.0)).to_bits(), 0x8000_0000);
    assert_eq!(value(1.5).minus(value(1.5)).to_bits(), 0);
    assert_eq!(value(-1.5).plus(value(1.5)).to_bits(), 0);
    assert_eq!(value(-0.0).times(value(3.0)).to_bits(), 0x8000_0000);
    assert_eq!(value(0.0).divided_by(value(-3.0)).to_bits(), 0x8000_0000);
}
