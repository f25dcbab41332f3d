use pdf_extractor::single::{
    Single, BYTE_MAX, EIGHTY, FOUR, HALF, HUNDREDTH, HUNDRED_TWENTY, INFINITY, NAN, NEG_INFINITY,
    ONE, SIX_FIFTHS, THOUSAND, TWELVE, TWO, TWO_FIFTHS, ZERO,
};

fn s(x: f32) -> Single {
    Single { bits: x.to_bits() }
}

/// The bits of a float, one pattern for all that are not numbers.
fn bits(x: f32) -> u32 {
    if x.is_nan() {
        NAN
    } else {
        x.to_bits()
    }
}

/// Bit patterns: the edges of every range, and some from all over.
fn patterns() -> Vec<u32> {
    let mut all: Vec<u32> = vec![
        0, 1, 2, 3, 0x7f_fffe, 0x7f_ffff, 0x80_0000, 0x80_0001, 0xff_ffff, 0x100_0000, 0x3f7f_ffff,
        0x3f80_0000, 0x3f80_0001, 0x3fff_ffff, 0x4b7f_ffff, 0x4b80_0000, 0x4b80_0001, 0x4eff_ffff,
        0x4f00_0000, 0x5f00_0000, 0x7f7f_fffe, 0x7f7f_ffff, 0x7f80_0000, 0x7fc0_0000, 0x7f80_0001,
        0x437f_0000, 0x3e80_0000, 0x3eff_ffff, 0x3f00_0000,
    ];
    let mut x: u64 = 0x1234_5678_9abc_def1;
    for _ in 0..160 {
        x ^= x << 13;
        x ^= x >> 7;
        x ^= x << 17;
        all.push((x >> 16) as u32 & 0x7fff_ffff);
        // Exponents near each other, where sums do not just keep the larger term.
        all.push(0x3f00_0000 + ((x >> 40) as u32 & 0xff_ffff));
    }
    let negative: Vec<u32> = all.iter().map(|b| b | 0x8000_0000).collect();
    all.extend(negative);
    all
}

#[test]
fn sums_and_differences_round_as_floats_do() {
    let all = patterns();
    for &a in &all {
        for &b in &all {
            let (x, y) = (f32::from_bits(a), f32::from_bits(b));
            assert_eq!(s(x).add(s(y)).bits, bits(x + y), "{a:#x} + {b:#x}");
            assert_eq!(s(x).sub(s(y)).bits, bits(x - y), "{a:#x} - {b:#x}");
        }
    }
}

#[test]
fn products_round_as_floats_do() {
    let all = patterns();
    for &a in &all {
        for &b in &all {
            let (x, y) = (f32::from_bits(a), f32::from_bits(b));
            assert_eq!(s(x).mul(s(y)).bits, bits(x * y), "{a:#x} * {b:#x}");
        }
    }
}

#[test]
fn quotients_round_as_floats_do() {
    let all = patterns();
    for &a in &all {
        for &b in &all {
            let (x, y) = (f32::from_bits(a), f32::from_bits(b));
            assert_eq!(s(x).div(s(y)).bits, bits(x / y), "{a:#x} / {b:#x}");
        }
    }
}

#[test]
fn comparisons_order_as_floats_do() {
    let all = patterns();
    for &a in &all {
        for &b in &all {
            let (x, y) = (f32::from_bits(a), f32::from_bits(b));
            assert_eq!(s(x).lt(s(y)), x < y);
            assert_eq!(s(x).gt(s(y)), x > y);
            assert_eq!(s(x).ge(s(y)), x >= y);
            assert_eq!(s(x).equals(s(y)), x == y);
            if !(x == 0.0 && y == 0.0) {
                assert_eq!(bits(f32::from_bits(s(x).min(s(y)).bits)), bits(x.min(y)));
                assert_eq!(bits(f32::from_bits(s(x).max(s(y)).bits)), bits(x.max(y)));
            }
        }
    }
}

#[test]
fn signs_and_integer_parts() {
    for &a in &patterns() {
        let x = f32::from_bits(a);
        assert_eq!(s(x).neg().bits, (-x).to_bits());
        assert_eq!(s(x).abs().bits, x.abs().to_bits());
        assert_eq!(s(x).to_i32(), x as i32);
        assert_eq!(s(x).to_u8(), x as u8);
    }
}

#[test]
fn integers_round_as_casts_do() {
    let mut n: u64 = 1;
    let mut all: Vec<i64> = vec![0, i64::MAX, i64::MIN, i64::MIN + 1];
    for k in 0..63 {
        all.extend([1i64 << k, (1i64 << k) - 1, (1i64 << k) + 1]);
        n = n.wrapping_mul(6364136223846793005).wrapping_add(1442695040888963407);
        all.push(n as i64 >> k);
    }
    for m in all {
        assert_eq!(Single::from_i64(m).bits, (m as f32).to_bits(), "{m}");
        assert_eq!(Single::from_i64(m.wrapping_neg()).bits, (m.wrapping_neg() as f32).to_bits());
        assert_eq!(Single::from_u64(m as u64).bits, (m as u64 as f32).to_bits());
    }
}

#[test]
fn constants_are_the_nearest_floats() {
    assert_eq!(ZERO, 0.0f32.to_bits());
    assert_eq!(HUNDREDTH, 0.01f32.to_bits());
    assert_eq!(TWO_FIFTHS, 0.4f32.to_bits());
    assert_eq!(HALF, 0.5f32.to_bits());
    assert_eq!(ONE, 1.0f32.to_bits());
    assert_eq!(SIX_FIFTHS, 1.2f32.to_bits());
    assert_eq!(TWO, 2.0f32.to_bits());
    assert_eq!(FOUR, 4.0f32.to_bits());
    assert_eq!(TWELVE, 12.0f32.to_bits());
    assert_eq!(EIGHTY, 80.0f32.to_bits());
    assert_eq!(HUNDRED_TWENTY, 120.0f32.to_bits());
    assert_eq!(BYTE_MAX, 255.0f32.to_bits());
    assert_eq!(THOUSAND, 1000.0f32.to_bits());
    assert_eq!(INFINITY, f32::INFINITY.to_bits());
    assert_eq!(NEG_INFINITY, f32::NEG_INFINITY.to_bits());
    assert!(f32::from_bits(NAN).is_nan());
}
