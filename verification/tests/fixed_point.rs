use fixed_dec::fixed::FixedDec;
use std::cmp::Ordering;

const EPSILON: f32 = 0.000001;

fn to_float(dec: &FixedDec) -> f32 {
    f32::from_bits(dec.to_f32_bits())
}

fn from_float(x: f32) -> FixedDec {
    FixedDec::from_f32_bits(x.to_bits())
}

fn check_conversion(x: f32) {
    let dec = from_float(x);
    let back = to_float(&dec);
    assert!(
        (x - back).abs() < EPSILON,
        "\n  left: {:032b} = {:?}\n right: {:032b} = {:?}",
        x.to_bits(),
        x,
        back.to_bits(),
        back,
    );
}

#[test]
fn conversion() {
    check_conversion(0.0);
    check_conversion(-0.0);
    check_conversion(f32::from_bits(0b00000000_00000000_00000000_00000001));
    check_conversion(f32::from_bits(0b00000000_01000000_00000000_00000001));
    check_conversion(f32::from_bits(0b00010000_01000000_00000000_00000001));
    check_conversion(f32::from_bits(0b10000000_00000000_00000000_00000001));
    check_conversion(f32::from_bits(0b10000100_00010000_00010000_00100001));
    check_conversion(f32::from_bits(0b10000100_00000000_00000000_00000000));
    check_conversion(f32::from_bits(0b00111111_11111111_11111111_11111111));
    check_conversion(f32::from_bits(0b10111111_11111111_11111111_11111111));
    check_conversion(0.75 + 0.125);
    check_conversion(1.75);
    check_conversion(1.0 / 16.0);
    check_conversion(3.75);
    check_conversion(-3.75);
    check_conversion(1000000000.75);
    check_conversion(-1000000000.75);
    assert!(from_float(0.0).is_zero());
    check_conversion(-1.0);
}

fn check_add(x: f32, y: f32) {
    let a = x + y;
    let dec = from_float(x).add(&from_float(y));
    let back = to_float(&dec);
    assert!((a - back).abs() < EPSILON, "{} + {} gave {:?}", x, y, back);
}

#[test]
fn add_sub() {
    check_add(0.25, 0.75);
    check_add(1.25, 0.125);
    check_add(1.25, -0.125);
    check_add(100.25, -0.125);
    check_add(-1.25, 0.125);
    check_add(-100.25, -0.125);
    check_add(100.25, -0.125);
    check_add(0.25, -0.00000000125);
    check_add(0.25, -0.0000125);
    check_add(100000000000000.0, -100000000000.0);
    check_add(0.0000310, -0.0042042);
    check_add(-0.0000310, 0.0002042);
    let x = -0.0016598016;
    let y = 0.0028538946;
    let mut a = from_float(x);
    a.set_whole_len(1);
    let b = from_float(y);
    let res = a.add(&b);
    let back = to_float(&res);
    assert!(
        ((x + y) - back).abs() < EPSILON,
        "{} + {} gave {:?}",
        x,
        y,
        back,
    );
}

fn check_mul(x: f32, y: f32) {
    let a = x * y;
    let dec = from_float(x).mul(&from_float(y));
    let back = to_float(&dec);
    assert!((a - back).abs() < EPSILON, "{:?} * {:?} gave {:?}", x, y, back);
}

#[test]
fn mul() {
    check_mul(0.0, 0.0);
    check_mul(1.0, 1.0);
    check_mul(1.0, 0.0);
    check_mul(2.0, 1.0);
    check_mul(2.0, 0.5);
    check_mul(20.0, 0.245);
    check_mul(0.03819, 0.0183488);
    check_mul(30492.39, 9130.391);
    check_mul(2.0, -1.0);
    check_mul(0.0, -1.0);
    check_mul(-1.0, 0.0);
    check_mul(1.0, -1.0);
    check_mul(2.0, -1.20904);
    check_mul(-249.0, -1.20904);
    check_mul(-30492.39, 9130.391);
    check_mul(-249.0, 0.000031421);
}

fn check_shr(x: i32, y: i32) {
    let a = (x as f32) / 2f32.powi(y);
    let dec = from_float(x as f32).shr(y);
    let back = to_float(&dec);
    assert!((a - back).abs() < EPSILON, "{:?} >> {:?} gave {:?}", x, y, back);
}

#[test]
fn shr() {
    check_shr(1, 3);
    check_shr(1, -3);
    check_shr(1, 33);
    check_shr(1, -33);
}

#[test]
fn round_trip_is_bit_exact() {
    // The proven round trip: every finite pattern comes back bit for bit.
    let patterns: [u32; 12] = [
        0,
        0x8000_0000,
        1,
        0x0040_0001,
        0x7f7f_ffff,
        0xff7f_ffff,
        0x3f80_0000,
        0x0080_0000,
        0x0000_0001,
        0x807f_ffff,
        0x4049_0fdb,
        0xc2c8_0000,
    ];
    let mut i = 0;
    while i < patterns.len() {
        let b = patterns[i];
        let dec = FixedDec::from_f32_bits(b);
        assert_eq!(dec.to_f32_bits(), b);
        i += 1;
    }
}

#[test]
fn trim_strips_zero_words() {
    let mut x = FixedDec::from_parts(false, 3, vec![0, 0, 5, 7, 0]);
    x.trim();
    assert_eq!(x.parts().as_slice(), &[5, 7]);
    assert_eq!(x.dec_len(), 1);
    // A second trim changes nothing.
    let before: Vec<u32> = x.parts().clone();
    x.trim();
    assert_eq!(x.parts(), &before);
    // An all-zero buffer collapses to the canonical zero, sign included.
    let mut z = FixedDec::from_parts(true, 9, vec![0, 0]);
    z.trim();
    assert!(z.is_zero());
    assert!(z.is_pos());
    assert_eq!(z.parts().len(), 0);
}

#[test]
fn additive_identity_and_inverse() {
    let x = from_float(12.3125);
    let z = x.add(&x.neg());
    assert!(z.is_zero());
    assert_eq!(z.parts().len(), 0);
    let y = x.add(&FixedDec::zeros());
    assert_eq!(y.to_f32_bits(), x.to_f32_bits());
    assert_eq!(y.parts(), x.parts());
}

#[test]
fn multiplication_sign_rule() {
    assert!(from_float(2.5).mul(&from_float(-3.5)).is_neg());
    assert!(from_float(-2.5).mul(&from_float(-3.5)).is_pos());
    assert!(from_float(2.5).mul(&from_float(3.5)).is_pos());
    let z = from_float(0.0).mul(&from_float(-123.25));
    assert!(z.is_zero());
    assert!(z.is_pos());
    assert_eq!(z.parts().len(), 0);
}

#[test]
fn floor_ceil_behaviour() {
    assert_eq!(to_float(&from_float(2.5).floor()), 2.0);
    assert_eq!(to_float(&from_float(-2.5).floor()), -3.0);
    assert_eq!(to_float(&from_float(2.0).floor()), 2.0);
    assert_eq!(to_float(&from_float(-2.0).floor()), -2.0);
    assert_eq!(to_float(&from_float(2.5).ceil()), 3.0);
    assert_eq!(to_float(&from_float(-2.5).ceil()), -2.0);
    // Values without fractional words are fixed points of both.
    assert_eq!(to_float(&from_float(2.0).ceil()), 2.0);
    assert_eq!(to_float(&from_float(-2.0).ceil()), -2.0);
    assert_eq!(to_float(&from_float(0.0).ceil()), 0.0);
    // floor(x) <= x <= ceil(x) on a few samples.
    let samples = [-7.75f32, -0.5, 0.0, 0.5, 7.75];
    let mut i = 0;
    while i < samples.len() {
        let x = samples[i];
        assert!(to_float(&from_float(x).floor()) <= x);
        assert!(x <= to_float(&from_float(x).ceil()));
        i += 1;
    }
}

#[test]
fn precision_and_encoding() {
    // set_precision(n) then encode always emits exactly n words.
    let lens: [usize; 4] = [0, 1, 3, 7];
    let mut i = 0;
    while i < lens.len() {
        let n = lens[i];
        let mut x = from_float(-1000000000.75);
        x.set_precision(n);
        assert_eq!(x.parts().len(), n);
        let mut bytes: Vec<u8> = Vec::new();
        x.to_bytes(&mut bytes);
        assert_eq!(bytes.len(), 8 + 4 * n);
        i += 1;
    }
    // The exact layout of the value one: sign flag, point, one word.
    let one = FixedDec::one();
    let mut bytes: Vec<u8> = Vec::new();
    one.to_bytes(&mut bytes);
    assert_eq!(bytes, vec![0, 0, 0, 0, 1, 0, 0, 0, 1, 0, 0, 0]);
    // A negative point is stored two's-complement.
    let tiny = FixedDec::from_parts(true, -1, vec![9]);
    let mut b2: Vec<u8> = Vec::new();
    tiny.to_bytes(&mut b2);
    assert_eq!(b2, vec![1, 0, 0, 0, 0xff, 0xff, 0xff, 0xff, 9, 0, 0, 0]);
}

#[test]
fn shaping_shapes() {
    let mut x = from_float(5.25);
    // 5.25 is one whole word and one fractional word.
    assert_eq!(x.parts().as_slice(), &[5, 0x4000_0000]);
    x.set_whole_len(3);
    assert_eq!(x.parts().as_slice(), &[0, 0, 5, 0x4000_0000]);
    x.set_dec_len(3);
    assert_eq!(x.parts().len(), 6);
    let (w, f) = x.split_whole_dec();
    assert_eq!(w.parts().len(), 3);
    assert_eq!(f.parts().len(), 3);
    assert_eq!(to_float(&w), 5.0);
    let y = from_float(5.25).with_lens(1, 1);
    assert_eq!(y.parts().as_slice(), &[5, 0x4000_0000]);
}

#[test]
fn ordering_is_numeric() {
    let values = [-1000000000.75f32, -2.5, -0.125, 0.0, 0.125, 2.5, 1000000000.75];
    let mut i = 0;
    while i < values.len() {
        let mut j = 0;
        while j < values.len() {
            let a = from_float(values[i]);
            let b = from_float(values[j]);
            let expect = if values[i] < values[j] {
                Ordering::Less
            } else if values[i] > values[j] {
                Ordering::Greater
            } else {
                Ordering::Equal
            };
            assert_eq!(a.cmp(&b), expect, "{} vs {}", values[i], values[j]);
            j += 1;
        }
        i += 1;
    }
    // Deep words beyond the first are compared too.
    let x = FixedDec::from_parts(false, 1, vec![1, 5]);
    let y = FixedDec::from_parts(false, 1, vec![1, 9]);
    assert_eq!(x.cmp(&y), Ordering::Less);
    assert_eq!(y.cmp(&x), Ordering::Greater);
    assert_eq!(x.cmp(&x), Ordering::Equal);
}

#[test]
fn float_output_truncates_toward_zero() {
    // A value with more than 24 significant bits loses only its low bits.
    let wide = FixedDec::from_parts(false, 1, vec![0x8000_0001]);
    assert_eq!(wide.to_f32_bits(), 2147483648.0f32.to_bits());
    let neg = FixedDec::from_parts(true, 1, vec![0x8000_0001]);
    assert_eq!(neg.to_f32_bits(), (-2147483648.0f32).to_bits());
    // An untrimmed buffer converts like its trimmed value.
    let padded = FixedDec::from_parts(false, 3, vec![0, 0, 3]);
    assert_eq!(f32::from_bits(padded.to_f32_bits()), 3.0);
    // Below the subnormal range the conversion underflows to a signed zero.
    let tiny = FixedDec::from_parts(true, -5, vec![1]);
    assert_eq!(tiny.to_f32_bits(), 0x8000_0000);
    let tiny_pos = FixedDec::from_parts(false, -5, vec![1]);
    assert_eq!(tiny_pos.to_f32_bits(), 0);
}

#[test]
fn bit_rendering() {
    let x = FixedDec::from_parts(false, 1, vec![3, 0x8000_0000]);
    let expect = format!("{:032b}.{:032b}", 3u32, 0x8000_0000u32);
    assert_eq!(x.to_bit_string(), expect);
    // A negative point writes the implicit zero word after the dot; the
    // first stored word follows it directly.
    let y = FixedDec::from_parts(true, -1, vec![5]);
    let expect_y = format!("-.{:032b}{:032b}", 0u32, 5u32);
    assert_eq!(y.to_bit_string(), expect_y);
    let z = FixedDec::from_parts(false, 2, vec![7]);
    let expect_z = format!("{:032b}_{:032b}", 7u32, 0u32);
    assert_eq!(z.to_bit_string(), expect_z);
}

#[test]
fn shift_left_matches_scaling() {
    let x = from_float(3.0);
    assert_eq!(to_float(&x.shl(2)), 12.0);
    assert_eq!(to_float(&x.shr(1)), 1.5);
    let y = from_float(-1.0);
    assert_eq!(to_float(&y.shr(33)), -1.0 / 8589934592.0);
}
