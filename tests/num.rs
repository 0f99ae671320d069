use gpu_mandelbrot::convert::ConversionError;
use gpu_mandelbrot::num::{Complex, Component};

fn from_f32(x: f32) -> Result<Component, ConversionError> {
    Component::from_bits(x.to_bits())
}

fn comp(int: i32, subint: Vec<u32>) -> Component {
    Component { int, subint }
}

/// The exact value of a component with at most two words, as an `f64`.
fn value_of(c: &Component) -> f64 {
    let mut v = c.int as f64;
    let mut weight = 1.0f64;
    for w in &c.subint {
        weight /= 4294967296.0;
        v += *w as f64 * weight;
    }
    v
}

#[test]
fn one_and_a_half() {
    let c = from_f32(1.5).unwrap();
    assert_eq!(c.int, 1);
    assert_eq!(c.subint, vec![0x8000_0000]);
}

#[test]
fn negative_quarter_splits_at_floor() {
    // floor(-0.25) = -1 and the remainder is 0.75 = 2^-1 + 2^-2
    let c = from_f32(-0.25).unwrap();
    assert_eq!(c.int, -1);
    assert_eq!(c.subint, vec![0xC000_0000]);
}

#[test]
fn two_is_whole() {
    let c = from_f32(2.0).unwrap();
    assert_eq!(c.int, 2);
    assert!(c.subint.is_empty());
}

#[test]
fn zero_and_negative_zero() {
    for x in [0.0f32, -0.0f32] {
        let c = from_f32(x).unwrap();
        assert_eq!(c.int, 0);
        assert!(c.subint.is_empty());
    }
}

#[test]
fn round_trip_is_exact() {
    let xs = [
        0.1f32, -0.1, 1.0 / 3.0, -7.75, 255.99998, -255.0, 3.0e-5, -1.0e-3, 0.5, 100.125,
        -2.5, 1.2345678,
    ];
    for x in xs {
        let c = from_f32(x).unwrap();
        assert!(c.subint.len() <= 2, "{x}");
        assert_eq!(value_of(&c), x as f64, "{x}");
        assert_eq!(c.int as f64, (x as f64).floor(), "{x}");
        if let Some(last) = c.subint.last() {
            assert_ne!(*last, 0, "{x}");
        }
    }
}

#[test]
fn tiny_values_use_the_words_they_need() {
    // 2^-149, the smallest subnormal: its bit sits at position 149 of the fraction
    let c = from_f32(f32::from_bits(1)).unwrap();
    assert_eq!(c.int, 0);
    assert_eq!(c.subint, vec![0, 0, 0, 0, 0x0000_0800]);
    // -2^-149 = -1 + (1 - 2^-149)
    let c = from_f32(-f32::from_bits(1)).unwrap();
    assert_eq!(c.int, -1);
    assert_eq!(c.subint, vec![0xFFFF_FFFF, 0xFFFF_FFFF, 0xFFFF_FFFF, 0xFFFF_FFFF, 0xFFFF_F800]);
    // 2^-32 needs exactly one word
    let c = from_f32(2.0f32.powi(-32)).unwrap();
    assert_eq!(c.subint, vec![1]);
    // 2^-33 needs a second word
    let c = from_f32(2.0f32.powi(-33)).unwrap();
    assert_eq!(c.subint, vec![0, 0x8000_0000]);
}

#[test]
fn non_finite_is_rejected() {
    assert_eq!(from_f32(f32::NAN).unwrap_err(), ConversionError::NonFinite);
    assert_eq!(from_f32(f32::INFINITY).unwrap_err(), ConversionError::NonFinite);
    assert_eq!(from_f32(f32::NEG_INFINITY).unwrap_err(), ConversionError::NonFinite);
}

#[test]
fn large_magnitudes_are_rejected() {
    assert_eq!(from_f32(256.0).unwrap_err(), ConversionError::TooLarge);
    assert_eq!(from_f32(-256.0).unwrap_err(), ConversionError::TooLarge);
    // floor(-255.5) = -256
    assert_eq!(from_f32(-255.5).unwrap_err(), ConversionError::TooLarge);
    assert_eq!(from_f32(1.0e10).unwrap_err(), ConversionError::TooLarge);
    assert_eq!(from_f32(f32::MAX).unwrap_err(), ConversionError::TooLarge);
    assert!(from_f32(255.5).is_ok());
    assert!(from_f32(-255.0).is_ok());
}

#[test]
fn carry_ripples_into_the_whole_part() {
    let a = comp(3, vec![0xFFFF_FFFF, 0xFFFF_FFFF, 0xFFFF_FFFF]);
    let b = comp(0, vec![0, 0, 1]);
    let r = a.add(&b);
    assert_eq!(r.int, 4);
    assert_eq!(r.subint, vec![0, 0, 0]);
}

#[test]
fn add_pads_the_shorter_operand() {
    let a = comp(1, vec![0x8000_0000]);
    let b = comp(0, vec![0x8000_0000, 5]);
    let r = a.add(&b);
    assert_eq!(r.int, 2);
    assert_eq!(r.subint, vec![0, 5]);
    let r = b.add(&a);
    assert_eq!(r.int, 2);
    assert_eq!(r.subint, vec![0, 5]);
}

#[test]
fn add_wraps_the_whole_part() {
    let r = Component::from_int(i32::MAX).add(&Component::from_int(1));
    assert_eq!(r.int, i32::MIN);
    assert!(r.subint.is_empty());
}

#[test]
fn sub_borrows_from_the_whole_part() {
    let r = Component::from_int(0).sub(&from_f32(0.5).unwrap());
    assert_eq!(r.int, -1);
    assert_eq!(r.subint, vec![0x8000_0000]);
    let a = comp(2, vec![0, 0, 1]);
    let b = comp(0, vec![0, 0, 2]);
    let r = a.sub(&b);
    assert_eq!(r.int, 1);
    assert_eq!(r.subint, vec![0xFFFF_FFFF, 0xFFFF_FFFF, 0xFFFF_FFFF]);
}

#[test]
fn sub_keeps_operand_order_when_rhs_is_longer() {
    let a = comp(1, vec![]);
    let b = comp(0, vec![0x4000_0000]);
    let r = a.sub(&b);
    assert_eq!(r.int, 0);
    assert_eq!(r.subint, vec![0xC000_0000]);
}

#[test]
fn sub_self_is_zero() {
    for x in [1.5f32, -0.1, 3.0e-5, 200.0] {
        let a = from_f32(x).unwrap();
        let r = a.sub(&a);
        assert_eq!(r.int, 0);
        assert!(r.subint.iter().all(|w| *w == 0));
        assert_eq!(r.subint.len(), a.subint.len());
    }
}

#[test]
fn add_is_associative() {
    let a = from_f32(0.1).unwrap();
    let b = from_f32(-7.75).unwrap();
    let c = from_f32(3.0e-5).unwrap();
    let left = a.add(&b).add(&c);
    let right = a.add(&b.add(&c));
    assert_eq!(left.int, right.int);
    assert_eq!(left.subint, right.subint);
}

#[test]
fn add_zero_is_identity() {
    let a = from_f32(-0.1).unwrap();
    let r = a.add(&Component::default());
    assert_eq!(r.int, a.int);
    assert_eq!(r.subint, a.subint);
}

#[test]
fn add_in_place_matches_add() {
    let a = from_f32(1.2345678).unwrap();
    let b = from_f32(-0.1).unwrap();
    let mut c = a.clone();
    c.add_assign(&b);
    let d = a.add(&b);
    assert_eq!(c.int, d.int);
    assert_eq!(c.subint, d.subint);
    c.sub_assign(&b);
    assert_eq!(c.int, a.int);
    assert_eq!(&c.subint[..a.subint.len()], &a.subint[..]);
}

#[test]
fn mul_of_whole_numbers_is_zero() {
    let r = Component::from_int(3).mul(&Component::from_int(5));
    assert_eq!(r.int, 0);
    assert!(r.subint.is_empty());
}

#[test]
fn mul_of_fractions_keeps_every_word() {
    let half = from_f32(0.5).unwrap();
    let r = half.mul(&half);
    assert_eq!(r.int, 0);
    assert_eq!(r.subint, vec![0x4000_0000, 0]);
    // (1 - 2^-64)^2 = 1 - 2^-63 + 2^-128
    let a = comp(0, vec![0xFFFF_FFFF, 0xFFFF_FFFF]);
    let r = a.mul(&a);
    assert_eq!(r.subint, vec![0xFFFF_FFFF, 0xFFFF_FFFE, 0, 1]);
    // whole parts are left out of the product
    let r = comp(7, vec![0x8000_0000]).mul(&comp(-2, vec![0x8000_0000]));
    assert_eq!(r.int, 0);
    assert_eq!(r.subint, vec![0x4000_0000, 0]);
}

#[test]
fn square_of_one_plus_i() {
    // real: (1 + 1)(1 - 1) = 0; imaginary: 2 (1 + 1) = 4 with this formula,
    // where the true square has 2 * 1 * 1 = 2
    let z = Complex::new(Component::from_int(1), Component::from_int(1));
    let sq = z.square();
    assert_eq!(sq.real.int, 0);
    assert!(sq.real.subint.is_empty());
    assert_eq!(sq.imag.int, 4);
    assert!(sq.imag.subint.is_empty());
}

#[test]
fn square_with_fractions() {
    // a = 0.75, b = 0.25: s = 1.0 (words [0]), d = 0.5
    let z = Complex::new(from_f32(0.75).unwrap(), from_f32(0.25).unwrap());
    let sq = z.square();
    assert_eq!(sq.real.int, 0);
    assert_eq!(sq.real.subint, vec![0, 0]);
    assert_eq!(sq.imag.int, 2);
    assert_eq!(sq.imag.subint, vec![0]);
    // a = 0.5, b = 0.25: s = 0.75, d = 0.25, s * d = 0.1875; 2 s = 1.5
    let z = Complex::new(from_f32(0.5).unwrap(), from_f32(0.25).unwrap());
    let sq = z.square();
    assert_eq!(sq.real.subint, vec![0x3000_0000, 0]);
    assert_eq!(sq.imag.int, 1);
    assert_eq!(sq.imag.subint, vec![0x8000_0000]);
}

#[test]
fn defaults_are_zero() {
    let c = Component::default();
    assert_eq!(c.int, 0);
    assert!(c.subint.is_empty());
    let z = Complex::default();
    assert_eq!(z.real.int, 0);
    assert_eq!(z.imag.int, 0);
    assert!(z.real.subint.is_empty() && z.imag.subint.is_empty());
}

#[test]
fn duplicate_keeps_the_value() {
    let a = from_f32(-0.1).unwrap();
    let b = a.duplicate();
    assert_eq!(a.int, b.int);
    assert_eq!(a.subint, b.subint);
}

#[test]
fn operator_assign_forms() {
    let mut c = Component::from_int(1);
    c += &from_f32(0.5).unwrap();
    assert_eq!(c.int, 1);
    assert_eq!(c.subint, vec![0x8000_0000]);
    c -= &Component::from_int(2);
    assert_eq!(c.int, -1);
    assert_eq!(c.subint, vec![0x8000_0000]);
}
