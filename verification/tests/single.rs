use goo::single::{
    above_zero, divide, layer_number, multiply, narrow, position_of_layer, pwm_byte, round,
    sanitize_non_negative, single_from_int, truncate, Single,
};

fn single(value: f32) -> Single {
    Single {
        bits: value.to_bits(),
    }
}

/// A fixed stream of well-mixed numbers.
struct Mixed(u64);

impl Mixed {
    fn next(&mut self) -> u64 {
        self.0 ^= self.0 << 13;
        self.0 ^= self.0 >> 7;
        self.0 ^= self.0 << 17;
        self.0
    }

    /// A finite value that is not negative.
    fn plain(&mut self) -> f32 {
        f32::from_bits((self.next() % 0x7F80_0000) as u32)
    }
}

#[test]
fn narrowing_agrees_with_the_hardware() {
    let mut mixed = Mixed(0x9E37_79B9_7F4A_7C15);
    let mut seen = 0;
    for i in 0..200_000u64 {
        let raw = mixed.next();
        let value = match i % 4 {
            0 => f64::from_bits(raw),
            // Near the single-precision range.
            1 => f64::from_bits((raw & 0x800F_FFFF_FFFF_FFFF) | ((870 + raw % 290) << 52)),
            // Exactly between two single-precision values.
            2 => f32::from_bits(raw as u32) as f64 * (1.0 + 2f64.powi(-24)),
            _ => (raw % 100_000) as f64 / 1000.0,
        };
        if value.is_finite() {
            assert_eq!(narrow(value.to_bits()).bits, (value as f32).to_bits());
            seen += 1;
        }
    }
    assert!(seen > 150_000);
}

#[test]
fn narrowing_known_values() {
    assert_eq!(narrow(7.5f64.to_bits()), single(7.5));
    assert_eq!(narrow(0.1f64.to_bits()), single(0.1));
    assert_eq!(narrow((-0.0f64).to_bits()), single(-0.0));
    assert_eq!(narrow(1e300f64.to_bits()), single(f32::INFINITY));
    assert_eq!(narrow((-1e300f64).to_bits()), single(f32::NEG_INFINITY));
    assert_eq!(narrow(1e-45f64.to_bits()), single(1e-45));
    assert_eq!(narrow(1e-60f64.to_bits()), single(0.0));
}

#[test]
fn division_and_multiplication_agree_with_the_hardware() {
    let mut mixed = Mixed(88_172_645_463_325_252);
    for _ in 0..100_000 {
        let a = mixed.plain();
        let b = mixed.plain();
        assert_eq!(multiply(single(a), single(b)), single(a * b));
        if b > 0.0 {
            assert_eq!(divide(single(a), single(b)), single(a / b));
        }
        let c = (mixed.next() % 5000) as f32;
        let d = (mixed.next() % 5000 + 1) as f32;
        assert_eq!(multiply(single(c), single(d)), single(c * d));
        assert_eq!(divide(single(c), single(d)), single(c / d));
    }
}

#[test]
fn integers_agree_with_the_hardware() {
    let mut mixed = Mixed(0xDEAD_BEEF_CAFE_F00D);
    for i in 0..100_000u64 {
        let x = mixed.next() >> (i % 64);
        assert_eq!(single_from_int(x), single(x as f32));
        assert_eq!(layer_number(x), single(x as f32 + 1.0));
        let v = f32::from_bits((mixed.next() % 0x7F80_0000) as u32);
        assert_eq!(truncate(single(v)), v as u64);
        assert_eq!(round(single(v)), v.round() as u64);
        let w = (mixed.next() % 100_000) as f32 / 8.0;
        assert_eq!(truncate(single(w)), w as u64);
        assert_eq!(round(single(w)), w.round() as u64);
    }
    assert_eq!(single_from_int(u64::MAX), single(u64::MAX as f32));
    assert_eq!(layer_number(u64::MAX), single(u64::MAX as f32 + 1.0));
    assert_eq!(round(single(0.5)), 1);
    assert_eq!(round(single(2.5)), 3);
    assert_eq!(truncate(single(2.99)), 2);
}

#[test]
fn positions_agree_with_the_hardware() {
    let mut mixed = Mixed(42);
    for i in 0..20_000u64 {
        let height = f32::from_bits(mixed.next() as u32);
        if !height.is_nan() {
            let z = (i as f32 + 1.0) * height;
            assert_eq!(position_of_layer(i, single(height)), single(z));
        }
        let z = (i as f32 + 1.0) * 0.05;
        assert_eq!(position_of_layer(i, single(0.05)), single(z));
    }
    let z = position_of_layer(3, single(f32::NAN));
    assert!(f32::from_bits(z.bits).is_nan());
}

#[test]
fn pwm_levels_agree_with_the_hardware() {
    let level = |pct: f32| ((pct.clamp(0.0, 100.0) / 100.0) * 255.0).round() as u16;
    let mut mixed = Mixed(7);
    for i in 0..100_000 {
        let fine = i as f32 / 1000.0;
        assert_eq!(pwm_byte(single(fine)), level(fine));
        let any = f32::from_bits(mixed.next() as u32);
        assert_eq!(pwm_byte(single(any)), level(any));
    }
    assert_eq!(pwm_byte(single(50.0)), 128);
    assert_eq!(pwm_byte(single(100.0)), 255);
    assert_eq!(pwm_byte(single(1000.0)), 255);
    assert_eq!(pwm_byte(single(-3.0)), 0);
}

#[test]
fn signs_and_zeros() {
    for value in [
        0.0f32,
        -0.0,
        1.0,
        -1.0,
        1e-45,
        -1e-45,
        f32::MAX,
        f32::INFINITY,
        f32::NEG_INFINITY,
        f32::NAN,
    ] {
        let kept = if !value.is_finite() || value <= 0.0 {
            0.0
        } else {
            value
        };
        assert_eq!(sanitize_non_negative(single(value)), single(kept));
        assert_eq!(above_zero(single(value)), value > 0.0);
    }
}
