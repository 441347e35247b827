use elparse::ieee::{FloatBits, EXPONENT_MAX, HIDDEN_BIT, INFINITY_MAGNITUDE, SIGN_BIT};

#[test]
fn fields_of_known_doubles() {
    let one = FloatBits::from_bits(1.0f64.to_bits());
    assert_eq!(one, FloatBits { sign: false, biased_exponent: 1023, mantissa: 0 });
    let tenth = FloatBits::from_bits((-0.1f64).to_bits());
    assert_eq!(
        tenth,
        FloatBits { sign: true, biased_exponent: 1019, mantissa: 0x9_9999_9999_999A }
    );
    let tiny = FloatBits::from_bits(5e-324f64.to_bits());
    assert_eq!(tiny, FloatBits { sign: false, biased_exponent: 0, mantissa: 1 });
    let largest = FloatBits::from_bits(f64::MAX.to_bits());
    assert_eq!(
        largest,
        FloatBits { sign: false, biased_exponent: 2046, mantissa: HIDDEN_BIT - 1 }
    );
}

#[test]
fn bits_split_and_join() {
    for bits in [
        0u64,
        1,
        SIGN_BIT,
        SIGN_BIT - 1,
        u64::MAX,
        INFINITY_MAGNITUDE,
        INFINITY_MAGNITUDE | SIGN_BIT,
        0x3FF0_0000_0000_0000,
        0x4009_21FB_5444_2D18,
        0x000F_FFFF_FFFF_FFFF,
        0x0010_0000_0000_0000,
    ] {
        assert_eq!(FloatBits::from_bits(bits).to_bits(), bits);
    }
}

#[test]
fn zero_and_infinity() {
    assert_eq!(FloatBits::zero(false).to_bits(), 0);
    assert_eq!(FloatBits::zero(true).to_bits(), SIGN_BIT);
    assert_eq!(FloatBits::infinity(false).to_bits(), f64::INFINITY.to_bits());
    assert_eq!(FloatBits::infinity(true).to_bits(), f64::NEG_INFINITY.to_bits());
    assert_eq!(FloatBits::infinity(true).biased_exponent, EXPONENT_MAX);
}

#[test]
fn magnitude_orders_the_doubles() {
    let a = FloatBits::from_magnitude(false, 0x3FF0_0000_0000_0000);
    let b = FloatBits::from_magnitude(false, 0x3FF0_0000_0000_0001);
    assert_eq!(f64::from_bits(a.to_bits()), 1.0);
    assert!(f64::from_bits(b.to_bits()) > 1.0);
    assert_eq!(
        FloatBits::from_magnitude(true, 0x000F_FFFF_FFFF_FFFF),
        FloatBits { sign: true, biased_exponent: 0, mantissa: 0x000F_FFFF_FFFF_FFFF }
    );
    assert_eq!(
        FloatBits::from_magnitude(false, 0x0010_0000_0000_0000).to_bits(),
        f64::MIN_POSITIVE.to_bits()
    );
}
