use fractal::complex::fixed::{Fixed, SHIFT};

fn fx(f: f64) -> Fixed {
    Fixed::from_f64_bits(f.to_bits())
}

fn try_fx(f: f64) -> Option<Fixed> {
    Fixed::try_from_f64_bits(f.to_bits())
}

fn to_f64(x: Fixed) -> f64 {
    f64::from_bits(x.into_f64_bits())
}

const DOMAIN_RADIUS: f64 = 32.0;

const SAMPLES: [f64; 30] = [
    20.601, 20.617, -3.980, -22.092, -21.047, -19.458, 30.177, 20.944, 14.705, -16.787, 20.603,
    -24.559, -18.584, -16.767, -6.018, -17.405, -15.284, 16.983, 22.734, -21.853, -27.686, -1.317,
    17.825, -2.914, -18.354, -14.570, 12.935, 3.635, -9.842, -8.893,
];

#[test]
fn fixed_test_zero() {
    assert_eq!(Fixed::zero(), fx(0.0));
}

#[test]
fn fixed_test_one() {
    assert_eq!(Fixed(1_i64 << SHIFT), fx(1.0));
    assert_eq!(Fixed(1_i64 << SHIFT), Fixed::one());
}

#[test]
fn test_domain_neg() {
    assert_eq!(fx(-DOMAIN_RADIUS), Fixed::min_value());
    assert_ne!(fx(-DOMAIN_RADIUS / 32.0), Fixed::min_value());
    assert_ne!(fx(-DOMAIN_RADIUS / 16.0), Fixed::min_value());
    assert_ne!(fx(-DOMAIN_RADIUS / 8.0), Fixed::min_value());
    assert_ne!(fx(-DOMAIN_RADIUS / 4.0), Fixed::min_value());
    assert_ne!(fx(-DOMAIN_RADIUS / 2.0), Fixed::min_value());
    assert_ne!(fx(-DOMAIN_RADIUS / 1.5), Fixed::min_value());
    assert_ne!(fx(-DOMAIN_RADIUS / 3.0), Fixed::min_value());
    assert_eq!(try_fx(-DOMAIN_RADIUS * 2.0), None);
}

#[test]
fn test_domain_pos() {
    assert_ne!(try_fx(DOMAIN_RADIUS / 32.0), None);
    assert_ne!(try_fx(DOMAIN_RADIUS / 16.0), None);
    assert_ne!(try_fx(DOMAIN_RADIUS / 8.0), None);
    assert_ne!(try_fx(DOMAIN_RADIUS / 4.0), None);
    assert_ne!(try_fx(DOMAIN_RADIUS / 2.0), None);
    assert_ne!(try_fx(DOMAIN_RADIUS / 1.5), None);
    assert_ne!(try_fx(DOMAIN_RADIUS / 3.0), None);
}

#[test]
fn test_range_neg() {
    assert_eq!(fx(-DOMAIN_RADIUS), Fixed::min_value());
    assert_ne!(fx(-DOMAIN_RADIUS / 32.0), Fixed::min_value());
    assert_ne!(fx(-DOMAIN_RADIUS / 16.0), Fixed::min_value());
    assert_ne!(fx(-DOMAIN_RADIUS / 8.0), Fixed::min_value());
    assert_ne!(fx(-DOMAIN_RADIUS / 4.0), Fixed::min_value());
    assert_ne!(fx(-DOMAIN_RADIUS / 2.0), Fixed::min_value());
    assert_ne!(fx(-DOMAIN_RADIUS / 1.5), Fixed::min_value());
    assert_ne!(fx(-DOMAIN_RADIUS / 3.0), Fixed::min_value());
    assert_eq!(try_fx(-DOMAIN_RADIUS * 2.0), None);
}

#[test]
fn test_range_pos() {
    assert_ne!(try_fx(DOMAIN_RADIUS / 32.0), None);
    assert_ne!(try_fx(DOMAIN_RADIUS / 16.0), None);
    assert_ne!(try_fx(DOMAIN_RADIUS / 8.0), None);
    assert_ne!(try_fx(DOMAIN_RADIUS / 4.0), None);
    assert_ne!(try_fx(DOMAIN_RADIUS / 2.0), None);
    assert_ne!(try_fx(DOMAIN_RADIUS / 1.5), None);
    assert_ne!(try_fx(DOMAIN_RADIUS / 3.0), None);
}

#[test]
fn fixed_test_identity_f64_fixed() {
    for f in SAMPLES {
        let actual = to_f64(fx(f));
        assert_eq!(f, actual);
    }
}

#[test]
fn fixed_test_identity_fixed_f64() {
    for f in SAMPLES.map(fx) {
        let actual = fx(to_f64(f));
        assert_eq!(f, actual);
    }
}

#[test]
fn fixed_domain_edges() {
    // the domain is half open: 32 is out, the least value is in
    assert_eq!(try_fx(DOMAIN_RADIUS), None);
    assert_eq!(try_fx(f64::NAN), None);
    assert_eq!(try_fx(f64::INFINITY), None);
    assert_eq!(Fixed::min_value().to_bits(), i64::MIN);
    assert_eq!(Fixed::max_value().to_bits(), i64::MAX);
    // conversion truncates toward zero
    assert_eq!(fx(1.0e-30), Fixed::zero());
    assert_eq!(fx(-1.0e-30), Fixed::zero());
    assert_eq!(to_f64(Fixed::from_bits(-(1_i64 << SHIFT) * 3)), -3.0);
}

#[test]
fn fixed_arithmetic() {
    let a = fx(1.5);
    let b = fx(-2.25);
    assert_eq!(a.add(b), fx(-0.75));
    assert_eq!(a.sub(b), fx(3.75));
    assert_eq!(b.neg(), fx(2.25));
    assert_eq!(a.min(b), b);
    assert_eq!(a.max(b), a);
    assert_eq!(b.abs(), fx(2.25));
    assert_eq!(a.mul(b), fx(-3.375));
    assert_eq!(a.mul2(), fx(3.0));
    assert_eq!(a.mul2_n(3), fx(12.0));
    assert_eq!(b.div2_exact(), fx(-1.125));
    assert_eq!(fx(3.0).div2_n_floor(2), fx(0.75));
    let mut c = a;
    c.add_assign(b);
    assert_eq!(c, fx(-0.75));
    c.sub_assign(b);
    assert_eq!(c, a);
}

#[test]
fn fixed_checked_arithmetic() {
    let big = fx(20.0);
    assert_eq!(big.add_checked(big), None);
    assert_eq!(big.add_checked(fx(1.0)), Some(fx(21.0)));
    assert_eq!(fx(-20.0).sub_checked(big), None);
    assert_eq!(Fixed::min_value().neg_checked(), None);
    assert_eq!(fx(-4.0).neg_checked(), Some(fx(4.0)));
    assert_eq!(big.mul2_checked(), None);
    assert_eq!(fx(7.0).mul2_checked(), Some(fx(14.0)));
    assert_eq!(big.mul_checked(big), None);
    assert_eq!(fx(4.0).mul_checked(fx(-0.5)), Some(fx(-2.0)));
    // an odd raw value cannot be halved exactly
    assert_eq!(Fixed::from_bits(3).div2_exact_checked(), None);
    assert_eq!(Fixed::from_bits(6).div2_exact_checked(), Some(Fixed::from_bits(3)));
    // halving rounds down, also below zero
    assert_eq!(Fixed::from_bits(-3).div2_floor(), Fixed::from_bits(-2));
    assert_eq!(Fixed::from_bits(3).div2_floor(), Fixed::from_bits(1));
    // products round down
    assert_eq!(Fixed::from_bits(1).mul(Fixed::from_bits(-1)), Fixed::from_bits(-1));
    assert_eq!(Fixed::from_bits(1).mul(Fixed::from_bits(1)), Fixed::zero());
}

#[test]
fn fixed_lerp_goes_a_fraction_of_the_way() {
    assert_eq!(Fixed::lerp(fx(1.0), fx(3.0), fx(0.25)), fx(1.5));
    assert_eq!(Fixed::lerp(fx(-4.0), fx(4.0), fx(0.5)), fx(0.0));
    // the product is rounded down: 3 units halfway is 1.5 units, so 1
    assert_eq!(Fixed::lerp(Fixed::from_bits(0), Fixed::from_bits(3), fx(0.5)), Fixed::from_bits(1));
    assert_eq!(Fixed::lerp(Fixed::from_bits(-3), Fixed::from_bits(0), fx(0.5)), Fixed::from_bits(-2));
}
