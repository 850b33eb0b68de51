use raytracer::scalar::Scalar;

fn sc(x: f32) -> Scalar {
    Scalar::from_bits(x.to_bits())
}

fn fl(x: Scalar) -> f32 {
    f32::from_bits(x.to_bits())
}

fn samples() -> Vec<f32> {
    vec![
        0.0,
        -0.0,
        1.0,
        -1.0,
        0.5,
        -0.5,
        1.0e-45,
        -1.0e-45,
        f32::MIN_POSITIVE,
        f32::EPSILON,
        3.5,
        -3.5,
        1.0e30,
        -1.0e30,
        f32::MAX,
        f32::MIN,
        f32::INFINITY,
        f32::NEG_INFINITY,
        f32::NAN,
        -f32::NAN,
        f32::from_bits(0x7F80_0001),
    ]
}

#[test]
fn comparisons_agree_with_floating_point() {
    for &a in &samples() {
        for &b in &samples() {
            assert_eq!(sc(a).lt(sc(b)), a < b, "{} < {}", a, b);
            assert_eq!(sc(a).le(sc(b)), a <= b, "{} <= {}", a, b);
            assert_eq!(sc(a).gt(sc(b)), a > b, "{} > {}", a, b);
            assert_eq!(sc(a).ge(sc(b)), a >= b, "{} >= {}", a, b);
            assert_eq!(sc(a).same(sc(b)), a == b, "{} == {}", a, b);
        }
    }
}

#[test]
fn min_and_max_agree_with_floating_point() {
    for &a in &samples() {
        for &b in &samples() {
            let (lo, hi) = (fl(sc(a).min(sc(b))), fl(sc(a).max(sc(b))));
            let (want_lo, want_hi) = (a.min(b), a.max(b));
            assert!(lo == want_lo || (lo.is_nan() && want_lo.is_nan()), "min({}, {})", a, b);
            assert!(hi == want_hi || (hi.is_nan() && want_hi.is_nan()), "max({}, {})", a, b);
        }
    }
}

#[test]
fn nan_and_abs_agree_with_floating_point() {
    for &a in &samples() {
        assert_eq!(sc(a).is_nan(), a.is_nan());
        assert_eq!(sc(a).abs().to_bits(), a.abs().to_bits());
    }
}

#[test]
fn named_numbers() {
    assert_eq!(fl(Scalar::zero()), 0.0);
    assert_eq!(fl(Scalar::one()), 1.0);
    assert_eq!(fl(Scalar::infinity()), f32::INFINITY);
    assert_eq!(fl(Scalar::neg_infinity()), f32::NEG_INFINITY);
    assert_eq!(raytracer::scalar::EPSILON_BITS, f32::EPSILON.to_bits());
    assert_eq!(Scalar::from_bits(0x4049_0FDB).to_bits(), 0x4049_0FDB);
}

#[test]
fn comparisons_agree_with_floating_point_on_random_bit_patterns() {
    let mut state: u64 = 0x9E37_79B9_7F4A_7C15;
    let mut next = || {
        state = state.wrapping_mul(6364136223846793005).wrapping_add(1442695040888963407);
        (state >> 32) as u32
    };
    for _ in 0..200_000 {
        let (x, y) = (next(), next());
        let (a, b) = (f32::from_bits(x), f32::from_bits(y));
        let (p, q) = (Scalar::from_bits(x), Scalar::from_bits(y));
        assert_eq!(p.lt(q), a < b);
        assert_eq!(p.le(q), a <= b);
        assert_eq!(p.same(q), a == b);
        assert_eq!(p.is_nan(), a.is_nan());
        let lo = fl(p.min(q));
        assert!(lo == a.min(b) || (lo.is_nan() && a.min(b).is_nan()));
        let hi = fl(p.max(q));
        assert!(hi == a.max(b) || (hi.is_nan() && a.max(b).is_nan()));
    }
}
