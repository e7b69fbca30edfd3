use bizplan::binary64::Binary64;
use bizplan::render::fixed_string;
use bizplan::text;

fn b(x: f64) -> Binary64 {
    Binary64 { bits: x.to_bits() }
}

/// A fixed sequence of patterns that covers subnormal, small, ordinary and huge numbers.
fn samples() -> Vec<f64> {
    let mut v: Vec<f64> = vec![
        0.0, 1.0, 2.0, 3.0, 0.1, 0.2, 0.5, 1.5, 2.5, 10.0, 100.0, 72.1, 70.1, 33.3, 66.7, 0.05, 0.25,
        f64::MIN_POSITIVE, f64::MAX, 5e-324, 1e-310, 1e300, 1e308, 4503599627370496.0,
        9007199254740992.0, 9007199254740994.0, 0.3, 0.7, 99.95, 1e22, 1e23,
    ];
    let mut state: u64 = 0x9e37_79b9_7f4a_7c15;
    for i in 0..300u64 {
        state = state.wrapping_mul(6364136223846793005).wrapping_add(1442695040888963407);
        let wide = f64::from_bits(state % 0x7ff0_0000_0000_0000);
        v.push(wide);
        v.push(((state >> 20) % 100_001) as f64 / 1000.0);
        if i % 3 == 0 {
            v.push(wide * 2.0f64.powi(-((state >> 50) as i32)));
        }
    }
    v.retain(|x| x.is_finite());
    v
}

#[test]
fn operations_agree_with_the_machine() {
    let v = samples();
    for &x in &v {
        for &y in &v {
            assert_eq!(b(x).plus(b(y)).bits, (x + y).to_bits(), "{x} + {y}");
            assert_eq!(b(x).times(b(y)).bits, (x * y).to_bits(), "{x} * {y}");
            if y != 0.0 {
                assert_eq!(b(x).over(b(y)).bits, (x / y).to_bits(), "{x} / {y}");
            }
            if x >= y {
                assert_eq!(b(x).minus(b(y)).bits, (x - y).to_bits(), "{x} - {y}");
            }
            assert_eq!(b(x).at_least(b(y)), x >= y);
            assert_eq!(b(x).at_least(b(-y)), x >= -y);
            assert_eq!(b(x).below(b(y)), x < y);
            assert_eq!(b(x).below(b(-y)), x < -y);
        }
        assert_eq!(b(x).round().bits, x.round().to_bits(), "round {x}");
        assert_eq!(b(x).truncated(u64::MAX), x as u64, "truncate {x}");
    }
}

#[test]
fn rendering_agrees_with_the_machine() {
    for &x in &samples() {
        for y in [x, -x] {
            assert_eq!(fixed_string(b(y), 0), format!("{:.0}", y));
            assert_eq!(fixed_string(b(y), 1), format!("{:.1}", y));
            assert_eq!(fixed_string(b(y), 4), format!("{:.4}", y));
        }
    }
    assert_eq!(fixed_string(b(f64::NAN), 1), format!("{:.1}", f64::NAN));
    assert_eq!(fixed_string(b(f64::INFINITY), 1), format!("{:.1}", f64::INFINITY));
    assert_eq!(fixed_string(b(f64::NEG_INFINITY), 0), format!("{:.0}", f64::NEG_INFINITY));
}

#[test]
fn whitespace_is_the_unicode_property() {
    for c in '\0'..=char::MAX {
        assert_eq!(text::is_whitespace(c), c.is_whitespace());
    }
}

#[test]
fn sums_and_quotients_of_either_sign_match_the_hardware() {
    let v = samples();
    let mut w: Vec<f64> = v.iter().take(120).cloned().collect();
    let below: Vec<f64> = w.iter().map(|x| -x).collect();
    w.extend(below);
    w.extend([f64::INFINITY, f64::NEG_INFINITY]);
    for x in &w {
        assert_eq!(b(*x).negative().bits, (-x).to_bits());
        for y in &w {
            let sum = x + y;
            let r = b(*x).plus_signed(b(*y));
            if sum.is_nan() {
                assert!(r.is_nan());
            } else {
                assert_eq!(r.bits, sum.to_bits(), "{x:e} + {y:e}");
            }
            if !y.is_sign_negative() {
                let q = x / y;
                let r = b(*x).over_unsigned(b(*y));
                if q.is_nan() {
                    assert!(r.is_nan());
                } else {
                    assert_eq!(r.bits, q.to_bits(), "{x:e} / {y:e}");
                }
            }
        }
    }
    assert!(b(f64::NAN).plus_signed(b(1.0)).is_nan());
    assert!(b(1.0).plus_signed(b(-f64::NAN)).is_nan());
    assert!(b(-f64::NAN).over_unsigned(b(1.0)).is_nan());
}
