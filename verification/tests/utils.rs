use gst_plugin::utils::{f64_to_fraction, gcd, GBoolean, GstFlowReturn};
use num_rational::Rational32;

fn fraction(val: f64) -> Option<Rational32> {
    f64_to_fraction(val.to_bits()).map(|(n, d)| Rational32::new(n, d))
}

#[test]
fn test_gcd() {
    assert_eq!(gcd(2 * 2 * 2 * 2, 2 * 2 * 2 * 3), 2 * 2 * 2);
    assert_eq!(gcd(2 * 3 * 5 * 5 * 7, 2 * 5 * 7), 2 * 5 * 7);
}

#[test]
fn test_f64_to_fraction() {
    assert_eq!(fraction(2.0), Some(Rational32::new(2, 1)));
    assert_eq!(fraction(2.5), Some(Rational32::new(5, 2)));
    assert_eq!(
        fraction(0.127659574),
        Some(Rational32::new(29013539, 227272723))
    );
    assert_eq!(fraction(29.97), Some(Rational32::new(2997, 100)));
}

#[test]
fn fraction_terms_are_returned_as_they_are() {
    assert_eq!(f64_to_fraction(2.0f64.to_bits()), Some((2, 1)));
    assert_eq!(f64_to_fraction(2.5f64.to_bits()), Some((5, 2)));
    assert_eq!(f64_to_fraction(29.97f64.to_bits()), Some((2997, 100)));
    assert_eq!(
        f64_to_fraction(0.127659574f64.to_bits()),
        Some((29013539, 227272723))
    );
    assert_eq!(f64_to_fraction((-2.5f64).to_bits()), Some((-5, 2)));
    assert_eq!(f64_to_fraction(0.1f64.to_bits()), Some((1, 10)));
    assert_eq!(f64_to_fraction((1.0f64 / 3.0).to_bits()), Some((1, 3)));
    assert_eq!(
        f64_to_fraction(std::f64::consts::PI.to_bits()),
        Some((245850922, 78256779))
    );
}

#[test]
fn gcd_with_zero() {
    assert_eq!(gcd(0, 0), 0);
    assert_eq!(gcd(7, 0), 7);
    assert_eq!(gcd(0, 7), 7);
    assert_eq!(gcd(u32::MAX, 0), u32::MAX);
}

#[test]
fn gcd_is_symmetric() {
    for (a, b) in [(16u32, 24u32), (350, 70), (1, 999), (17, 13), (u32::MAX, 3)] {
        assert_eq!(gcd(a, b), gcd(b, a));
    }
    assert_eq!(gcd(16, 24), 8);
    assert_eq!(gcd(350, 70), 70);
    assert_eq!(gcd(17, 13), 1);
    assert_eq!(gcd(u32::MAX, 3), 3);
}

#[test]
fn gcd_is_the_greatest_common_divisor() {
    for a in 1u32..40 {
        for b in 1u32..40 {
            let g = gcd(a, b);
            assert_eq!(a % g, 0);
            assert_eq!(b % g, 0);
            for d in (g + 1)..=a.max(b) {
                assert!(a % d != 0 || b % d != 0);
            }
        }
    }
}

#[test]
fn zero_and_tiny_values_give_zero() {
    assert_eq!(f64_to_fraction(0.0f64.to_bits()), Some((0, 1)));
    assert_eq!(f64_to_fraction((-0.0f64).to_bits()), Some((0, 1)));
    assert_eq!(f64_to_fraction(1.0e-11f64.to_bits()), Some((0, 1)));
    assert_eq!(f64_to_fraction((-1.0e-11f64).to_bits()), Some((0, 1)));
    assert_eq!(f64_to_fraction(1.0e-300f64.to_bits()), Some((0, 1)));
    assert_eq!(f64_to_fraction(5.0e-324f64.to_bits()), Some((0, 1)));
    assert_eq!(f64_to_fraction(1.0e-10f64.to_bits()), Some((0, 1)));
    assert_eq!(f64_to_fraction(1.5e-10f64.to_bits()), Some((0, 1)));
}

#[test]
fn values_beyond_the_range_have_no_fraction() {
    assert_eq!(
        f64_to_fraction(2147483647.0f64.to_bits()),
        Some((2147483647, 1))
    );
    assert_eq!(
        f64_to_fraction((-2147483647.0f64).to_bits()),
        Some((-2147483647, 1))
    );
    assert_eq!(f64_to_fraction(2147483647.5f64.to_bits()), None);
    assert_eq!(f64_to_fraction(2147483648.0f64.to_bits()), None);
    assert_eq!(f64_to_fraction((-2147483648.0f64).to_bits()), None);
    assert_eq!(f64_to_fraction(1.0e300f64.to_bits()), None);
    assert_eq!(f64_to_fraction(f64::MAX.to_bits()), None);
}

#[test]
fn values_that_are_not_finite_have_no_fraction() {
    assert_eq!(f64_to_fraction(f64::INFINITY.to_bits()), None);
    assert_eq!(f64_to_fraction(f64::NEG_INFINITY.to_bits()), None);
    assert_eq!(f64_to_fraction(f64::NAN.to_bits()), None);
    assert_eq!(f64_to_fraction(0x7ff0_0000_0000_0001), None);
    assert_eq!(f64_to_fraction(0xfff8_0000_0000_0000), None);
}

#[test]
fn negation_negates_the_numerator() {
    for val in [2.5f64, 29.97, 0.1, 1.0 / 3.0, 1234.5, 0.75, 1.0e-5, 2147483647.0] {
        let (n, d) = f64_to_fraction(val.to_bits()).unwrap();
        assert_eq!(f64_to_fraction((-val).to_bits()), Some((-n, d)));
    }
}

#[test]
fn negation_after_a_close_convergent_goes_on() {
    // The fraction for the positive value ends at a convergent whose rounded
    // quotient is the value itself; for the negative value the difference is
    // never small, and the expansion goes on.
    let val = 7.114278648136608f64;
    assert_eq!(f64_to_fraction(val.to_bits()), Some((153006549, 21506966)));
    assert_eq!(
        f64_to_fraction((-val).to_bits()),
        Some((-917291377, 128936667))
    );
}

#[test]
fn fraction_lies_beside_the_value() {
    let mut state: u64 = 0x2545_f491_4f6c_dd1d;
    for _ in 0..2000 {
        state ^= state << 13;
        state ^= state >> 7;
        state ^= state << 17;
        let val = (state >> 11) as f64 / (1u64 << 53) as f64 * 1000.0;
        let (n, d) = f64_to_fraction(val.to_bits()).unwrap();
        assert!(d > 0);
        assert!(n >= 0);
        assert_eq!(gcd(n as u32, d as u32), 1);
        let floor = val.floor();
        assert!(floor * d as f64 <= n as f64);
        assert!(n as f64 <= (floor + 1.0) * d as f64);
        assert!((n as f64 / d as f64 - val).abs() < 1.0e-6);
    }
}

#[test]
fn gboolean_from_and_to_bool() {
    assert_eq!(GBoolean::from_bool(true), GBoolean::True);
    assert_eq!(GBoolean::from_bool(false), GBoolean::False);
    assert!(GBoolean::True.to_bool());
    assert!(!GBoolean::False.to_bool());
    assert!(GBoolean::from_bool(true).to_bool());
    assert!(!GBoolean::from_bool(false).to_bool());
}

#[test]
fn flow_return_codes() {
    assert_eq!(GstFlowReturn::Success.code(), 0);
    assert_eq!(GstFlowReturn::NotLinked.code(), -1);
    assert_eq!(GstFlowReturn::Flushing.code(), -2);
    assert_eq!(GstFlowReturn::Eos.code(), -3);
    assert_eq!(GstFlowReturn::NotNegotiated.code(), -4);
    assert_eq!(GstFlowReturn::Error.code(), -5);
}

#[test]
fn values_beside_an_integer_give_the_integer() {
    assert_eq!(f64_to_fraction(7.0f64.to_bits()), Some((7, 1)));
    assert_eq!(f64_to_fraction((-7.0f64).to_bits()), Some((-7, 1)));
    assert_eq!(f64_to_fraction(3.00000000001f64.to_bits()), Some((3, 1)));
    assert_eq!(f64_to_fraction((-3.00000000001f64).to_bits()), Some((-3, 1)));
    assert_eq!(f64_to_fraction(1000000.0f64.to_bits()), Some((1000000, 1)));
}
