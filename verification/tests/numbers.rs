use netspectrum::number::{time_left, Double, Single, ONE};

fn single(x: f32) -> Single {
    Single::from_bits(x.to_bits()).unwrap()
}

fn double(x: f64) -> Double {
    Double::from_bits(x.to_bits()).unwrap()
}

#[test]
fn one_is_the_pattern_of_one() {
    assert_eq!(f32::from_bits(ONE), 1.0);
}

#[test]
fn patterns_of_non_negative_numbers_are_taken() {
    assert_eq!(single(0.0).bits, 0);
    assert_eq!(single(0.75).bits, 0.75f32.to_bits());
    assert_eq!(double(25_000.0).bits, 25_000.0f64.to_bits());
    assert!(Single::from_bits(f32::MAX.to_bits()).is_some());
    assert!(Double::from_bits(f64::MAX.to_bits()).is_some());
}

#[test]
fn other_patterns_are_refused() {
    assert!(Single::from_bits((-0.5f32).to_bits()).is_none());
    assert!(Single::from_bits((-0.0f32).to_bits()).is_none());
    assert!(Single::from_bits(f32::INFINITY.to_bits()).is_none());
    assert!(Single::from_bits(f32::NAN.to_bits()).is_none());
    assert!(Double::from_bits((-1.0f64).to_bits()).is_none());
    assert!(Double::from_bits(f64::INFINITY.to_bits()).is_none());
    assert!(Double::from_bits(f64::NAN.to_bits()).is_none());
}

#[test]
fn order_of_patterns_is_order_of_numbers() {
    let values = [0.0f32, 1e-42, 1e-30, 0.002, 0.25, 0.5, 1.0, 1.5, 1e20];
    for (i, a) in values.iter().enumerate() {
        for (j, b) in values.iter().enumerate() {
            assert_eq!(single(*a).exceeds(single(*b)), i > j);
            assert_eq!(double(*a as f64).exceeds(double(*b as f64)), i > j);
        }
    }
}

#[test]
fn max_and_clamp_select() {
    assert_eq!(single(0.25).max(single(0.5)), single(0.5));
    assert_eq!(double(3.0).max(double(2.0)), double(3.0));
    let (low, high) = (single(0.1), single(0.9));
    assert_eq!(single(0.05).clamp(low, high), low);
    assert_eq!(single(0.5).clamp(low, high), single(0.5));
    assert_eq!(single(2.0).clamp(low, high), high);
}

#[test]
fn time_is_left_above_zero() {
    assert_eq!(time_left(0.25f32.to_bits()), Some(single(0.25)));
    assert_eq!(time_left(1), Some(Single { bits: 1 }));
    for x in [0.0f32, -0.0, -1e-40, -3.0] {
        assert_eq!(time_left(x.to_bits()), None);
    }
}
