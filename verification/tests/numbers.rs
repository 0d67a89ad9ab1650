use data_sampler::extremum::MinMaxValue;
use data_sampler::number::{
    greater_than, is_not_a_number, is_sign_negative, is_sign_positive, less_than, INFINITY,
    NEG_INFINITY, SIGN,
};

fn samples() -> Vec<f32> {
    vec![
        0.0,
        -0.0,
        1.0,
        -1.0,
        2.5,
        -2.5,
        101.0,
        105.0,
        1.0e-40,
        -1.0e-40,
        f32::MIN_POSITIVE,
        -f32::MIN_POSITIVE,
        f32::MAX,
        f32::MIN,
        f32::EPSILON,
        f32::INFINITY,
        f32::NEG_INFINITY,
        f32::NAN,
        -f32::NAN,
        f32::from_bits(0x7F80_0001),
        f32::from_bits(0xFFFF_FFFF),
        f32::from_bits(0x7F7F_FFFF),
        f32::from_bits(0x0000_0001),
        f32::from_bits(0x8000_0001),
    ]
}

#[test]
fn constants_are_the_infinities() {
    assert_eq!(INFINITY, f32::INFINITY.to_bits());
    assert_eq!(NEG_INFINITY, f32::NEG_INFINITY.to_bits());
    assert_eq!(SIGN, (-0.0f32).to_bits());
}

#[test]
fn less_than_agrees_with_the_numbers() {
    for a in samples() {
        for b in samples() {
            assert_eq!(less_than(a.to_bits(), b.to_bits()), a < b, "{} < {}", a, b);
        }
    }
}

#[test]
fn greater_than_agrees_with_the_numbers() {
    for a in samples() {
        for b in samples() {
            assert_eq!(greater_than(a.to_bits(), b.to_bits()), a > b, "{} > {}", a, b);
        }
    }
}

#[test]
fn signs_agree_with_the_numbers() {
    for a in samples() {
        assert_eq!(is_sign_negative(a.to_bits()), a.is_sign_negative());
        assert_eq!(is_sign_positive(a.to_bits()), a.is_sign_positive());
        assert_eq!(is_not_a_number(a.to_bits()), a.is_nan());
    }
}

#[test]
fn zero_counts_as_positive_and_minus_zero_as_negative() {
    assert!(is_sign_positive(0.0f32.to_bits()));
    assert!(is_sign_negative((-0.0f32).to_bits()));
    assert!(!less_than((-0.0f32).to_bits(), 0.0f32.to_bits()));
    assert!(!greater_than(0.0f32.to_bits(), (-0.0f32).to_bits()));
}

#[test]
fn comparisons_agree_on_neighbouring_patterns() {
    let mut bits: u32 = 0;
    let mut steps = 0;
    while steps < 4000 {
        let a = f32::from_bits(bits);
        let b = f32::from_bits(bits.wrapping_add(1));
        assert_eq!(less_than(a.to_bits(), b.to_bits()), a < b);
        assert_eq!(less_than(b.to_bits(), a.to_bits()), b < a);
        bits = bits.wrapping_add(0x0010_8421);
        steps += 1;
    }
}

#[test]
fn default_range_is_empty() {
    let range = MinMaxValue::default();
    assert_eq!(range.min, f32::INFINITY.to_bits());
    assert_eq!(range.max, f32::NEG_INFINITY.to_bits());
    assert!(range.has_none());
}

#[test]
fn insert_keeps_the_smallest_and_the_largest() {
    let mut range = MinMaxValue::default();
    for value in [1.5f32, -2.0, 3.0, 0.0, 2.9, -1.0] {
        range.insert(value.to_bits());
    }
    assert_eq!(f32::from_bits(range.min), -2.0);
    assert_eq!(f32::from_bits(range.max), 3.0);
    assert!(!range.has_none());
}

#[test]
fn insert_of_one_value_sets_both_ends() {
    let mut range = MinMaxValue::default();
    range.insert(7.25f32.to_bits());
    assert_eq!(range, MinMaxValue { min: 7.25f32.to_bits(), max: 7.25f32.to_bits() });
}

#[test]
fn insert_ignores_what_is_not_a_number() {
    let mut range = MinMaxValue::default();
    range.insert(f32::NAN.to_bits());
    assert!(range.has_none());
    range.insert(4.0f32.to_bits());
    range.insert(f32::NAN.to_bits());
    range.insert((-f32::NAN).to_bits());
    assert_eq!(range, MinMaxValue { min: 4.0f32.to_bits(), max: 4.0f32.to_bits() });
}

#[test]
fn insert_of_an_infinity_leaves_the_range_not_empty() {
    let mut up = MinMaxValue::default();
    up.insert(f32::INFINITY.to_bits());
    assert!(!up.has_none());
    assert_eq!(up.max, f32::INFINITY.to_bits());
    let mut down = MinMaxValue::default();
    down.insert(f32::NEG_INFINITY.to_bits());
    assert!(!down.has_none());
    assert_eq!(down.min, f32::NEG_INFINITY.to_bits());
}

#[test]
fn insert_agrees_with_a_fold_over_the_numbers() {
    let values = samples();
    let mut range = MinMaxValue::default();
    let mut min = f32::INFINITY;
    let mut max = f32::NEG_INFINITY;
    for value in values {
        range.insert(value.to_bits());
        if value > max {
            max = value;
        }
        if value < min {
            min = value;
        }
        assert_eq!(range.min, min.to_bits());
        assert_eq!(range.max, max.to_bits());
    }
}
