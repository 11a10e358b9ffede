//! The order of single-precision numbers.

use stitcher::Single;

fn single(v: f32) -> Single {
    Single { bits: v.to_bits() }
}

const SAMPLES: [f32; 12] = [
    f32::NEG_INFINITY,
    -1.0e30,
    -1.5,
    -f32::MIN_POSITIVE,
    -0.0,
    0.0,
    1.0e-40,
    1.5,
    28.0,
    1.0e30,
    f32::INFINITY,
    f32::NAN,
];

#[test]
fn comparisons_agree_with_the_hardware() {
    for a in SAMPLES {
        for b in SAMPLES {
            assert_eq!(single(a).is_below(single(b)), a < b, "{a} < {b}");
            assert_eq!(single(a).is_at_most(single(b)), a <= b, "{a} <= {b}");
            let max = f32::from_bits(single(a).max(single(b)).bits);
            let expected = a.max(b);
            assert!(max == expected || (max.is_nan() && expected.is_nan()));
            let keys = single(a).total_order_key() < single(b).total_order_key();
            assert_eq!(keys, a.total_cmp(&b).is_lt(), "{a} before {b}");
        }
        assert_eq!(single(a).is_nan(), a.is_nan());
        assert_eq!(single(a).is_finite(), a.is_finite());
    }
}

#[test]
fn order_is_transitive_on_samples() {
    for a in SAMPLES {
        for b in SAMPLES {
            for c in SAMPLES {
                if single(a).is_below(single(b)) && single(b).is_below(single(c)) {
                    assert!(single(a).is_below(single(c)));
                }
            }
        }
    }
}

#[test]
fn named_values_are_the_usual_ones() {
    assert_eq!(Single::zero().bits, 0.0f32.to_bits());
    assert_eq!(Single::infinity().bits, f32::INFINITY.to_bits());
    assert_eq!(Single::neg_infinity().bits, f32::NEG_INFINITY.to_bits());
}
