use geohash_tiles::fixed::{
    div_ceil, div_floor, FRACTION_BITS, LAT_LIMIT, LON_LIMIT, UNITS_PER_DEGREE,
};

#[test]
fn units_are_two_to_the_fraction_bits() {
    assert_eq!(UNITS_PER_DEGREE, 1i64 << FRACTION_BITS);
    assert_eq!(LAT_LIMIT, 90 * UNITS_PER_DEGREE);
    assert_eq!(LON_LIMIT, 180 * UNITS_PER_DEGREE);
}

#[test]
fn div_floor_rounds_towards_minus_infinity() {
    assert_eq!(div_floor(7, 2), 3);
    assert_eq!(div_floor(-7, 2), -4);
    assert_eq!(div_floor(6, 2), 3);
    assert_eq!(div_floor(-6, 2), -3);
    assert_eq!(div_floor(0, 5), 0);
    assert_eq!(div_floor(-1, 5), -1);
    assert_eq!(div_floor(4, 5), 0);
    assert_eq!(div_floor(i128::MIN, 1), i128::MIN);
    assert_eq!(div_floor(i128::MIN, 2), i128::MIN / 2);
    assert_eq!(div_floor(i128::MIN + 1, 2), i128::MIN / 2);
    assert_eq!(div_floor(i128::MAX, 1), i128::MAX);
    assert_eq!(div_floor(i128::MAX, i128::MAX), 1);
    assert_eq!(div_floor(i128::MIN, i128::MAX), -2);
}

#[test]
fn div_ceil_rounds_towards_plus_infinity() {
    assert_eq!(div_ceil(7, 2), 4);
    assert_eq!(div_ceil(-7, 2), -3);
    assert_eq!(div_ceil(6, 2), 3);
    assert_eq!(div_ceil(-6, 2), -3);
    assert_eq!(div_ceil(0, 5), 0);
    assert_eq!(div_ceil(1, 5), 1);
    assert_eq!(div_ceil(-4, 5), 0);
    assert_eq!(div_ceil(-5, 5), -1);
    assert_eq!(div_ceil(i128::MIN, 1), i128::MIN);
    assert_eq!(div_ceil(i128::MIN, 2), i128::MIN / 2);
    assert_eq!(div_ceil(i128::MIN + 1, 2), i128::MIN / 2 + 1);
    assert_eq!(div_ceil(i128::MAX, 1), i128::MAX);
    assert_eq!(div_ceil(i128::MAX, 2), i128::MAX / 2 + 1);
    assert_eq!(div_ceil(i128::MIN, i128::MAX), -1);
}

#[test]
fn floor_and_ceiling_bracket_the_quotient() {
    for a in -50i128..=50 {
        for b in 1i128..=9 {
            let f = div_floor(a, b);
            let c = div_ceil(a, b);
            assert!(f * b <= a && a < (f + 1) * b, "floor of {} / {}", a, b);
            assert!((c - 1) * b < a && a <= c * b, "ceiling of {} / {}", a, b);
            assert_eq!(c - f, if a % b == 0 { 0 } else { 1 });
        }
    }
}
