use geohash_tiles::fixed::UNITS_PER_DEGREE;
use geohash_tiles::get_deltas;
use geohash_tiles::grid::{
    bit_counts, is_valid_precision, GridDelta, LonSpan, FULL_LON_SPAN_DEGREES,
    LAT_SPAN_DEGREES, LEGACY_LON_SPAN_DEGREES, MAX_PRECISION,
};

fn in_degrees(delta: GridDelta) -> (f64, f64) {
    (
        delta.lat as f64 / UNITS_PER_DEGREE as f64,
        delta.lon as f64 / UNITS_PER_DEGREE as f64,
    )
}

#[test]
fn coordinate_delta() {
    assert_eq!(in_degrees(get_deltas(1, LonSpan::Legacy)), (45.0, 32.5));
    assert_eq!(in_degrees(get_deltas(2, LonSpan::Legacy)), (5.625, 8.125));
    assert_eq!(in_degrees(get_deltas(3, LonSpan::Legacy)), (1.40625, 1.015625));
    assert_eq!(in_degrees(get_deltas(4, LonSpan::Legacy)), (0.17578125, 0.25390625));
    assert_eq!(in_degrees(get_deltas(5, LonSpan::Legacy)), (0.0439453125, 0.03173828125));
    assert_eq!(
        in_degrees(get_deltas(6, LonSpan::Legacy)),
        (0.0054931640625, 0.0079345703125)
    );
}

#[test]
fn coordinate_delta_full_span() {
    assert_eq!(in_degrees(get_deltas(1, LonSpan::Full)), (45.0, 45.0));
    assert_eq!(in_degrees(get_deltas(2, LonSpan::Full)), (5.625, 11.25));
    assert_eq!(in_degrees(get_deltas(3, LonSpan::Full)), (1.40625, 1.40625));
    assert_eq!(in_degrees(get_deltas(4, LonSpan::Full)), (0.17578125, 0.3515625));
    assert_eq!(in_degrees(get_deltas(5, LonSpan::Full)), (0.0439453125, 0.0439453125));
    assert_eq!(
        in_degrees(get_deltas(6, LonSpan::Full)),
        (0.0054931640625, 0.010986328125)
    );
}

#[test]
fn deltas_in_units() {
    assert_eq!(
        get_deltas(1, LonSpan::Legacy),
        GridDelta { lat: 193273528320, lon: 139586437120 }
    );
    assert_eq!(get_deltas(12, LonSpan::Legacy), GridDelta { lat: 720, lon: 1040 });
    assert_eq!(get_deltas(12, LonSpan::Full), GridDelta { lat: 720, lon: 1440 });
}

#[test]
fn deltas_are_exact_fractions_of_the_span() {
    for precision in 1..=MAX_PRECISION {
        let (lat_bits, lon_bits) = bit_counts(precision);
        for span in [LonSpan::Legacy, LonSpan::Full] {
            let delta = get_deltas(precision, span);
            assert_eq!(
                (delta.lat as i128) << lat_bits,
                LAT_SPAN_DEGREES as i128 * UNITS_PER_DEGREE as i128
            );
            assert_eq!(
                (delta.lon as i128) << lon_bits,
                span.degrees() as i128 * UNITS_PER_DEGREE as i128
            );
        }
    }
}

#[test]
fn deltas_shrink_as_precision_grows() {
    for span in [LonSpan::Legacy, LonSpan::Full] {
        for coarse in 1..MAX_PRECISION {
            for fine in coarse + 1..=MAX_PRECISION {
                let a = get_deltas(coarse, span);
                let b = get_deltas(fine, span);
                assert!(b.lat < a.lat, "latitude at {} and {}", coarse, fine);
                assert!(b.lon < a.lon, "longitude at {} and {}", coarse, fine);
            }
        }
    }
}

#[test]
fn bits_add_up_to_five_per_character() {
    for precision in 0..=u8::MAX {
        let (lat_bits, lon_bits) = bit_counts(precision);
        assert_eq!(lat_bits + lon_bits, 5 * precision as u32);
        assert_eq!(lat_bits, 2 * precision as u32 + precision as u32 / 2);
        assert!(lon_bits == lat_bits || lon_bits == lat_bits + 1);
    }
    assert_eq!(bit_counts(1), (2, 3));
    assert_eq!(bit_counts(2), (5, 5));
    assert_eq!(bit_counts(3), (7, 8));
    assert_eq!(bit_counts(12), (30, 30));
}

#[test]
fn span_constants() {
    assert_eq!(LonSpan::Legacy.degrees(), LEGACY_LON_SPAN_DEGREES);
    assert_eq!(LonSpan::Full.degrees(), FULL_LON_SPAN_DEGREES);
    assert_eq!(LEGACY_LON_SPAN_DEGREES, 260);
    assert_eq!(FULL_LON_SPAN_DEGREES, 360);
    assert_eq!(LAT_SPAN_DEGREES, 180);
}

#[test]
fn supported_precisions() {
    assert!(!is_valid_precision(0));
    assert!(is_valid_precision(1));
    assert!(is_valid_precision(12));
    assert!(!is_valid_precision(13));
    assert!(!is_valid_precision(usize::MAX));
    assert_eq!(MAX_PRECISION, 12);
}

#[test]
fn the_default_span_is_the_whole_globe() {
    assert_eq!(LonSpan::default(), LonSpan::Full);
    assert_eq!(LonSpan::default().degrees(), 360);
}
