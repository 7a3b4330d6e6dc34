use geohash_tiles::fixed::{LAT_LIMIT, LON_LIMIT, UNITS_PER_DEGREE};
use geohash_tiles::grid::{bit_counts, get_deltas, LonSpan};
use geohash_tiles::hash::{encode, HashError, BASE32};

fn degrees(units: i64) -> f64 {
    units as f64 / UNITS_PER_DEGREE as f64
}

fn reference(lon: i64, lat: i64, len: usize) -> String {
    let point = geohash::Coordinate { x: degrees(lon), y: degrees(lat) };
    geohash::encode(point, len).expect("point on the globe")
}

#[test]
fn encode_known_points() {
    let lon = (-120.6623 * UNITS_PER_DEGREE as f64) as i64;
    let lat = (35.3003 * UNITS_PER_DEGREE as f64) as i64;
    assert_eq!(encode(lon, lat, 5), Ok(String::from("9q60y")));
    assert_eq!(encode(lon, lat, 10), Ok(String::from("9q60y60rhs")));
    assert_eq!(encode(0, 0, 1), Ok(String::from("7")));
    assert_eq!(encode(1, 1, 1), Ok(String::from("s")));
    assert_eq!(encode(-LON_LIMIT, -LAT_LIMIT, 12), Ok(String::from("000000000000")));
    assert_eq!(encode(LON_LIMIT, LAT_LIMIT, 12), Ok(String::from("zzzzzzzzzzzz")));
}

#[test]
fn encode_agrees_with_bisection_on_a_lattice() {
    let step_lon = 2 * LON_LIMIT / 64;
    let step_lat = 2 * LAT_LIMIT / 64;
    for len in 1..=12usize {
        for a in 0..=64i64 {
            for b in 0..=64i64 {
                for (dx, dy) in [(0i64, 0i64), (1, 0), (0, 1), (-1, -1), (12345, -54321)] {
                    let lon = (-LON_LIMIT + a * step_lon + dx).clamp(-LON_LIMIT, LON_LIMIT);
                    let lat = (-LAT_LIMIT + b * step_lat + dy).clamp(-LAT_LIMIT, LAT_LIMIT);
                    assert_eq!(
                        encode(lon, lat, len),
                        Ok(reference(lon, lat, len)),
                        "lon {} lat {} len {}",
                        lon,
                        lat,
                        len
                    );
                }
            }
        }
    }
}

#[test]
fn encode_agrees_with_bisection_on_scattered_points() {
    let mut state: u64 = 0x9e3779b97f4a7c15;
    for _ in 0..20000 {
        state = state.wrapping_mul(6364136223846793005).wrapping_add(1442695040888963407);
        let lon = (state >> 11) as i64 % (2 * LON_LIMIT + 1) - LON_LIMIT;
        state = state.wrapping_mul(6364136223846793005).wrapping_add(1442695040888963407);
        let lat = (state >> 11) as i64 % (2 * LAT_LIMIT + 1) - LAT_LIMIT;
        let len = 1 + (state >> 60) as usize % 12;
        assert_eq!(encode(lon, lat, len), Ok(reference(lon, lat, len)));
    }
}

#[test]
fn encode_rejects_points_off_the_globe() {
    assert_eq!(encode(LON_LIMIT + 1, 0, 4), Err(HashError::CoordinateOutOfRange));
    assert_eq!(encode(-LON_LIMIT - 1, 0, 4), Err(HashError::CoordinateOutOfRange));
    assert_eq!(encode(0, LAT_LIMIT + 1, 4), Err(HashError::CoordinateOutOfRange));
    assert_eq!(encode(0, -LAT_LIMIT - 1, 4), Err(HashError::CoordinateOutOfRange));
    assert_eq!(encode(LON_LIMIT + 1, 0, 0), Err(HashError::CoordinateOutOfRange));
}

#[test]
fn encode_rejects_unsupported_lengths() {
    assert_eq!(encode(0, 0, 0), Err(HashError::InvalidLength));
    assert_eq!(encode(0, 0, 13), Err(HashError::InvalidLength));
    assert_eq!(encode(0, 0, usize::MAX), Err(HashError::InvalidLength));
}

#[test]
fn the_north_east_corner_names_its_cell() {
    for len in 1..=12u8 {
        let delta = get_deltas(len, LonSpan::Full);
        let (lat_bits, lon_bits) = bit_counts(len);
        let rows = 1i64 << lat_bits;
        let cols = 1i64 << lon_bits;
        for (row, col) in [(0, 0), (rows - 1, cols - 1), (rows / 2, cols / 2), (rows / 3, cols / 5)] {
            let south = -LAT_LIMIT + row * delta.lat;
            let west = -LON_LIMIT + col * delta.lon;
            let inside = encode(west + delta.lon / 2, south + delta.lat / 2, len as usize);
            let corner = encode(west + delta.lon, south + delta.lat, len as usize);
            let south_west = encode(west + 1, south + 1, len as usize);
            assert_eq!(corner, inside);
            assert_eq!(south_west, inside);
            assert_eq!(inside, Ok(reference(west + delta.lon / 2, south + delta.lat / 2, len as usize)));
        }
    }
}

#[test]
fn bits_follow_the_halving_of_the_globe() {
    assert_eq!(encode(-LON_LIMIT, -LAT_LIMIT, 1), Ok(String::from("0")));
    assert_eq!(encode(1, -LAT_LIMIT, 1), Ok(String::from("h")));
    assert_eq!(encode(-LON_LIMIT, 1, 1), Ok(String::from("8")));
    assert_eq!(encode(LON_LIMIT / 2 + 1, -LAT_LIMIT, 1), Ok(String::from("n")));
    assert_eq!(encode(-LON_LIMIT, LAT_LIMIT / 2, 1), Ok(String::from("8")));
    assert_eq!(encode(-LON_LIMIT, LAT_LIMIT / 2 + 1, 1), Ok(String::from("b")));
    assert_eq!(encode(-LON_LIMIT / 2 + 1, -LAT_LIMIT, 1), Ok(String::from("4")));
}

#[test]
fn the_alphabet_has_thirty_two_distinct_characters() {
    let mut seen: Vec<char> = BASE32.to_vec();
    seen.sort();
    seen.dedup();
    assert_eq!(seen.len(), 32);
    assert_eq!(BASE32.iter().collect::<String>(), "0123456789bcdefghjkmnpqrstuvwxyz");
}
