use geohash_tiles::bounds::{
    bounding_rect, index_range, AreaFraction, CellBound, GeoRect, IndexRange,
};
use geohash_tiles::fixed::{LAT_LIMIT, LON_LIMIT, UNITS_PER_DEGREE};
use geohash_tiles::grid::{LonSpan, MAX_PRECISION};
use geohash_tiles::{get_bounds, get_deltas};

const U: i64 = UNITS_PER_DEGREE;

fn rect(lat_min: f64, lat_max: f64, lon_min: f64, lon_max: f64) -> GeoRect {
    GeoRect {
        lat_min: (lat_min * U as f64) as i64,
        lat_max: (lat_max * U as f64) as i64,
        lon_min: (lon_min * U as f64) as i64,
        lon_max: (lon_max * U as f64) as i64,
    }
}

fn in_degrees(cell: &CellBound) -> (f64, f64, f64, f64, f64) {
    (
        cell.rect.lat_min as f64 / U as f64,
        cell.rect.lat_max as f64 / U as f64,
        cell.rect.lon_min as f64 / U as f64,
        cell.rect.lon_max as f64 / U as f64,
        cell.area.num as f64 / cell.area.den as f64,
    )
}

#[test]
fn bounds() {
    let bounds = get_bounds(&rect(-80.0, -70.0, 70.0, 80.0), 3, LonSpan::Legacy);
    for bound in bounds {
        println!("{:?}", in_degrees(&bound));
    }
}

#[test]
fn bounds_round_trip() {
    let query = rect(-80.0, -70.0, 70.0, 80.0);
    let delta = get_deltas(3, LonSpan::Legacy);
    let range = index_range(&query, 3, LonSpan::Legacy);
    assert_eq!(range, IndexRange { lat_min: -57, lat_max: -49, lon_min: 68, lon_max: 79 });

    let cells = get_bounds(&query, 3, LonSpan::Legacy);
    assert!(!cells.is_empty());
    assert_eq!(cells.len(), 88);
    assert_eq!(cells[0].rect.lat_min, range.lat_min * delta.lat);
    assert_eq!(cells[0].rect.lat_max, (range.lat_min + 1) * delta.lat);
    assert_eq!(cells[0].rect.lon_min, range.lon_min * delta.lon);
    assert_eq!(cells[0].rect.lon_max, (range.lon_min + 1) * delta.lon);
    assert_eq!(
        in_degrees(&cells[0]),
        (-80.15625, -78.75, 69.0625, 70.078125, 0.06837606837606838)
    );
    assert_eq!(
        cells[0].area,
        AreaFraction { num: 1801439850948198400, den: 26346057820117401600 }
    );
    assert_eq!(
        in_degrees(&cells[87]),
        (-70.3125, -68.90625, 79.21875, 80.234375, 4503599627370496000.0 / 26346057820117401600.0)
    );
}

#[test]
fn cells_come_row_by_row() {
    let query = rect(-80.0, -70.0, 70.0, 80.0);
    let delta = get_deltas(3, LonSpan::Legacy);
    let range = index_range(&query, 3, LonSpan::Legacy);
    let cols = (range.lon_max - range.lon_min) as usize;
    let cells = get_bounds(&query, 3, LonSpan::Legacy);
    for (k, cell) in cells.iter().enumerate() {
        let lat_index = range.lat_min + (k / cols) as i64;
        let lon_index = range.lon_min + (k % cols) as i64;
        assert_eq!(cell.rect.lat_min, lat_index * delta.lat);
        assert_eq!(cell.rect.lon_min, lon_index * delta.lon);
    }
}

#[test]
fn cell_count_is_rows_times_columns() {
    let queries = [
        rect(-80.0, -70.0, 70.0, 80.0),
        rect(39.659, 40.65, -106.167, -104.852),
        rect(-1.0, 1.0, -1.0, 1.0),
        rect(0.0, 45.0, 0.0, 45.0),
        rect(12.5, 12.5, 30.0, 31.0),
        rect(-90.0, 90.0, -180.0, 180.0),
    ];
    for query in queries.iter() {
        for precision in 1..=3u8 {
            for span in [LonSpan::Legacy, LonSpan::Full] {
                let range = index_range(query, precision, span);
                let rows = (range.lat_max - range.lat_min) as usize;
                let cols = (range.lon_max - range.lon_min) as usize;
                assert_eq!(get_bounds(query, precision, span).len(), rows * cols);
            }
        }
    }
    assert_eq!(get_bounds(&rect(0.0, 45.0, 0.0, 45.0), 1, LonSpan::Full).len(), 1);
    assert_eq!(get_bounds(&rect(-90.0, 90.0, -180.0, 180.0), 1, LonSpan::Full).len(), 32);
    assert_eq!(get_bounds(&rect(-90.0, 90.0, -180.0, 180.0), 1, LonSpan::Legacy).len(), 48);
    assert_eq!(get_bounds(&rect(12.5, 12.5, 30.0, 31.0), 2, LonSpan::Full).len(), 1);
    assert_eq!(get_bounds(&rect(45.0, 45.0, 30.0, 31.0), 1, LonSpan::Full).len(), 0);
}

#[test]
fn every_cell_has_the_size_of_the_grid() {
    let queries = [rect(-80.0, -70.0, 70.0, 80.0), rect(39.659, 40.65, -106.167, -104.852)];
    for query in queries.iter() {
        for precision in 1..=4u8 {
            for span in [LonSpan::Legacy, LonSpan::Full] {
                let delta = get_deltas(precision, span);
                for cell in get_bounds(query, precision, span) {
                    assert_eq!(cell.rect.lat_max - cell.rect.lat_min, delta.lat);
                    assert_eq!(cell.rect.lon_max - cell.rect.lon_min, delta.lon);
                    assert_eq!(cell.area.den, delta.lat as i128 * delta.lon as i128);
                    assert_eq!(cell.rect.lat_min % delta.lat, 0);
                    assert_eq!(cell.rect.lon_min % delta.lon, 0);
                }
            }
        }
    }
}

#[test]
fn a_cell_inside_the_query_is_covered_whole() {
    let query = rect(-80.0, -70.0, 70.0, 80.0);
    let cells = get_bounds(&query, 3, LonSpan::Legacy);
    assert_eq!(in_degrees(&cells[12]), (-78.75, -77.34375, 70.078125, 71.09375, 1.0));
    let mut whole = 0;
    for cell in cells.iter() {
        let inside = query.lat_min <= cell.rect.lat_min
            && cell.rect.lat_max <= query.lat_max
            && query.lon_min <= cell.rect.lon_min
            && cell.rect.lon_max <= query.lon_max;
        assert_eq!(inside, cell.area.num == cell.area.den);
        assert!(0 < cell.area.num && cell.area.num <= cell.area.den);
        if inside {
            whole += 1;
        }
    }
    assert_eq!(whole, 6 * 9);
}

#[test]
fn a_query_without_area_covers_nothing_of_its_cells() {
    let line = rect(12.5, 12.5, 30.0, 31.0);
    let cells = get_bounds(&line, 2, LonSpan::Full);
    assert_eq!(cells.len(), 1);
    assert_eq!(cells[0].area.num, 0);
    assert!(cells[0].area.den > 0);
}

#[test]
fn a_backwards_query_gives_a_negative_fraction() {
    let backwards = rect(3.0, 1.0, 1.0, 3.0);
    let cells = get_bounds(&backwards, 1, LonSpan::Full);
    assert_eq!(cells.len(), 1);
    assert_eq!(cells[0].area.num, -(2 * U as i128) * (2 * U as i128));
    assert_eq!(in_degrees(&cells[0]).4, -4.0 / (45.0 * 45.0));

    let both = rect(3.0, 1.0, 3.0, 1.0);
    let cells = get_bounds(&both, 1, LonSpan::Full);
    assert_eq!(cells.len(), 1);
    assert_eq!(cells[0].area.num, (2 * U as i128) * (2 * U as i128));
}

#[test]
fn listing_twice_gives_the_same_cells() {
    let query = rect(39.659, 40.65, -106.167, -104.852);
    for precision in 1..=5u8 {
        for span in [LonSpan::Legacy, LonSpan::Full] {
            assert_eq!(get_bounds(&query, precision, span), get_bounds(&query, precision, span));
        }
    }
}

#[test]
fn index_ranges_round_outwards() {
    let query = GeoRect { lat_min: -1, lat_max: 1, lon_min: -1, lon_max: 1 };
    for precision in 1..=MAX_PRECISION {
        assert_eq!(
            index_range(&query, precision, LonSpan::Full),
            IndexRange { lat_min: -1, lat_max: 1, lon_min: -1, lon_max: 1 }
        );
    }
    let on_lines = rect(45.0, 90.0, -45.0, 0.0);
    assert_eq!(
        index_range(&on_lines, 1, LonSpan::Full),
        IndexRange { lat_min: 1, lat_max: 2, lon_min: -1, lon_max: 0 }
    );
    let globe = GeoRect {
        lat_min: -LAT_LIMIT,
        lat_max: LAT_LIMIT,
        lon_min: -LON_LIMIT,
        lon_max: LON_LIMIT,
    };
    assert!(globe.is_in_range());
    assert_eq!(
        index_range(&globe, 12, LonSpan::Full),
        IndexRange { lat_min: -(1 << 29), lat_max: 1 << 29, lon_min: -(1 << 29), lon_max: 1 << 29 }
    );
    assert_eq!(
        index_range(&globe, 12, LonSpan::Legacy),
        IndexRange {
            lat_min: -(1 << 29),
            lat_max: 1 << 29,
            lon_min: -743359725,
            lon_max: 743359725
        }
    );
}

#[test]
fn rectangles_off_the_globe_are_out_of_range() {
    assert!(rect(-90.0, 90.0, -180.0, 180.0).is_in_range());
    assert!(!GeoRect { lat_min: -LAT_LIMIT - 1, lat_max: 0, lon_min: 0, lon_max: 0 }.is_in_range());
    assert!(!GeoRect { lat_min: 0, lat_max: LAT_LIMIT + 1, lon_min: 0, lon_max: 0 }.is_in_range());
    assert!(!GeoRect { lat_min: 0, lat_max: 0, lon_min: -LON_LIMIT - 1, lon_max: 0 }.is_in_range());
    assert!(!GeoRect { lat_min: 0, lat_max: 0, lon_min: 0, lon_max: LON_LIMIT + 1 }.is_in_range());
}

#[test]
fn bounding_rect_takes_least_and_greatest() {
    let lons = vec![-3 * U, 7 * U, 5 * U, -4 * U];
    let lats = vec![40 * U, 41 * U, 39 * U, 40 * U];
    assert_eq!(
        bounding_rect(&lons, &lats),
        Some(GeoRect { lat_min: 39 * U, lat_max: 41 * U, lon_min: -4 * U, lon_max: 7 * U })
    );
    assert_eq!(
        bounding_rect(&vec![5], &vec![-6]),
        Some(GeoRect { lat_min: -6, lat_max: -6, lon_min: 5, lon_max: 5 })
    );
    assert_eq!(bounding_rect(&vec![], &lats), None);
    assert_eq!(bounding_rect(&lons, &vec![]), None);
}

#[test]
fn every_point_of_the_query_lies_in_a_cell() {
    let query = rect(39.659, 40.65, -106.167, -104.852);
    for span in [LonSpan::Legacy, LonSpan::Full] {
        for precision in 1..=4u8 {
            let cells = get_bounds(&query, precision, span);
            for a in 0..=10i64 {
                for b in 0..=10i64 {
                    let lat = query.lat_min + (query.lat_max - query.lat_min) / 10 * a;
                    let lon = query.lon_min + (query.lon_max - query.lon_min) / 10 * b;
                    let covered = cells.iter().any(|cell| {
                        cell.rect.lat_min <= lat
                            && lat <= cell.rect.lat_max
                            && cell.rect.lon_min <= lon
                            && lon <= cell.rect.lon_max
                    });
                    assert!(covered, "lat {} lon {} at {}", lat, lon, precision);
                }
            }
            for cell in cells.iter() {
                assert!(cell.area.num > 0);
            }
        }
    }
}
