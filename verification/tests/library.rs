use lego_elevation::coords::{
    get_km_between_longitude_lines, get_miles_between_longitude_lines, latlon_to_string,
    validate_latitude, validate_longitude,
};
use lego_elevation::csv_out::format_grid_csv;
use lego_elevation::error::ElevationError;
use lego_elevation::grid::ElevationGrid;
use lego_elevation::lattice::{compute_lattice, lattice_row_latitude, LatLon};
use lego_elevation::quantize::get_lego_elevations;
use lego_elevation::response::{ensure_status_ok, parse_elevation_response, parse_truncated_number};

fn grid_from(size: usize, cells: Vec<i32>) -> ElevationGrid {
    ElevationGrid::from_cells(size, cells).expect("well-formed grid")
}

#[test]
fn spacing_at_equator_is_half_pi_times_k() {
    // (90 - 0) * pi/180 * 110.567 km in microkilometers, fixed point.
    assert_eq!(get_km_between_longitude_lines(0), 90 * 1_929_758);
    assert_eq!(get_miles_between_longitude_lines(0), 90 * 1_207_279);
}

#[test]
fn spacing_shrinks_toward_the_poles() {
    let equator = get_km_between_longitude_lines(0);
    let mid = get_km_between_longitude_lines(46_000_000);
    let high = get_km_between_longitude_lines(89_000_000);
    let near_pole = get_km_between_longitude_lines(89_999_999);
    assert!(equator > mid && mid > high && high > near_pole);
    assert!(near_pole >= 1);
    assert_eq!(near_pole, 1);
    // Symmetric in the hemisphere.
    assert_eq!(get_km_between_longitude_lines(-46_000_000), mid);
}

#[test]
fn latitude_and_longitude_validation() {
    assert!(validate_latitude(90_000_000).is_ok());
    assert!(validate_latitude(-90_000_000).is_ok());
    assert_eq!(
        validate_latitude(90_000_001),
        Err(ElevationError::BadLatitude(90_000_001))
    );
    assert!(validate_longitude(180_000_000).is_ok());
    assert_eq!(
        validate_longitude(-180_000_001),
        Err(ElevationError::BadLongitude(-180_000_001))
    );
}

#[test]
fn quantize_known_range_endpoints() {
    // min = 0, max = 99, levels = 9: 0 -> 0 and 99 -> floor(99 * 10 / 100) = 9.
    let cells: Vec<i32> = (0..100).collect();
    let grid = grid_from(10, cells);
    let out = get_lego_elevations(&grid, 9);
    assert_eq!(out.cells[0], 0);
    assert_eq!(out.cells[99], 9);
    // A mid value: 50 -> floor(50 * 10 / 100) = 5.
    assert_eq!(out.cells[50], 5);
    // The same values through the row/column accessors.
    assert_eq!(grid.get(0, 0), 0);
    assert_eq!(out.get(9, 9), 9);
}

#[test]
fn quantize_is_shift_invariant() {
    let cells: Vec<i32> = vec![12, -7, 30, 5, 0, 44, 44, -7, 13];
    let shifted: Vec<i32> = cells.iter().map(|e| e + 1000).collect();
    let a = get_lego_elevations(&grid_from(3, cells), 9);
    let b = get_lego_elevations(&grid_from(3, shifted), 9);
    assert_eq!(a.cells, b.cells);
}

#[test]
fn quantize_is_monotonic() {
    let cells: Vec<i32> = vec![5, 3, 3, 9, -2, 100, 42, 41, 0];
    let out = get_lego_elevations(&grid_from(3, cells.clone()), 7);
    for i in 0..cells.len() {
        for j in 0..cells.len() {
            if cells[i] > cells[j] {
                assert!(out.cells[i] >= out.cells[j]);
            }
        }
    }
}

#[test]
fn quantize_constant_grid_is_all_zero() {
    for levels in [1u8, 9, 255] {
        let out = get_lego_elevations(&grid_from(2, vec![777; 4]), levels);
        assert_eq!(out.cells, vec![0, 0, 0, 0]);
    }
}

#[test]
fn lattice_is_square_and_ordered() {
    let center = LatLon {
        lat_udeg: 46_000_000,
        lon_udeg: -121_000_000,
    };
    let points = compute_lattice(center, 7, 4).expect("legal lattice");
    assert_eq!(points.len(), 16);
    // Rows north to south: the first cell of each row sinks in latitude.
    for y in 1..4 {
        assert!(points[y * 4].lat_udeg < points[(y - 1) * 4].lat_udeg);
    }
    // Columns west to east within a row.
    for y in 0..4 {
        for x in 1..4 {
            assert!(points[y * 4 + x].lon_udeg > points[y * 4 + x - 1].lon_udeg);
            assert_eq!(points[y * 4 + x].lat_udeg, points[y * 4].lat_udeg);
        }
    }
    // The middle row/column sits near the center.
    assert_eq!(points[2 * 4 + 2].lat_udeg, 46_000_000);
    assert_eq!(points[2 * 4 + 2].lon_udeg, -121_000_000);
}

#[test]
fn lattice_row_beyond_pole_aborts() {
    // A walk whose northern rows leave the legal band never yields points,
    // so no elevation is ever requested for any of its cells.
    let center = LatLon {
        lat_udeg: 89_000_000,
        lon_udeg: 0,
    };
    let r = compute_lattice(center, 10_000, 2);
    assert!(matches!(r, Err(ElevationError::BadLatitude(_))));
    // The offending row is known before anything else happens.
    let row = lattice_row_latitude(89_000_000, 10_000, 2, 0);
    assert!(matches!(row, Err(ElevationError::BadLatitude(lat)) if lat >= 90_000_000));
}

#[test]
fn lattice_of_side_one_is_the_center() {
    let center = LatLon {
        lat_udeg: 10_500_000,
        lon_udeg: -20_250_000,
    };
    let points = compute_lattice(center, 100, 1).expect("legal lattice");
    assert_eq!(points.len(), 1);
    assert_eq!(points[0], center);
}

#[test]
fn latlon_display_layout() {
    let text = String::from_utf8(latlon_to_string(46_861_670, -121_760_280)).unwrap();
    assert_eq!(text, "46.86167 N, 121.760280 W");
    let text = String::from_utf8(latlon_to_string(-500_000, 250)).unwrap();
    assert_eq!(text, "0.50000 S, 0.000250 E");
}

#[test]
fn non_ok_status_aborts_the_run() {
    assert!(ensure_status_ok(200, String::from("OK")).is_ok());
    let e = ensure_status_ok(404, String::from("Not Found")).unwrap_err();
    assert_eq!(e.status_code, 404);
    assert_eq!(e.reason_phrase, "Not Found");
    let e = ensure_status_ok(500, String::from("Internal Server Error")).unwrap_err();
    assert_eq!(e.status_code, 500);
    assert_eq!(e.reason_phrase, "Internal Server Error");
}

#[test]
fn truncated_number_parsing() {
    assert_eq!(parse_truncated_number(b"276.99"), Ok(276));
    assert_eq!(parse_truncated_number(b"-3.9"), Ok(-3));
    assert_eq!(parse_truncated_number(b"0"), Ok(0));
    assert_eq!(parse_truncated_number(b"339."), Ok(339));
    assert_eq!(parse_truncated_number(b".5"), Ok(0));
    assert_eq!(parse_truncated_number(b"+41.0"), Ok(41));
    assert_eq!(parse_truncated_number(b"-2147483648.2"), Ok(-2147483648));
    assert_eq!(parse_truncated_number(b"2147483647"), Ok(2147483647));
    assert_eq!(
        parse_truncated_number(b"2147483648"),
        Err(ElevationError::ValueOutOfRange)
    );
    assert_eq!(
        parse_truncated_number(b"99999999999999999999"),
        Err(ElevationError::ValueOutOfRange)
    );
    assert_eq!(parse_truncated_number(b""), Err(ElevationError::NotANumber));
    assert_eq!(parse_truncated_number(b"-"), Err(ElevationError::NotANumber));
    assert_eq!(parse_truncated_number(b"."), Err(ElevationError::NotANumber));
    assert_eq!(parse_truncated_number(b"12a"), Err(ElevationError::NotANumber));
    assert_eq!(parse_truncated_number(b"1.2.3"), Err(ElevationError::NotANumber));
    assert_eq!(parse_truncated_number(b"null"), Err(ElevationError::NotANumber));
}

#[test]
fn truncated_number_parsing_with_exponents() {
    assert_eq!(parse_truncated_number(b"1.02e3"), Ok(1020));
    assert_eq!(parse_truncated_number(b"1e2"), Ok(100));
    assert_eq!(parse_truncated_number(b"12.5E1"), Ok(125));
    assert_eq!(parse_truncated_number(b"-1e2"), Ok(-100));
    assert_eq!(parse_truncated_number(b"5e-1"), Ok(0));
    assert_eq!(parse_truncated_number(b"1.5e-1"), Ok(0));
    assert_eq!(parse_truncated_number(b".5e1"), Ok(5));
    assert_eq!(parse_truncated_number(b"1e+1"), Ok(10));
    assert_eq!(parse_truncated_number(b"-2147483648e0"), Ok(-2147483648));
    assert_eq!(parse_truncated_number(b"0e99999999999999999999999"), Ok(0));
    assert_eq!(
        parse_truncated_number(b"1e99999999999999999999999"),
        Err(ElevationError::ValueOutOfRange)
    );
    assert_eq!(parse_truncated_number(b"3e9"), Err(ElevationError::ValueOutOfRange));
    assert_eq!(parse_truncated_number(b"-3e9"), Err(ElevationError::ValueOutOfRange));
    assert_eq!(parse_truncated_number(b"1e"), Err(ElevationError::NotANumber));
    assert_eq!(parse_truncated_number(b"1e+"), Err(ElevationError::NotANumber));
    assert_eq!(parse_truncated_number(b"1e2.5"), Err(ElevationError::NotANumber));
    assert_eq!(parse_truncated_number(b"e5"), Err(ElevationError::NotANumber));
}

#[test]
fn elevation_response_decoding() {
    // The service may answer the value as a string or as a bare number.
    assert_eq!(parse_elevation_response("{\"value\":\"339.17\"}"), Ok(339));
    assert_eq!(parse_elevation_response("{\"value\":276.99}"), Ok(276));
    assert_eq!(parse_elevation_response("{\"value\":-12}"), Ok(-12));
    assert_eq!(
        parse_elevation_response("{\"location\":{\"x\":-121.0,\"y\":46.0},\"value\":\"42.5\"}"),
        Ok(42)
    );
    assert_eq!(
        parse_elevation_response("no json here"),
        Err(ElevationError::InvalidJson)
    );
    assert_eq!(
        parse_elevation_response("{\"elevation\":5}"),
        Err(ElevationError::MissingValue)
    );
    assert_eq!(
        parse_elevation_response("{\"value\":null}"),
        Err(ElevationError::NotANumber)
    );
    assert_eq!(
        parse_elevation_response("{\"value\":\"tall\"}"),
        Err(ElevationError::NotANumber)
    );
}

#[test]
fn csv_layout() {
    let levels = get_lego_elevations(&grid_from(2, vec![0, 10, 200, 255]), 255);
    // Constant spread 256 over levels 255: identity-like mapping here.
    let bytes = format_grid_csv(&levels);
    let text = String::from_utf8(bytes).expect("ascii");
    let rows: Vec<&str> = text.trim_end().split('\n').collect();
    assert_eq!(rows.len(), 2);
    assert!(text.ends_with('\n'));
    for row in &rows {
        assert_eq!(row.split(',').count(), 2);
    }
    assert_eq!(text, "0,10\n200,255\n");
}

#[test]
fn end_to_end_with_stubbed_provider() {
    // A stand-in for the elevation service: a fixed function of the
    // latitude, one thousandth of a microdegree, truncated.
    let stub = |lat_udeg: i64, _lon_udeg: i64| -> i32 { (lat_udeg / 1000) as i32 };
    let center = LatLon {
        lat_udeg: 46_000_000,
        lon_udeg: -121_000_000,
    };
    let gridsize = 4usize;
    let points = compute_lattice(center, 7, gridsize as i16).expect("legal lattice");
    let mut cells: Vec<i32> = Vec::new();
    for p in &points {
        cells.push(stub(p.lat_udeg, p.lon_udeg));
    }
    let grid = grid_from(gridsize, cells);
    let levels = get_lego_elevations(&grid, 9);
    let text = String::from_utf8(format_grid_csv(&levels)).expect("ascii");
    let rows: Vec<&str> = text.trim_end().split('\n').collect();
    assert_eq!(rows.len(), 4);
    let mut parsed: Vec<Vec<u8>> = Vec::new();
    for row in &rows {
        let fields: Vec<u8> = row.split(',').map(|f| f.parse().expect("integer")).collect();
        assert_eq!(fields.len(), 4);
        for v in &fields {
            assert!(*v <= 9);
        }
        parsed.push(fields);
    }
    // Row 0 is the northernmost: the stub grows with latitude, so its
    // quantized values top every later row's.
    for x in 0..4 {
        for y in 1..4 {
            assert!(parsed[0][x] >= parsed[y][x]);
        }
    }
    assert_eq!(parsed[0][0], 9);
    assert_eq!(parsed[3][0], 0);
}
