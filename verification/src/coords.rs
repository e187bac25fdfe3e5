//! Coordinate math on fixed-point microdegree latitudes.
//!
//! A latitude or longitude is carried as a signed count of microdegrees
//! (millionths of a degree), and distances as microkilometers or micromiles,
//! so the convergence formula `(90 - |lat|) * pi/180 * K` becomes exact
//! integer arithmetic on scaled constants.

use vstd::prelude::*;

verus! {

use vstd::arithmetic::div_mod::{lemma_div_is_ordered, lemma_hoist_over_denominator};
use crate::error::ElevationError;

/// Microdegrees in one degree.
pub const MICRO: i64 = 1_000_000;

/// Latitude magnitude of a pole, in microdegrees.
pub const POLE_UDEG: i64 = 90_000_000;

/// Widest legal longitude magnitude, in microdegrees.
pub const LON_LIMIT_UDEG: i64 = 180_000_000;

/// Fixed-point form of `pi/180 * 110.567 km`: microkilometers of east-west
/// ground distance per degree of colatitude.
pub const UKM_PER_COLAT_DEGREE: i64 = 1_929_758;

/// Fixed-point form of `pi/180 * 69.172 mi`: micromiles of east-west ground
/// distance per degree of colatitude.
pub const UMI_PER_COLAT_DEGREE: i64 = 1_207_279;

/// Thousandths of a kilometer spanned by one degree of latitude.
pub const KM_PER_LAT_DEGREE_MILLI: i64 = 110_567;

pub open spec fn abs_val(x: int) -> int {
    if x < 0 {
        -x
    } else {
        x
    }
}

/// Ground distance between neighbouring longitude lines at latitude `lat`
/// microdegrees, in microkilometers: the fixed-point reading of
/// `(90 - |lat|) * pi/180 * 110.567`.
pub open spec fn km_between_spec(lat: int) -> int {
    (POLE_UDEG - abs_val(lat)) * UKM_PER_COLAT_DEGREE / (MICRO as int)
}

/// The same spacing in micromiles: `(90 - |lat|) * pi/180 * 69.172`.
pub open spec fn mi_between_spec(lat: int) -> int {
    (POLE_UDEG - abs_val(lat)) * UMI_PER_COLAT_DEGREE / (MICRO as int)
}

/// Distance between neighbouring longitude lines at `lat_udeg` microdegrees
/// of latitude, in microkilometers.
pub fn get_km_between_longitude_lines(lat_udeg: i64) -> (d: i64)
    requires
        -POLE_UDEG < lat_udeg < POLE_UDEG,
    ensures
        d == km_between_spec(lat_udeg as int),
        1 <= d <= 90 * UKM_PER_COLAT_DEGREE,
{
    let a: i64 = if lat_udeg < 0 {
        -lat_udeg
    } else {
        lat_udeg
    };
    let colat: i64 = POLE_UDEG - a;
    (colat * UKM_PER_COLAT_DEGREE) / MICRO
}

/// Distance between neighbouring longitude lines at `lat_udeg` microdegrees
/// of latitude, in micromiles.
pub fn get_miles_between_longitude_lines(lat_udeg: i64) -> (d: i64)
    requires
        -POLE_UDEG < lat_udeg < POLE_UDEG,
    ensures
        d == mi_between_spec(lat_udeg as int),
        1 <= d <= 90 * UMI_PER_COLAT_DEGREE,
{
    let a: i64 = if lat_udeg < 0 {
        -lat_udeg
    } else {
        lat_udeg
    };
    let colat: i64 = POLE_UDEG - a;
    (colat * UMI_PER_COLAT_DEGREE) / MICRO
}

/// The longitude spacing is strictly positive below the poles and strictly
/// shrinks as a latitude moves away from the equator, in both unit systems.
pub proof fn lemma_spacing_strictly_decreasing(lat1: int, lat2: int)
    requires
        abs_val(lat1) < abs_val(lat2) < POLE_UDEG,
    ensures
        1 <= km_between_spec(lat2) < km_between_spec(lat1),
        1 <= mi_between_spec(lat2) < mi_between_spec(lat1),
{
    let d: int = MICRO as int;
    let nk1 = (POLE_UDEG - abs_val(lat1)) * UKM_PER_COLAT_DEGREE;
    let nk2 = (POLE_UDEG - abs_val(lat2)) * UKM_PER_COLAT_DEGREE;
    assert(nk1 >= nk2 + d);
    lemma_hoist_over_denominator(nk2, 1, d as nat);
    lemma_div_is_ordered(nk2 + d, nk1, d);
    lemma_div_is_ordered(d, nk2, d);
    let nm1 = (POLE_UDEG - abs_val(lat1)) * UMI_PER_COLAT_DEGREE;
    let nm2 = (POLE_UDEG - abs_val(lat2)) * UMI_PER_COLAT_DEGREE;
    assert(nm1 >= nm2 + d);
    lemma_hoist_over_denominator(nm2, 1, d as nat);
    lemma_div_is_ordered(nm2 + d, nm1, d);
    lemma_div_is_ordered(d, nm2, d);
}

/// Away from the poles the spacing is at least one microkilometer and at
/// most the equatorial spacing.
pub proof fn lemma_km_between_bounds(lat: int)
    requires
        abs_val(lat) < POLE_UDEG,
    ensures
        1 <= km_between_spec(lat) <= 90 * UKM_PER_COLAT_DEGREE,
{
    let d: int = MICRO as int;
    let n = (POLE_UDEG - abs_val(lat)) * UKM_PER_COLAT_DEGREE;
    lemma_div_is_ordered(d, n, d);
    lemma_div_is_ordered(n, 90_000_000 * (UKM_PER_COLAT_DEGREE as int), d);
}

/// At the equator the spacing is the full 90 degrees of colatitude times the
/// per-degree constant: the fixed-point form of `(pi/2) * K`.
pub proof fn lemma_spacing_at_equator()
    ensures
        km_between_spec(0) == 90 * UKM_PER_COLAT_DEGREE,
        mi_between_spec(0) == 90 * UMI_PER_COLAT_DEGREE,
{
}

/// Five decimal digits of `f`, zero-padded, most significant first.
pub open spec fn pad5(f: int) -> Seq<u8> {
    seq![
        (f / 10000 % 10 + 48) as u8,
        (f / 1000 % 10 + 48) as u8,
        (f / 100 % 10 + 48) as u8,
        (f / 10 % 10 + 48) as u8,
        (f % 10 + 48) as u8,
    ]
}

/// Six decimal digits of `f`, zero-padded, most significant first.
pub open spec fn pad6(f: int) -> Seq<u8> {
    seq![(f / 100000 % 10 + 48) as u8] + pad5(f)
}

/// The display form of one lattice point: the latitude as unsigned degrees
/// with five decimals (the sixth microdegree digit dropped) and `N`/`S`,
/// then the longitude with six decimals and `E`/`W`.
pub open spec fn latlon_display_spec(lat: int, lon: int) -> Seq<u8> {
    crate::csv_out::dec_bytes(abs_val(lat) / 1_000_000) + seq![46u8] + pad5(abs_val(lat) % 1_000_000 / 10)
        + seq![32u8] + seq![if lat < 0 { 83u8 } else { 78u8 }] + seq![44u8, 32u8]
        + crate::csv_out::dec_bytes(abs_val(lon) / 1_000_000) + seq![46u8] + pad6(abs_val(lon) % 1_000_000)
        + seq![32u8] + seq![if lon < 0 { 87u8 } else { 69u8 }]
}

/// Appends the five zero-padded decimals of `f`.
fn push_pad5(out: &mut Vec<u8>, f: u32)
    ensures
        final(out)@ == old(out)@ + pad5(f as int),
{
    out.push((f / 10000 % 10) as u8 + 48);
    out.push((f / 1000 % 10) as u8 + 48);
    out.push((f / 100 % 10) as u8 + 48);
    out.push((f / 10 % 10) as u8 + 48);
    out.push((f % 10) as u8 + 48);
    proof {
        assert(out@ =~= old(out)@ + pad5(f as int));
    }
}

/// The display bytes of one lattice point, as `latlon_display_spec` lays
/// them out.
pub fn latlon_to_string(lat_udeg: i64, lon_udeg: i64) -> (r: Vec<u8>)
    requires
        -POLE_UDEG <= lat_udeg <= POLE_UDEG,
        -LON_LIMIT_UDEG <= lon_udeg <= LON_LIMIT_UDEG,
    ensures
        r@ == latlon_display_spec(lat_udeg as int, lon_udeg as int),
{
    let mut out: Vec<u8> = Vec::new();
    let lmag: i64 = if lat_udeg < 0 {
        -lat_udeg
    } else {
        lat_udeg
    };
    crate::csv_out::push_dec_u8(&mut out, (lmag / 1_000_000) as u8);
    out.push(46);
    push_pad5(&mut out, ((lmag % 1_000_000) / 10) as u32);
    out.push(32);
    out.push(if lat_udeg < 0 {
        83
    } else {
        78
    });
    out.push(44);
    out.push(32);
    let gmag: i64 = if lon_udeg < 0 {
        -lon_udeg
    } else {
        lon_udeg
    };
    crate::csv_out::push_dec_u8(&mut out, (gmag / 1_000_000) as u8);
    out.push(46);
    let gfrac: u32 = (gmag % 1_000_000) as u32;
    out.push((gfrac / 100000 % 10) as u8 + 48);
    push_pad5(&mut out, gfrac);
    out.push(32);
    out.push(if lon_udeg < 0 {
        87
    } else {
        69
    });
    proof {
        assert(out@ =~= latlon_display_spec(lat_udeg as int, lon_udeg as int));
    }
    out
}

/// A latitude is representable iff it lies in [-90, 90] degrees.
pub fn validate_latitude(lat_udeg: i64) -> (r: Result<(), ElevationError>)
    ensures
        r.is_ok() <==> -POLE_UDEG <= lat_udeg <= POLE_UDEG,
        r.is_err() ==> r == Err::<(), ElevationError>(ElevationError::BadLatitude(lat_udeg)),
{
    if lat_udeg > POLE_UDEG || lat_udeg < -POLE_UDEG {
        Err(ElevationError::BadLatitude(lat_udeg))
    } else {
        Ok(())
    }
}

/// A longitude is representable iff it lies in [-180, 180] degrees.
pub fn validate_longitude(lon_udeg: i64) -> (r: Result<(), ElevationError>)
    ensures
        r.is_ok() <==> -LON_LIMIT_UDEG <= lon_udeg <= LON_LIMIT_UDEG,
        r.is_err() ==> r == Err::<(), ElevationError>(ElevationError::BadLongitude(lon_udeg)),
{
    if lon_udeg > LON_LIMIT_UDEG || lon_udeg < -LON_LIMIT_UDEG {
        Err(ElevationError::BadLongitude(lon_udeg))
    } else {
        Ok(())
    }
}

} // verus!
