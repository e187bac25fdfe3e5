//! The sample lattice: which latitude/longitude each grid cell stands for.
//!
//! Row `y` of an `N`-by-`N` grid around a center lies at
//! `center.lat + radius/K * (mid - y)/mid` degrees with `mid = N / 2`, and
//! column `x` of that row at `center.lon + radius/km_between(lat) * (x - mid)/mid`,
//! all carried in microdegrees with truncation toward zero.

use vstd::prelude::*;

verus! {

use vstd::arithmetic::div_mod::{
    lemma_div_is_ordered,
    lemma_div_nonincreasing,
    lemma_div_pos_is_pos,
    lemma_hoist_over_denominator,
};
use vstd::arithmetic::mul::{
    lemma_mul_inequality,
    lemma_mul_is_distributive_sub,
    lemma_mul_strictly_positive,
    lemma_mul_upper_bound,
};
use crate::coords::{
    abs_val,
    get_km_between_longitude_lines,
    km_between_spec,
    KM_PER_LAT_DEGREE_MILLI,
    LON_LIMIT_UDEG,
    POLE_UDEG,
};
use crate::error::ElevationError;

/// One lattice point, in microdegrees.
#[derive(Clone, Copy, Debug, PartialEq, Eq, Structural)]
pub struct LatLon {
    pub lat_udeg: i64,
    pub lon_udeg: i64,
}

/// `num * dy / den` truncated toward zero.
pub open spec fn scaled_offset(num: int, dy: int, den: int) -> int {
    if dy >= 0 {
        num * dy / den
    } else {
        -(num * (-dy) / den)
    }
}

/// Latitude of row `y`, in microdegrees: the fixed-point reading of
/// `center_lat + radius/110.567 * (mid - y)/mid` degrees. A grid of side 1
/// has its single row on the center.
pub open spec fn row_lat_spec(center_lat: int, radius: int, gridsize: int, y: int) -> int {
    let mid = gridsize / 2;
    if mid == 0 {
        center_lat
    } else {
        center_lat + scaled_offset(
            radius * 1_000_000_000,
            mid - y,
            (KM_PER_LAT_DEGREE_MILLI as int) * mid,
        )
    }
}

/// Longitude of column `x` in a row at latitude `lat`, in microdegrees: the
/// fixed-point reading of `center_lon + radius/km_between(lat) * (x - mid)/mid`.
pub open spec fn col_lon_spec(center_lon: int, radius: int, gridsize: int, lat: int, x: int) -> int {
    let mid = gridsize / 2;
    if mid == 0 {
        center_lon
    } else {
        center_lon + scaled_offset(
            radius * 1_000_000_000_000,
            x - mid,
            km_between_spec(lat) * mid,
        )
    }
}

/// Arguments a run is allowed to hand the lattice walk.
pub open spec fn args_ok(center: LatLon, radius: int, gridsize: int) -> bool {
    &&& abs_val(center.lat_udeg as int) <= POLE_UDEG
    &&& abs_val(center.lon_udeg as int) <= LON_LIMIT_UDEG
    &&& 1 <= radius <= 10_000
    &&& 1 <= gridsize <= 1000
}

/// Row `y` stays strictly inside the poles.
pub open spec fn row_ok(center: LatLon, radius: int, gridsize: int, y: int) -> bool {
    abs_val(row_lat_spec(center.lat_udeg as int, radius, gridsize, y)) < POLE_UDEG
}

/// The longitude the cell at row `y`, column `x` stands for.
pub open spec fn cell_lon_spec(center: LatLon, radius: int, gridsize: int, y: int, x: int) -> int {
    col_lon_spec(
        center.lon_udeg as int,
        radius,
        gridsize,
        row_lat_spec(center.lat_udeg as int, radius, gridsize, y),
        x,
    )
}

/// The cell at row `y`, column `x` stays inside [-180, 180] degrees.
pub open spec fn cell_ok(center: LatLon, radius: int, gridsize: int, y: int, x: int) -> bool {
    abs_val(cell_lon_spec(center, radius, gridsize, y, x)) <= LON_LIMIT_UDEG
}

/// Every lattice point of the walk is legal.
pub open spec fn lattice_ok(center: LatLon, radius: int, gridsize: int) -> bool {
    &&& forall|y: int| 0 <= y < gridsize ==> #[trigger] row_ok(center, radius, gridsize, y)
    &&& forall|y: int, x: int|
        0 <= y < gridsize && 0 <= x < gridsize ==> #[trigger] cell_ok(center, radius, gridsize, y, x)
}

/// Quotients grow by at least two when the numerator grows by two
/// denominators.
proof fn lemma_div_grows(a: int, b: int, den: int)
    requires
        0 < den,
        0 <= a,
        a + 2 * den <= b,
    ensures
        a / den + 2 <= b / den,
{
    lemma_hoist_over_denominator(a, 2, den as nat);
    lemma_div_is_ordered(a + 2 * den, b, den);
}

/// With a step worth more than two denominators, the truncated offset is
/// strictly increasing in the lattice displacement.
proof fn lemma_scaled_offset_increasing(num: int, den: int, d1: int, d2: int)
    requires
        0 < den,
        2 * den <= num,
        d1 < d2,
    ensures
        scaled_offset(num, d1, den) < scaled_offset(num, d2, den),
{
    lemma_mul_is_distributive_sub(num, d2, d1);
    lemma_mul_inequality(1, d2 - d1, num);
    vstd::arithmetic::mul::lemma_mul_is_commutative(d2 - d1, num);
    if d1 >= 0 {
        vstd::arithmetic::mul::lemma_mul_nonnegative(num, d1);
        lemma_div_grows(num * d1, num * d2, den);
    } else if d2 <= 0 {
        lemma_mul_is_distributive_sub(num, -d1, -d2);
        lemma_mul_inequality(1, (-d1) - (-d2), num);
        vstd::arithmetic::mul::lemma_mul_is_commutative((-d1) - (-d2), num);
        vstd::arithmetic::mul::lemma_mul_nonnegative(num, -d2);
        lemma_div_grows(num * (-d2), num * (-d1), den);
    } else {
        lemma_mul_inequality(1, -d1, num);
        vstd::arithmetic::mul::lemma_mul_is_commutative(-d1, num);
        lemma_div_grows(0, num * (-d1), den);
        assert(0int / den == 0) by {
            vstd::arithmetic::div_mod::lemma_div_of0(den);
        }
        vstd::arithmetic::mul::lemma_mul_nonnegative(num, d2);
        lemma_div_pos_is_pos(num * d2, den);
    }
}

/// The lattice is centered: the middle row lies on the center's latitude
/// and the middle cell of that row on the center's longitude exactly.
pub proof fn lemma_middle_cell_is_center(center: LatLon, radius: int, gridsize: int)
    requires
        args_ok(center, radius, gridsize),
        abs_val(center.lat_udeg as int) < POLE_UDEG,
    ensures
        row_lat_spec(center.lat_udeg as int, radius, gridsize, gridsize / 2) == center.lat_udeg as int,
        cell_lon_spec(center, radius, gridsize, gridsize / 2, gridsize / 2) == center.lon_udeg as int,
{
    let mid = gridsize / 2;
    if mid > 0 {
        assert(0int / ((KM_PER_LAT_DEGREE_MILLI as int) * mid) == 0) by {
            vstd::arithmetic::div_mod::lemma_div_of0((KM_PER_LAT_DEGREE_MILLI as int) * mid);
        }
        let lat = row_lat_spec(center.lat_udeg as int, radius, gridsize, mid);
        crate::coords::lemma_km_between_bounds(lat);
        lemma_mul_strictly_positive(km_between_spec(lat), mid);
        assert(0int / (km_between_spec(lat) * mid) == 0) by {
            vstd::arithmetic::div_mod::lemma_div_of0(km_between_spec(lat) * mid);
        }
    }
}

/// Rows come out north to south: a lower row index stands for a strictly
/// higher latitude.
pub proof fn lemma_rows_north_to_south(center: LatLon, radius: int, gridsize: int, y1: int, y2: int)
    requires
        args_ok(center, radius, gridsize),
        gridsize >= 2,
        0 <= y1 < y2 < gridsize,
    ensures
        row_lat_spec(center.lat_udeg as int, radius, gridsize, y1) > row_lat_spec(
            center.lat_udeg as int,
            radius,
            gridsize,
            y2,
        ),
{
    let mid = gridsize / 2;
    let num = radius * 1_000_000_000;
    let den = (KM_PER_LAT_DEGREE_MILLI as int) * mid;
    lemma_mul_inequality(1, radius, 1_000_000_000);
    vstd::arithmetic::mul::lemma_mul_is_commutative(radius, 1_000_000_000);
    lemma_scaled_offset_increasing(num, den, mid - y2, mid - y1);
}

/// Columns come out west to east: within a legal row, a lower column index
/// stands for a strictly lower longitude.
pub proof fn lemma_cols_west_to_east(
    center: LatLon,
    radius: int,
    gridsize: int,
    y: int,
    x1: int,
    x2: int,
)
    requires
        args_ok(center, radius, gridsize),
        gridsize >= 2,
        0 <= y < gridsize,
        row_ok(center, radius, gridsize, y),
        0 <= x1 < x2 < gridsize,
    ensures
        cell_lon_spec(center, radius, gridsize, y, x1) < cell_lon_spec(center, radius, gridsize, y, x2),
{
    let mid = gridsize / 2;
    let lat = row_lat_spec(center.lat_udeg as int, radius, gridsize, y);
    let num = radius * 1_000_000_000_000;
    let den = km_between_spec(lat) * mid;
    crate::coords::lemma_km_between_bounds(lat);
    lemma_mul_upper_bound(km_between_spec(lat), 173_678_220, mid, 500);
    lemma_mul_strictly_positive(km_between_spec(lat), mid);
    lemma_mul_inequality(1, radius, 1_000_000_000_000);
    vstd::arithmetic::mul::lemma_mul_is_commutative(radius, 1_000_000_000_000);
    lemma_scaled_offset_increasing(num, den, x1 - mid, x2 - mid);
}

/// Latitude of row `y`, or the offending latitude if the row falls on or
/// beyond a pole.
#[verifier::loop_isolation(false)]
pub fn lattice_row_latitude(center_lat: i64, radius: u16, gridsize: i16, y: i16) -> (r: Result<
    i64,
    ElevationError,
>)
    requires
        abs_val(center_lat as int) <= POLE_UDEG,
        1 <= radius <= 10_000,
        1 <= gridsize <= 1000,
        0 <= y < gridsize,
    ensures
        ({
            let lat = row_lat_spec(center_lat as int, radius as int, gridsize as int, y as int);
            &&& -0x8000_0000_0000_0000 <= lat <= 0x7fff_ffff_ffff_ffff
            &&& (r is Ok <==> abs_val(lat) < POLE_UDEG)
            &&& (r is Ok ==> r->Ok_0 == lat)
            &&& (r is Err ==> r->Err_0 == ElevationError::BadLatitude(lat as i64))
        }),
{
    let mid16: i16 = gridsize / 2;
    let mid: i64 = mid16 as i64;
    let lat: i64;
    if mid == 0 {
        lat = center_lat;
    } else {
        let dy: i64 = mid - (y as i64);
        let mag: u64 = if dy >= 0 {
            dy as u64
        } else {
            (-dy) as u64
        };
        let num: u64 = (radius as u64) * 1_000_000_000;
        let den: u64 = 110_567u64 * (mid as u64);
        proof {
            lemma_mul_upper_bound(num as int, 10_000_000_000_000, mag as int, 500);
            lemma_div_nonincreasing((num * mag) as int, den as int);
        }
        let off: u64 = (num * mag) / den;
        if dy >= 0 {
            lat = center_lat + (off as i64);
        } else {
            lat = center_lat - (off as i64);
        }
    }
    if lat >= POLE_UDEG || lat <= -POLE_UDEG {
        Err(ElevationError::BadLatitude(lat))
    } else {
        Ok(lat)
    }
}

/// Longitude of column `x` in a row at latitude `lat_udeg`, or the offending
/// longitude if the cell leaves [-180, 180] degrees.
#[verifier::loop_isolation(false)]
pub fn lattice_col_longitude(center_lon: i64, radius: u16, gridsize: i16, lat_udeg: i64, x: i16) -> (r:
    Result<i64, ElevationError>)
    requires
        abs_val(center_lon as int) <= LON_LIMIT_UDEG,
        1 <= radius <= 10_000,
        1 <= gridsize <= 1000,
        0 <= x < gridsize,
        abs_val(lat_udeg as int) < POLE_UDEG,
    ensures
        ({
            let lon = col_lon_spec(
                center_lon as int,
                radius as int,
                gridsize as int,
                lat_udeg as int,
                x as int,
            );
            &&& -0x8000_0000_0000_0000 <= lon <= 0x7fff_ffff_ffff_ffff
            &&& (r is Ok <==> abs_val(lon) <= LON_LIMIT_UDEG)
            &&& (r is Ok ==> r->Ok_0 == lon)
            &&& (r is Err ==> r->Err_0 == ElevationError::BadLongitude(lon as i64))
        }),
{
    let mid16: i16 = gridsize / 2;
    let mid: i64 = mid16 as i64;
    let lon: i64;
    if mid == 0 {
        lon = center_lon;
    } else {
        let dx: i64 = (x as i64) - mid;
        let mag: u64 = if dx >= 0 {
            dx as u64
        } else {
            (-dx) as u64
        };
        let km: i64 = get_km_between_longitude_lines(lat_udeg);
        let num: u64 = (radius as u64) * 1_000_000_000_000;
        proof {
            lemma_mul_upper_bound(km as int, 173_678_220, mid as int, 500);
            lemma_mul_strictly_positive(km as int, mid as int);
        }
        let den: u64 = (km as u64) * (mid as u64);
        proof {
            lemma_mul_upper_bound(num as int, 10_000_000_000_000_000, mag as int, 500);
            lemma_div_nonincreasing((num * mag) as int, den as int);
        }
        let off: u64 = (num * mag) / den;
        if dx >= 0 {
            lon = center_lon + (off as i64);
        } else {
            lon = center_lon - (off as i64);
        }
    }
    if lon > LON_LIMIT_UDEG || lon < -LON_LIMIT_UDEG {
        Err(ElevationError::BadLongitude(lon))
    } else {
        Ok(lon)
    }
}

/// Walks the whole lattice row-major, row 0 northernmost, column 0
/// westernmost, validating every coordinate before any of them is used.
/// Succeeds iff every lattice point is legal; otherwise names the first
/// offending coordinate.
#[verifier::loop_isolation(false)]
pub fn compute_lattice(center: LatLon, radius: u16, gridsize: i16) -> (r: Result<
    Vec<LatLon>,
    ElevationError,
>)
    requires
        args_ok(center, radius as int, gridsize as int),
    ensures
        r is Ok <==> lattice_ok(center, radius as int, gridsize as int),
        r is Err ==> r->Err_0 is BadLatitude || r->Err_0 is BadLongitude,
        r is Err && r->Err_0 is BadLatitude ==> exists|y: int|
            0 <= y < gridsize && #[trigger] row_lat_spec(
                center.lat_udeg as int,
                radius as int,
                gridsize as int,
                y,
            ) == r->Err_0->BadLatitude_0 as int && !row_ok(center, radius as int, gridsize as int, y),
        r is Err && r->Err_0 is BadLongitude ==> exists|y: int, x: int|
            0 <= y < gridsize && 0 <= x < gridsize && #[trigger] cell_lon_spec(
                center,
                radius as int,
                gridsize as int,
                y,
                x,
            ) == r->Err_0->BadLongitude_0 as int && !cell_ok(center, radius as int, gridsize as int, y, x),
        r is Ok ==> r->Ok_0.len() == gridsize * gridsize,
        r is Ok ==> forall|y: int, x: int|
            0 <= y < gridsize && 0 <= x < gridsize ==> #[trigger] r->Ok_0@[y * gridsize + x]
                == (LatLon {
                lat_udeg: row_lat_spec(
                    center.lat_udeg as int,
                    radius as int,
                    gridsize as int,
                    y,
                ) as i64,
                lon_udeg: cell_lon_spec(center, radius as int, gridsize as int, y, x) as i64,
            }),
{
    let n: usize = gridsize as usize;
    let mut points: Vec<LatLon> = Vec::new();
    let mut y: usize = 0;
    while y < n
        invariant
            y <= n,
            points.len() == y * n,
            forall|yy: int| 0 <= yy < y ==> #[trigger] row_ok(center, radius as int, gridsize as int, yy),
            forall|yy: int, xx: int|
                0 <= yy < y && 0 <= xx < n ==> #[trigger] cell_ok(
                    center,
                    radius as int,
                    gridsize as int,
                    yy,
                    xx,
                ),
            forall|yy: int, xx: int|
                0 <= yy < y && 0 <= xx < n ==> #[trigger] points@[yy * n + xx] == (LatLon {
                    lat_udeg: row_lat_spec(
                        center.lat_udeg as int,
                        radius as int,
                        gridsize as int,
                        yy,
                    ) as i64,
                    lon_udeg: cell_lon_spec(center, radius as int, gridsize as int, yy, xx) as i64,
                }),
        decreases n - y,
    {
        let lat: i64 = match lattice_row_latitude(center.lat_udeg, radius, gridsize, y as i16) {
            Ok(l) => l,
            Err(e) => {
                proof {
                    assert(!row_ok(center, radius as int, gridsize as int, y as int));
                    assert(row_lat_spec(
                        center.lat_udeg as int,
                        radius as int,
                        gridsize as int,
                        y as int,
                    ) == e->BadLatitude_0 as int);
                }
                return Err(e);
            },
        };
        let mut x: usize = 0;
        while x < n
            invariant
                x <= n,
                points.len() == y * n + x,
                lat as int == row_lat_spec(
                    center.lat_udeg as int,
                    radius as int,
                    gridsize as int,
                    y as int,
                ),
                abs_val(lat as int) < POLE_UDEG,
                forall|yy: int, xx: int|
                    0 <= yy < y && 0 <= xx < n ==> #[trigger] points@[yy * n + xx] == (LatLon {
                        lat_udeg: row_lat_spec(
                            center.lat_udeg as int,
                            radius as int,
                            gridsize as int,
                            yy,
                        ) as i64,
                        lon_udeg: cell_lon_spec(center, radius as int, gridsize as int, yy, xx) as i64,
                    }),
                forall|xx: int|
                    0 <= xx < x ==> #[trigger] cell_ok(center, radius as int, gridsize as int, y as int, xx),
                forall|xx: int|
                    0 <= xx < x ==> #[trigger] points@[y * n + xx] == (LatLon {
                        lat_udeg: lat,
                        lon_udeg: cell_lon_spec(
                            center,
                            radius as int,
                            gridsize as int,
                            y as int,
                            xx,
                        ) as i64,
                    }),
            decreases n - x,
        {
            let lon: i64 = match lattice_col_longitude(center.lon_udeg, radius, gridsize, lat, x as i16) {
                Ok(l) => l,
                Err(e) => {
                    proof {
                        assert(!cell_ok(center, radius as int, gridsize as int, y as int, x as int));
                        assert(cell_lon_spec(
                            center,
                            radius as int,
                            gridsize as int,
                            y as int,
                            x as int,
                        ) == e->BadLongitude_0 as int);
                    }
                    return Err(e);
                },
            };
            let ghost prev = points@;
            points.push(LatLon { lat_udeg: lat, lon_udeg: lon });
            proof {
                assert forall|yy: int, xx: int| 0 <= yy < y && 0 <= xx < n implies #[trigger] points@[yy
                    * n + xx] == prev[yy * n + xx] by {
                    lemma_mul_inequality(yy + 1, y as int, n as int);
                    vstd::arithmetic::mul::lemma_mul_is_distributive_add_other_way(
                        n as int,
                        yy,
                        1,
                    );
                }
            }
            x = x + 1;
        }
        proof {
            vstd::arithmetic::mul::lemma_mul_is_distributive_add_other_way(n as int, y as int, 1);
            assert forall|yy: int, xx: int| 0 <= yy < y + 1 && 0 <= xx < n implies #[trigger] points@[yy
                * n + xx] == (LatLon {
                lat_udeg: row_lat_spec(
                    center.lat_udeg as int,
                    radius as int,
                    gridsize as int,
                    yy,
                ) as i64,
                lon_udeg: cell_lon_spec(center, radius as int, gridsize as int, yy, xx) as i64,
            }) by {
                if yy == y {
                    assert(points@[y * n + xx] == (LatLon {
                        lat_udeg: lat,
                        lon_udeg: cell_lon_spec(
                            center,
                            radius as int,
                            gridsize as int,
                            y as int,
                            xx,
                        ) as i64,
                    }));
                }
            }
        }
        y = y + 1;
    }
    Ok(points)
}

} // verus!
