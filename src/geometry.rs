//! Surface distance between two coordinates.
//!
//! Coordinates are microdegrees (1e-6 degree). Distances are millimetres on
//! a sphere of radius 6371 km, using the equirectangular projection around
//! the mean latitude of the two points; the cosine of that latitude comes
//! from Bhaskara's rational approximation, so everything stays in integers.
use vstd::prelude::*;

verus! {

/// Largest latitude magnitude, in microdegrees.
pub const MAX_LAT: i64 = 90_000_000;

/// Largest longitude magnitude, in microdegrees.
pub const MAX_LON: i64 = 180_000_000;

/// Micrometres of arc per microdegree on a sphere of radius 6371 km.
pub const UM_PER_MICRODEGREE: u128 = 111_195;

/// Four times 180 squared, in square microdegrees: the constant term of the
/// cosine approximation scaled for a latitude sum.
pub const COS_BASE: u128 = 129_600_000_000_000_000;

/// Upper bound on any surface distance between valid coordinates, in millimetres.
pub const MAX_SURFACE_MM: i64 = 50_000_000_000;

pub open spec fn valid_coord(lat: int, lon: int) -> bool {
    -MAX_LAT <= lat <= MAX_LAT && -MAX_LON <= lon <= MAX_LON
}

pub open spec fn abs(x: int) -> int {
    if x < 0 { -x } else { x }
}

/// The integer square root: the largest `r` with `r * r <= v`.
pub open spec fn is_isqrt(r: int, v: int) -> bool {
    0 <= r && r * r <= v && v < (r + 1) * (r + 1)
}

pub open spec fn isqrt(v: int) -> int {
    choose|r: int| is_isqrt(r, v)
}

/// Longitude difference the short way round, in microdegrees.
pub open spec fn lon_gap(lon_a: int, lon_b: int) -> int {
    let d = abs(lon_b - lon_a);
    if d > 180_000_000 {
        360_000_000 - d
    } else {
        d
    }
}

/// East-west offset in micrometres: longitude difference (the short way
/// round) scaled by the approximate cosine of the mean latitude
/// `(lat_a + lat_b) / 2`.
pub open spec fn east_um(lat_a: int, lon_a: int, lat_b: int, lon_b: int) -> int {
    let s = lat_a + lat_b;
    lon_gap(lon_a, lon_b) * UM_PER_MICRODEGREE * (COS_BASE - 4 * (s * s)) / (COS_BASE + s * s)
}

pub open spec fn north_um(lat_a: int, lat_b: int) -> int {
    abs(lat_b - lat_a) * UM_PER_MICRODEGREE
}

pub open spec fn planar_sq(lat_a: int, lon_a: int, lat_b: int, lon_b: int) -> int {
    let x = east_um(lat_a, lon_a, lat_b, lon_b);
    let y = north_um(lat_a, lat_b);
    x * x + y * y
}

/// Surface distance in millimetres between two coordinates.
pub open spec fn surface_distance(lat_a: int, lon_a: int, lat_b: int, lon_b: int) -> int {
    isqrt(planar_sq(lat_a, lon_a, lat_b, lon_b)) / 1000
}

proof fn lemma_isqrt_unique(r: int, v: int)
    requires
        is_isqrt(r, v),
    ensures
        isqrt(v) == r,
{
    let q = isqrt(v);
    assert(is_isqrt(q, v));
    if q < r {
        assert((q + 1) * (q + 1) <= r * r) by (nonlinear_arith)
            requires
                0 <= q < r,
        ;
    } else if q > r {
        assert((r + 1) * (r + 1) <= q * q) by (nonlinear_arith)
            requires
                0 <= r < q,
        ;
    }
}

/// Integer square root by bisection.
fn isqrt_u128(v: u128) -> (r: u128)
    ensures
        is_isqrt(r as int, v as int),
{
    let mut lo: u128 = 0;
    let mut hi: u128 = 0x1_0000_0000_0000_0000;
    assert(v < hi * hi);
    while hi - lo > 1
        invariant
            lo < hi <= 0x1_0000_0000_0000_0000,
            lo * lo <= v,
            v < hi * hi,
        decreases hi - lo,
    {
        let mid = lo + (hi - lo) / 2;
        assert(mid * mid < 0x1_0000_0000_0000_0000_0000_0000_0000_0000) by (nonlinear_arith)
            requires
                mid < 0x1_0000_0000_0000_0000,
        ;
        if mid * mid <= v {
            lo = mid;
        } else {
            hi = mid;
        }
    }
    assert(hi == lo + 1);
    lo
}

proof fn lemma_sqrt_bound(r: int, v: int, b: int)
    requires
        0 <= r,
        0 <= b,
        r * r <= v,
        v <= b * b,
    ensures
        r <= b,
{
    if r > b {
        assert(b * b < r * r) by (nonlinear_arith)
            requires
                0 <= b < r,
        ;
    }
}

/// Facts about the surface distance: it is a bounded non-negative number and
/// vanishes between equal coordinates.
pub proof fn lemma_surface_distance(lat_a: int, lon_a: int, lat_b: int, lon_b: int)
    requires
        valid_coord(lat_a, lon_a),
        valid_coord(lat_b, lon_b),
    ensures
        0 <= surface_distance(lat_a, lon_a, lat_b, lon_b) <= MAX_SURFACE_MM,
        (lat_a == lat_b && lon_a == lon_b) ==> surface_distance(lat_a, lon_a, lat_b, lon_b) == 0,
{
    let s = lat_a + lat_b;
    let num = COS_BASE - 4 * (s * s);
    let den = COS_BASE + s * s;
    let dx = lon_gap(lon_a, lon_b) * UM_PER_MICRODEGREE;
    assert(0 <= s * s <= 32_400_000_000_000_000) by (nonlinear_arith)
        requires
            -180_000_000 <= s <= 180_000_000,
    ;
    assert(0 <= num <= den);
    assert(0 <= dx * num <= dx * den) by (nonlinear_arith)
        requires
            0 <= num <= den,
            0 <= dx,
    ;
    let x = east_um(lat_a, lon_a, lat_b, lon_b);
    let y = north_um(lat_a, lat_b);
    assert(x == dx * num / den);
    assert(0 <= x <= dx) by (nonlinear_arith)
        requires
            x == dx * num / den,
            0 <= dx * num <= dx * den,
            den > 0,
    ;
    assert(dx <= 40_030_200_000_000);
    assert(0 <= y <= 20_015_100_000_000);
    assert(x * x <= 40_030_200_000_000 * 40_030_200_000_000) by (nonlinear_arith)
        requires
            0 <= x <= 40_030_200_000_000,
    ;
    assert(y * y <= 20_015_100_000_000 * 20_015_100_000_000) by (nonlinear_arith)
        requires
            0 <= y <= 20_015_100_000_000,
    ;
    let v = planar_sq(lat_a, lon_a, lat_b, lon_b);
    assert(v >= 0) by (nonlinear_arith)
        requires
            v == x * x + y * y,
    ;
    let b: int = 50_000_000_000_000;
    assert(v <= b * b);
    let (r, w) = isqrt_witness(v);
    lemma_isqrt_unique(r, v);
    lemma_sqrt_bound(r, v, b);
    if lat_a == lat_b && lon_a == lon_b {
        assert(dx == 0);
        assert(x == 0);
        assert(y == 0);
        assert(v == 0) by (nonlinear_arith)
            requires
                x == 0,
                y == 0,
                v == x * x + y * y,
        ;
        assert(is_isqrt(0, v));
        lemma_isqrt_unique(0, v);
    }
}

/// Every non-negative number has an integer square root.
proof fn isqrt_witness(v: int) -> (res: (int, int))
    requires
        v >= 0,
    ensures
        is_isqrt(res.0, v),
    decreases v,
{
    if v == 0 {
        (0, 0)
    } else {
        let (p, _) = isqrt_witness(v - 1);
        if (p + 1) * (p + 1) <= v {
            assert(v < (p + 2) * (p + 2)) by (nonlinear_arith)
                requires
                    v - 1 < (p + 1) * (p + 1),
                    0 <= p,
            ;
            (p + 1, 0)
        } else {
            (p, 0)
        }
    }
}

/// Surface distance in millimetres between two valid coordinates.
pub fn surface_distance_mm(lat_a: i64, lon_a: i64, lat_b: i64, lon_b: i64) -> (d: i64)
    requires
        valid_coord(lat_a as int, lon_a as int),
        valid_coord(lat_b as int, lon_b as int),
    ensures
        d == surface_distance(lat_a as int, lon_a as int, lat_b as int, lon_b as int),
        0 <= d <= MAX_SURFACE_MM,
{
    proof {
        lemma_surface_distance(lat_a as int, lon_a as int, lat_b as int, lon_b as int);
    }
    let ghost s_int = lat_a + lat_b;
    let s_abs: u128 = if lat_a + lat_b < 0 {
        (-(lat_a + lat_b)) as u128
    } else {
        (lat_a + lat_b) as u128
    };
    assert(s_abs * s_abs == s_int * s_int) by (nonlinear_arith)
        requires
            s_abs == abs(s_int),
    ;
    assert(s_abs * s_abs <= 32_400_000_000_000_000) by (nonlinear_arith)
        requires
            s_abs <= 180_000_000,
    ;
    let s2: u128 = s_abs * s_abs;
    let num: u128 = COS_BASE - 4 * s2;
    let den: u128 = COS_BASE + s2;
    let dlon_raw: u128 = if lon_b >= lon_a {
        (lon_b - lon_a) as u128
    } else {
        (lon_a - lon_b) as u128
    };
    let dlon: u128 = if dlon_raw > 180_000_000 {
        360_000_000 - dlon_raw
    } else {
        dlon_raw
    };
    let dlat: u128 = if lat_b >= lat_a {
        (lat_b - lat_a) as u128
    } else {
        (lat_a - lat_b) as u128
    };
    let dx: u128 = dlon * UM_PER_MICRODEGREE;
    assert(dx * num <= 40_030_200_000_000 * COS_BASE) by (nonlinear_arith)
        requires
            dx <= 40_030_200_000_000,
            num <= COS_BASE,
    ;
    let x: u128 = dx * num / den;
    let y: u128 = dlat * UM_PER_MICRODEGREE;
    assert(x <= dx) by (nonlinear_arith)
        requires
            x as int == (dx * num) as int / den as int,
            num <= den,
            den > 0,
    ;
    assert(x * x <= 40_030_200_000_000 * 40_030_200_000_000) by (nonlinear_arith)
        requires
            x <= 40_030_200_000_000,
    ;
    assert(y * y <= 20_015_100_000_000 * 20_015_100_000_000) by (nonlinear_arith)
        requires
            y <= 20_015_100_000_000,
    ;
    let v: u128 = x * x + y * y;
    assert(dlon as int == lon_gap(lon_a as int, lon_b as int));
    assert(num as int == COS_BASE - 4 * (s_int * s_int));
    assert(den as int == COS_BASE + s_int * s_int);
    assert(x as int == east_um(lat_a as int, lon_a as int, lat_b as int, lon_b as int));
    assert(y as int == north_um(lat_a as int, lat_b as int));
    assert(v == planar_sq(lat_a as int, lon_a as int, lat_b as int, lon_b as int));
    let r = isqrt_u128(v);
    proof {
        lemma_isqrt_unique(r as int, v as int);
    }
    (r / 1000) as i64
}

} // verus!
