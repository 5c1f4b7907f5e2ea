//! Bounding box construction, expansion and validation.
use vstd::prelude::*;
use crate::geometry::{MAX_LAT, MAX_LON};
use crate::models::BoundingBox;

verus! {

/// Largest box area accepted, in square metres (10 000 km²).
pub const MAX_AREA_M2: u128 = 10_000_000_000;

/// Smallest box area accepted, in square metres (1 km²).
pub const MIN_AREA_M2: u128 = 1_000_000;

/// Largest expansion factor, in percent.
pub const MAX_FACTOR_PERCENT: i64 = 1_000_000_000;

fn floor_half(x: i64) -> (r: i64)
    requires
        x > i64::MIN,
    ensures
        r == x as int / 2,
{
    if x >= 0 {
        x / 2
    } else {
        -((-x - 1) / 2) - 1
    }
}

pub open spec fn expanded_edges(lo: int, hi: int, factor: int) -> (int, int) {
    let center = (lo + hi) / 2;
    let half = (hi - lo) * factor / 100 / 2;
    (center - half, center + half)
}

fn expand_span(lo: i64, hi: i64, factor: i64) -> (r: (i64, i64))
    requires
        -MAX_LON <= lo <= MAX_LON,
        -MAX_LON <= hi <= MAX_LON,
        0 <= factor <= MAX_FACTOR_PERCENT,
    ensures
        r.0 == expanded_edges(lo as int, hi as int, factor as int).0,
        r.1 == expanded_edges(lo as int, hi as int, factor as int).1,
{
    let center = floor_half(lo + hi);
    let span = hi - lo;
    assert(-360_000_000 * MAX_FACTOR_PERCENT <= span * factor <= 360_000_000 * MAX_FACTOR_PERCENT) by (nonlinear_arith)
        requires
            -360_000_000 <= span <= 360_000_000,
            0 <= factor <= MAX_FACTOR_PERCENT,
    ;
    let scaled = span * factor;
    let stretched = if scaled >= 0 {
        scaled / 100
    } else {
        -((-scaled - 1) / 100) - 1
    };
    assert(stretched == scaled as int / 100);
    let half = floor_half(stretched);
    (center - half, center + half)
}

/// The box scaled by `factor_percent` percent around its centre.
pub fn expand_bbox(bbox: &BoundingBox, factor_percent: i64) -> (r: BoundingBox)
    requires
        bbox.edges_valid(),
        0 <= factor_percent <= MAX_FACTOR_PERCENT,
    ensures
        (r.south as int, r.north as int) == expanded_edges(
            bbox.south as int,
            bbox.north as int,
            factor_percent as int,
        ),
        (r.west as int, r.east as int) == expanded_edges(
            bbox.west as int,
            bbox.east as int,
            factor_percent as int,
        ),
{
    let (south, north) = expand_span(bbox.south, bbox.north, factor_percent);
    let (west, east) = expand_span(bbox.west, bbox.east, factor_percent);
    BoundingBox { north, south, east, west }
}

/// The message of the first check a box fails, or `None` when it passes all.
pub open spec fn bbox_problem(b: BoundingBox) -> Option<Seq<char>> {
    if b.north <= b.south {
        Some("North must be greater than south"@)
    } else if b.east <= b.west {
        Some("East must be greater than west"@)
    } else if b.north > MAX_LAT || b.south < -MAX_LAT {
        Some("Latitude must be between -90 and 90"@)
    } else if b.east > MAX_LON || b.west < -MAX_LON {
        Some("Longitude must be between -180 and 180"@)
    } else if b.spec_area() > MAX_AREA_M2 {
        Some("Bounding box area is too large (max 10,000 km²)"@)
    } else if b.spec_area() < MIN_AREA_M2 {
        Some("Bounding box area is too small (min 1 km²)"@)
    } else {
        None
    }
}

/// Checks edge order, coordinate ranges and area.
pub fn validate_bbox(bbox: &BoundingBox) -> (r: Result<(), String>)
    ensures
        match r {
            Ok(_) => bbox_problem(*bbox).is_none(),
            Err(m) => bbox_problem(*bbox) == Some(m@),
        },
{
    if bbox.north <= bbox.south {
        proof {
            reveal_strlit("North must be greater than south");
        }
        return Err("North must be greater than south".to_owned());
    }
    if bbox.east <= bbox.west {
        proof {
            reveal_strlit("East must be greater than west");
        }
        return Err("East must be greater than west".to_owned());
    }
    if bbox.north > MAX_LAT || bbox.south < -MAX_LAT {
        proof {
            reveal_strlit("Latitude must be between -90 and 90");
        }
        return Err("Latitude must be between -90 and 90".to_owned());
    }
    if bbox.east > MAX_LON || bbox.west < -MAX_LON {
        proof {
            reveal_strlit("Longitude must be between -180 and 180");
        }
        return Err("Longitude must be between -180 and 180".to_owned());
    }
    let area = bbox.area_km2();
    if area > MAX_AREA_M2 {
        proof {
            reveal_strlit("Bounding box area is too large (max 10,000 km²)");
        }
        return Err("Bounding box area is too large (max 10,000 km²)".to_owned());
    }
    if area < MIN_AREA_M2 {
        proof {
            reveal_strlit("Bounding box area is too small (min 1 km²)");
        }
        return Err("Bounding box area is too small (min 1 km²)".to_owned());
    }
    Ok(())
}

/// The smallest box holding every (latitude, longitude) pair, or `None` for
/// no pair.
pub fn bbox_from_points(points: &Vec<(i64, i64)>) -> (r: Option<BoundingBox>)
    ensures
        points@.len() == 0 <==> r.is_none(),
        r matches Some(b) ==> {
            &&& forall|i: int|
                0 <= i < points@.len() ==> b.spec_contains(
                    (#[trigger] points@[i]).0 as int,
                    points@[i].1 as int,
                )
            &&& exists|i: int| 0 <= i < points@.len() && (#[trigger] points@[i]).0 == b.south
            &&& exists|i: int| 0 <= i < points@.len() && (#[trigger] points@[i]).0 == b.north
            &&& exists|i: int| 0 <= i < points@.len() && (#[trigger] points@[i]).1 == b.west
            &&& exists|i: int| 0 <= i < points@.len() && (#[trigger] points@[i]).1 == b.east
        },
{
    if points.len() == 0 {
        return None;
    }
    let mut b = BoundingBox {
        north: points[0].0,
        south: points[0].0,
        east: points[0].1,
        west: points[0].1,
    };
    let mut i: usize = 1;
    while i < points.len()
        invariant
            1 <= i <= points@.len(),
            forall|j: int| 0 <= j < i ==> b.spec_contains(
                (#[trigger] points@[j]).0 as int,
                points@[j].1 as int,
            ),
            exists|j: int| 0 <= j < i && (#[trigger] points@[j]).0 == b.south,
            exists|j: int| 0 <= j < i && (#[trigger] points@[j]).0 == b.north,
            exists|j: int| 0 <= j < i && (#[trigger] points@[j]).1 == b.west,
            exists|j: int| 0 <= j < i && (#[trigger] points@[j]).1 == b.east,
        decreases points@.len() - i,
    {
        let (lat, lon) = points[i];
        if lat < b.south {
            b.south = lat;
        }
        if lat > b.north {
            b.north = lat;
        }
        if lon < b.west {
            b.west = lon;
        }
        if lon > b.east {
            b.east = lon;
        }
        i += 1;
    }
    Some(b)
}

} // verus!
