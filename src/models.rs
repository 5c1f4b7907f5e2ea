//! Data carried between the components.
//!
//! Units: latitude and longitude in microdegrees, elevations and distances in
//! millimetres, times in seconds since the Unix epoch.
use vstd::prelude::*;
use crate::geometry::{valid_coord, surface_distance, surface_distance_mm};

verus! {

/// One recorded position.
#[derive(Clone, Copy, Debug, PartialEq, Eq)]
pub struct GpxPoint {
    pub lat: i64,
    pub lon: i64,
    pub ele: i64,
    pub time: Option<i64>,
}

/// An ordered sequence of positions, in traversal order.
#[derive(Clone, Debug)]
pub struct GpxData {
    pub points: Vec<GpxPoint>,
}

pub open spec fn valid_point(p: GpxPoint) -> bool {
    valid_coord(p.lat as int, p.lon as int)
}

pub open spec fn all_valid(s: Seq<GpxPoint>) -> bool {
    forall|i: int| 0 <= i < s.len() ==> valid_point(#[trigger] s[i])
}

/// No point carries a time.
pub open spec fn untimed(s: Seq<GpxPoint>) -> bool {
    forall|i: int| 0 <= i < s.len() ==> (#[trigger] s[i]).time.is_none()
}

/// Distance and elevation series for rendering.
#[derive(Clone, Debug)]
pub struct ElevationProfile {
    pub distance: Vec<i64>,
    pub elevation: Vec<i64>,
    pub smoothed: bool,
    pub window_size: u32,
}

/// One gradient band: its share of the directional distance, in units of
/// 10^-9 of a percent, and the distance of its windows in millimetres.
#[derive(Clone, Debug)]
pub struct GradientBin {
    pub range: String,
    pub percentage: i64,
    pub distance: i64,
}

#[derive(Clone, Debug)]
pub struct GradientDistribution {
    pub ascent: Vec<GradientBin>,
    pub descent: Vec<GradientBin>,
}

/// A stored route with its derived metrics.
#[derive(Clone, Debug)]
pub struct Race {
    pub id: String,
    pub user_id: String,
    pub name: String,
    pub gpx_data: String,
    pub distance_mm: i64,
    pub elevation_gain_mm: i64,
    pub elevation_loss_mm: i64,
    pub itra_effort_distance: Option<i64>,
    pub created_at: Option<String>,
}

#[derive(Clone, Copy, Debug, PartialEq, Eq)]
pub struct RoutePoint {
    pub lat: i64,
    pub lon: i64,
    pub ele: i64,
}

#[derive(Clone, Debug)]
pub struct RouteData {
    pub points: Vec<RoutePoint>,
}

/// A synthesised route. `effort_gap` is the distance between its effort
/// distance and the reference's, the basis of its similarity; it stays 0
/// until the candidate is scored.
#[derive(Clone, Debug)]
pub struct RouteCandidate {
    pub id: String,
    pub distance_mm: i64,
    pub elevation_gain_mm: i64,
    pub elevation_loss_mm: i64,
    pub itra_effort_distance: i64,
    pub effort_gap: i64,
    pub route: RouteData,
}

/// A stored synthesis run.
#[derive(Clone, Debug)]
pub struct SynthesisResult {
    pub id: String,
    pub user_id: String,
    pub reference_race_id: String,
    pub bbox_geometry: String,
    pub results: String,
    pub created_at: Option<String>,
}

/// A box in microdegrees.
#[derive(Clone, Copy, Debug, PartialEq, Eq)]
pub struct BoundingBox {
    pub north: i64,
    pub south: i64,
    pub east: i64,
    pub west: i64,
}

impl BoundingBox {
    pub open spec fn spec_contains(self, lat: int, lon: int) -> bool {
        self.south <= lat <= self.north && self.west <= lon <= self.east
    }

    /// Whether the coordinate lies inside the box, edges included.
    pub fn contains(&self, lat: i64, lon: i64) -> (r: bool)
        ensures
            r == self.spec_contains(lat as int, lon as int),
    {
        lat >= self.south && lat <= self.north && lon >= self.west && lon <= self.east
    }

    /// All four edges are valid coordinates.
    pub open spec fn edges_valid(self) -> bool {
        valid_coord(self.south as int, self.west as int) && valid_coord(
            self.north as int,
            self.east as int,
        )
    }

    /// Area in square metres: the product of the west edge's length and the
    /// south edge's length, rounded down.
    pub open spec fn spec_area(self) -> int {
        surface_distance(self.south as int, self.west as int, self.north as int, self.west as int)
            * surface_distance(self.south as int, self.west as int, self.south as int, self.east as int)
            / 1_000_000
    }

    /// Area in square metres, that is in millionths of a square kilometre.
    pub fn area_km2(&self) -> (r: u128)
        requires
            self.edges_valid(),
        ensures
            r == self.spec_area(),
    {
        let lat_dist = surface_distance_mm(self.south, self.west, self.north, self.west);
        let lon_dist = surface_distance_mm(self.south, self.west, self.south, self.east);
        assert(0 <= lat_dist as int * lon_dist as int <= 50_000_000_000 * 50_000_000_000) by (nonlinear_arith)
            requires
                0 <= lat_dist <= 50_000_000_000,
                0 <= lon_dist <= 50_000_000_000,
        ;
        (lat_dist as u128) * (lon_dist as u128) / 1_000_000
    }
}

/// A synthesis request: the reference route, the area, the smoothing window
/// and the number of results.
#[derive(Clone, Debug)]
pub struct SynthesisRequest {
    pub reference_race_id: String,
    pub bounding_box: BoundingBox,
    pub rolling_window: u32,
    pub max_results: u32,
}

} // verus!
