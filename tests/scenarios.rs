use volt_core::bbox::{expand_bbox, validate_bbox};
use volt_core::gpx_parser::{clean_elevation_data, strip_and_optimize_points};
use volt_core::itra_calculator::{calculate_itra_effort, calculate_similarity};
use volt_core::models::{BoundingBox, GpxPoint, RouteCandidate, RouteData, RoutePoint};
use volt_core::route_matching::filter_routes_by_bbox;
use volt_core::rtree::{Coord, SpatialIndex, SpatialSegment};
use volt_core::settings::Settings;

fn point(lat: i64, lon: i64, ele: i64) -> GpxPoint {
    GpxPoint { lat, lon, ele, time: None }
}

fn score(ref_distance: i64, ref_gain: i64, cand_distance: i64, cand_gain: i64) -> f64 {
    let s = calculate_similarity(ref_distance, ref_gain, cand_distance, cand_gain).unwrap();
    (-5.0 * s.effort_gap as f64 / s.reference_effort as f64).exp()
}

#[test]
fn test_settings_validation() {
    let mut settings = Settings::default();
    settings.jwt_secret = "short".to_string();
    assert!(settings.validate().is_err());

    settings.jwt_secret = "a".repeat(32);
    assert!(settings.validate().is_ok());
}

#[test]
fn test_route_filtering() {
    let bbox = BoundingBox { north: 47_000_000, south: 46_000_000, east: 7_000_000, west: 6_000_000 };
    let route1 = RouteCandidate {
        id: "1".to_string(),
        distance_mm: 50_000_000,
        elevation_gain_mm: 2_000_000,
        elevation_loss_mm: 2_000_000,
        itra_effort_distance: 70_000_000,
        effort_gap: 0,
        route: RouteData { points: vec![RoutePoint { lat: 46_500_000, lon: 6_500_000, ele: 1_000_000 }] },
    };
    let route2 = RouteCandidate {
        id: "2".to_string(),
        distance_mm: 50_000_000,
        elevation_gain_mm: 2_000_000,
        elevation_loss_mm: 2_000_000,
        itra_effort_distance: 70_000_000,
        effort_gap: 0,
        route: RouteData { points: vec![RoutePoint { lat: 48_000_000, lon: 6_500_000, ele: 1_000_000 }] },
    };
    let filtered = filter_routes_by_bbox(vec![route1, route2], &bbox);
    assert_eq!(filtered.len(), 1);
    assert_eq!(filtered[0].id, "1");
}

#[test]
fn test_point_stripping() {
    let points = vec![
        point(46_000_000, 7_000_000, 1_000_000),
        point(46_000_000, 7_000_000, 1_000_000),
        point(46_000_010, 7_000_010, 1_001_000),
        point(46_001_000, 7_001_000, 1_010_000),
    ];
    let result = strip_and_optimize_points(points).unwrap();
    assert_eq!(result.len(), 2);
}

#[test]
fn test_elevation_cleaning() {
    let mut points = vec![
        point(46_000_000, 7_000_000, 1_000_000),
        point(46_100_000, 7_100_000, -600_000),
        point(46_200_000, 7_200_000, 10_000_000),
        point(46_300_000, 7_300_000, 1_100_000),
    ];
    clean_elevation_data(&mut points);
    assert!(points[1].ele > -500_000);
    assert!(points[2].ele < 9_000_000);
}

#[test]
fn test_itra_calculation() {
    let itra = calculate_itra_effort(42_195_000, 1_000_000);
    assert_eq!(itra, 52_195_000);
}

#[test]
fn test_similarity_calculation() {
    let ref_dist = 50_000_000;
    let ref_ele = 2_000_000;
    let sim1 = score(ref_dist, ref_ele, ref_dist, ref_ele);
    assert!((sim1 - 1.0).abs() < 0.001);
    let sim2 = score(ref_dist, ref_ele, 48_000_000, 2_100_000);
    assert!(sim2 > 0.8);
    let sim3 = score(ref_dist, ref_ele, 10_000_000, 100_000);
    assert!(sim3 < 0.1);
}

#[test]
fn test_expand_bbox() {
    let bbox = BoundingBox { north: 47_000_000, south: 46_000_000, east: 7_000_000, west: 6_000_000 };
    let expanded = expand_bbox(&bbox, 200);
    assert_eq!(expanded.north, 47_500_000);
    assert_eq!(expanded.south, 45_500_000);
    assert_eq!(expanded.east, 7_500_000);
    assert_eq!(expanded.west, 5_500_000);
}

#[test]
fn test_validate_bbox() {
    let valid_bbox = BoundingBox { north: 47_000_000, south: 46_000_000, east: 7_000_000, west: 6_000_000 };
    assert!(validate_bbox(&valid_bbox).is_ok());
    let invalid_bbox = BoundingBox { north: 46_000_000, south: 47_000_000, east: 7_000_000, west: 6_000_000 };
    assert!(validate_bbox(&invalid_bbox).is_err());
}

#[test]
fn test_spatial_index() {
    let segment = SpatialSegment {
        id: "test".to_string(),
        start: Coord { lon: 6_000_000, lat: 46_000_000 },
        end: Coord { lon: 7_000_000, lat: 47_000_000 },
        distance_mm: 100_000_000,
        elevation_gain_mm: 1_000_000,
        elevation_loss_mm: 800_000,
    };
    let mut index = SpatialIndex::new();
    index.insert(segment);
    let results = index.query_bbox(5_500_000, 45_500_000, 7_500_000, 47_500_000);
    assert_eq!(results.len(), 1);
}
