use volt_core::bbox::{bbox_from_points, validate_bbox};
use volt_core::elevation_processor::{rolling_mean, ElevationData};
use volt_core::elevation_service::{
    calculate_elevation_metrics, calculate_elevation_profile, calculate_gradient_distribution,
};
use volt_core::errors::{bad_request, ApiError};
use volt_core::geometry::surface_distance_mm;
use volt_core::gpx_parser::{
    dedup_points, downsample_points, extract_raw_points, parse_gpx, strip_and_optimize_points,
    thin_points, Extraction, TrackError,
};
use volt_core::gpx_text::clean_gpx_content;
use volt_core::gpx_scan::parse_fixed;
use volt_core::gradient_analysis::{analyze_gradients, categorize_gradients, GradientSegment};
use volt_core::itra_calculator::{calculate_similarity, Similarity};
use volt_core::models::{BoundingBox, GpxData, GpxPoint, RouteCandidate, RouteData, RoutePoint};
use volt_core::route_matching::{find_similar_routes, RouteMatchingConfig};
use volt_core::rtree::{Coord, SpatialIndex, SpatialSegment};
use volt_core::segment_index::{build_segment_index, find_connected_segments};
use volt_core::accounts::User;

fn point(lat: i64, lon: i64, ele: i64) -> GpxPoint {
    GpxPoint { lat, lon, ele, time: None }
}

fn candidate(id: &str, distance_mm: i64, gain_mm: i64) -> RouteCandidate {
    RouteCandidate {
        id: id.to_string(),
        distance_mm,
        elevation_gain_mm: gain_mm,
        elevation_loss_mm: gain_mm,
        itra_effort_distance: 0,
        effort_gap: 0,
        route: RouteData { points: vec![RoutePoint { lat: 46_500_000, lon: 6_500_000, ele: 0 }] },
    }
}

/// Points 0.001 degree of latitude apart (about 111 m), with the given elevations.
fn north_track(eles: &[i64]) -> GpxData {
    GpxData {
        points: eles
            .iter()
            .enumerate()
            .map(|(i, e)| point(46_000_000 + 1_000 * i as i64, 7_000_000, *e))
            .collect(),
    }
}

#[test]
fn distance_of_one_millidegree_of_latitude() {
    // 1000 microdegrees of arc at 111.195 mm each.
    assert_eq!(surface_distance_mm(46_000_000, 7_000_000, 46_001_000, 7_000_000), 111_195);
    assert_eq!(surface_distance_mm(46_000_000, 7_000_000, 46_000_000, 7_000_000), 0);
}

#[test]
fn distance_east_shrinks_with_latitude() {
    let at_equator = surface_distance_mm(0, 0, 0, 1_000);
    let at_sixty = surface_distance_mm(60_000_000, 0, 60_000_000, 1_000);
    assert_eq!(at_equator, 111_195);
    assert!(at_sixty > 55_000 && at_sixty < 56_000);
}

#[test]
fn dedup_keeps_first_of_each_run() {
    let pts = vec![point(1, 1, 5), point(1, 1, 6), point(2, 2, 7), point(1, 1, 8)];
    let r = dedup_points(&pts);
    assert_eq!(r.len(), 3);
    assert_eq!(r[0].ele, 5);
    assert_eq!(r[2].ele, 8);
}

#[test]
fn downsample_to_target_keeps_ends() {
    let pts: Vec<GpxPoint> = (0..10).map(|i| point(i, 0, i)).collect();
    let r = downsample_points(pts, 4);
    let lats: Vec<i64> = r.iter().map(|p| p.lat).collect();
    assert_eq!(lats, vec![0, 2, 5, 9]);
}

#[test]
fn thinning_forces_final_point() {
    // Second point is 1.1 m from the first, the third 2.2 m: only the last is forced in.
    let pts = vec![point(46_000_000, 7_000_000, 0), point(46_000_010, 7_000_000, 0), point(46_000_020, 7_000_000, 0)];
    let r = thin_points(&pts);
    assert_eq!(r.len(), 2);
    assert_eq!(r[1].lat, 46_000_020);
}

#[test]
fn renormalizing_removes_no_point() {
    let pts: Vec<GpxPoint> = (0..20)
        .map(|i| point(46_000_000 + 20 * i, 7_000_000 + 15 * i, 1_000_000 + 1000 * i))
        .collect();
    let once = strip_and_optimize_points(pts).unwrap();
    let twice = strip_and_optimize_points(once.clone()).unwrap();
    assert_eq!(once.len(), twice.len());
    for (a, b) in once.iter().zip(twice.iter()) {
        assert_eq!((a.lat, a.lon), (b.lat, b.lon));
    }
}

#[test]
fn too_few_points_is_insufficient_data() {
    let pts = vec![point(46_000_000, 7_000_000, 0), point(46_000_000, 7_000_000, 5)];
    assert_eq!(strip_and_optimize_points(pts).unwrap_err(), TrackError::InsufficientData);
}

#[test]
fn empty_extraction_is_parse_error() {
    let ex = Extraction::Recovered { track_points: vec![point(95_000_000, 0, 0)], waypoints: vec![] };
    assert_eq!(parse_gpx(&ex).unwrap_err(), TrackError::ParseError);
}

#[test]
fn waypoints_used_when_no_valid_track_point() {
    let ex = Extraction::Recovered {
        track_points: vec![point(91_000_000, 0, 0)],
        waypoints: vec![point(46_000_000, 7_000_000, 0), point(46_010_000, 7_000_000, 0)],
    };
    let raw = extract_raw_points(&ex);
    assert_eq!(raw.len(), 2);
    let track = parse_gpx(&ex).unwrap();
    assert_eq!(track.points.len(), 2);
}

#[test]
fn implausible_elevations_take_the_mean() {
    let pts = vec![
        point(46_000_000, 7_000_000, 1_000_000),
        point(46_001_000, 7_000_000, -600_000),
        point(46_002_000, 7_000_000, 10_000_000),
        point(46_003_000, 7_000_000, 1_100_000),
    ];
    let r = strip_and_optimize_points(pts).unwrap();
    assert_eq!(r[1].ele, 1_050_000);
    assert_eq!(r[2].ele, 1_050_000);
}

#[test]
fn no_plausible_elevation_gives_zero() {
    let mut pts = vec![point(0, 0, 9_500_000), point(0, 1, -700_000)];
    volt_core::gpx_parser::clean_elevation_data(&mut pts);
    assert_eq!(pts[0].ele, 0);
    assert_eq!(pts[1].ele, 0);
}

#[test]
fn isolated_spike_is_flattened() {
    let mut pts = vec![point(0, 0, 1_000_000), point(0, 1, 1_300_000), point(0, 2, 1_020_000)];
    volt_core::gpx_parser::clean_elevation_data(&mut pts);
    assert_eq!(pts[1].ele, 1_010_000);
}

#[test]
fn raw_processing_accumulates_climbs() {
    let track = north_track(&[1_000_000, 1_011_000, 1_005_000]);
    let data = ElevationData::from_gpx_data(&track, false);
    assert_eq!(data.distance_change, vec![0, 111_195, 111_195]);
    assert_eq!(data.cumulative_distance, vec![0, 111_195, 222_390]);
    assert_eq!(data.altitude_change, vec![0, 11_000, -6_000]);
    assert_eq!(data.gradient_percent, vec![0, 989, -539]);
    assert_eq!(data.accumulated_ascent, vec![0, 11_000, 11_000]);
    assert_eq!(data.accumulated_descent, vec![0, 0, 6_000]);
    assert_eq!(data.ascent, vec![0, 11_000, 0]);
    assert_eq!(data.descent, vec![0, 0, -6_000]);
    // 11 m over 0.22239 km.
    assert_eq!(data.overall_uphill_gradient, 49_462);
}

#[test]
fn hilly_route_is_capped_not_smoothed() {
    // About 270 m/km of climbing: last band (40 %, 36 %); the 54 % step is capped.
    let track = north_track(&[1_000_000, 1_060_000, 1_060_000]);
    let data = ElevationData::from_gpx_data(&track, true);
    assert_eq!(data.altitude_change[1], 44_478);
    assert_eq!(data.altitude_change[2], 0);
    assert_eq!(data.gradient_percent[1], 4_000);
}

#[test]
fn flat_route_is_smoothed() {
    let track = north_track(&[1_000_000, 1_000_000, 1_002_000, 1_002_000]);
    let data = ElevationData::from_gpx_data(&track, true);
    assert_eq!(data.altitude_change, vec![0, 0, 666, 500]);
}

#[test]
fn rolling_mean_shrinks_window_at_start() {
    assert_eq!(rolling_mean(&vec![4, 8, -3, 10], 2), vec![4, 6, 2, 3]);
}

#[test]
fn metrics_sum_steps() {
    let track = north_track(&[1_000_000, 1_011_000, 1_005_000]);
    assert_eq!(calculate_elevation_metrics(&track), (222_390, 11_000, 6_000));
}

#[test]
fn profile_smooths_with_centred_window() {
    let track = north_track(&[0, 300, 600, 900]);
    let profile = calculate_elevation_profile(&track, 2);
    assert_eq!(profile.elevation, vec![150, 300, 600, 750]);
    assert!(profile.smoothed);
    let raw = calculate_elevation_profile(&track, 0);
    assert_eq!(raw.elevation, vec![0, 300, 600, 900]);
    assert_eq!(raw.distance, vec![0, 111_195, 222_390, 333_585]);
}

#[test]
fn windows_close_at_the_window_size() {
    let track = north_track(&[0, 5_000, 30_000, 20_000]);
    let segs = analyze_gradients(&track, 200_000);
    assert_eq!(segs.len(), 1);
    assert_eq!(segs[0].start_idx, 0);
    assert_eq!(segs[0].end_idx, 2);
    assert_eq!(segs[0].distance_mm, 222_390);
    assert_eq!(segs[0].gradient_percent, 1_348);
}

#[test]
fn bin_percentages_add_up() {
    let segs = vec![
        GradientSegment { start_idx: 0, end_idx: 1, distance_mm: 1000, elevation_change_mm: 20, gradient_percent: 200 },
        GradientSegment { start_idx: 1, end_idx: 2, distance_mm: 2000, elevation_change_mm: 200, gradient_percent: 1000 },
        GradientSegment { start_idx: 2, end_idx: 3, distance_mm: 3000, elevation_change_mm: 1200, gradient_percent: 4000 },
    ];
    let (up, down) = categorize_gradients(&segs);
    let shares: Vec<i64> = up.iter().map(|b| b.1).collect();
    assert_eq!(shares, vec![16_666_666_666, 0, 33_333_333_333, 0, 0, 0, 50_000_000_000]);
    let total: i64 = shares.iter().sum();
    assert!(total <= 100_000_000_000 && total >= 100_000_000_000 - 6);
    assert_eq!(up[6].0, "30+");
    assert!(down.iter().all(|b| b.1 == 0));
}

#[test]
fn distribution_bins_carry_window_distance() {
    let track = north_track(&[0, 5_000, 30_000, 20_000]);
    let dist = calculate_gradient_distribution(&track, 200);
    assert_eq!(dist.ascent.len(), 7);
    assert_eq!(dist.ascent[2].percentage, 100_000_000_000);
    assert_eq!(dist.ascent[2].range, "10-15");
    // The one closed window spans the first two steps.
    assert_eq!(dist.ascent[2].distance, 222_390);
    assert_eq!(dist.ascent[0].distance, 0);
    let descent_total: i64 = dist.descent.iter().map(|b| b.percentage).sum();
    assert_eq!(descent_total, 0);
}

#[test]
fn similarity_needs_positive_reference() {
    assert!(calculate_similarity(0, 0, 1_000, 0).is_none());
    let s = calculate_similarity(10_000, 0, 12_000, 0).unwrap();
    assert_eq!(s, Similarity { effort_gap: 2_000, reference_effort: 10_000 });
    let t = calculate_similarity(10_000, 0, 10_500, 0).unwrap();
    assert!(t.is_closer_than(&s));
    assert!(!s.is_closer_than(&t));
    assert!(calculate_similarity(10_000, 100, 11_000, 0).unwrap().is_exact());
}

#[test]
fn similar_routes_ranked_and_truncated() {
    let reference = GpxData { points: vec![] };
    let cands = vec![
        candidate("far", 20_000_000, 0),
        candidate("b", 10_500_000, 0),
        candidate("exact", 10_000_000, 0),
        candidate("a", 9_500_000, 0),
        candidate("c", 10_900_000, 0),
    ];
    let config = RouteMatchingConfig { max_results: 3, max_effort_gap_ppm: 138_629, distance_tolerance_ppm: 200_000 };
    let r = find_similar_routes(&reference, (10_000_000, 0, 0), cands, config);
    let ids: Vec<&str> = r.iter().map(|c| c.id.as_str()).collect();
    assert_eq!(ids, vec!["exact", "b", "a"]);
    assert_eq!(r[1].effort_gap, 500_000);
}

#[test]
fn similar_routes_default_threshold() {
    let config = RouteMatchingConfig::default();
    assert_eq!(config.max_results, 50);
    let reference = GpxData { points: vec![] };
    let r = find_similar_routes(&reference, (10_000_000, 0, 0), vec![candidate("x", 11_500_000, 0)], config);
    assert!(r.is_empty());
    let none = find_similar_routes(&reference, (0, 0, 0), vec![candidate("x", 0, 0)], RouteMatchingConfig::default());
    assert!(none.is_empty());
}

#[test]
fn bbox_filter_keeps_edge_points() {
    let bbox = BoundingBox { north: 10, south: 0, east: 10, west: 0 };
    let mut inside = candidate("in", 1, 0);
    inside.route.points = vec![RoutePoint { lat: 0, lon: 10, ele: 0 }, RoutePoint { lat: 10, lon: 0, ele: 0 }];
    let mut outside = candidate("out", 1, 0);
    outside.route.points = vec![RoutePoint { lat: 5, lon: 5, ele: 0 }, RoutePoint { lat: 11, lon: 5, ele: 0 }];
    let r = volt_core::route_matching::filter_routes_by_bbox(vec![outside, inside], &bbox);
    assert_eq!(r.len(), 1);
    assert_eq!(r[0].id, "in");
}

#[test]
fn bbox_from_points_spans_all() {
    assert!(bbox_from_points(&vec![]).is_none());
    let b = bbox_from_points(&vec![(46_000_000, 7_000_000), (45_000_000, 8_000_000), (47_000_000, 6_500_000)]).unwrap();
    assert_eq!(b, BoundingBox { north: 47_000_000, south: 45_000_000, east: 8_000_000, west: 6_500_000 });
}

#[test]
fn bbox_validation_messages() {
    let wrong_order = BoundingBox { north: 47_000_000, south: 46_000_000, east: 6_000_000, west: 7_000_000 };
    assert_eq!(validate_bbox(&wrong_order).unwrap_err(), "East must be greater than west");
    let beyond = BoundingBox { north: 91_000_000, south: 46_000_000, east: 7_000_000, west: 6_000_000 };
    assert_eq!(validate_bbox(&beyond).unwrap_err(), "Latitude must be between -90 and 90");
    let wide = BoundingBox { north: 50_000_000, south: 40_000_000, east: 10_000_000, west: 0 };
    assert_eq!(validate_bbox(&wide).unwrap_err(), "Bounding box area is too large (max 10,000 km²)");
    let tiny = BoundingBox { north: 46_001_000, south: 46_000_000, east: 7_001_000, west: 7_000_000 };
    assert_eq!(validate_bbox(&tiny).unwrap_err(), "Bounding box area is too small (min 1 km²)");
}

#[test]
fn box_area_in_square_metres() {
    let b = BoundingBox { north: 1_000, south: 0, east: 1_000, west: 0 };
    // 111.195 m by 111.195 m.
    assert_eq!(b.area_km2(), 12_364);
}

fn segment(id: &str, from: (i64, i64), to: (i64, i64), distance_mm: i64) -> SpatialSegment {
    SpatialSegment {
        id: id.to_string(),
        start: Coord { lon: from.0, lat: from.1 },
        end: Coord { lon: to.0, lat: to.1 },
        distance_mm,
        elevation_gain_mm: 0,
        elevation_loss_mm: 0,
    }
}

#[test]
fn nearest_segments_by_endpoint() {
    let index = SpatialIndex::from_segments(vec![
        segment("a", (0, 0), (1_000, 0), 111_195),
        segment("b", (5_000, 0), (6_000, 0), 111_195),
        segment("c", (2_000, 0), (3_000, 0), 111_195),
    ]);
    assert_eq!(index.nearest_neighbor(1_900, 0, 2), vec![2, 0]);
    assert_eq!(index.nearest_neighbor(1_900, 0, 9).len(), 3);
    let inside = index.query_bbox(0, -10, 3_500, 10);
    let mut sorted = inside.clone();
    sorted.sort();
    assert_eq!(sorted, vec![0, 2]);
    // A box inside segment a's span holds neither endpoint but meets it.
    assert_eq!(index.query_bbox(600, 10, 400, -10), vec![0]);
    assert!(index.query_bbox(3_500, -10, 4_500, 10).is_empty());
}

#[test]
fn chains_follow_connected_segments_without_reuse() {
    let track = GpxData {
        points: (0..6).map(|i| point(46_000_000, 7_000_000 + 1_000 * i, 1_000_000)).collect(),
    };
    let index = build_segment_index(vec![("t".to_string(), track)]);
    assert_eq!(index.segments().len(), 5);
    assert_eq!(index.segments()[2].id, "t-3");
    let chains = find_connected_segments(&index, (46_000_000, 7_000_000), 1_000_000_000, 3);
    let mut seen = std::collections::HashSet::new();
    for chain in &chains {
        assert!(chain.len() >= 2 && chain.len() <= 3);
        for s in chain {
            assert!(seen.insert(*s));
        }
    }
    assert!(!chains.is_empty());
    assert_eq!(chains[0], vec![0, 1, 2]);
}

#[test]
fn chains_stop_at_the_distance_limit() {
    let track = GpxData {
        points: (0..6).map(|i| point(46_000_000, 7_000_000 + 1_000 * i, 1_000_000)).collect(),
    };
    let index = build_segment_index(vec![("t".to_string(), track)]);
    // Each segment is about 77 m; a 100 m limit stops a chain at two segments.
    let chains = find_connected_segments(&index, (46_000_000, 7_000_000), 100_000, 10);
    assert_eq!(chains[0], vec![0, 1]);
}

#[test]
fn vendor_dialect_is_cleaned() {
    let text = "\u{feff}<gpxtpx:TrackPointExtension><ns3:hr>120</ns3:hr></gpxtpx:TrackPointExtension><trkpt lat=\"1\" lon=\"2\"><extensions><x>1</x></extensions></trkpt>";
    let cleaned = clean_gpx_content(text);
    assert_eq!(cleaned, "<TrackPointExtension><hr>120</hr></TrackPointExtension><trkpt lat=\"1\" lon=\"2\"></trkpt>");
}

#[test]
fn error_helpers_carry_message() {
    match bad_request("no points") {
        ApiError::BadRequest(m) => assert_eq!(m, "no points"),
        _ => panic!("wrong variant"),
    }
}

#[test]
fn new_user_has_no_timestamps() {
    let u = User::new("1".to_string(), "a@b".to_string(), "a".to_string(), "h".to_string());
    assert!(u.created_at.is_none() && u.updated_at.is_none());
    assert_eq!(u.email, "a@b");
}

#[test]
fn race_metrics_add_effort() {
    let track = north_track(&[1_000_000, 1_011_000, 1_005_000]);
    assert_eq!(volt_core::elevation_service::race_metrics(&track), (222_390, 11_000, 6_000, 332_390));
}

#[test]
fn chain_becomes_candidate() {
    let segs = vec![
        SpatialSegment { id: "a".to_string(), start: Coord { lon: 0, lat: 0 }, end: Coord { lon: 1_000, lat: 0 }, distance_mm: 100, elevation_gain_mm: 30, elevation_loss_mm: 0 },
        SpatialSegment { id: "b".to_string(), start: Coord { lon: 1_000, lat: 0 }, end: Coord { lon: 2_000, lat: 0 }, distance_mm: 200, elevation_gain_mm: 0, elevation_loss_mm: 10 },
    ];
    let c = volt_core::synthesis::chain_to_candidate(&segs, &vec![0, 1], "r".to_string());
    assert_eq!((c.distance_mm, c.elevation_gain_mm, c.elevation_loss_mm, c.itra_effort_distance), (300, 30, 10, 600));
    let pts: Vec<(i64, i64, i64)> = c.route.points.iter().map(|p| (p.lat, p.lon, p.ele)).collect();
    assert_eq!(pts, vec![(0, 0, 0), (0, 1_000, 30), (0, 2_000, 20)]);
}

#[test]
fn synthesis_keeps_routes_in_box_ranked() {
    let track = GpxData {
        points: (0..6).map(|i| point(46_000_000, 7_000_000 + 1_000 * i, 1_000_000 + 10_000 * i)).collect(),
    };
    let index = build_segment_index(vec![("t".to_string(), track)]);
    let bbox = BoundingBox { north: 46_100_000, south: 45_900_000, east: 7_100_000, west: 6_900_000 };
    let config = RouteMatchingConfig { max_results: 5, max_effort_gap_ppm: 1_000_000, distance_tolerance_ppm: 0 };
    let routes = volt_core::synthesis::synthesize_routes(&index, (46_000_000, 7_000_000), 1_000_000_000, 3, &bbox, (231_000, 30_000, 0), config);
    assert_eq!(routes.len(), 2);
    assert!(routes[0].effort_gap <= routes[1].effort_gap);
    assert_eq!(routes[0].id, "route-0");
    // Outside the box nothing survives.
    let elsewhere = BoundingBox { north: 10_000_000, south: 9_000_000, east: 1_000_000, west: 0 };
    let none = volt_core::synthesis::synthesize_routes(&index, (46_000_000, 7_000_000), 1_000_000_000, 3, &elsewhere, (231_000, 30_000, 0), config);
    assert!(none.is_empty());
}

#[test]
fn decimals_read_as_fixed_point() {
    assert_eq!(parse_fixed("46.5", 6), Some(46_500_000));
    assert_eq!(parse_fixed("-7.1234567", 6), Some(-7_123_456));
    assert_eq!(parse_fixed("+.25", 3), Some(250));
    assert_eq!(parse_fixed("12.", 3), Some(12_000));
    assert_eq!(parse_fixed("1012", 3), Some(1_012_000));
    assert_eq!(parse_fixed("abc", 6), None);
    assert_eq!(parse_fixed("", 6), None);
    assert_eq!(parse_fixed(".", 6), None);
    assert_eq!(parse_fixed("1.2.3", 6), None);
    assert_eq!(parse_fixed("1234567890123", 6), None);
}

#[test]
fn lenient_scan_recovers_points() {
    let text = r#"<gpx><trk><trkseg>
<trkpt lat="46.0" lon="7.0"><ele>1000.5</ele><bad></trkpt>
<trkpt lat="46.01" lon="7.0"></trkpt>
<trkpt lat="x" lon="7.0"><ele>5</ele></trkpt>
</trkseg></trk>"#;
    match volt_core::gpx_scan::recover_points(text) {
        Extraction::Recovered { track_points, waypoints } => {
            let got: Vec<(i64, i64, i64)> = track_points.iter().map(|p| (p.lat, p.lon, p.ele)).collect();
            assert_eq!(got, vec![(46_000_000, 7_000_000, 1_000_500), (46_010_000, 7_000_000, 0), (0, 7_000_000, 5_000)]);
            assert!(waypoints.is_empty());
        }
        _ => panic!("expected recovered points"),
    }
}

#[test]
fn empty_input_is_insufficient_data() {
    assert_eq!(strip_and_optimize_points(vec![]).unwrap_err(), TrackError::InsufficientData);
}

#[test]
fn closed_loop_keeps_final_point() {
    // B is 1.1 m from A, and the track returns to A.
    let pts = vec![point(46_000_000, 7_000_000, 0), point(46_000_010, 7_000_000, 0), point(46_000_000, 7_000_000, 0)];
    let r = strip_and_optimize_points(pts).unwrap();
    assert_eq!(r.len(), 2);
    assert_eq!((r[1].lat, r[1].lon), (46_000_000, 7_000_000));
}

#[test]
fn distance_across_the_antimeridian_is_short() {
    // 0.2 degree of longitude at the equator, not 359.8.
    assert_eq!(surface_distance_mm(0, 179_900_000, 0, -179_900_000), 22_239_000);
}

#[test]
fn extraction_drops_times() {
    let mut p = point(46_000_000, 7_000_000, 0);
    p.time = Some(1_700_000_000);
    let ex = Extraction::Structured { track_points: vec![p], waypoints: vec![] };
    assert!(extract_raw_points(&ex)[0].time.is_none());
}

#[test]
fn rolling_mean_of_large_values() {
    assert_eq!(rolling_mean(&vec![i64::MAX, i64::MAX, i64::MIN], 2), vec![i64::MAX, i64::MAX, 0]);
}

#[test]
fn decimal_ids() {
    assert_eq!(volt_core::segment_index::decimal_string(0), "0");
    assert_eq!(volt_core::segment_index::decimal_string(40_217), "40217");
    assert_eq!(volt_core::segment_index::numbered_id(&"t".to_string(), 12), "t-12");
}

#[test]
fn export_writes_fixed_point_numbers() {
    let track = GpxData { points: vec![point(46_500_000, -7_000_001, 1_234_560), point(-5, 0, -40)] };
    let text = volt_core::gpx_export::gpx_to_string(&track, "2024-01-01T00:00:00+00:00");
    assert!(text.starts_with("<?xml version=\"1.0\" encoding=\"UTF-8\"?>\n<gpx version=\"1.1\""));
    assert!(text.contains("<time>2024-01-01T00:00:00+00:00</time>"));
    assert!(text.contains("      <trkpt lat=\"46.500000\" lon=\"-7.000001\">\n        <ele>1234.6</ele>\n      </trkpt>\n"));
    assert!(text.contains("<trkpt lat=\"-0.000005\" lon=\"0.000000\">\n        <ele>-0.0</ele>"));
    assert!(text.ends_with("    </trkseg>\n  </trk>\n</gpx>"));
}

#[test]
fn equal_windows_in_three_bands_sum_to_whole() {
    let seg = |g: i64| GradientSegment { start_idx: 0, end_idx: 1, distance_mm: 1000, elevation_change_mm: -1, gradient_percent: g };
    let (up, down) = categorize_gradients(&vec![seg(-100), seg(-700), seg(-1200)]);
    let sum: i64 = down.iter().map(|b| b.1).sum();
    assert_eq!(sum, 99_999_999_999);
    // Within 10^-8 of a percent of 100 %.
    assert!((sum as f64 / 1e9 - 100.0).abs() < 1e-7);
    assert!(up.iter().all(|b| b.1 == 0));
}
