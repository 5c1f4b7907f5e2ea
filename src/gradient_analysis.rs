//! Gradient distribution: the track cut into distance windows, each window's
//! gradient binned by steepness and direction.
use vstd::prelude::*;
use crate::geometry::{abs, surface_distance_mm, MAX_SURFACE_MM};
use crate::gpx_parser::{plausible, elevations, valid_track, MAX_POINTS};
use crate::elevation_processor::{step_distance, cumulative, gradient, TOTAL_LIMIT};
use crate::models::{GpxData, GpxPoint, valid_point};

verus! {

/// Number of steepness bands.
pub const BIN_COUNT: usize = 7;

/// A whole direction's share: 100 % in units of 10^-9 of a percent.
pub const FULL_SHARE: i64 = 100_000_000_000;

/// Width of a steepness band, in hundredths of a percent.
pub const BIN_WIDTH: i64 = 500;

/// One distance window of a track. Distances and elevations in millimetres,
/// gradient in hundredths of a percent.
#[derive(Clone, Copy, Debug, PartialEq, Eq)]
pub struct GradientSegment {
    pub start_idx: usize,
    pub end_idx: usize,
    pub distance_mm: i64,
    pub elevation_change_mm: i64,
    pub gradient_percent: i64,
}

pub open spec fn window_segment(pts: Seq<GpxPoint>, start: int, end: int, dist: int) -> GradientSegment {
    let change = pts[end].ele - pts[start].ele;
    GradientSegment {
        start_idx: start as usize,
        end_idx: end as usize,
        distance_mm: dist as i64,
        elevation_change_mm: change as i64,
        gradient_percent: gradient(change, dist) as i64,
    }
}

/// The windows closed after the steps `1..=i`, with the start index and the
/// distance of the window still open.
pub open spec fn windows(pts: Seq<GpxPoint>, w: int, i: int) -> (Seq<GradientSegment>, int, int)
    decreases i,
{
    if i <= 0 {
        (Seq::empty(), 0, 0)
    } else {
        let (segs, start, acc) = windows(pts, w, i - 1);
        let acc2 = acc + step_distance(pts, i);
        if acc2 >= w {
            (segs.push(window_segment(pts, start, i, acc2)), i, 0)
        } else {
            (segs, start, acc2)
        }
    }
}

pub open spec fn gradient_windows(pts: Seq<GpxPoint>, w: int) -> Seq<GradientSegment> {
    windows(pts, w, pts.len() - 1).0
}

/// Total distance of a list of windows.
pub open spec fn windows_length(segs: Seq<GradientSegment>) -> int
    decreases segs.len(),
{
    if segs.len() == 0 {
        0
    } else {
        windows_length(segs.drop_last()) + segs.last().distance_mm
    }
}

proof fn lemma_windows(pts: Seq<GpxPoint>, w: int, i: int)
    requires
        valid_track(pts),
        0 <= i < pts.len(),
    ensures
        0 <= windows(pts, w, i).1 <= i,
        windows(pts, w, i).0.len() <= i,
        0 <= windows(pts, w, i).2 <= i * MAX_SURFACE_MM,
        windows_length(windows(pts, w, i).0) + windows(pts, w, i).2 == cumulative(pts, i),
        forall|j: int|
            0 <= j < windows(pts, w, i).0.len() ==> 0 <= (#[trigger] windows(pts, w, i).0[j]).distance_mm
                <= TOTAL_LIMIT,
    decreases i,
{
    if i > 0 {
        lemma_windows(pts, w, i - 1);
        assert(valid_point(pts[i - 1]) && valid_point(pts[i]));
        crate::geometry::lemma_surface_distance(
            pts[i - 1].lat as int,
            pts[i - 1].lon as int,
            pts[i].lat as int,
            pts[i].lon as int,
        );
        assert(i * MAX_SURFACE_MM <= TOTAL_LIMIT) by (nonlinear_arith)
            requires
                i < MAX_POINTS,
        ;
        let (segs, start, acc) = windows(pts, w, i - 1);
        let acc2 = acc + step_distance(pts, i);
        if acc2 >= w {
            assert(windows(pts, w, i).0.drop_last() =~= segs);
        }
    }
}

/// Cuts the track into consecutive windows of at least `window_size_mm`.
pub fn analyze_gradients(gpx_data: &GpxData, window_size_mm: i64) -> (r: Vec<GradientSegment>)
    requires
        valid_track(gpx_data.points@),
    ensures
        r@ == gradient_windows(gpx_data.points@, window_size_mm as int),
        r@.len() <= MAX_POINTS,
        forall|j: int| 0 <= j < r@.len() ==> 0 <= (#[trigger] r@[j]).distance_mm <= TOTAL_LIMIT,
        windows_length(r@) <= TOTAL_LIMIT,
{
    let points = &gpx_data.points;
    let ghost pts = points@;
    let ghost w = window_size_mm as int;
    let n = points.len();
    let mut segments: Vec<GradientSegment> = Vec::new();
    if n == 0 {
        assert(segments@ =~= gradient_windows(pts, w));
        return segments;
    }
    let mut current: i64 = 0;
    let mut start: usize = 0;
    let mut i: usize = 1;
    while i < n
        invariant
            n == pts.len(),
            pts == points@,
            w == window_size_mm,
            valid_track(pts),
            1 <= i <= n,
            segments@ == windows(pts, w, i - 1).0,
            start == windows(pts, w, i - 1).1,
            current == windows(pts, w, i - 1).2,
        decreases n - i,
    {
        proof {
            lemma_windows(pts, w, i - 1);
        }
        assert(valid_point(pts[i - 1]) && valid_point(pts[i as int]));
        assert(plausible(elevations(pts)[i as int]) && plausible(elevations(pts)[start as int]));
        assert(((i - 1) as int) * MAX_SURFACE_MM <= MAX_POINTS * MAX_SURFACE_MM) by (nonlinear_arith)
            requires
                i <= MAX_POINTS,
        ;
        let d = surface_distance_mm(points[i - 1].lat, points[i - 1].lon, points[i].lat, points[i].lon);
        current = current + d;
        if current >= window_size_mm {
            let change = points[i].ele - points[start].ele;
            let g: i64 = if current == 0 {
                0
            } else if change >= 0 {
                change * 10000 / current
            } else {
                -((-change) * 10000 / current)
            };
            segments.push(
                GradientSegment {
                    start_idx: start,
                    end_idx: i,
                    distance_mm: current,
                    elevation_change_mm: change,
                    gradient_percent: g,
                },
            );
            start = i;
            current = 0;
        }
        i += 1;
    }
    proof {
        lemma_windows(pts, w, n - 1);
        crate::elevation_processor::lemma_cumulative_bound(pts, n - 1);
        assert(((n - 1) as int) * MAX_SURFACE_MM <= TOTAL_LIMIT) by (nonlinear_arith)
            requires
                n <= MAX_POINTS,
        ;
    }
    segments
}

/// Steepness band of a gradient: 5 % wide, the last one open ended.
pub open spec fn bin_of(g: int) -> int {
    if abs(g) / BIN_WIDTH as int >= 6 {
        6
    } else {
        abs(g) / BIN_WIDTH as int
    }
}

pub open spec fn bin_label(k: int) -> Seq<char> {
    if k == 0 {
        "0-5"@
    } else if k == 1 {
        "5-10"@
    } else if k == 2 {
        "10-15"@
    } else if k == 3 {
        "15-20"@
    } else if k == 4 {
        "20-25"@
    } else if k == 5 {
        "25-30"@
    } else {
        "30+"@
    }
}

/// Distance of the windows of one direction (climbing when `ascent`) that
/// fall in band `k`.
pub open spec fn bin_distance(segs: Seq<GradientSegment>, ascent: bool, k: int) -> int
    decreases segs.len(),
{
    if segs.len() == 0 {
        0
    } else {
        let s = segs.last();
        bin_distance(segs.drop_last(), ascent, k) + if (s.gradient_percent > 0) == ascent && bin_of(
            s.gradient_percent as int,
        ) == k {
            s.distance_mm as int
        } else {
            0
        }
    }
}

/// Distance of all windows of one direction.
pub open spec fn direction_distance(segs: Seq<GradientSegment>, ascent: bool) -> int
    decreases segs.len(),
{
    if segs.len() == 0 {
        0
    } else {
        let s = segs.last();
        direction_distance(segs.drop_last(), ascent) + if (s.gradient_percent > 0) == ascent {
            s.distance_mm as int
        } else {
            0
        }
    }
}

/// Share of `d` in `total`, in units of 10^-9 of a percent; 0 when `total`
/// is 0.
pub open spec fn share(d: int, total: int) -> int {
    if total > 0 {
        d * FULL_SHARE / total
    } else {
        0
    }
}

pub open spec fn bin_share(segs: Seq<GradientSegment>, ascent: bool, k: int) -> int {
    share(bin_distance(segs, ascent, k), direction_distance(segs, ascent))
}

pub open spec fn distances_bounded(segs: Seq<GradientSegment>) -> bool {
    forall|j: int| 0 <= j < segs.len() ==> 0 <= (#[trigger] segs[j]).distance_mm <= TOTAL_LIMIT
}

/// The sum of seven shares.
pub open spec fn shares_sum(r: Seq<(String, i64)>) -> int {
    r[0].1 + r[1].1 + r[2].1 + r[3].1 + r[4].1 + r[5].1 + r[6].1
}

/// A direction's shares add up to 100 % less at most the rounding of its
/// seven bins (6 units of 10^-9 of a percent), or to 0 when it has no
/// distance.
pub open spec fn sum_is_whole(segs: Seq<GradientSegment>, ascent: bool, total: int) -> bool {
    if direction_distance(segs, ascent) == 0 {
        total == 0
    } else {
        FULL_SHARE - 6 <= total <= FULL_SHARE
    }
}

/// The bins of one direction as (label, share) pairs.
pub open spec fn shares_match(r: Seq<(String, i64)>, segs: Seq<GradientSegment>, ascent: bool) -> bool {
    &&& r.len() == BIN_COUNT
    &&& forall|k: int|
        0 <= k < BIN_COUNT ==> (#[trigger] r[k]).0@ == bin_label(k) && r[k].1 == bin_share(
            segs,
            ascent,
            k,
        )
}

pub open spec fn bins_sum(segs: Seq<GradientSegment>, ascent: bool) -> int {
    bin_distance(segs, ascent, 0) + bin_distance(segs, ascent, 1) + bin_distance(segs, ascent, 2)
        + bin_distance(segs, ascent, 3) + bin_distance(segs, ascent, 4) + bin_distance(
        segs,
        ascent,
        5,
    ) + bin_distance(segs, ascent, 6)
}

proof fn lemma_bins_partition(segs: Seq<GradientSegment>, ascent: bool)
    requires
        distances_bounded(segs),
    ensures
        bins_sum(segs, ascent) == direction_distance(segs, ascent),
        forall|k: int| 0 <= #[trigger] bin_distance(segs, ascent, k) <= direction_distance(segs, ascent),
        0 <= direction_distance(segs, ascent) <= segs.len() * TOTAL_LIMIT,
    decreases segs.len(),
{
    if segs.len() > 0 {
        let t = segs.drop_last();
        assert(distances_bounded(t)) by {
            assert forall|j: int| 0 <= j < t.len() implies 0 <= (#[trigger] t[j]).distance_mm
                <= TOTAL_LIMIT by {
                assert(t[j] == segs[j]);
            }
        }
        lemma_bins_partition(t, ascent);
        assert(segs[segs.len() - 1] == segs.last());
        assert forall|k: int| 0 <= #[trigger] bin_distance(segs, ascent, k) <= direction_distance(
            segs,
            ascent,
        ) by {
            assert(0 <= bin_distance(t, ascent, k) <= direction_distance(t, ascent));
        }
    }
}

proof fn lemma_bins_sum(segs: Seq<GradientSegment>, ascent: bool)
    requires
        forall|j: int| 0 <= j < segs.len() ==> 0 <= (#[trigger] segs[j]).distance_mm,
    ensures
        bins_sum(segs, ascent) == direction_distance(segs, ascent),
        forall|k: int| 0 <= #[trigger] bin_distance(segs, ascent, k) <= direction_distance(segs, ascent),
    decreases segs.len(),
{
    if segs.len() > 0 {
        let t = segs.drop_last();
        assert forall|j: int| 0 <= j < t.len() implies 0 <= (#[trigger] t[j]).distance_mm by {
            assert(t[j] == segs[j]);
        }
        lemma_bins_sum(t, ascent);
        assert(segs[segs.len() - 1] == segs.last());
        assert forall|k: int| 0 <= #[trigger] bin_distance(segs, ascent, k) <= direction_distance(
            segs,
            ascent,
        ) by {
            assert(0 <= bin_distance(t, ascent, k) <= direction_distance(t, ascent));
        }
        let b = bin_of(segs.last().gradient_percent as int);
        assert(0 <= b <= 6);
    }
}

/// The percentages of each direction add up to 100 % up to the rounding of
/// each of the seven bins, or are all 0 when that direction has no distance.
pub proof fn lemma_shares_total(segs: Seq<GradientSegment>, ascent: bool)
    requires
        forall|j: int| 0 <= j < segs.len() ==> 0 <= (#[trigger] segs[j]).distance_mm,
    ensures
        ({
            let total = bin_share(segs, ascent, 0) + bin_share(segs, ascent, 1) + bin_share(
                segs,
                ascent,
                2,
            ) + bin_share(segs, ascent, 3) + bin_share(segs, ascent, 4) + bin_share(segs, ascent, 5)
                + bin_share(segs, ascent, 6);
            if direction_distance(segs, ascent) == 0 {
                total == 0
            } else {
                FULL_SHARE - 6 <= total <= FULL_SHARE
            }
        }),
{
    lemma_bins_sum(segs, ascent);
    let t = direction_distance(segs, ascent);
    if t > 0 {
        let d0 = bin_distance(segs, ascent, 0);
        let d1 = bin_distance(segs, ascent, 1);
        let d2 = bin_distance(segs, ascent, 2);
        let d3 = bin_distance(segs, ascent, 3);
        let d4 = bin_distance(segs, ascent, 4);
        let d5 = bin_distance(segs, ascent, 5);
        let d6 = bin_distance(segs, ascent, 6);
        assert forall|d: int| 0 <= d implies #[trigger] (d * FULL_SHARE / t) * t <= d * FULL_SHARE < (d
            * FULL_SHARE / t) * t + t by {
            assert((d * FULL_SHARE / t) * t <= d * FULL_SHARE < (d * FULL_SHARE / t) * t + t) by (nonlinear_arith)
                requires
                    t > 0,
                    d >= 0,
            ;
        }
        let share0 = d0 * FULL_SHARE / t;
        let share1 = d1 * FULL_SHARE / t;
        let share2 = d2 * FULL_SHARE / t;
        let share3 = d3 * FULL_SHARE / t;
        let share4 = d4 * FULL_SHARE / t;
        let share5 = d5 * FULL_SHARE / t;
        let share6 = d6 * FULL_SHARE / t;
        assert(share0 * t <= d0 * FULL_SHARE < share0 * t + t);
        assert(share1 * t <= d1 * FULL_SHARE < share1 * t + t);
        assert(share2 * t <= d2 * FULL_SHARE < share2 * t + t);
        assert(share3 * t <= d3 * FULL_SHARE < share3 * t + t);
        assert(share4 * t <= d4 * FULL_SHARE < share4 * t + t);
        assert(share5 * t <= d5 * FULL_SHARE < share5 * t + t);
        assert(share6 * t <= d6 * FULL_SHARE < share6 * t + t);
        let share_sum = share0 + share1 + share2 + share3 + share4 + share5 + share6;
        assert(share_sum * t == share0 * t + share1 * t + share2 * t + share3 * t + share4 * t + share5 * t + share6 * t) by (nonlinear_arith)
            requires
                share_sum == share0 + share1 + share2 + share3 + share4 + share5 + share6,
        ;
        assert((share_sum + 7) * t == share_sum * t + 7 * t) by (nonlinear_arith);
        assert(FULL_SHARE * t == d0 * FULL_SHARE + d1 * FULL_SHARE + d2 * FULL_SHARE + d3 * FULL_SHARE + d4 * FULL_SHARE + d5 * FULL_SHARE + d6 * FULL_SHARE);
        assert(share_sum * t <= FULL_SHARE * t < (share_sum + 7) * t);
        assert(share_sum <= FULL_SHARE && FULL_SHARE < share_sum + 7) by (nonlinear_arith)
            requires
                share_sum * t <= FULL_SHARE * t < (share_sum + 7) * t,
                t > 0,
        ;
    }
}

fn bin_labels() -> (r: Vec<String>)
    ensures
        r@.len() == BIN_COUNT,
        forall|k: int| 0 <= k < BIN_COUNT ==> (#[trigger] r@[k])@ == bin_label(k),
{
    proof {
        reveal_strlit("0-5");
        reveal_strlit("5-10");
        reveal_strlit("10-15");
        reveal_strlit("15-20");
        reveal_strlit("20-25");
        reveal_strlit("25-30");
        reveal_strlit("30+");
    }
    let r = vec![
        "0-5".to_owned(),
        "5-10".to_owned(),
        "10-15".to_owned(),
        "15-20".to_owned(),
        "20-25".to_owned(),
        "25-30".to_owned(),
        "30+".to_owned(),
    ];
    assert forall|k: int| 0 <= k < BIN_COUNT implies (#[trigger] r@[k])@ == bin_label(k) by {
        if k == 0 {
        } else if k == 1 {
        } else if k == 2 {
        } else if k == 3 {
        } else if k == 4 {
        } else if k == 5 {
        } else {
        }
    }
    r
}

/// Bins the windows by steepness, separately for climbing and descending
/// windows, as shares of each direction's distance.
pub fn categorize_gradients(segments: &Vec<GradientSegment>) -> (r: (
    Vec<(String, i64)>,
    Vec<(String, i64)>,
))
    requires
        distances_bounded(segments@),
        segments@.len() <= MAX_POINTS,
    ensures
        shares_match(r.0@, segments@, true),
        shares_match(r.1@, segments@, false),
        sum_is_whole(segments@, true, shares_sum(r.0@)),
        sum_is_whole(segments@, false, shares_sum(r.1@)),
{
    let ghost segs = segments@;
    let mut ascent: Vec<i128> = vec![0, 0, 0, 0, 0, 0, 0];
    let mut descent: Vec<i128> = vec![0, 0, 0, 0, 0, 0, 0];
    let mut total_ascent: i128 = 0;
    let mut total_descent: i128 = 0;
    let mut i: usize = 0;
    while i < segments.len()
        invariant
            segs == segments@,
            distances_bounded(segs),
            0 <= i <= segs.len(),
            ascent@.len() == BIN_COUNT,
            descent@.len() == BIN_COUNT,
            forall|k: int| 0 <= k < BIN_COUNT ==> #[trigger] ascent@[k] == bin_distance(segs.take(i as int), true, k),
            forall|k: int| 0 <= k < BIN_COUNT ==> #[trigger] descent@[k] == bin_distance(segs.take(i as int), false, k),
            total_ascent == direction_distance(segs.take(i as int), true),
            total_descent == direction_distance(segs.take(i as int), false),
        decreases segs.len() - i,
    {
        let ghost pre = segs.take(i as int);
        assert(segs.take(i + 1).drop_last() =~= pre);
        assert(distances_bounded(pre)) by {
            assert forall|j: int| 0 <= j < pre.len() implies 0 <= (#[trigger] pre[j]).distance_mm
                <= TOTAL_LIMIT by {
                assert(pre[j] == segs[j]);
            }
        }
        proof {
            lemma_bins_partition(pre, true);
            lemma_bins_partition(pre, false);
        }
        assert((i as int) * TOTAL_LIMIT <= 0x1_0000_0000_0000_0000 * TOTAL_LIMIT) by (nonlinear_arith)
            requires
                i < 0x1_0000_0000_0000_0000,
        ;
        let s = segments[i];
        let a: i128 = if s.gradient_percent < 0 {
            -(s.gradient_percent as i128)
        } else {
            s.gradient_percent as i128
        };
        let raw_bin = a / BIN_WIDTH as i128;
        let bin: usize = if raw_bin >= 6 {
            6
        } else {
            raw_bin as usize
        };
        assert(bin == bin_of(s.gradient_percent as int));
        if s.gradient_percent > 0 {
            let v = ascent[bin];
            ascent.set(bin, v + s.distance_mm as i128);
            total_ascent = total_ascent + s.distance_mm as i128;
        } else {
            let v = descent[bin];
            descent.set(bin, v + s.distance_mm as i128);
            total_descent = total_descent + s.distance_mm as i128;
        }
        i += 1;
    }
    assert(segs.take(segs.len() as int) =~= segs);
    proof {
        lemma_bins_partition(segs, true);
        lemma_bins_partition(segs, false);
    }
    let labels = bin_labels();
    let mut up: Vec<(String, i64)> = Vec::new();
    let mut down: Vec<(String, i64)> = Vec::new();
    let mut k: usize = 0;
    while k < BIN_COUNT
        invariant
            0 <= k <= BIN_COUNT,
            labels@.len() == BIN_COUNT,
            forall|j: int| 0 <= j < BIN_COUNT ==> (#[trigger] labels@[j])@ == bin_label(j),
            ascent@.len() == BIN_COUNT,
            descent@.len() == BIN_COUNT,
            forall|j: int| 0 <= j < BIN_COUNT ==> #[trigger] ascent@[j] == bin_distance(segs, true, j),
            forall|j: int| 0 <= j < BIN_COUNT ==> #[trigger] descent@[j] == bin_distance(segs, false, j),
            forall|j: int| 0 <= #[trigger] bin_distance(segs, true, j) <= direction_distance(segs, true),
            forall|j: int| 0 <= #[trigger] bin_distance(segs, false, j) <= direction_distance(segs, false),
            0 <= direction_distance(segs, true) <= segs.len() * TOTAL_LIMIT,
            0 <= direction_distance(segs, false) <= segs.len() * TOTAL_LIMIT,
            total_ascent == direction_distance(segs, true),
            total_descent == direction_distance(segs, false),
            segs.len() <= MAX_POINTS,
            up@.len() == k,
            down@.len() == k,
            forall|j: int| 0 <= j < k ==> (#[trigger] up@[j]).0@ == bin_label(j) && up@[j].1 == bin_share(segs, true, j),
            forall|j: int| 0 <= j < k ==> (#[trigger] down@[j]).0@ == bin_label(j) && down@[j].1 == bin_share(segs, false, j),
        decreases BIN_COUNT - k,
    {
        assert((segs.len() as int) * TOTAL_LIMIT <= MAX_POINTS * TOTAL_LIMIT) by (nonlinear_arith)
            requires
                segs.len() <= MAX_POINTS,
        ;
        let pa: i64 = if total_ascent > 0 {
            let d = ascent[k];
            assert((d as int * FULL_SHARE) / (total_ascent as int) <= FULL_SHARE) by (nonlinear_arith)
                requires
                    0 <= d <= total_ascent,
                    total_ascent > 0,
            ;
            assert((d as int * FULL_SHARE) / (total_ascent as int) >= 0) by (nonlinear_arith)
                requires
                    0 <= d,
                    total_ascent > 0,
            ;
            (d * (FULL_SHARE as i128) / total_ascent) as i64
        } else {
            0
        };
        let pd: i64 = if total_descent > 0 {
            let d = descent[k];
            assert((d as int * FULL_SHARE) / (total_descent as int) <= FULL_SHARE) by (nonlinear_arith)
                requires
                    0 <= d <= total_descent,
                    total_descent > 0,
            ;
            assert((d as int * FULL_SHARE) / (total_descent as int) >= 0) by (nonlinear_arith)
                requires
                    0 <= d,
                    total_descent > 0,
            ;
            (d * (FULL_SHARE as i128) / total_descent) as i64
        } else {
            0
        };
        up.push((labels[k].clone(), pa));
        down.push((labels[k].clone(), pd));
        k += 1;
    }
    proof {
        assert forall|j: int| 0 <= j < segs.len() implies 0 <= (#[trigger] segs[j]).distance_mm by {}
        lemma_shares_total(segs, true);
        lemma_shares_total(segs, false);
    }
    (up, down)
}

/// For every valid track and window size, each direction's percentages add
/// up to 100 % up to the rounding of the seven bins, or are all 0.
pub proof fn lemma_track_shares_total(pts: Seq<GpxPoint>, w: int, ascent: bool)
    requires
        valid_track(pts),
    ensures
        ({
            let segs = gradient_windows(pts, w);
            let total = bin_share(segs, ascent, 0) + bin_share(segs, ascent, 1) + bin_share(
                segs,
                ascent,
                2,
            ) + bin_share(segs, ascent, 3) + bin_share(segs, ascent, 4) + bin_share(segs, ascent, 5)
                + bin_share(segs, ascent, 6);
            if direction_distance(segs, ascent) == 0 {
                total == 0
            } else {
                FULL_SHARE - 6 <= total <= FULL_SHARE
            }
        }),
{
    if pts.len() > 0 {
        lemma_windows(pts, w, pts.len() - 1);
    }
    lemma_shares_total(gradient_windows(pts, w), ascent);
}

/// Each direction's distance is part of the windows' total distance.
pub proof fn lemma_direction_within_length(segs: Seq<GradientSegment>, ascent: bool)
    requires
        forall|j: int| 0 <= j < segs.len() ==> 0 <= (#[trigger] segs[j]).distance_mm,
    ensures
        0 <= direction_distance(segs, ascent) <= windows_length(segs),
    decreases segs.len(),
{
    if segs.len() > 0 {
        let t = segs.drop_last();
        assert forall|j: int| 0 <= j < t.len() implies 0 <= (#[trigger] t[j]).distance_mm by {
            assert(t[j] == segs[j]);
        }
        lemma_direction_within_length(t, ascent);
        assert(segs[segs.len() - 1] == segs.last());
    }
}

/// The distance of the windows of one direction in each steepness band.
pub fn bin_distances(segments: &Vec<GradientSegment>, ascent: bool) -> (r: Vec<i64>)
    requires
        forall|j: int| 0 <= j < segments@.len() ==> 0 <= (#[trigger] segments@[j]).distance_mm,
        windows_length(segments@) <= TOTAL_LIMIT,
    ensures
        r@.len() == BIN_COUNT,
        forall|k: int| 0 <= k < BIN_COUNT ==> #[trigger] r@[k] == bin_distance(segments@, ascent, k),
{
    let ghost segs = segments@;
    let mut r: Vec<i64> = vec![0, 0, 0, 0, 0, 0, 0];
    let mut i: usize = 0;
    while i < segments.len()
        invariant
            segs == segments@,
            forall|j: int| 0 <= j < segs.len() ==> 0 <= (#[trigger] segs[j]).distance_mm,
            windows_length(segs) <= TOTAL_LIMIT,
            0 <= i <= segs.len(),
            r@.len() == BIN_COUNT,
            forall|k: int| 0 <= k < BIN_COUNT ==> #[trigger] r@[k] == bin_distance(segs.take(i as int), ascent, k),
        decreases segs.len() - i,
    {
        let ghost pre = segs.take(i as int);
        let ghost post = segs.take(i + 1);
        assert(post.drop_last() =~= pre);
        assert forall|j: int| 0 <= j < post.len() implies 0 <= (#[trigger] post[j]).distance_mm by {
            assert(post[j] == segs[j]);
        }
        proof {
            lemma_bins_partition_nonneg(post, ascent);
            lemma_direction_within_length(post, ascent);
            lemma_length_prefix(segs, i + 1);
        }
        let s = segments[i];
        let a: i128 = if s.gradient_percent < 0 {
            -(s.gradient_percent as i128)
        } else {
            s.gradient_percent as i128
        };
        let raw_bin = a / BIN_WIDTH as i128;
        let bin: usize = if raw_bin >= 6 {
            6
        } else {
            raw_bin as usize
        };
        assert(bin == bin_of(s.gradient_percent as int));
        if (s.gradient_percent > 0) == ascent {
            assert(bin_distance(post, ascent, bin as int) <= TOTAL_LIMIT);
            let v = r[bin];
            r.set(bin, v + s.distance_mm);
        }
        i += 1;
    }
    assert(segs.take(segs.len() as int) =~= segs);
    r
}

proof fn lemma_length_prefix(segs: Seq<GradientSegment>, m: int)
    requires
        forall|j: int| 0 <= j < segs.len() ==> 0 <= (#[trigger] segs[j]).distance_mm,
        0 <= m <= segs.len(),
    ensures
        windows_length(segs.take(m)) <= windows_length(segs),
    decreases segs.len() - m,
{
    if m < segs.len() {
        lemma_length_prefix(segs, m + 1);
        assert(segs.take(m + 1).drop_last() =~= segs.take(m));
        assert(segs.take(m + 1).last() == segs[m]);
    } else {
        assert(segs.take(m) =~= segs);
    }
}

proof fn lemma_bins_partition_nonneg(segs: Seq<GradientSegment>, ascent: bool)
    requires
        forall|j: int| 0 <= j < segs.len() ==> 0 <= (#[trigger] segs[j]).distance_mm,
    ensures
        forall|k: int| 0 <= #[trigger] bin_distance(segs, ascent, k) <= direction_distance(segs, ascent),
    decreases segs.len(),
{
    if segs.len() > 0 {
        let t = segs.drop_last();
        assert forall|j: int| 0 <= j < t.len() implies 0 <= (#[trigger] t[j]).distance_mm by {
            assert(t[j] == segs[j]);
        }
        lemma_bins_partition_nonneg(t, ascent);
        assert(segs[segs.len() - 1] == segs.last());
        assert forall|k: int| 0 <= #[trigger] bin_distance(segs, ascent, k) <= direction_distance(
            segs,
            ascent,
        ) by {
            assert(0 <= bin_distance(t, ascent, k) <= direction_distance(t, ascent));
        }
    }
}

} // verus!
