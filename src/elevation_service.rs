//! Route metrics, elevation profile and gradient distribution of a track.
use vstd::prelude::*;
use crate::gpx_parser::{trunc_div, plausible, all_plausible, elevations, valid_track, MAX_POINTS};
use crate::elevation_processor::{
    ints, cumulative, total_distance, raw_climbs, last_gain, last_loss,
    window_sum, CLIMB_LIMIT, TOTAL_LIMIT, ElevationData,
};
use crate::gradient_analysis::{
    analyze_gradients, categorize_gradients, sum_is_whole, bin_distances, gradient_windows, bin_label, bin_share,
    bin_distance, BIN_COUNT,
};
use crate::models::{GpxData, ElevationProfile, GradientBin, GradientDistribution};

verus! {

/// Total distance, ascent and descent of a track, in millimetres.
pub fn calculate_elevation_metrics(gpx_data: &GpxData) -> (r: (i64, i64, i64))
    requires
        valid_track(gpx_data.points@),
    ensures
        r.0 == total_distance(gpx_data.points@),
        0 <= r.0 <= TOTAL_LIMIT,
        r.1 == last_gain(raw_climbs(elevations(gpx_data.points@))),
        r.2 == last_loss(raw_climbs(elevations(gpx_data.points@))),
        0 <= r.1 <= MAX_POINTS * CLIMB_LIMIT,
        0 <= r.2 <= MAX_POINTS * CLIMB_LIMIT,
{
    let data = ElevationData::from_gpx_data(gpx_data, false);
    let n = data.accumulated_ascent.len();
    let distance: i64 = if data.cumulative_distance.len() > 0 {
        data.cumulative_distance[data.cumulative_distance.len() - 1]
    } else {
        0
    };
    proof {
        crate::elevation_processor::lemma_raw_bounded(elevations(gpx_data.points@));
        crate::elevation_processor::lemma_gain_bounds(raw_climbs(elevations(gpx_data.points@)), n - 1);
    }
    assert((n as int) * CLIMB_LIMIT <= MAX_POINTS * CLIMB_LIMIT) by (nonlinear_arith)
        requires
            n <= MAX_POINTS,
    ;
    if n == 0 {
        (distance, 0, 0)
    } else {
        (distance, data.accumulated_ascent[n - 1], data.accumulated_descent[n - 1])
    }
}

/// The stored metrics of an uploaded track: distance, ascent, descent and
/// effort distance, in millimetres.
pub fn race_metrics(gpx_data: &GpxData) -> (r: (i64, i64, i64, i64))
    requires
        valid_track(gpx_data.points@),
    ensures
        r.0 == total_distance(gpx_data.points@),
        r.1 == last_gain(raw_climbs(elevations(gpx_data.points@))),
        r.2 == last_loss(raw_climbs(elevations(gpx_data.points@))),
        r.3 == crate::itra_calculator::effort(r.0 as int, r.1 as int),
{
    let (distance, gain, loss) = calculate_elevation_metrics(gpx_data);
    let effort = crate::itra_calculator::calculate_itra_effort(distance, gain);
    (distance, gain, loss, effort)
}

pub open spec fn centered_bounds(i: int, half: int, n: int) -> (int, int) {
    (if i >= half { i - half } else { 0 }, if i + half + 1 <= n { i + half + 1 } else { n })
}

/// Mean over the window of `half` samples on each side of `i`, cut at the ends.
pub open spec fn centered_mean(e: Seq<int>, half: int, i: int) -> int {
    let (lo, hi) = centered_bounds(i, half, e.len() as int);
    trunc_div(window_sum(e, lo, hi), hi - lo)
}

pub open spec fn centered(e: Seq<int>, half: int) -> Seq<int> {
    Seq::new(e.len(), |i: int| centered_mean(e, half, i))
}

proof fn lemma_window_plausible(e: Seq<int>, lo: int, hi: int)
    requires
        all_plausible(e),
        0 <= lo <= hi <= e.len(),
    ensures
        -500_000 * (hi - lo) <= window_sum(e, lo, hi) <= 9_000_000 * (hi - lo),
    decreases hi - lo,
{
    if hi > lo {
        lemma_window_plausible(e, lo, hi - 1);
        assert(plausible(e[hi - 1]));
    }
}

/// Centred moving average of elevations over `window_size` samples.
fn smooth_elevations(elevations: &Vec<i64>, window_size: usize) -> (r: Vec<i64>)
    requires
        all_plausible(ints(elevations@)),
    ensures
        ints(r@) == centered(ints(elevations@), (window_size / 2) as int),
{
    let ghost e = ints(elevations@);
    let half = window_size / 2;
    let n = elevations.len();
    let mut r: Vec<i64> = Vec::new();
    let mut i: usize = 0;
    while i < n
        invariant
            e == ints(elevations@),
            all_plausible(e),
            n == elevations@.len(),
            half == window_size / 2,
            0 <= i <= n,
            r@.len() == i,
            forall|j: int| 0 <= j < i ==> r@[j] == centered(e, half as int)[j],
        decreases n - i,
    {
        let lo: usize = if i >= half {
            i - half
        } else {
            0
        };
        let hi: usize = if half < n - i {
            i + half + 1
        } else {
            n
        };
        assert((lo as int, hi as int) == centered_bounds(i as int, half as int, n as int));
        let mut sum: i128 = 0;
        let mut j: usize = lo;
        while j < hi
            invariant
                e == ints(elevations@),
                all_plausible(e),
                lo <= j <= hi <= n,
                n == elevations@.len(),
                sum == window_sum(e, lo as int, j as int),
            decreases hi - j,
        {
            proof {
                lemma_window_plausible(e, lo as int, j as int);
            }
            assert(plausible(e[j as int]));
            assert(-500_000 * ((j - lo) as int) >= -500_000 * 0x1_0000_0000_0000_0000) by (nonlinear_arith)
                requires
                    j - lo <= 0x1_0000_0000_0000_0000,
            ;
            assert(9_000_000 * ((j - lo) as int) <= 9_000_000 * 0x1_0000_0000_0000_0000) by (nonlinear_arith)
                requires
                    j - lo <= 0x1_0000_0000_0000_0000,
            ;
            sum = sum + elevations[j] as i128;
            j += 1;
        }
        proof {
            lemma_window_plausible(e, lo as int, hi as int);
        }
        let count = (hi - lo) as i128;
        assert(lo <= i < hi);
        let mean: i64 = if sum >= 0 {
            assert((sum as int) / (count as int) <= 9_000_000) by (nonlinear_arith)
                requires
                    0 <= sum <= 9_000_000 * count,
                    count > 0,
            ;
            (sum / count) as i64
        } else {
            assert((-(sum as int)) / (count as int) <= 500_000) by (nonlinear_arith)
                requires
                    0 < -sum <= 500_000 * count,
                    count > 0,
            ;
            -(((-sum) / count) as i64)
        };
        r.push(mean);
        i += 1;
    }
    assert(ints(r@) =~= centered(e, half as int));
    r
}

/// Cumulative distance and elevation of each point, the elevations smoothed
/// by a centred window when `window_size` is positive.
pub fn calculate_elevation_profile(gpx_data: &GpxData, window_size: u32) -> (r: ElevationProfile)
    requires
        valid_track(gpx_data.points@),
    ensures
        r.distance@.len() == gpx_data.points@.len(),
        forall|i: int|
            0 <= i < gpx_data.points@.len() ==> #[trigger] r.distance@[i] == cumulative(
                gpx_data.points@,
                i,
            ),
        window_size > 0 ==> ints(r.elevation@) == centered(
            elevations(gpx_data.points@),
            (window_size / 2) as int,
        ),
        window_size == 0 ==> ints(r.elevation@) == elevations(gpx_data.points@),
        r.smoothed == (window_size > 0),
        r.window_size == window_size,
{
    let data = ElevationData::from_gpx_data(gpx_data, false);
    let elevation = if window_size > 0 {
        smooth_elevations(&data.enhanced_altitude, window_size as usize)
    } else {
        data.enhanced_altitude
    };
    ElevationProfile {
        distance: data.cumulative_distance,
        elevation,
        smoothed: window_size > 0,
        window_size,
    }
}

/// The sum of seven bins' percentages.
pub open spec fn percentage_sum(b: Seq<GradientBin>) -> int {
    b[0].percentage + b[1].percentage + b[2].percentage + b[3].percentage + b[4].percentage
        + b[5].percentage + b[6].percentage
}

/// The bins of one direction: label, share and the distance of their windows.
pub open spec fn bins_match(
    bins: Seq<GradientBin>,
    segs: Seq<crate::gradient_analysis::GradientSegment>,
    ascent: bool,
) -> bool {
    &&& bins.len() == BIN_COUNT
    &&& forall|k: int|
        0 <= k < BIN_COUNT ==> {
            &&& (#[trigger] bins[k]).range@ == bin_label(k)
            &&& bins[k].percentage == bin_share(segs, ascent, k)
            &&& bins[k].distance == bin_distance(segs, ascent, k)
        }
}

fn to_bins(shares: Vec<(String, i64)>, distances: Vec<i64>) -> (r: Vec<GradientBin>)
    requires
        distances@.len() == shares@.len(),
    ensures
        r@.len() == shares@.len(),
        forall|k: int|
            0 <= k < shares@.len() ==> {
                &&& (#[trigger] r@[k]).range@ == shares@[k].0@
                &&& r@[k].percentage == shares@[k].1
                &&& r@[k].distance == distances@[k]
            },
{
    let mut r: Vec<GradientBin> = Vec::new();
    let mut i: usize = 0;
    while i < shares.len()
        invariant
            distances@.len() == shares@.len(),
            0 <= i <= shares@.len(),
            r@.len() == i,
            forall|k: int|
                0 <= k < i ==> {
                    &&& (#[trigger] r@[k]).range@ == shares@[k].0@
                    &&& r@[k].percentage == shares@[k].1
                    &&& r@[k].distance == distances@[k]
                },
        decreases shares@.len() - i,
    {
        r.push(GradientBin { range: shares[i].0.clone(), percentage: shares[i].1, distance: distances[i] });
        i += 1;
    }
    r
}

/// Gradient distribution of a track over windows of `window_size` metres.
pub fn calculate_gradient_distribution(gpx_data: &GpxData, window_size: u32) -> (r: GradientDistribution)
    requires
        valid_track(gpx_data.points@),
    ensures
        ({
            let segs = gradient_windows(gpx_data.points@, window_size as int * 1000);
            &&& bins_match(r.ascent@, segs, true)
            &&& bins_match(r.descent@, segs, false)
            &&& sum_is_whole(segs, true, percentage_sum(r.ascent@))
            &&& sum_is_whole(segs, false, percentage_sum(r.descent@))
        }),
{
    let segments = analyze_gradients(gpx_data, window_size as i64 * 1000);
    let (ascent_bins, descent_bins) = categorize_gradients(&segments);
    let up = bin_distances(&segments, true);
    let down = bin_distances(&segments, false);
    let ascent = to_bins(ascent_bins, up);
    let descent = to_bins(descent_bins, down);
    GradientDistribution { ascent, descent }
}

} // verus!
