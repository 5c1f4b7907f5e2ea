//! Track normalisation: point extraction results, deduplication,
//! downsampling, distance thinning and elevation cleaning.
use vstd::prelude::*;
use crate::geometry::{surface_distance, surface_distance_mm, lemma_surface_distance, abs};
use crate::models::{GpxPoint, GpxData, valid_point, all_valid, untimed};

verus! {

/// Largest number of points kept before thinning.
pub const MAX_POINTS: usize = 50000;

/// Smallest distance between consecutive kept points, in millimetres.
pub const MIN_DISTANCE_MM: i64 = 5000;

/// Elevations strictly between these bounds (millimetres) are plausible.
pub const MIN_PLAUSIBLE_ELE: i64 = -500_000;
pub const MAX_PLAUSIBLE_ELE: i64 = 9_000_000;

/// A point differing from both neighbours by more than this (millimetres) ...
pub const SPIKE_HEIGHT: i64 = 100_000;

/// ... while the neighbours differ by less than this, is a spike.
pub const SPIKE_NEIGHBOUR_GAP: i64 = 50_000;

/// Why a track could not be normalised.
#[derive(Clone, Copy, Debug, PartialEq, Eq)]
pub enum TrackError {
    /// No coordinate could be extracted from the input.
    ParseError,
    /// Fewer than two points remained after optimisation.
    InsufficientData,
}

pub open spec fn same_place(a: GpxPoint, b: GpxPoint) -> bool {
    a.lat == b.lat && a.lon == b.lon
}

/// Consecutive points at the same coordinate collapse to the first of them.
pub open spec fn deduped(s: Seq<GpxPoint>) -> Seq<GpxPoint>
    decreases s.len(),
{
    if s.len() == 0 {
        s
    } else {
        let d = deduped(s.drop_last());
        if d.len() > 0 && same_place(d.last(), s.last()) {
            d
        } else {
            d.push(s.last())
        }
    }
}

/// Uniform downsampling of `s` to `target` points keeping the first and the
/// last: point `k` is taken from index `k * len / target`.
pub open spec fn downsampled(s: Seq<GpxPoint>, target: int) -> Seq<GpxPoint> {
    if s.len() <= target || s.len() <= 2 {
        s
    } else if target < 2 {
        seq![s[0], s.last()]
    } else {
        Seq::new(
            target as nat,
            |k: int|
                if k == target - 1 {
                    s.last()
                } else {
                    s[k * s.len() / target]
                },
        )
    }
}

pub open spec fn far_enough(a: GpxPoint, b: GpxPoint) -> bool {
    surface_distance(a.lat as int, a.lon as int, b.lat as int, b.lon as int) >= MIN_DISTANCE_MM
}

/// Walk keeping each point at least the minimum distance from the last kept one.
pub open spec fn kept(s: Seq<GpxPoint>) -> Seq<GpxPoint>
    decreases s.len(),
{
    if s.len() <= 1 {
        s
    } else {
        let k = kept(s.drop_last());
        if far_enough(k.last(), s.last()) {
            k.push(s.last())
        } else {
            k
        }
    }
}

/// Distance thinning: the walk over every point but the final one, then
/// the final point, which is always kept.
pub open spec fn thinned(s: Seq<GpxPoint>) -> Seq<GpxPoint> {
    if s.len() <= 1 {
        s
    } else {
        kept(s.drop_last()).push(s.last())
    }
}

proof fn lemma_deduped_valid(s: Seq<GpxPoint>)
    requires
        all_valid(s),
    ensures
        all_valid(deduped(s)),
        untimed(s) ==> untimed(deduped(s)),
        deduped(s).len() <= s.len(),
        s.len() > 0 ==> deduped(s).len() > 0,
    decreases s.len(),
{
    if s.len() > 0 {
        lemma_deduped_valid(s.drop_last());
    }
}

proof fn lemma_kept(s: Seq<GpxPoint>)
    requires
        all_valid(s),
    ensures
        all_valid(kept(s)),
        untimed(s) ==> untimed(kept(s)),
        kept(s).len() <= s.len(),
        s.len() > 0 ==> kept(s).len() > 0 && kept(s)[0] == s[0],
        kept(s).len() == s.len() && s.len() > 0 ==> kept(s).last() == s.last(),
    decreases s.len(),
{
    if s.len() > 1 {
        lemma_kept(s.drop_last());
    }
}

proof fn lemma_thinned(s: Seq<GpxPoint>)
    requires
        all_valid(s),
    ensures
        all_valid(thinned(s)),
        untimed(s) ==> untimed(thinned(s)),
        thinned(s).len() <= s.len(),
        s.len() >= 2 ==> thinned(s).len() >= 2,
{
    if s.len() > 1 {
        lemma_kept(s.drop_last());
    }
}

/// Drops each point that repeats the coordinate of the point kept before it.
pub fn dedup_points(points: &Vec<GpxPoint>) -> (r: Vec<GpxPoint>)
    ensures
        r@ == deduped(points@),
{
    let mut r: Vec<GpxPoint> = Vec::new();
    let mut i: usize = 0;
    while i < points.len()
        invariant
            0 <= i <= points.len(),
            r@ == deduped(points@.take(i as int)),
        decreases points.len() - i,
    {
        let p = points[i];
        assert(points@.take(i + 1).drop_last() =~= points@.take(i as int));
        if r.len() > 0 && r[r.len() - 1].lat == p.lat && r[r.len() - 1].lon == p.lon {
        } else {
            r.push(p);
        }
        i += 1;
    }
    assert(points@.take(points.len() as int) =~= points@);
    r
}

/// Downsamples to `target_count` points by a fixed stride, keeping the first
/// and the last point.
pub fn downsample_points(points: Vec<GpxPoint>, target_count: usize) -> (r: Vec<GpxPoint>)
    ensures
        r@ == downsampled(points@, target_count as int),
{
    let n = points.len();
    if n <= target_count || n <= 2 {
        return points;
    }
    if target_count < 2 {
        let r = vec![points[0], points[n - 1]];
        assert(r@ =~= downsampled(points@, target_count as int));
        return r;
    }
    let mut r: Vec<GpxPoint> = Vec::new();
    let mut k: usize = 0;
    while k < target_count - 1
        invariant
            2 <= target_count < n == points.len(),
            0 <= k <= target_count - 1,
            r@.len() == k,
            forall|j: int| 0 <= j < k ==> r@[j] == points@[j * n / target_count as int],
        decreases target_count - k,
    {
        assert((k as int) * (n as int) / (target_count as int) < n) by (nonlinear_arith)
            requires
                0 <= k < target_count < n,
        ;
        assert((k as u128) * (n as u128) < 0x1_0000_0000_0000_0000_0000_0000_0000_0000) by (nonlinear_arith)
            requires
                k < 0x1_0000_0000_0000_0000,
                n < 0x1_0000_0000_0000_0000,
        ;
        let idx = ((k as u128) * (n as u128) / (target_count as u128)) as usize;
        r.push(points[idx]);
        k += 1;
    }
    r.push(points[n - 1]);
    assert(r@ =~= downsampled(points@, target_count as int));
    r
}

/// Keeps each point that lies at least the minimum distance from the last
/// kept point, then the final point whatever its distance.
pub fn thin_points(points: &Vec<GpxPoint>) -> (r: Vec<GpxPoint>)
    requires
        points@.len() > 0,
        all_valid(points@),
    ensures
        r@ == thinned(points@),
{
    let n = points.len();
    if n == 1 {
        return vec![points[0]];
    }
    let mut r: Vec<GpxPoint> = vec![points[0]];
    let mut last = points[0];
    let mut i: usize = 1;
    assert(points@.take(1) =~= seq![points@[0]]);
    while i < n - 1
        invariant
            n == points.len(),
            n >= 2,
            i <= n - 1,
            all_valid(points@),
            1 <= i <= n,
            r@ == kept(points@.take(i as int)),
            r@.len() > 0,
            last == r@.last(),
            valid_point(last),
        decreases n - i,
    {
        let p = points[i];
        assert(points@.take(i + 1).drop_last() =~= points@.take(i as int));
        assert(valid_point(points@[i as int]));
        let d = surface_distance_mm(last.lat, last.lon, p.lat, p.lon);
        if d >= MIN_DISTANCE_MM {
            r.push(p);
            last = p;
        }
        i += 1;
    }
    assert(points@.take(n - 1) =~= points@.drop_last());
    r.push(points[n - 1]);
    r
}

/// Division rounding toward zero, as integer division does on machine integers.
pub open spec fn trunc_div(a: int, b: int) -> int {
    if a >= 0 {
        a / b
    } else {
        -((-a) / b)
    }
}

pub open spec fn plausible(e: int) -> bool {
    MIN_PLAUSIBLE_ELE < e < MAX_PLAUSIBLE_ELE
}

pub open spec fn elevations(s: Seq<GpxPoint>) -> Seq<int> {
    Seq::new(s.len(), |i: int| s[i].ele as int)
}

pub open spec fn plausible_sum(e: Seq<int>) -> int
    decreases e.len(),
{
    if e.len() == 0 {
        0
    } else {
        plausible_sum(e.drop_last()) + if plausible(e.last()) {
            e.last()
        } else {
            0
        }
    }
}

pub open spec fn plausible_count(e: Seq<int>) -> int
    decreases e.len(),
{
    if e.len() == 0 {
        0
    } else {
        plausible_count(e.drop_last()) + if plausible(e.last()) {
            1int
        } else {
            0
        }
    }
}

/// The value that replaces an implausible elevation: the mean of the
/// plausible ones, or 0 when there is none.
pub open spec fn fill_value(e: Seq<int>) -> int {
    if plausible_count(e) == 0 {
        0
    } else {
        trunc_div(plausible_sum(e), plausible_count(e))
    }
}

pub open spec fn replaced(e: Seq<int>) -> Seq<int> {
    Seq::new(e.len(), |i: int| if plausible(e[i]) { e[i] } else { fill_value(e) })
}

/// Replaces an isolated spike at index `i` by the mean of its neighbours.
pub open spec fn despike_at(e: Seq<int>, i: int) -> Seq<int> {
    let prev = e[i - 1];
    let cur = e[i];
    let next = e[i + 1];
    if abs(cur - prev) > SPIKE_HEIGHT && abs(cur - next) > SPIKE_HEIGHT && abs(next - prev)
        < SPIKE_NEIGHBOUR_GAP {
        e.update(i, trunc_div(prev + next, 2))
    } else {
        e
    }
}

/// Despiking applied in order to the interior indices below `i`, each step
/// seeing the values left by the steps before it.
pub open spec fn despiked(e: Seq<int>, i: int) -> Seq<int>
    decreases i,
{
    if i <= 1 {
        e
    } else {
        despike_at(despiked(e, i - 1), i - 1)
    }
}

/// Elevations after cleaning: implausible values replaced, then despiked.
pub open spec fn cleaned(e: Seq<int>) -> Seq<int> {
    despiked(replaced(e), e.len() - 1)
}

pub open spec fn all_plausible(e: Seq<int>) -> bool {
    forall|i: int| 0 <= i < e.len() ==> plausible(#[trigger] e[i])
}

proof fn lemma_plausible_sum(e: Seq<int>)
    ensures
        0 <= plausible_count(e) <= e.len(),
        MIN_PLAUSIBLE_ELE * plausible_count(e) <= plausible_sum(e) <= MAX_PLAUSIBLE_ELE
            * plausible_count(e),
        plausible_count(e) > 0 ==> MIN_PLAUSIBLE_ELE * plausible_count(e) < plausible_sum(e)
            < MAX_PLAUSIBLE_ELE * plausible_count(e),
    decreases e.len(),
{
    if e.len() > 0 {
        lemma_plausible_sum(e.drop_last());
    }
}

proof fn lemma_fill_plausible(e: Seq<int>)
    ensures
        plausible(fill_value(e)),
{
    lemma_plausible_sum(e);
    let c = plausible_count(e);
    let t = plausible_sum(e);
    if c > 0 {
        if t >= 0 {
            assert(t / c < MAX_PLAUSIBLE_ELE) by (nonlinear_arith)
                requires
                    0 <= t < MAX_PLAUSIBLE_ELE * c,
                    c > 0,
            ;
            assert(t / c >= 0) by (nonlinear_arith)
                requires
                    0 <= t,
                    c > 0,
            ;
        } else {
            assert(-t < 500_000 * c) by (nonlinear_arith)
                requires
                    MIN_PLAUSIBLE_ELE * c < t,
                    MIN_PLAUSIBLE_ELE == -500_000,
            ;
            assert((-t) / c < 500_000) by (nonlinear_arith)
                requires
                    0 < -t < 500_000 * c,
                    c > 0,
            ;
            assert((-t) / c >= 0) by (nonlinear_arith)
                requires
                    0 < -t,
                    c > 0,
            ;
        }
    }
}

proof fn lemma_despiked(e: Seq<int>, i: int)
    requires
        all_plausible(e),
        i < e.len(),
    ensures
        despiked(e, i).len() == e.len(),
        all_plausible(despiked(e, i)),
    decreases i,
{
    if i > 1 {
        lemma_despiked(e, i - 1);
        let d = despiked(e, i - 1);
        assert(plausible(d[i - 2]) && plausible(d[i]));
    }
}

/// Facts about cleaned elevations: same length, all plausible.
pub proof fn lemma_cleaned(e: Seq<int>)
    ensures
        cleaned(e).len() == e.len(),
        all_plausible(cleaned(e)),
{
    lemma_fill_plausible(e);
    let r = replaced(e);
    assert(all_plausible(r));
    if e.len() > 0 {
        lemma_despiked(r, e.len() - 1);
    }
}

pub open spec fn same_except_ele(a: GpxPoint, b: GpxPoint) -> bool {
    a.lat == b.lat && a.lon == b.lon && a.time == b.time
}

/// Replaces each implausible elevation by the mean of the plausible ones (0
/// when there is none), then flattens isolated spikes.
pub fn clean_elevation_data(points: &mut Vec<GpxPoint>)
    ensures
        final(points)@.len() == old(points)@.len(),
        forall|i: int|
            0 <= i < old(points)@.len() ==> same_except_ele(
                #[trigger] final(points)@[i],
                old(points)@[i],
            ),
        elevations(final(points)@) == cleaned(elevations(old(points)@)),
        all_plausible(elevations(final(points)@)),
{
    let ghost e0 = elevations(points@);
    proof {
        lemma_cleaned(e0);
        lemma_fill_plausible(e0);
        lemma_plausible_sum(e0);
    }
    let n = points.len();
    let mut sum: i128 = 0;
    let mut count: u64 = 0;
    let mut i: usize = 0;
    while i < n
        invariant
            n == points.len(),
            points@ == old(points)@,
            e0 == elevations(old(points)@),
            0 <= i <= n,
            sum == plausible_sum(e0.take(i as int)),
            count == plausible_count(e0.take(i as int)),
            count <= i,
        decreases n - i,
    {
        proof {
            lemma_plausible_sum(e0.take(i as int));
            assert(e0.take(i + 1).drop_last() =~= e0.take(i as int));
        }
        assert(-500_000 * (count as int) >= -500_000 * 0x1_0000_0000_0000_0000) by (nonlinear_arith)
            requires
                count < 0x1_0000_0000_0000_0000,
        ;
        assert(9_000_000 * (count as int) <= 9_000_000 * 0x1_0000_0000_0000_0000) by (nonlinear_arith)
            requires
                count < 0x1_0000_0000_0000_0000,
        ;
        let e = points[i].ele;
        if e > MIN_PLAUSIBLE_ELE && e < MAX_PLAUSIBLE_ELE {
            sum = sum + e as i128;
            count = count + 1;
        }
        i += 1;
    }
    assert(e0.take(n as int) =~= e0);
    assert(-sum <= 500_000 * 0x1_0000_0000_0000_0000) by (nonlinear_arith)
        requires
            -500_000 * count <= sum,
            count < 0x1_0000_0000_0000_0000,
    ;
    let fill: i64 = if count == 0 {
        0
    } else if sum >= 0 {
        (sum / count as i128) as i64
    } else {
        -(((-sum) / count as i128) as i64)
    };
    assert(fill == fill_value(e0));
    let ghost r0 = replaced(e0);
    i = 0;
    while i < n
        invariant
            n == points.len() == old(points)@.len(),
            e0 == elevations(old(points)@),
            r0 == replaced(e0),
            fill == fill_value(e0),
            0 <= i <= n,
            forall|j: int| 0 <= j < n ==> same_except_ele(#[trigger] points@[j], old(points)@[j]),
            forall|j: int| 0 <= j < i ==> points@[j].ele == r0[j],
            forall|j: int| i <= j < n ==> points@[j] == old(points)@[j],
        decreases n - i,
    {
        let e = points[i].ele;
        if !(e > MIN_PLAUSIBLE_ELE && e < MAX_PLAUSIBLE_ELE) {
            let mut p = points[i];
            p.ele = fill;
            points.set(i, p);
        }
        i += 1;
    }
    assert(elevations(points@) =~= r0);
    if n >= 3 {
        i = 1;
        while i < n - 1
            invariant
                n == points.len() == old(points)@.len(),
                n >= 3,
                e0 == elevations(old(points)@),
                r0 == replaced(e0),
                all_plausible(r0),
                1 <= i <= n - 1,
                forall|j: int| 0 <= j < n ==> same_except_ele(#[trigger] points@[j], old(points)@[j]),
                elevations(points@) == despiked(r0, i as int),
            decreases n - i,
        {
            proof {
                assert(r0.len() == n);
                lemma_despiked(r0, i as int);
            }
            let ghost before = elevations(points@);
            assert(plausible(before[i - 1]) && plausible(before[i as int]) && plausible(before[i + 1]));
            let prev = points[i - 1].ele;
            let cur = points[i].ele;
            let next = points[i + 1].ele;
            let diff_prev = if cur >= prev { cur - prev } else { prev - cur };
            let diff_next = if cur >= next { cur - next } else { next - cur };
            let diff_neighbours = if next >= prev { next - prev } else { prev - next };
            if diff_prev > SPIKE_HEIGHT && diff_next > SPIKE_HEIGHT && diff_neighbours
                < SPIKE_NEIGHBOUR_GAP {
                let s = prev + next;
                let avg = if s >= 0 { s / 2 } else { -((-s) / 2) };
                let mut p = points[i];
                p.ele = avg;
                points.set(i, p);
            }
            assert(elevations(points@) =~= despike_at(before, i as int));
            i += 1;
        }
    } else {
        assert(cleaned(e0) == r0);
    }
}

/// Coordinates after deduplication, downsampling and distance thinning.
pub open spec fn optimized(s: Seq<GpxPoint>) -> Seq<GpxPoint> {
    thinned(downsampled(deduped(s), MAX_POINTS as int))
}

/// The normalised track: optimised points carrying cleaned elevations.
pub open spec fn normalized(s: Seq<GpxPoint>) -> Seq<GpxPoint> {
    let o = optimized(s);
    let e = cleaned(elevations(o));
    Seq::new(o.len(), |i: int| GpxPoint { ele: e[i] as i64, ..o[i] })
}

proof fn lemma_downsampled_valid(s: Seq<GpxPoint>, target: int)
    requires
        all_valid(s),
        target >= 0,
    ensures
        all_valid(downsampled(s, target)),
        untimed(s) ==> untimed(downsampled(s, target)),
        downsampled(s, target).len() <= s.len(),
        s.len() > target ==> downsampled(s, target).len() <= if target < 2 { 2 } else { target },
        s.len() > 0 ==> downsampled(s, target).len() > 0,
{
    if s.len() > target && target >= 2 {
        let d = downsampled(s, target);
        assert forall|k: int| 0 <= k < d.len() implies valid_point(#[trigger] d[k]) && (untimed(s)
            ==> d[k].time.is_none()) by {
            if k != target - 1 {
                assert(0 <= k * s.len() / target < s.len()) by (nonlinear_arith)
                    requires
                        0 <= k < target < s.len(),
                ;
            }
        }
    }
}

proof fn lemma_optimized_valid(s: Seq<GpxPoint>)
    requires
        all_valid(s),
    ensures
        all_valid(optimized(s)),
        untimed(s) ==> untimed(optimized(s)),
        optimized(s).len() <= MAX_POINTS,
{
    lemma_deduped_valid(s);
    let d = deduped(s);
    lemma_downsampled_valid(d, MAX_POINTS as int);
    lemma_thinned(downsampled(d, MAX_POINTS as int));
}

/// Keeps the points with valid coordinates, in order.
pub open spec fn valid_only(s: Seq<GpxPoint>) -> Seq<GpxPoint>
    decreases s.len(),
{
    if s.len() == 0 {
        s
    } else {
        let f = valid_only(s.drop_last());
        if valid_point(s.last()) {
            f.push(GpxPoint { time: None, ..s.last() })
        } else {
            f
        }
    }
}

/// What a reader recovered from track text: the structured reader's result,
/// or the points a lenient scan found when the structured reader failed.
pub enum Extraction {
    Structured { track_points: Vec<GpxPoint>, waypoints: Vec<GpxPoint> },
    Recovered { track_points: Vec<GpxPoint>, waypoints: Vec<GpxPoint> },
}

/// Track points with valid coordinates, or the waypoints when no track
/// point is valid.
pub open spec fn chosen_points(track_points: Seq<GpxPoint>, waypoints: Seq<GpxPoint>) -> Seq<
    GpxPoint,
> {
    if valid_only(track_points).len() > 0 {
        valid_only(track_points)
    } else {
        valid_only(waypoints)
    }
}

pub open spec fn extraction_points(ex: Extraction) -> Seq<GpxPoint> {
    match ex {
        Extraction::Structured { track_points, waypoints } => chosen_points(
            track_points@,
            waypoints@,
        ),
        Extraction::Recovered { track_points, waypoints } => chosen_points(
            track_points@,
            waypoints@,
        ),
    }
}

proof fn lemma_valid_only(s: Seq<GpxPoint>)
    ensures
        all_valid(valid_only(s)),
        untimed(valid_only(s)),
    decreases s.len(),
{
    if s.len() > 0 {
        lemma_valid_only(s.drop_last());
    }
}

fn keep_valid(points: &Vec<GpxPoint>) -> (r: Vec<GpxPoint>)
    ensures
        r@ == valid_only(points@),
{
    let mut r: Vec<GpxPoint> = Vec::new();
    let mut i: usize = 0;
    while i < points.len()
        invariant
            0 <= i <= points.len(),
            r@ == valid_only(points@.take(i as int)),
        decreases points.len() - i,
    {
        let p = points[i];
        assert(points@.take(i + 1).drop_last() =~= points@.take(i as int));
        if p.lat >= -90_000_000 && p.lat <= 90_000_000 && p.lon >= -180_000_000 && p.lon
            <= 180_000_000 {
            r.push(GpxPoint { time: None, ..p });
        }
        i += 1;
    }
    assert(points@.take(points.len() as int) =~= points@);
    r
}

/// The points an extraction yields: valid track points, else valid waypoints.
pub fn extract_raw_points(extraction: &Extraction) -> (r: Vec<GpxPoint>)
    ensures
        r@ == extraction_points(*extraction),
        all_valid(r@),
        untimed(r@),
{
    let (track_points, waypoints) = match extraction {
        Extraction::Structured { track_points, waypoints } => (track_points, waypoints),
        Extraction::Recovered { track_points, waypoints } => (track_points, waypoints),
    };
    proof {
        lemma_valid_only(track_points@);
        lemma_valid_only(waypoints@);
    }
    let from_track = keep_valid(track_points);
    if from_track.len() > 0 {
        from_track
    } else {
        keep_valid(waypoints)
    }
}

/// Deduplicates, downsamples to the cap, thins by distance and cleans the
/// elevations of a point sequence.
pub fn strip_and_optimize_points(points: Vec<GpxPoint>) -> (r: Result<Vec<GpxPoint>, TrackError>)
    requires
        all_valid(points@),
    ensures
        match r {
            Ok(v) => optimized(points@).len() >= 2 && v@ == normalized(points@) && valid_track(v@)
                && (untimed(points@) ==> untimed(v@)),
            Err(e) => e == TrackError::InsufficientData && optimized(points@).len() < 2,
        },
{
    if points.len() == 0 {
        return Err(TrackError::InsufficientData);
    }
    let ghost s = points@;
    proof {
        lemma_deduped_valid(s);
        lemma_downsampled_valid(deduped(s), MAX_POINTS as int);
    }
    let deduped_points = dedup_points(&points);
    let sampled = downsample_points(deduped_points, MAX_POINTS);
    let mut optimized_points = thin_points(&sampled);
    let ghost o = optimized_points@;
    clean_elevation_data(&mut optimized_points);
    if optimized_points.len() < 2 {
        return Err(TrackError::InsufficientData);
    }
    proof {
        lemma_cleaned(elevations(o));
        lemma_optimized_valid(s);
        let e = cleaned(elevations(o));
        assert forall|i: int| 0 <= i < o.len() implies optimized_points@[i] == (GpxPoint {
            ele: e[i] as i64,
            ..o[i]
        }) by {
            assert(same_except_ele(optimized_points@[i], o[i]));
            assert(elevations(optimized_points@)[i] == e[i]);
        }
        assert(optimized_points@ =~= normalized(s));
        lemma_normalized_valid(s);
        if untimed(s) {
            assert(untimed(o));
            assert forall|i: int| 0 <= i < optimized_points@.len() implies (
            #[trigger] optimized_points@[i]).time.is_none() by {
                assert(same_except_ele(optimized_points@[i], o[i]));
            }
        }
    }
    Ok(optimized_points)
}

/// Turns an extraction into a normalised track.
pub fn parse_gpx(extraction: &Extraction) -> (r: Result<GpxData, TrackError>)
    ensures
        match r {
            Ok(g) => extraction_points(*extraction).len() > 0 && optimized(
                extraction_points(*extraction),
            ).len() >= 2 && g.points@ == normalized(extraction_points(*extraction)) && valid_track(
                g.points@,
            ) && untimed(g.points@),
            Err(TrackError::ParseError) => extraction_points(*extraction).len() == 0,
            Err(TrackError::InsufficientData) => extraction_points(*extraction).len() > 0
                && optimized(extraction_points(*extraction)).len() < 2,
        },
{
    let raw_points = extract_raw_points(extraction);
    if raw_points.len() == 0 {
        return Err(TrackError::ParseError);
    }
    match strip_and_optimize_points(raw_points) {
        Ok(points) => Ok(GpxData { points }),
        Err(e) => Err(e),
    }
}

pub open spec fn all_far(s: Seq<GpxPoint>) -> bool {
    forall|i: int| 0 < i < s.len() ==> far_enough(s[i - 1], #[trigger] s[i])
}

pub open spec fn all_distinct_steps(s: Seq<GpxPoint>) -> bool {
    forall|i: int| 0 < i < s.len() ==> !same_place(s[i - 1], #[trigger] s[i])
}

/// The shape of a thinned sequence: every step but the last at least the
/// minimum distance.
pub open spec fn spaced(s: Seq<GpxPoint>) -> bool {
    all_far(s.drop_last())
}

proof fn lemma_far_distinct(a: GpxPoint, b: GpxPoint)
    requires
        valid_point(a),
        valid_point(b),
        far_enough(a, b),
    ensures
        !same_place(a, b),
{
    lemma_surface_distance(a.lat as int, a.lon as int, b.lat as int, b.lon as int);
}

proof fn lemma_kept_far(s: Seq<GpxPoint>)
    requires
        all_valid(s),
    ensures
        all_far(kept(s)),
    decreases s.len(),
{
    if s.len() > 1 {
        lemma_kept_far(s.drop_last());
        lemma_kept(s.drop_last());
    }
}

proof fn lemma_thinned_spaced(s: Seq<GpxPoint>)
    requires
        all_valid(s),
        s.len() > 0,
    ensures
        spaced(thinned(s)),
{
    if s.len() > 1 {
        lemma_kept_far(s.drop_last());
        let t = thinned(s);
        assert(t.drop_last() =~= kept(s.drop_last()));
    }
}

proof fn lemma_deduped_stable(u: Seq<GpxPoint>)
    requires
        all_distinct_steps(u),
    ensures
        deduped(u) == u,
    decreases u.len(),
{
    if u.len() > 0 {
        let v = u.drop_last();
        assert(all_distinct_steps(v)) by {
            assert forall|i: int| 0 < i < v.len() implies !same_place(v[i - 1], #[trigger] v[i]) by {
                assert(v[i] == u[i] && v[i - 1] == u[i - 1]);
            }
        }
        lemma_deduped_stable(v);
        if u.len() > 1 {
            assert(!same_place(u[u.len() - 2], u[u.len() - 1]));
        }
        assert(v.push(u.last()) =~= u);
    }
}

proof fn lemma_kept_stable(u: Seq<GpxPoint>)
    requires
        all_far(u),
    ensures
        kept(u) == u,
    decreases u.len(),
{
    if u.len() > 1 {
        let v = u.drop_last();
        assert(all_far(v)) by {
            assert forall|i: int| 0 < i < v.len() implies far_enough(v[i - 1], #[trigger] v[i]) by {
                assert(v[i] == u[i] && v[i - 1] == u[i - 1]);
            }
        }
        lemma_kept_stable(v);
        assert(far_enough(u[u.len() - 2], u[u.len() - 1]));
        assert(v.push(u.last()) =~= u);
    }
}

proof fn lemma_thinned_stable(u: Seq<GpxPoint>)
    requires
        spaced(u),
        u.len() > 0,
    ensures
        thinned(u) == u,
{
    if u.len() > 1 {
        let v = u.drop_last();
        lemma_kept_stable(v);
        assert(v.push(u.last()) =~= u);
    }
}

/// Normalising an already normalised track removes no point and moves none:
/// its optimisation is the identity, so a second pass yields the same
/// points, changing elevations at most. This needs the kept final point to
/// lie elsewhere than the point before it; a final point forced in at the
/// same coordinate is removed as a duplicate by the second pass.
pub proof fn lemma_renormalize_keeps_points(s: Seq<GpxPoint>)
    requires
        all_valid(s),
        optimized(s).len() >= 2,
        !same_place(optimized(s)[optimized(s).len() - 2], optimized(s).last()),
    ensures
        all_valid(normalized(s)),
        optimized(normalized(s)) == normalized(s),
        normalized(normalized(s)).len() == normalized(s).len(),
        forall|i: int|
            0 <= i < normalized(s).len() ==> same_except_ele(
                #[trigger] normalized(normalized(s))[i],
                normalized(s)[i],
            ),
{
    lemma_deduped_valid(s);
    lemma_downsampled_valid(deduped(s), MAX_POINTS as int);
    let sampled = downsampled(deduped(s), MAX_POINTS as int);
    lemma_thinned(sampled);
    lemma_thinned_spaced(sampled);
    lemma_optimized_valid(s);
    let o = optimized(s);
    let c = normalized(s);
    lemma_cleaned(elevations(o));
    assert(c.len() == o.len());
    assert(all_valid(c)) by {
        assert forall|i: int| 0 <= i < c.len() implies valid_point(#[trigger] c[i]) by {
            assert(valid_point(o[i]));
        }
    }
    assert(spaced(c)) by {
        assert forall|i: int| 0 < i < c.len() - 1 implies far_enough(
            c.drop_last()[i - 1],
            #[trigger] c.drop_last()[i],
        ) by {
            assert(far_enough(o.drop_last()[i - 1], o.drop_last()[i]));
        }
    }
    assert(all_distinct_steps(c)) by {
        assert forall|i: int| 0 < i < c.len() implies !same_place(c[i - 1], #[trigger] c[i]) by {
            if i == c.len() - 1 {
                assert(same_place(c[i - 1], o[i - 1]) && same_place(c[i], o[i]));
            } else {
                assert(far_enough(c.drop_last()[i - 1], c.drop_last()[i]));
                lemma_far_distinct(c[i - 1], c[i]);
            }
        }
    }
    lemma_deduped_stable(c);
    assert(downsampled(c, MAX_POINTS as int) == c);
    lemma_thinned_stable(c);
    lemma_cleaned(elevations(c));
}

/// What a normalised track satisfies: valid coordinates, plausible
/// elevations, at most the point cap.
pub open spec fn valid_track(s: Seq<GpxPoint>) -> bool {
    &&& all_valid(s)
    &&& all_plausible(elevations(s))
    &&& s.len() <= MAX_POINTS
}

/// A normalised track is a valid track.
pub proof fn lemma_normalized_valid(s: Seq<GpxPoint>)
    requires
        all_valid(s),
    ensures
        valid_track(normalized(s)),
{
    lemma_optimized_valid(s);
    let o = optimized(s);
    let c = normalized(s);
    lemma_cleaned(elevations(o));
    assert(all_valid(c)) by {
        assert forall|i: int| 0 <= i < c.len() implies valid_point(#[trigger] c[i]) by {
            assert(valid_point(o[i]));
        }
    }
    assert(elevations(c) =~= cleaned(elevations(o)));
}

} // verus!
