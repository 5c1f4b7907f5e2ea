//! Per-step distances, climbs, gradients and accumulated ascent/descent of a
//! track, with optional smoothing and gradient capping.
use vstd::prelude::*;
use crate::geometry::{surface_distance, surface_distance_mm, lemma_surface_distance, MAX_SURFACE_MM};
use crate::gpx_parser::{trunc_div, plausible, all_plausible, elevations, valid_track, MAX_POINTS};
use crate::models::{GpxData, GpxPoint, all_valid, valid_point};

verus! {

/// Largest magnitude of one climb between plausible elevations (millimetres).
pub const CLIMB_LIMIT: i64 = 9_499_999;

/// Largest total distance of a track of at most `MAX_POINTS` points.
pub const TOTAL_LIMIT: i64 = 2_500_000_000_000_000;

/// Routes flatter than this (millimetres of ascent per kilometre) are smoothed.
pub const SMOOTHING_LIMIT: i64 = 20_000;

/// Number of samples in the smoothing window.
pub const SMOOTHING_WINDOW: usize = 100;

/// Per step and accumulated elevation data. Distances and elevations are in
/// millimetres, gradients in hundredths of a percent, overall gradients in
/// millimetres per kilometre.
#[derive(Clone, Debug)]
pub struct ElevationData {
    pub enhanced_altitude: Vec<i64>,
    pub cumulative_distance: Vec<i64>,
    pub distance_change: Vec<i64>,
    pub altitude_change: Vec<i64>,
    pub gradient_percent: Vec<i64>,
    pub accumulated_ascent: Vec<i64>,
    pub accumulated_descent: Vec<i64>,
    pub ascent: Vec<i64>,
    pub descent: Vec<i64>,
    pub overall_uphill_gradient: i64,
    pub overall_downhill_gradient: i64,
}

pub open spec fn ints(s: Seq<i64>) -> Seq<int> {
    Seq::new(s.len(), |i: int| s[i] as int)
}

pub open spec fn step_distance(pts: Seq<GpxPoint>, i: int) -> int {
    if i <= 0 {
        0
    } else {
        surface_distance(
            pts[i - 1].lat as int,
            pts[i - 1].lon as int,
            pts[i].lat as int,
            pts[i].lon as int,
        )
    }
}

pub open spec fn cumulative(pts: Seq<GpxPoint>, i: int) -> int
    decreases i,
{
    if i <= 0 {
        0
    } else {
        cumulative(pts, i - 1) + step_distance(pts, i)
    }
}

/// Climb of each step; the first step has none.
pub open spec fn raw_climbs(alts: Seq<int>) -> Seq<int> {
    Seq::new(alts.len(), |i: int| if i == 0 { 0 } else { alts[i] - alts[i - 1] })
}

/// Sum of the positive climbs among indices `0..=i`.
pub open spec fn gain_upto(c: Seq<int>, i: int) -> int
    decreases i + 1,
{
    if i < 0 {
        0
    } else {
        gain_upto(c, i - 1) + if c[i] > 0 {
            c[i]
        } else {
            0
        }
    }
}

/// Sum of the magnitudes of the negative climbs among indices `0..=i`.
pub open spec fn loss_upto(c: Seq<int>, i: int) -> int
    decreases i + 1,
{
    if i < 0 {
        0
    } else {
        loss_upto(c, i - 1) + if c[i] < 0 {
            -c[i]
        } else {
            0
        }
    }
}

/// Gradient in hundredths of a percent; 0 over a zero distance.
pub open spec fn gradient(climb: int, dist: int) -> int {
    if dist == 0 {
        0
    } else {
        trunc_div(climb * 10000, dist)
    }
}

pub open spec fn gradients(c: Seq<int>, d: Seq<int>) -> Seq<int> {
    Seq::new(c.len(), |i: int| gradient(c[i], d[i]))
}

/// Millimetres of climb per kilometre of distance; 0 over a zero distance.
pub open spec fn hilliness(climb: int, dist: int) -> int {
    if dist > 0 {
        climb * 1_000_000 / dist
    } else {
        0
    }
}

pub open spec fn window_sum(c: Seq<int>, lo: int, hi: int) -> int
    decreases hi - lo,
{
    if hi <= lo {
        0
    } else {
        window_sum(c, lo, hi - 1) + c[hi - 1]
    }
}

pub open spec fn window_start(i: int, window: int) -> int {
    if i + 1 >= window {
        i + 1 - window
    } else {
        0
    }
}

/// Mean of the trailing window ending at `i`, shorter near the start.
pub open spec fn rolling(c: Seq<int>, window: int, i: int) -> int {
    let lo = window_start(i, window);
    trunc_div(window_sum(c, lo, i + 1), i + 1 - lo)
}

pub open spec fn rolled(c: Seq<int>, window: int) -> Seq<int> {
    Seq::new(c.len(), |i: int| rolling(c, window, i))
}

pub open spec fn smoothed(c: Seq<int>, h: int) -> Seq<int> {
    if h < SMOOTHING_LIMIT {
        rolled(c, SMOOTHING_WINDOW as int)
    } else {
        c
    }
}

/// Steepest allowed (up, down) gradient in percent for a hilliness, from the
/// first band whose limit exceeds it.
pub open spec fn band(h: int) -> (int, int) {
    if h < 20_000 {
        (15, 12)
    } else if h < 30_000 {
        (20, 15)
    } else if h < 40_000 {
        (25, 20)
    } else if h < 50_000 {
        (32, 27)
    } else if h < 60_000 {
        (35, 31)
    } else {
        (40, 36)
    }
}

pub open spec fn capped_climb(c: int, d: int, up: int, down: int) -> int {
    if d > 0 && c * 100 > up * d {
        up * d / 100
    } else if d > 0 && c * 100 < -(down * d) {
        -(down * d / 100)
    } else {
        c
    }
}

pub open spec fn capped(c: Seq<int>, d: Seq<int>, h: int) -> Seq<int> {
    Seq::new(c.len(), |i: int| capped_climb(c[i], d[i], band(h).0, band(h).1))
}

pub open spec fn last_gain(c: Seq<int>) -> int {
    gain_upto(c, c.len() - 1)
}

pub open spec fn last_loss(c: Seq<int>) -> int {
    loss_upto(c, c.len() - 1)
}

/// Climbs after smoothing and capping, both decided by the hilliness of the
/// raw climbs.
pub open spec fn processed_climbs(alts: Seq<int>, dists: Seq<int>, total: int) -> Seq<int> {
    let raw = raw_climbs(alts);
    let h = hilliness(last_gain(raw), total);
    capped(smoothed(raw, h), dists, h)
}

pub open spec fn ups(c: Seq<int>) -> Seq<int> {
    Seq::new(c.len(), |i: int| if c[i] > 0 { c[i] } else { 0 })
}

pub open spec fn downs(c: Seq<int>) -> Seq<int> {
    Seq::new(c.len(), |i: int| if c[i] < 0 { c[i] } else { 0 })
}

pub open spec fn bounded(c: Seq<int>) -> bool {
    forall|i: int| 0 <= i < c.len() ==> -CLIMB_LIMIT <= #[trigger] c[i] <= CLIMB_LIMIT
}

pub open spec fn total_of(cum: Seq<int>) -> int {
    if cum.len() > 0 {
        cum.last()
    } else {
        0
    }
}

/// Climbs between plausible elevations are bounded.
pub proof fn lemma_raw_bounded(alts: Seq<int>)
    requires
        all_plausible(alts),
    ensures
        bounded(raw_climbs(alts)),
{
    assert forall|i: int| 0 <= i < alts.len() implies -CLIMB_LIMIT <= #[trigger] raw_climbs(alts)[i]
        <= CLIMB_LIMIT by {
        if i > 0 {
            assert(plausible(alts[i]) && plausible(alts[i - 1]));
        }
    }
}

/// Accumulated ascent and descent are non-negative and grow by at most one
/// climb bound per step.
pub proof fn lemma_gain_bounds(c: Seq<int>, i: int)
    requires
        bounded(c),
        -1 <= i < c.len(),
    ensures
        0 <= gain_upto(c, i) <= (i + 1) * CLIMB_LIMIT,
        0 <= loss_upto(c, i) <= (i + 1) * CLIMB_LIMIT,
    decreases i + 1,
{
    if i >= 0 {
        lemma_gain_bounds(c, i - 1);
    }
}

fn climbs_of(alts: &Vec<i64>) -> (r: Vec<i64>)
    requires
        all_plausible(ints(alts@)),
    ensures
        ints(r@) == raw_climbs(ints(alts@)),
        r@.len() == alts@.len(),
        bounded(ints(r@)),
{
    let mut r: Vec<i64> = Vec::new();
    let mut i: usize = 0;
    while i < alts.len()
        invariant
            all_plausible(ints(alts@)),
            0 <= i <= alts.len(),
            r@.len() == i,
            forall|j: int| 0 <= j < i ==> r@[j] == raw_climbs(ints(alts@))[j],
        decreases alts.len() - i,
    {
        if i == 0 {
            r.push(0);
        } else {
            assert(plausible(ints(alts@)[i as int]) && plausible(ints(alts@)[i - 1]));
            r.push(alts[i] - alts[i - 1]);
        }
        i += 1;
    }
    assert(ints(r@) =~= raw_climbs(ints(alts@)));
    r
}

/// Running sums of positive and of negative climbs.
fn gains_of(c: &Vec<i64>) -> (r: (Vec<i64>, Vec<i64>))
    requires
        bounded(ints(c@)),
        c@.len() <= MAX_POINTS,
    ensures
        r.0@.len() == c@.len(),
        r.1@.len() == c@.len(),
        forall|i: int| 0 <= i < c@.len() ==> #[trigger] r.0@[i] == gain_upto(ints(c@), i),
        forall|i: int| 0 <= i < c@.len() ==> #[trigger] r.1@[i] == loss_upto(ints(c@), i),
{
    let ghost ci = ints(c@);
    let mut gains: Vec<i64> = Vec::new();
    let mut losses: Vec<i64> = Vec::new();
    let mut g: i64 = 0;
    let mut l: i64 = 0;
    let mut i: usize = 0;
    while i < c.len()
        invariant
            ci == ints(c@),
            bounded(ci),
            c@.len() <= MAX_POINTS,
            0 <= i <= c.len(),
            gains@.len() == i,
            losses@.len() == i,
            g == gain_upto(ci, i - 1),
            l == loss_upto(ci, i - 1),
            forall|j: int| 0 <= j < i ==> #[trigger] gains@[j] == gain_upto(ci, j),
            forall|j: int| 0 <= j < i ==> #[trigger] losses@[j] == loss_upto(ci, j),
        decreases c.len() - i,
    {
        proof {
            lemma_gain_bounds(ci, i as int);
        }
        assert(ci[i as int] == c@[i as int]);
        if c[i] > 0 {
            g = g + c[i];
        } else if c[i] < 0 {
            l = l - c[i];
        }
        gains.push(g);
        losses.push(l);
        i += 1;
    }
    (gains, losses)
}

fn gradients_of(c: &Vec<i64>, d: &Vec<i64>) -> (r: Vec<i64>)
    requires
        bounded(ints(c@)),
        d@.len() == c@.len(),
        forall|i: int| 0 <= i < d@.len() ==> 0 <= #[trigger] d@[i] <= MAX_SURFACE_MM,
    ensures
        ints(r@) == gradients(ints(c@), ints(d@)),
{
    let mut r: Vec<i64> = Vec::new();
    let mut i: usize = 0;
    while i < c.len()
        invariant
            bounded(ints(c@)),
            d@.len() == c@.len(),
            forall|j: int| 0 <= j < d@.len() ==> 0 <= #[trigger] d@[j] <= MAX_SURFACE_MM,
            0 <= i <= c.len(),
            r@.len() == i,
            forall|j: int| 0 <= j < i ==> r@[j] == gradients(ints(c@), ints(d@))[j],
        decreases c.len() - i,
    {
        assert(ints(c@)[i as int] == c@[i as int]);
        let x = c[i];
        let dist = d[i];
        let g: i64 = if dist == 0 {
            0
        } else if x >= 0 {
            x * 10000 / dist
        } else {
            -((-x) * 10000 / dist)
        };
        r.push(g);
        i += 1;
    }
    assert(ints(r@) =~= gradients(ints(c@), ints(d@)));
    r
}

fn hilliness_of(climb: i64, dist: i64) -> (r: i64)
    requires
        0 <= climb <= MAX_POINTS * CLIMB_LIMIT,
        0 <= dist,
    ensures
        r == hilliness(climb as int, dist as int),
        0 <= r <= 1_000_000 * MAX_POINTS * CLIMB_LIMIT,
{
    if dist > 0 {
        assert((climb as int * 1_000_000) / (dist as int) <= climb as int * 1_000_000) by (nonlinear_arith)
            requires
                climb >= 0,
                dist > 0,
        ;
        climb * 1_000_000 / dist
    } else {
        0
    }
}

proof fn lemma_window_range(c: Seq<int>, lo: int, hi: int, a: int, b: int)
    requires
        0 <= lo <= hi <= c.len(),
        forall|i: int| lo <= i < hi ==> a <= #[trigger] c[i] <= b,
    ensures
        (hi - lo) * a <= window_sum(c, lo, hi) <= (hi - lo) * b,
    decreases hi - lo,
{
    if hi > lo {
        lemma_window_range(c, lo, hi - 1, a, b);
        assert(a <= c[hi - 1] <= b);
        assert((hi - lo) * a == (hi - 1 - lo) * a + a) by (nonlinear_arith);
        assert((hi - lo) * b == (hi - 1 - lo) * b + b) by (nonlinear_arith);
    } else {
        assert((hi - lo) * a == 0 && (hi - lo) * b == 0) by (nonlinear_arith)
            requires
                hi == lo,
        ;
    }
}

proof fn lemma_mean_range(s: int, k: int, a: int, b: int)
    requires
        k > 0,
        a <= 0 <= b,
        k * a <= s <= k * b,
    ensures
        a <= trunc_div(s, k) <= b,
{
    if s >= 0 {
        assert(0 <= s / k <= b) by (nonlinear_arith)
            requires
                0 <= s <= k * b,
                k > 0,
        ;
    } else {
        assert(k * (-a) == -(k * a)) by (nonlinear_arith);
        assert(0 <= (-s) / k <= -a) by (nonlinear_arith)
            requires
                0 <= -s <= k * (-a),
                k > 0,
        ;
    }
}

/// Trailing moving average over `window` samples; near the start the window
/// holds the samples seen so far.
pub fn rolling_mean(data: &Vec<i64>, window: usize) -> (r: Vec<i64>)
    requires
        window >= 1,
    ensures
        ints(r@) == rolled(ints(data@), window as int),
        r@.len() == data@.len(),
        bounded(ints(data@)) ==> bounded(ints(r@)),
{
    let ghost ci = ints(data@);
    let ghost lo64: int = -0x8000_0000_0000_0000;
    let ghost hi64: int = 0x7fff_ffff_ffff_ffff;
    let mut r: Vec<i64> = Vec::new();
    let mut i: usize = 0;
    while i < data.len()
        invariant
            ci == ints(data@),
            lo64 == -0x8000_0000_0000_0000,
            hi64 == 0x7fff_ffff_ffff_ffff,
            window >= 1,
            0 <= i <= data.len(),
            r@.len() == i,
            forall|j: int| 0 <= j < i ==> r@[j] == rolled(ci, window as int)[j],
            bounded(ci) ==> forall|j: int| 0 <= j < i ==> -CLIMB_LIMIT <= #[trigger] r@[j] <= CLIMB_LIMIT,
        decreases data.len() - i,
    {
        let start: usize = if i + 1 >= window {
            i + 1 - window
        } else {
            0
        };
        let mut sum: i128 = 0;
        let mut j: usize = start;
        while j <= i
            invariant
                ci == ints(data@),
                lo64 == -0x8000_0000_0000_0000,
                hi64 == 0x7fff_ffff_ffff_ffff,
                start <= j <= i + 1,
                i < data.len(),
                start == window_start(i as int, window as int),
                sum == window_sum(ci, start as int, j as int),
                (j - start) * lo64 <= sum <= (j - start) * hi64,
            decreases i + 1 - j,
        {
            assert(ci[j as int] == data@[j as int]);
            assert((j + 1 - start) * lo64 >= 0x1_0000_0000_0000_0000 * lo64 && (j + 1 - start) * hi64
                <= 0x1_0000_0000_0000_0000 * hi64) by (nonlinear_arith)
                requires
                    0 < j + 1 - start <= 0x1_0000_0000_0000_0000,
                    lo64 < 0 < hi64,
            ;
            assert((j + 1 - start) * lo64 == (j - start) * lo64 + lo64) by (nonlinear_arith);
            assert((j + 1 - start) * hi64 == (j - start) * hi64 + hi64) by (nonlinear_arith);
            sum = sum + data[j] as i128;
            j += 1;
        }
        let count = (i + 1 - start) as i128;
        proof {
            lemma_mean_range(sum as int, count as int, lo64, hi64);
            if bounded(ci) {
                lemma_window_range(ci, start as int, i + 1, -CLIMB_LIMIT as int, CLIMB_LIMIT as int);
                lemma_mean_range(sum as int, count as int, -CLIMB_LIMIT as int, CLIMB_LIMIT as int);
            }
        }
        let mean: i128 = if sum >= 0 {
            sum / count
        } else {
            -((-sum) / count)
        };
        r.push(mean as i64);
        i += 1;
    }
    assert(ints(r@) =~= rolled(ci, window as int));
    r
}

/// The capping bands, in the order they are tried: hilliness limit
/// (millimetres per kilometre), steepest climb and steepest descent (percent).
/// The last limit stands for no limit.
fn capping_bands() -> (r: Vec<(i64, i64, i64)>)
    ensures
        r@ == seq![
            (20_000i64, 15i64, 12i64),
            (30_000i64, 20i64, 15i64),
            (40_000i64, 25i64, 20i64),
            (50_000i64, 32i64, 27i64),
            (60_000i64, 35i64, 31i64),
            (i64::MAX, 40i64, 36i64),
        ],
{
    let r = vec![
        (20_000i64, 15i64, 12i64),
        (30_000i64, 20i64, 15i64),
        (40_000i64, 25i64, 20i64),
        (50_000i64, 32i64, 27i64),
        (60_000i64, 35i64, 31i64),
        (i64::MAX, 40i64, 36i64),
    ];
    assert(r@ =~= seq![
        (20_000i64, 15i64, 12i64),
        (30_000i64, 20i64, 15i64),
        (40_000i64, 25i64, 20i64),
        (50_000i64, 32i64, 27i64),
        (60_000i64, 35i64, 31i64),
        (i64::MAX, 40i64, 36i64),
    ]);
    r
}

/// The first band whose limit exceeds the hilliness.
fn band_for(h: i64) -> (r: (i64, i64))
    requires
        0 <= h < i64::MAX,
    ensures
        r.0 == band(h as int).0,
        r.1 == band(h as int).1,
{
    let bands = capping_bands();
    let mut k: usize = 0;
    while k < bands.len()
        invariant
            0 <= k <= bands@.len(),
            bands@.len() == 6,
            0 <= h < i64::MAX,
            bands@ == seq![
                (20_000i64, 15i64, 12i64),
                (30_000i64, 20i64, 15i64),
                (40_000i64, 25i64, 20i64),
                (50_000i64, 32i64, 27i64),
                (60_000i64, 35i64, 31i64),
                (i64::MAX, 40i64, 36i64),
            ],
            forall|j: int| 0 <= j < k ==> h >= (#[trigger] bands@[j]).0,
        decreases bands.len() - k,
    {
        let (limit, up, down) = bands[k];
        if h < limit {
            if k >= 1 {
                assert(h >= bands@[k - 1].0);
            }
            if k >= 2 {
                assert(h >= bands@[k - 2].0);
            }
            if k >= 3 {
                assert(h >= bands@[k - 3].0);
            }
            if k >= 4 {
                assert(h >= bands@[k - 4].0);
            }
            if k >= 5 {
                assert(h >= bands@[k - 5].0);
            }
            return (up, down);
        }
        k += 1;
    }
    assert(h >= bands@[5].0);
    (40, 36)
}

/// Clamps each climb to the band's steepest gradients at its own distance.
fn cap_climbs(c: &Vec<i64>, d: &Vec<i64>, h: i64) -> (r: Vec<i64>)
    requires
        bounded(ints(c@)),
        d@.len() == c@.len(),
        forall|i: int| 0 <= i < d@.len() ==> 0 <= #[trigger] d@[i] <= MAX_SURFACE_MM,
        0 <= h < i64::MAX,
    ensures
        ints(r@) == capped(ints(c@), ints(d@), h as int),
        r@.len() == c@.len(),
        bounded(ints(r@)),
{
    let (up, down) = band_for(h);
    let mut r: Vec<i64> = Vec::new();
    let mut i: usize = 0;
    while i < c.len()
        invariant
            bounded(ints(c@)),
            d@.len() == c@.len(),
            forall|j: int| 0 <= j < d@.len() ==> 0 <= #[trigger] d@[j] <= MAX_SURFACE_MM,
            up == band(h as int).0,
            down == band(h as int).1,
            0 <= i <= c.len(),
            r@.len() == i,
            forall|j: int| 0 <= j < i ==> r@[j] == capped(ints(c@), ints(d@), h as int)[j],
            forall|j: int| 0 <= j < i ==> -CLIMB_LIMIT <= #[trigger] r@[j] <= CLIMB_LIMIT,
        decreases c.len() - i,
    {
        assert(ints(c@)[i as int] == c@[i as int]);
        let x = c[i];
        let dist = d[i];
        let v: i64 = if dist > 0 && x * 100 > up * dist {
            assert((up * dist) / 100 <= x) by (nonlinear_arith)
                requires
                    up * dist < x * 100,
                    up * dist >= 0,
            ;
            up * dist / 100
        } else if dist > 0 && x * 100 < -(down * dist) {
            assert((down * dist) / 100 <= -x) by (nonlinear_arith)
                requires
                    down * dist < -x * 100,
                    down * dist >= 0,
            ;
            -(down * dist / 100)
        } else {
            x
        };
        r.push(v);
        i += 1;
    }
    assert(ints(r@) =~= capped(ints(c@), ints(d@), h as int));
    assert(bounded(ints(r@)));
    r
}

/// Splits climbs into an ascent channel and a descent channel.
fn channels_of(c: &Vec<i64>) -> (r: (Vec<i64>, Vec<i64>))
    ensures
        ints(r.0@) == ups(ints(c@)),
        ints(r.1@) == downs(ints(c@)),
{
    let mut up: Vec<i64> = Vec::new();
    let mut down: Vec<i64> = Vec::new();
    let mut i: usize = 0;
    while i < c.len()
        invariant
            0 <= i <= c.len(),
            up@.len() == i,
            down@.len() == i,
            forall|j: int| 0 <= j < i ==> up@[j] == ups(ints(c@))[j],
            forall|j: int| 0 <= j < i ==> down@[j] == downs(ints(c@))[j],
        decreases c.len() - i,
    {
        let x = c[i];
        if x > 0 {
            up.push(x);
            down.push(0);
        } else if x < 0 {
            up.push(0);
            down.push(x);
        } else {
            up.push(0);
            down.push(0);
        }
        i += 1;
    }
    assert(ints(up@) =~= ups(ints(c@)));
    assert(ints(down@) =~= downs(ints(c@)));
    (up, down)
}

impl ElevationData {
    /// The inputs of processing are present and within bounds.
    pub open spec fn ready(self) -> bool {
        let n = self.enhanced_altitude@.len();
        &&& n <= MAX_POINTS
        &&& self.distance_change@.len() == n
        &&& self.cumulative_distance@.len() == n
        &&& all_plausible(ints(self.enhanced_altitude@))
        &&& forall|i: int| 0 <= i < n ==> 0 <= #[trigger] self.distance_change@[i] <= MAX_SURFACE_MM
        &&& 0 <= total_of(ints(self.cumulative_distance@)) <= TOTAL_LIMIT
    }

    pub open spec fn total(self) -> int {
        total_of(ints(self.cumulative_distance@))
    }

    /// Every derived field follows from the climbs `c`.
    pub open spec fn derived_from(self, c: Seq<int>) -> bool {
        &&& ints(self.altitude_change@) == c
        &&& ints(self.gradient_percent@) == gradients(c, ints(self.distance_change@))
        &&& ints(self.ascent@) == ups(c)
        &&& ints(self.descent@) == downs(c)
        &&& self.accumulated_ascent@.len() == c.len()
        &&& self.accumulated_descent@.len() == c.len()
        &&& forall|i: int|
            0 <= i < c.len() ==> #[trigger] self.accumulated_ascent@[i] == gain_upto(c, i)
        &&& forall|i: int|
            0 <= i < c.len() ==> #[trigger] self.accumulated_descent@[i] == loss_upto(c, i)
        &&& self.overall_uphill_gradient == hilliness(last_gain(c), self.total())
        &&& self.overall_downhill_gradient == hilliness(last_loss(c), self.total())
    }

    pub open spec fn same_inputs(self, other: ElevationData) -> bool {
        &&& self.enhanced_altitude@ == other.enhanced_altitude@
        &&& self.cumulative_distance@ == other.cumulative_distance@
        &&& self.distance_change@ == other.distance_change@
    }

    fn fill_derived(&mut self, c: Vec<i64>)
        requires
            old(self).ready(),
            bounded(ints(c@)),
            c@.len() == old(self).enhanced_altitude@.len(),
        ensures
            final(self).same_inputs(*old(self)),
            final(self).derived_from(ints(c@)),
    {
        let ghost ci = ints(c@);
        let total: i64 = if self.cumulative_distance.len() > 0 {
            self.cumulative_distance[self.cumulative_distance.len() - 1]
        } else {
            0
        };
        let n = c.len();
        let gradient_percent = gradients_of(&c, &self.distance_change);
        let (ascent, descent) = channels_of(&c);
        let (gains, losses) = gains_of(&c);
        proof {
            lemma_gain_bounds(ci, n - 1);
        }
        let last_gain_v: i64 = if n > 0 {
            gains[n - 1]
        } else {
            0
        };
        let last_loss_v: i64 = if n > 0 {
            losses[n - 1]
        } else {
            0
        };
        assert((n as int) * CLIMB_LIMIT <= MAX_POINTS * CLIMB_LIMIT) by (nonlinear_arith)
            requires
                n <= MAX_POINTS,
        ;
        self.overall_uphill_gradient = hilliness_of(last_gain_v, total);
        self.overall_downhill_gradient = hilliness_of(last_loss_v, total);
        self.gradient_percent = gradient_percent;
        self.ascent = ascent;
        self.descent = descent;
        self.accumulated_ascent = gains;
        self.accumulated_descent = losses;
        self.altitude_change = c;
    }

    /// Smoothing path: raw climbs, smoothed when the route is flat, capped by
    /// the band of its hilliness, then split and accumulated.
    pub fn process_elevation_data(&mut self)
        requires
            old(self).ready(),
        ensures
            final(self).same_inputs(*old(self)),
            final(self).derived_from(
                processed_climbs(
                    ints(old(self).enhanced_altitude@),
                    ints(old(self).distance_change@),
                    old(self).total(),
                ),
            ),
    {
        let ghost alts = ints(self.enhanced_altitude@);
        let raw = climbs_of(&self.enhanced_altitude);
        let n = raw.len();
        let (gains, _losses) = gains_of(&raw);
        proof {
            lemma_gain_bounds(ints(raw@), n - 1);
        }
        let total: i64 = if self.cumulative_distance.len() > 0 {
            self.cumulative_distance[self.cumulative_distance.len() - 1]
        } else {
            0
        };
        let last_gain_v: i64 = if n > 0 {
            gains[n - 1]
        } else {
            0
        };
        assert((n as int) * CLIMB_LIMIT <= MAX_POINTS * CLIMB_LIMIT) by (nonlinear_arith)
            requires
                n <= MAX_POINTS,
        ;
        let h = hilliness_of(last_gain_v, total);
        assert(h == hilliness(last_gain(raw_climbs(alts)), self.total()));
        let smooth = if h < SMOOTHING_LIMIT {
            rolling_mean(&raw, SMOOTHING_WINDOW)
        } else {
            raw
        };
        let c = cap_climbs(&smooth, &self.distance_change, h);
        self.fill_derived(c);
    }

    /// Raw path: climbs, gradients and accumulated values without smoothing
    /// or capping.
    pub fn process_raw_elevation_data(&mut self)
        requires
            old(self).ready(),
        ensures
            final(self).same_inputs(*old(self)),
            final(self).derived_from(raw_climbs(ints(old(self).enhanced_altitude@))),
    {
        let raw = climbs_of(&self.enhanced_altitude);
        self.fill_derived(raw);
    }
}

pub open spec fn step_distances(pts: Seq<GpxPoint>) -> Seq<int> {
    Seq::new(pts.len(), |i: int| step_distance(pts, i))
}

pub open spec fn total_distance(pts: Seq<GpxPoint>) -> int {
    if pts.len() > 0 {
        cumulative(pts, pts.len() - 1)
    } else {
        0
    }
}

pub proof fn lemma_cumulative_bound(pts: Seq<GpxPoint>, i: int)
    requires
        all_valid(pts),
        0 <= i < pts.len(),
    ensures
        0 <= step_distance(pts, i) <= MAX_SURFACE_MM,
        0 <= cumulative(pts, i) <= i * MAX_SURFACE_MM,
    decreases i,
{
    if i > 0 {
        lemma_cumulative_bound(pts, i - 1);
        assert(valid_point(pts[i - 1]) && valid_point(pts[i]));
        lemma_surface_distance(
            pts[i - 1].lat as int,
            pts[i - 1].lon as int,
            pts[i].lat as int,
            pts[i].lon as int,
        );
    }
}

impl ElevationData {
    /// Elevation data of a track: cumulative and per-step distances, then the
    /// smoothing or the raw path.
    pub fn from_gpx_data(gpx_data: &GpxData, smooth: bool) -> (r: Self)
        requires
            valid_track(gpx_data.points@),
        ensures
            ({
                let pts = gpx_data.points@;
                &&& ints(r.enhanced_altitude@) == elevations(pts)
                &&& ints(r.distance_change@) == step_distances(pts)
                &&& r.cumulative_distance@.len() == pts.len()
                &&& forall|i: int|
                    0 <= i < pts.len() ==> #[trigger] r.cumulative_distance@[i] == cumulative(pts, i)
                &&& r.total() == total_distance(pts)
                &&& 0 <= r.total() <= TOTAL_LIMIT
                &&& smooth ==> r.derived_from(
                    processed_climbs(elevations(pts), step_distances(pts), total_distance(pts)),
                )
                &&& !smooth ==> r.derived_from(raw_climbs(elevations(pts)))
            }),
    {
        let points = &gpx_data.points;
        let ghost pts = points@;
        let n = points.len();
        let mut enhanced_altitude: Vec<i64> = Vec::new();
        let mut cumulative_distance: Vec<i64> = Vec::new();
        let mut distance_change: Vec<i64> = Vec::new();
        let mut current: i64 = 0;
        let mut i: usize = 0;
        while i < n
            invariant
                n == pts.len(),
                pts == points@,
                valid_track(pts),
                0 <= i <= n,
                enhanced_altitude@.len() == i,
                cumulative_distance@.len() == i,
                distance_change@.len() == i,
                i > 0 ==> current == cumulative(pts, i - 1),
                i == 0 ==> current == 0,
                forall|j: int| 0 <= j < i ==> #[trigger] enhanced_altitude@[j] == pts[j].ele,
                forall|j: int| 0 <= j < i ==> #[trigger] cumulative_distance@[j] == cumulative(pts, j),
                forall|j: int| 0 <= j < i ==> #[trigger] distance_change@[j] == step_distance(pts, j),
            decreases n - i,
        {
            proof {
                lemma_cumulative_bound(pts, i as int);
            }
            assert((i as int) * MAX_SURFACE_MM <= MAX_POINTS * MAX_SURFACE_MM) by (nonlinear_arith)
                requires
                    i < MAX_POINTS,
            ;
            enhanced_altitude.push(points[i].ele);
            if i == 0 {
                cumulative_distance.push(0);
                distance_change.push(0);
            } else {
                assert(valid_point(pts[i - 1]) && valid_point(pts[i as int]));
                let d = surface_distance_mm(
                    points[i - 1].lat,
                    points[i - 1].lon,
                    points[i].lat,
                    points[i].lon,
                );
                current = current + d;
                cumulative_distance.push(current);
                distance_change.push(d);
            }
            i += 1;
        }
        let mut data = ElevationData {
            enhanced_altitude,
            cumulative_distance,
            distance_change,
            altitude_change: Vec::new(),
            gradient_percent: Vec::new(),
            accumulated_ascent: Vec::new(),
            accumulated_descent: Vec::new(),
            ascent: Vec::new(),
            descent: Vec::new(),
            overall_uphill_gradient: 0,
            overall_downhill_gradient: 0,
        };
        assert(ints(data.enhanced_altitude@) =~= elevations(pts));
        assert(ints(data.distance_change@) =~= step_distances(pts));
        if n > 0 {
            proof {
                lemma_cumulative_bound(pts, n - 1);
            }
            assert(((n - 1) as int) * MAX_SURFACE_MM <= TOTAL_LIMIT) by (nonlinear_arith)
                requires
                    n <= MAX_POINTS,
            ;
            assert(data.total() == cumulative(pts, n - 1));
        }
        assert forall|j: int| 0 <= j < n implies 0 <= #[trigger] data.distance_change@[j]
            <= MAX_SURFACE_MM by {
            lemma_cumulative_bound(pts, j);
        }
        if smooth {
            data.process_elevation_data();
        } else {
            data.process_raw_elevation_data();
        }
        data
    }
}

} // verus!
