//! Building the spatial index from a corpus of tracks, and greedy discovery
//! of connected segment chains.
use vstd::prelude::*;
use vstd::string::StringExecFns;
use crate::geometry::{surface_distance, surface_distance_mm, MAX_SURFACE_MM};
use crate::gpx_parser::{plausible, elevations, valid_track, MAX_POINTS};
use crate::models::{GpxData, GpxPoint, valid_point};
use crate::rtree::{Coord, SpatialIndex, SpatialSegment, valid_segment, all_segments_valid};

verus! {

pub open spec fn digit_char(d: int) -> char {
    if d == 0 {
        '0'
    } else if d == 1 {
        '1'
    } else if d == 2 {
        '2'
    } else if d == 3 {
        '3'
    } else if d == 4 {
        '4'
    } else if d == 5 {
        '5'
    } else if d == 6 {
        '6'
    } else if d == 7 {
        '7'
    } else if d == 8 {
        '8'
    } else {
        '9'
    }
}

/// Decimal digits of a natural number, most significant first.
pub open spec fn decimal(n: nat) -> Seq<char>
    decreases n,
{
    if n < 10 {
        seq![digit_char(n as int)]
    } else {
        decimal(n / 10).push(digit_char((n % 10) as int))
    }
}

pub(crate) fn digit_text(d: usize) -> (r: &'static str)
    requires
        d < 10,
    ensures
        r@ == seq![digit_char(d as int)],
{
    proof {
        reveal_strlit("0");
        reveal_strlit("1");
        reveal_strlit("2");
        reveal_strlit("3");
        reveal_strlit("4");
        reveal_strlit("5");
        reveal_strlit("6");
        reveal_strlit("7");
        reveal_strlit("8");
        reveal_strlit("9");
    }
    if d == 0 {
        assert("0"@ =~= seq!['0']);
        "0"
    } else if d == 1 {
        assert("1"@ =~= seq!['1']);
        "1"
    } else if d == 2 {
        assert("2"@ =~= seq!['2']);
        "2"
    } else if d == 3 {
        assert("3"@ =~= seq!['3']);
        "3"
    } else if d == 4 {
        assert("4"@ =~= seq!['4']);
        "4"
    } else if d == 5 {
        assert("5"@ =~= seq!['5']);
        "5"
    } else if d == 6 {
        assert("6"@ =~= seq!['6']);
        "6"
    } else if d == 7 {
        assert("7"@ =~= seq!['7']);
        "7"
    } else if d == 8 {
        assert("8"@ =~= seq!['8']);
        "8"
    } else {
        assert("9"@ =~= seq!['9']);
        "9"
    }
}

/// The decimal digits of `n`.
pub fn decimal_string(n: u64) -> (r: String)
    ensures
        r@ == decimal(n as nat),
    decreases n,
{
    if n < 10 {
        let mut r = String::new();
        r.append(digit_text(n as usize));
        assert(r@ =~= decimal(n as nat));
        r
    } else {
        let mut r = decimal_string(n / 10);
        r.append(digit_text((n % 10) as usize));
        r
    }
}

/// `prefix`, a hyphen, then `number` in decimal.
pub fn numbered_id(prefix: &String, number: usize) -> (r: String)
    ensures
        r@ == prefix@ + seq!['-'] + decimal(number as nat),
{
    let mut r = prefix.clone();
    proof {
        reveal_strlit("-");
    }
    r.append("-");
    let digits = decimal_string(number as u64);
    r.append(digits.as_str());
    assert("-"@ =~= seq!['-']);
    r
}

/// Number of segments one track contributes.
pub open spec fn seg_count(pts: Seq<GpxPoint>) -> int {
    if pts.len() > 0 {
        pts.len() - 1
    } else {
        0
    }
}

/// Position of the first segment of route `r` in the index.
pub open spec fn offset(routes: Seq<(String, GpxData)>, r: int) -> int
    decreases r,
{
    if r <= 0 {
        0
    } else {
        offset(routes, r - 1) + seg_count(routes[r - 1].1.points@)
    }
}

/// `s` is the segment from `a` to `b`.
pub open spec fn segment_matches(s: SpatialSegment, a: GpxPoint, b: GpxPoint) -> bool {
    &&& s.start == Coord { lon: a.lon, lat: a.lat }
    &&& s.end == Coord { lon: b.lon, lat: b.lat }
    &&& s.distance_mm == surface_distance(a.lat as int, a.lon as int, b.lat as int, b.lon as int)
    &&& s.elevation_gain_mm == if b.ele > a.ele { b.ele - a.ele } else { 0 }
    &&& s.elevation_loss_mm == if a.ele > b.ele { a.ele - b.ele } else { 0 }
}

pub open spec fn routes_ok(routes: Seq<(String, GpxData)>) -> bool {
    forall|r: int| 0 <= r < routes.len() ==> valid_track((#[trigger] routes[r]).1.points@)
}

proof fn lemma_offset(routes: Seq<(String, GpxData)>, r: int)
    requires
        routes_ok(routes),
        0 <= r <= routes.len(),
    ensures
        0 <= offset(routes, r) <= r * MAX_POINTS,
    decreases r,
{
    if r > 0 {
        lemma_offset(routes, r - 1);
        assert(valid_track(routes[r - 1].1.points@));
    }
}

/// Indexes one segment per pair of consecutive points of every track,
/// identified as "<track id>-<position of its end point>".
pub fn build_segment_index(routes: Vec<(String, GpxData)>) -> (r: SpatialIndex)
    requires
        routes_ok(routes@),
        routes@.len() * MAX_POINTS <= usize::MAX / 4,
    ensures
        r.wf(),
        r.segment_seq().len() == offset(routes@, routes@.len() as int),
        forall|k: int, i: int|
            0 <= k < routes@.len() && 1 <= i < routes@[k].1.points@.len() ==> segment_matches(
                #[trigger] r.segment_seq()[offset(routes@, k) + i - 1],
                routes@[k].1.points@[i - 1],
                #[trigger] routes@[k].1.points@[i],
            ) && r.segment_seq()[offset(routes@, k) + i - 1].id@ == routes@[k].0@ + seq!['-']
                + decimal(i as nat),
{
    let ghost rs = routes@;
    let mut segments: Vec<SpatialSegment> = Vec::new();
    let mut k: usize = 0;
    while k < routes.len()
        invariant
            rs == routes@,
            routes_ok(rs),
            rs.len() * MAX_POINTS <= usize::MAX / 4,
            0 <= k <= rs.len(),
            segments@.len() == offset(rs, k as int),
            all_segments_valid(segments@),
            forall|q: int, i: int|
                0 <= q < k && 1 <= i < rs[q].1.points@.len() ==> segment_matches(
                    #[trigger] segments@[offset(rs, q) + i - 1],
                    rs[q].1.points@[i - 1],
                    #[trigger] rs[q].1.points@[i],
                ) && segments@[offset(rs, q) + i - 1].id@ == rs[q].0@ + seq!['-'] + decimal(
                    i as nat,
                ),
        decreases rs.len() - k,
    {
        let route_id = &routes[k].0;
        let points = &routes[k].1.points;
        assert(route_id@ == rs[k as int].0@);
        let ghost pts = points@;
        assert(valid_track(pts));
        proof {
            lemma_offset(rs, k as int);
        }
        assert((k as int) * MAX_POINTS + MAX_POINTS <= rs.len() * MAX_POINTS) by (nonlinear_arith)
            requires
                k < rs.len(),
        ;
        let base = segments.len();
        let mut i: usize = 1;
        while i < points.len()
            invariant
                rs == routes@,
                routes_ok(rs),
                pts == points@,
                pts == rs[k as int].1.points@,
                route_id@ == rs[k as int].0@,
                valid_track(pts),
                0 <= k < rs.len(),
                base == offset(rs, k as int),
                base + MAX_POINTS <= usize::MAX / 4,
                1 <= i,
                i <= pts.len() || pts.len() == 0,
                pts.len() == 0 ==> i == 1,
                segments@.len() == base + i - 1,
                all_segments_valid(segments@),
                forall|q: int, j: int|
                    0 <= q < k && 1 <= j < rs[q].1.points@.len() ==> segment_matches(
                        #[trigger] segments@[offset(rs, q) + j - 1],
                        rs[q].1.points@[j - 1],
                        #[trigger] rs[q].1.points@[j],
                    ) && segments@[offset(rs, q) + j - 1].id@ == rs[q].0@ + seq!['-'] + decimal(
                        j as nat,
                    ),
                forall|j: int|
                    1 <= j < i ==> segment_matches(
                        #[trigger] segments@[base + j - 1],
                        pts[j - 1],
                        pts[j],
                    ) && segments@[base + j - 1].id@ == rs[k as int].0@ + seq!['-'] + decimal(
                        j as nat,
                    ),
            decreases pts.len() - i,
        {
            let a = points[i - 1];
            let b = points[i];
            assert(valid_point(pts[i - 1]) && valid_point(pts[i as int]));
            assert(plausible(elevations(pts)[i - 1]) && plausible(elevations(pts)[i as int]));
            let d = surface_distance_mm(a.lat, a.lon, b.lat, b.lon);
            let id = numbered_id(route_id, i);
            let seg = SpatialSegment {
                id,
                start: Coord { lon: a.lon, lat: a.lat },
                end: Coord { lon: b.lon, lat: b.lat },
                distance_mm: d,
                elevation_gain_mm: if b.ele > a.ele {
                    b.ele - a.ele
                } else {
                    0
                },
                elevation_loss_mm: if a.ele > b.ele {
                    a.ele - b.ele
                } else {
                    0
                },
            };
            let ghost old_segments = segments@;
            segments.push(seg);
            assert forall|j: int| 1 <= j < i implies #[trigger] segments@[base + j - 1]
                == old_segments[base + j - 1] by {}
            assert(segments@[base + i - 1] == seg);
            assert(seg.start == Coord { lon: a.lon, lat: a.lat });
            assert(seg.distance_mm == surface_distance(a.lat as int, a.lon as int, b.lat as int, b.lon as int));
            assert(seg.id@ == rs[k as int].0@ + seq!['-'] + decimal(i as nat));
            assert(segment_matches(seg, pts[i - 1], pts[i as int]));
            assert forall|q: int, j: int|
                0 <= q < k && 1 <= j < rs[q].1.points@.len() implies segment_matches(
                #[trigger] segments@[offset(rs, q) + j - 1],
                rs[q].1.points@[j - 1],
                #[trigger] rs[q].1.points@[j],
            ) && segments@[offset(rs, q) + j - 1].id@ == rs[q].0@ + seq!['-'] + decimal(
                j as nat,
            ) by {
                lemma_offset_mono(rs, q, k as int);
                lemma_offset(rs, q);
                let x = offset(rs, q) + j - 1;
                assert(0 <= x < old_segments.len());
                assert(segments@[x] == old_segments[x]);
                assert(segment_matches(old_segments[x], rs[q].1.points@[j - 1], rs[q].1.points@[j]));
                assert(old_segments[x].id@ == rs[q].0@ + seq!['-'] + decimal(j as nat));
            }
            i += 1;
        }
        proof {
            assert(offset(rs, k + 1) == base + seg_count(pts));
            if pts.len() == 0 {
                assert(i == 1);
            } else {
                assert(i == pts.len());
            }
        }
        let ghost old_k = k as int;
        k += 1;
        assert forall|q: int, j: int|
            0 <= q < k && 1 <= j < rs[q].1.points@.len() implies segment_matches(
            #[trigger] segments@[offset(rs, q) + j - 1],
            rs[q].1.points@[j - 1],
            #[trigger] rs[q].1.points@[j],
        ) && segments@[offset(rs, q) + j - 1].id@ == rs[q].0@ + seq!['-'] + decimal(j as nat) by {
            if q == old_k {
                assert(segment_matches(segments@[base + j - 1], pts[j - 1], pts[j]));
                assert(segments@[base + j - 1].id@ == rs[q].0@ + seq!['-'] + decimal(j as nat));
            } else {
                assert(q < old_k);
                assert(segment_matches(
                    segments@[offset(rs, q) + j - 1],
                    rs[q].1.points@[j - 1],
                    rs[q].1.points@[j],
                ));
                assert(segments@[offset(rs, q) + j - 1].id@ == rs[q].0@ + seq!['-'] + decimal(j as nat));
            }
        }
    }
    proof {
        lemma_offset(rs, rs.len() as int);
        assert(rs.len() * MAX_POINTS <= usize::MAX / 4);
    }
    SpatialIndex::from_segments(segments)
}

proof fn lemma_offset_mono(routes: Seq<(String, GpxData)>, q: int, k: int)
    requires
        0 <= q < k <= routes.len(),
    ensures
        offset(routes, q) + seg_count(routes[q].1.points@) <= offset(routes, k),
    decreases k - q,
{
    if q + 1 < k {
        lemma_offset_mono(routes, q, k - 1);
        assert(seg_count(routes[k - 1].1.points@) >= 0);
    }
}

/// Tuning of chain discovery: how many segments seed chains, how many
/// neighbours each extension step considers, and how close (millimetres) a
/// segment must start to the chain's end to continue it.
#[derive(Clone, Copy, Debug)]
pub struct ChainSearch {
    pub seed_count: usize,
    pub fan_out: usize,
    pub join_tolerance_mm: i64,
}

impl ChainSearch {
    pub open spec fn spec_standard() -> ChainSearch {
        ChainSearch { seed_count: 10, fan_out: 5, join_tolerance_mm: 100_000 }
    }

    /// Ten seeds, five neighbours per step, 100 m tolerance.
    pub fn standard() -> (r: ChainSearch)
        ensures
            r == Self::spec_standard(),
    {
        ChainSearch { seed_count: 10, fan_out: 5, join_tolerance_mm: 100_000 }
    }
}


pub open spec fn chain_views(chains: Seq<Vec<usize>>) -> Seq<Seq<usize>> {
    Seq::new(chains.len(), |a: int| chains[a]@)
}

/// No segment appears twice, within a chain or across chains.
pub open spec fn chains_disjoint(chains: Seq<Seq<usize>>) -> bool {
    forall|a: int, p: int, b: int, q: int|
        0 <= a < chains.len() && 0 <= b < chains.len() && 0 <= p < chains[a].len() && 0 <= q
            < chains[b].len() && (a != b || p != q) ==> #[trigger] chains[a][p]
            != #[trigger] chains[b][q]
}

/// Distance of the first `m` segments of a chain.
pub open spec fn prefix_distance(segs: Seq<SpatialSegment>, c: Seq<usize>, m: int) -> int
    decreases m,
{
    if m <= 0 {
        0
    } else {
        prefix_distance(segs, c, m - 1) + segs[c[m - 1] as int].distance_mm
    }
}

/// Each segment starts within the tolerance of the previous one's end.
pub open spec fn joined(segs: Seq<SpatialSegment>, c: Seq<usize>, tol: int) -> bool {
    forall|p: int|
        0 <= p < c.len() - 1 ==> surface_distance(
            segs[c[p] as int].end.lat as int,
            segs[c[p] as int].end.lon as int,
            segs[#[trigger] c[p + 1] as int].start.lat as int,
            segs[c[p + 1] as int].start.lon as int,
        ) < tol
}

/// A returned chain: two to `max_segments` known segments, joined end to
/// start, every segment but the last added while the distance so far was
/// under `max_distance`.
pub open spec fn chain_ok(
    segs: Seq<SpatialSegment>,
    c: Seq<usize>,
    max_distance: int,
    max_segments: int,
    tol: int,
) -> bool {
    &&& 2 <= c.len() <= max_segments
    &&& forall|p: int| 0 <= p < c.len() ==> (#[trigger] c[p] as int) < segs.len()
    &&& joined(segs, c, tol)
    &&& prefix_distance(segs, c, c.len() - 1) < max_distance
}

proof fn lemma_prefix_bound(segs: Seq<SpatialSegment>, c: Seq<usize>, m: int)
    requires
        all_segments_valid(segs),
        0 <= m <= c.len(),
        forall|p: int| 0 <= p < c.len() ==> (#[trigger] c[p] as int) < segs.len(),
    ensures
        0 <= prefix_distance(segs, c, m),
    decreases m,
{
    if m > 0 {
        lemma_prefix_bound(segs, c, m - 1);
        assert(valid_segment(segs[c[m - 1] as int]));
    }
}

/// Every segment of a list of chains, in order.
pub open spec fn flat(chains: Seq<Seq<usize>>) -> Seq<usize>
    decreases chains.len(),
{
    if chains.len() == 0 {
        Seq::empty()
    } else {
        flat(chains.drop_last()) + chains.last()
    }
}

/// The chains of at least two segments, in order.
pub open spec fn long_chains(chains: Seq<Seq<usize>>) -> Seq<Seq<usize>>
    decreases chains.len(),
{
    if chains.len() == 0 {
        Seq::empty()
    } else if chains.last().len() >= 2 {
        long_chains(chains.drop_last()).push(chains.last())
    } else {
        long_chains(chains.drop_last())
    }
}

/// Segment `x` is unused and starts within `tol` of (`lon`, `lat`).
pub open spec fn joins(segs: Seq<SpatialSegment>, x: usize, lon: int, lat: int, used: Seq<usize>, tol: int) -> bool {
    &&& (x as int) < segs.len()
    &&& !used.contains(x)
    &&& surface_distance(lat, lon, segs[x as int].start.lat as int, segs[x as int].start.lon as int) < tol
}

/// The first segment of `ans` that joins, if any.
pub open spec fn first_joining(
    segs: Seq<SpatialSegment>,
    ans: Seq<usize>,
    lon: int,
    lat: int,
    used: Seq<usize>,
    tol: int,
) -> Option<usize>
    decreases ans.len(),
{
    if ans.len() == 0 {
        None
    } else if joins(segs, ans[0], lon, lat, used, tol) {
        Some(ans[0])
    } else {
        first_joining(segs, ans.skip(1), lon, lat, used, tol)
    }
}

/// Looking around the end of segment `last` for a continuation, with
/// `used` taken, yields `next`.
#[verifier::opaque]
pub open spec fn continuation(
    index: SpatialIndex,
    last: usize,
    used: Seq<usize>,
    search: ChainSearch,
    next: Option<usize>,
) -> bool {
    let segs = index.segment_seq();
    let end = segs[last as int].end;
    exists|ans: Seq<usize>|
        #[trigger] index.nearest_ok(end.lon as int, end.lat as int, search.fan_out as int, ans)
            && first_joining(segs, ans, end.lon as int, end.lat as int, used, search.join_tolerance_mm as int)
            == next
}

/// Step `p` of attempt `c`: segment `c[p + 1]` is what looking around the
/// end of `c[p]` yields, with `used` and the attempt so far taken.
#[verifier::opaque]
pub open spec fn step_ok(index: SpatialIndex, c: Seq<usize>, used: Seq<usize>, p: int, search: ChainSearch) -> bool {
    continuation(index, c[p], used + c.take(p + 1), search, Some(c[p + 1]))
}

/// The attempt started from `seed` with `used` segments taken before it:
/// none when the seed is taken; else it starts with the seed, grows each
/// step by the first unused segment joining its end among those nearest that
/// end, and ends only when its distance reaches `max_distance`, when it has
/// `max_segments` segments, or when no such segment joins.
pub open spec fn attempt_ok(
    index: SpatialIndex,
    c: Seq<usize>,
    used: Seq<usize>,
    seed: usize,
    max_distance: int,
    max_segments: int,
    search: ChainSearch,
) -> bool {
    let segs = index.segment_seq();
    if used.contains(seed) {
        c.len() == 0
    } else {
        &&& c.len() >= 1
        &&& c[0] == seed
        &&& forall|p: int| 0 <= p && p + 1 < c.len() ==> #[trigger] step_ok(index, c, used, p, search)
        &&& (prefix_distance(segs, c, c.len() as int) >= max_distance || c.len() >= max_segments
            || continuation(index, c.last(), used + c, search, None))
    }
}

/// One attempt per seed, in order, each with the segments of the attempts
/// before it taken.
pub open spec fn trace_ok(
    index: SpatialIndex,
    seeds: Seq<usize>,
    attempts: Seq<Seq<usize>>,
    max_distance: int,
    max_segments: int,
    search: ChainSearch,
) -> bool {
    &&& attempts.len() == seeds.len()
    &&& forall|a: int|
        0 <= a < attempts.len() ==> attempt_ok(
            index,
            #[trigger] attempts[a],
            flat(attempts.take(a)),
            seeds[a],
            max_distance,
            max_segments,
            search,
        )
}

/// The chains from a start point (latitude, longitude): the attempts from
/// the segments nearest it that have at least two segments.
pub open spec fn chains_from(
    index: SpatialIndex,
    start_point: (i64, i64),
    max_distance: int,
    max_segments: int,
    search: ChainSearch,
    chains: Seq<Seq<usize>>,
) -> bool {
    exists|seeds: Seq<usize>, attempts: Seq<Seq<usize>>|
        {
            &&& index.nearest_ok(
                start_point.1 as int,
                start_point.0 as int,
                search.seed_count as int,
                seeds,
            )
            &&& trace_ok(index, seeds, attempts, max_distance, max_segments, search)
            &&& chains == long_chains(attempts)
        }
}

/// Greedy chains of connected segments from the segments nearest a start
/// point, with the standard tuning. `start_point` is (latitude, longitude).
pub fn find_connected_segments(
    index: &SpatialIndex,
    start_point: (i64, i64),
    max_distance_mm: i64,
    max_segments: usize,
) -> (r: Vec<Vec<usize>>)
    requires
        index.wf(),
        crate::geometry::valid_coord(start_point.0 as int, start_point.1 as int),
    ensures
        chains_from(
            *index,
            start_point,
            max_distance_mm as int,
            max_segments as int,
            ChainSearch::spec_standard(),
            chain_views(r@),
        ),
        chains_disjoint(chain_views(r@)),
        forall|a: int|
            0 <= a < r@.len() ==> chain_ok(
                index.segment_seq(),
                #[trigger] r@[a]@,
                max_distance_mm as int,
                max_segments as int,
                100_000,
            ),
{
    find_connected_segments_with(index, start_point, max_distance_mm, max_segments, ChainSearch::standard())
}

/// A scan of a nearest-neighbour answer that found no joining segment is
/// a dead end.
proof fn lemma_dead_end(index: SpatialIndex, used: Seq<usize>, route: Seq<usize>, search: ChainSearch, ans: Seq<usize>)
    requires
        route.len() >= 1,
        ({
            let segs = index.segment_seq();
            let end = segs[route.last() as int].end;
            &&& index.nearest_ok(end.lon as int, end.lat as int, search.fan_out as int, ans)
            &&& first_joining(segs, ans, end.lon as int, end.lat as int, used + route, search.join_tolerance_mm as int) == None::<usize>
        }),
    ensures
        continuation(index, route.last(), used + route, search, None),
{
    reveal(continuation);
    let end = index.segment_seq()[route.last() as int].end;
    assert(index.nearest_ok(end.lon as int, end.lat as int, search.fan_out as int, ans));
}

/// A segment found as the first joining one extends the attempt by a step.
proof fn lemma_step_found(
    index: SpatialIndex,
    used: Seq<usize>,
    route0: Seq<usize>,
    x: usize,
    search: ChainSearch,
    ans: Seq<usize>,
)
    requires
        route0.len() >= 1,
        ({
            let segs = index.segment_seq();
            let end = segs[route0.last() as int].end;
            &&& index.nearest_ok(end.lon as int, end.lat as int, search.fan_out as int, ans)
            &&& first_joining(
                segs,
                ans,
                end.lon as int,
                end.lat as int,
                used + route0,
                search.join_tolerance_mm as int,
            ) == Some(x)
        }),
        forall|p: int| 0 <= p && p + 1 < route0.len() ==> #[trigger] step_ok(index, route0, used, p, search),
    ensures
        forall|p: int|
            0 <= p && p + 1 < route0.push(x).len() ==> #[trigger] step_ok(index, route0.push(x), used, p, search),
{
    let route = route0.push(x);
    assert forall|p: int| 0 <= p && p + 1 < route.len() implies #[trigger] step_ok(index, route, used, p, search) by {
        reveal(step_ok);
        if p + 1 < route0.len() {
            assert(step_ok(index, route0, used, p, search));
            assert(route.take(p + 1) =~= route0.take(p + 1));
            assert(route[p] == route0[p] && route[p + 1] == route0[p + 1]);
        } else {
            assert(route.take(p + 1) =~= route0);
            assert(route[p] == route0.last() && route[p + 1] == x);
            reveal(continuation);
            let end = index.segment_seq()[route0.last() as int].end;
            assert(index.nearest_ok(end.lon as int, end.lat as int, search.fan_out as int, ans));
        }
    }
}

proof fn lemma_flat_push(chains: Seq<Seq<usize>>, c: Seq<usize>)
    ensures
        flat(chains.push(c)) == flat(chains) + c,
        long_chains(chains.push(c)) == if c.len() >= 2 {
            long_chains(chains).push(c)
        } else {
            long_chains(chains)
        },
{
    assert(chains.push(c).drop_last() =~= chains);
}

proof fn lemma_first_joining_step(
    segs: Seq<SpatialSegment>,
    ans: Seq<usize>,
    m: int,
    lon: int,
    lat: int,
    used: Seq<usize>,
    tol: int,
)
    requires
        0 <= m < ans.len(),
    ensures
        first_joining(segs, ans.skip(m), lon, lat, used, tol) == if joins(segs, ans[m], lon, lat, used, tol) {
            Some(ans[m])
        } else {
            first_joining(segs, ans.skip(m + 1), lon, lat, used, tol)
        },
{
    assert(ans.skip(m)[0] == ans[m]);
    assert(ans.skip(m).skip(1) =~= ans.skip(m + 1));
}

proof fn lemma_contains_concat(a: Seq<usize>, b: Seq<usize>, x: usize)
    ensures
        (a + b).contains(x) <==> a.contains(x) || b.contains(x),
{
    if a.contains(x) {
        let i = choose|i: int| 0 <= i < a.len() && a[i] == x;
        assert((a + b)[i] == x);
    }
    if b.contains(x) {
        let i = choose|i: int| 0 <= i < b.len() && b[i] == x;
        assert((a + b)[a.len() + i] == x);
    }
    if (a + b).contains(x) {
        let i = choose|i: int| 0 <= i < (a + b).len() && (a + b)[i] == x;
        if i < a.len() {
            assert(a[i] == x);
        } else {
            assert(b[i - a.len()] == x);
        }
    }
}

/// Greedy chains of connected segments. Each seed among the segments
/// nearest the start point that no earlier attempt used starts an attempt;
/// an attempt grows by the first unused segment, among those nearest its
/// end, that starts within the tolerance of that end, while its distance is
/// under `max_distance_mm` and it has fewer than `max_segments` segments.
/// Attempts of at least two segments are returned.
#[verifier::rlimit(100)]
#[verifier::spinoff_prover]
pub fn find_connected_segments_with(
    index: &SpatialIndex,
    start_point: (i64, i64),
    max_distance_mm: i64,
    max_segments: usize,
    search: ChainSearch,
) -> (r: Vec<Vec<usize>>)
    requires
        index.wf(),
        crate::geometry::valid_coord(start_point.0 as int, start_point.1 as int),
    ensures
        chains_from(*index, start_point, max_distance_mm as int, max_segments as int, search, chain_views(r@)),
        chains_disjoint(chain_views(r@)),
        forall|a: int|
            0 <= a < r@.len() ==> chain_ok(
                index.segment_seq(),
                #[trigger] r@[a]@,
                max_distance_mm as int,
                max_segments as int,
                search.join_tolerance_mm as int,
            ),
{
    proof {
        index.lemma_wf_segments();
    }
    let segs = index.segments();
    let ghost sg = segs@;
    let ghost tol = search.join_tolerance_mm as int;
    let ghost md = max_distance_mm as int;
    let ghost ms = max_segments as int;
    let n = segs.len();
    let mut visited: Vec<bool> = Vec::new();
    let mut i: usize = 0;
    while i < n
        invariant
            0 <= i <= n,
            visited@.len() == i,
            forall|j: int| 0 <= j < i ==> !#[trigger] visited@[j],
        decreases n - i,
    {
        visited.push(false);
        i += 1;
    }
    let mut routes: Vec<Vec<usize>> = Vec::new();
    let initial = index.nearest_neighbor(start_point.1, start_point.0, search.seed_count);
    proof {
        reveal(SpatialIndex::nearest_ok);
        assert(forall|t: int| 0 <= t < initial@.len() ==> (#[trigger] initial@[t] as int) < n);
    }
    let ghost seeds = initial@;
    let ghost mut attempts: Seq<Seq<usize>> = Seq::empty();
    assert(chain_views(routes@) =~= long_chains(attempts));
    let mut s: usize = 0;
    while s < initial.len()
        invariant
            index.wf(),
            sg == index.segment_seq(),
            sg == segs@,
            all_segments_valid(sg),
            n == sg.len(),
            tol == search.join_tolerance_mm,
            md == max_distance_mm,
            ms == max_segments,
                visited@.len() == n,
            seeds == initial@,
            forall|t: int| 0 <= t < initial@.len() ==> (#[trigger] initial@[t] as int) < n,
            0 <= s <= initial@.len(),
            attempts.len() == s,
            forall|a: int|
                0 <= a < s ==> attempt_ok(*index, #[trigger] attempts[a], flat(attempts.take(a)), seeds[a], md, ms, search),
            chain_views(routes@) == long_chains(attempts),
            forall|j: int| 0 <= j < n ==> (#[trigger] visited@[j] <==> flat(attempts).contains(j as usize)),
            chains_disjoint(chain_views(routes@)),
            forall|a: int|
                0 <= a < routes@.len() ==> chain_ok(
                    sg,
                    #[trigger] routes@[a]@,
                    max_distance_mm as int,
                    max_segments as int,
                    tol,
                ),
            forall|a: int, p: int|
                0 <= a < routes@.len() && 0 <= p < routes@[a]@.len() ==> visited@[#[trigger] routes@[a]@[p] as int],
        decreases initial@.len() - s,
    {
        let seed = initial[s];
        let ghost used = flat(attempts);
        if visited[seed] {
            proof {
                assert(used.contains(seed));
                let old_attempts = attempts;
                attempts = attempts.push(Seq::empty());
                lemma_flat_push(old_attempts, Seq::empty());
                assert(flat(attempts) =~= used);
                assert forall|a: int| 0 <= a < s + 1 implies attempt_ok(*index, #[trigger] attempts[a], flat(attempts.take(a)), seeds[a], md, ms, search) by {
                    if a < s {
                        assert(attempts.take(a) =~= old_attempts.take(a));
                    } else {
                        assert(attempts.take(a) =~= old_attempts);
                    }
                }
            }
        } else {
            let mut route: Vec<usize> = Vec::new();
            route.push(seed);
            let mut current: i128 = segs[seed].distance_mm as i128;
            visited.set(seed, true);
            proof {
                lemma_contains_concat(used, route@, seed);
                assert forall|j: int| 0 <= j < n implies (#[trigger] visited@[j] <==> (used + route@).contains(j as usize)) by {
                    lemma_contains_concat(used, route@, j as usize);
                    if j != seed {
                        assert(!route@.contains(j as usize)) by {
                            if route@.contains(j as usize) {
                                let w = choose|w: int| 0 <= w < route@.len() && route@[w] == j as usize;
                            }
                        }
                    } else {
                        assert(route@[0] == seed);
                    }
                }
            }
            assert(valid_segment(sg[seed as int]));
            assert(prefix_distance(sg, route@, 0) == 0);
            assert(route@[0] == seed);
            assert(prefix_distance(sg, route@, 1) == sg[seed as int].distance_mm);
            let mut growing = true;
            while growing && current < max_distance_mm as i128 && route.len() < max_segments
                invariant
                    index.wf(),
                    sg == index.segment_seq(),
                    sg == segs@,
                    all_segments_valid(sg),
                    n == sg.len(),
                    tol == search.join_tolerance_mm,
                    md == max_distance_mm,
                    ms == max_segments,
                                visited@.len() == n,
                    used == flat(attempts),
                    !used.contains(seed),
                    route@.len() >= 1,
                    route@[0] == seed,
                    forall|j: int| 0 <= j < n ==> (#[trigger] visited@[j] <==> (used + route@).contains(j as usize)),
                    !growing ==> continuation(*index, route@.last(), used + route@, search, None),
                    forall|p: int| 0 <= p && p + 1 < route@.len() ==> #[trigger] step_ok(*index, route@, used, p, search),
                    chains_disjoint(chain_views(routes@)),
                    forall|a: int|
                        0 <= a < routes@.len() ==> chain_ok(
                            sg,
                            #[trigger] routes@[a]@,
                            max_distance_mm as int,
                            max_segments as int,
                            tol,
                        ),
                    forall|a: int, p: int|
                        0 <= a < routes@.len() && 0 <= p < routes@[a]@.len() ==> visited@[#[trigger] routes@[a]@[p] as int],
                    route@.len() == 1 || route@.len() <= max_segments,
                    forall|p: int| 0 <= p < route@.len() ==> (#[trigger] route@[p] as int) < n,
                    forall|p: int| 0 <= p < route@.len() ==> visited@[#[trigger] route@[p] as int],
                    forall|p: int, q: int|
                        0 <= p < route@.len() && 0 <= q < route@.len() && p != q ==> #[trigger] route@[p]
                            != #[trigger] route@[q],
                    forall|a: int, p: int, q: int|
                        0 <= a < routes@.len() && 0 <= p < routes@[a]@.len() && 0 <= q < route@.len() ==> #[trigger] routes@[a]@[p]
                            != #[trigger] route@[q],
                    joined(sg, route@, tol),
                    current == prefix_distance(sg, route@, route@.len() as int),
                    0 <= current <= 0x7fff_ffff_ffff_ffff + MAX_SURFACE_MM,
                    route@.len() >= 2 ==> prefix_distance(sg, route@, route@.len() - 1) < max_distance_mm,
                decreases (if growing { 1int } else { 0int }) + max_segments - route@.len(),
            {
                let last = route[route.len() - 1];
                let end = segs[last].end;
                assert(valid_segment(sg[last as int]));
                let nearby = index.nearest_neighbor(end.lon, end.lat, search.fan_out);
                proof {
                    reveal(SpatialIndex::nearest_ok);
                    assert(forall|t: int| 0 <= t < nearby@.len() ==> (#[trigger] nearby@[t] as int) < n);
                }
                let ghost ans = nearby@;
                let ghost used_now = used + route@;
                let ghost len0 = route@.len();
                let ghost route0 = route@;
                let mut found = false;
                let mut m: usize = 0;
                assert(ans.skip(0) =~= ans);
                while m < nearby.len() && !found
                    invariant
                        index.wf(),
                        sg == index.segment_seq(),
                        sg == segs@,
                        all_segments_valid(sg),
                        n == sg.len(),
                        tol == search.join_tolerance_mm,
                        md == max_distance_mm,
                        ms == max_segments,
                                        visited@.len() == n,
                        ans == nearby@,
                        index.nearest_ok(end.lon as int, end.lat as int, search.fan_out as int, ans),
                        used == flat(attempts),
                        !used.contains(seed),
                        route0.len() == len0,
                        route0[0] == seed,
                        used_now == used + route0,
                        last == route0[len0 - 1],
                        len0 >= 1,
                        forall|t: int| 0 <= t < nearby@.len() ==> (#[trigger] nearby@[t] as int) < n,
                        0 <= m <= nearby@.len(),
                        end == sg[last as int].end,
                        valid_segment(sg[last as int]),
                        !found ==> route@ == route0,
                        forall|p: int| 0 <= p && p + 1 < route0.len() ==> #[trigger] step_ok(*index, route0, used, p, search),
                        found ==> route@.len() == len0 + 1 && route@[0] == seed && route@ == route0.push(route@.last())
                            && first_joining(sg, ans, end.lon as int, end.lat as int, used_now, tol) == Some(route@.last()),
                        len0 < max_segments,
                        !found ==> current < max_distance_mm,
                        !found ==> first_joining(sg, ans, end.lon as int, end.lat as int, used_now, tol) == first_joining(sg, ans.skip(m as int), end.lon as int, end.lat as int, used_now, tol),
                        !found ==> forall|j: int| 0 <= j < n ==> (#[trigger] visited@[j] <==> used_now.contains(j as usize)),
                        found ==> forall|j: int| 0 <= j < n ==> (#[trigger] visited@[j] <==> (used + route@).contains(j as usize)),
                        chains_disjoint(chain_views(routes@)),
                        forall|a: int|
                            0 <= a < routes@.len() ==> chain_ok(
                                sg,
                                #[trigger] routes@[a]@,
                                max_distance_mm as int,
                                max_segments as int,
                                tol,
                            ),
                        forall|a: int, p: int|
                            0 <= a < routes@.len() && 0 <= p < routes@[a]@.len() ==> visited@[#[trigger] routes@[a]@[p] as int],
                        route@.len() >= 1,
                        route@.len() == 1 || route@.len() <= max_segments,
                        forall|p: int| 0 <= p < route@.len() ==> (#[trigger] route@[p] as int) < n,
                        forall|p: int| 0 <= p < route@.len() ==> visited@[#[trigger] route@[p] as int],
                        forall|p: int, q: int|
                            0 <= p < route@.len() && 0 <= q < route@.len() && p != q ==> #[trigger] route@[p]
                                != #[trigger] route@[q],
                        forall|a: int, p: int, q: int|
                            0 <= a < routes@.len() && 0 <= p < routes@[a]@.len() && 0 <= q < route@.len() ==> #[trigger] routes@[a]@[p]
                                != #[trigger] route@[q],
                        joined(sg, route@, tol),
                        current == prefix_distance(sg, route@, route@.len() as int),
                        0 <= current <= 0x7fff_ffff_ffff_ffff + MAX_SURFACE_MM,
                        route@.len() >= 2 ==> prefix_distance(sg, route@, route@.len() - 1) < max_distance_mm,
                    decreases nearby@.len() - m,
                {
                    let next = nearby[m];
                    proof {
                        lemma_first_joining_step(sg, ans, m as int, end.lon as int, end.lat as int, used_now, tol);
                    }
                    assert(valid_segment(sg[next as int]));
                    let start = segs[next].start;
                    let d = surface_distance_mm(end.lat, end.lon, start.lat, start.lon);
                    if !visited[next] && d < search.join_tolerance_mm {
                        let ghost old_route = route@;
                        let ghost old_visited = visited@;
                        route.push(next);
                        current = current + segs[next].distance_mm as i128;
                        visited.set(next, true);
                        proof {
                            assert(route@ == old_route.push(next));
                            assert(joins(sg, next, end.lon as int, end.lat as int, used_now, tol));
                            assert forall|p: int| 0 <= p < route@.len() - 1 implies surface_distance(
                                sg[route@[p] as int].end.lat as int,
                                sg[route@[p] as int].end.lon as int,
                                sg[#[trigger] route@[p + 1] as int].start.lat as int,
                                sg[route@[p + 1] as int].start.lon as int,
                            ) < tol by {
                                if p < old_route.len() - 1 {
                                    assert(route@[p + 1] == old_route[p + 1]);
                                }
                            }
                            assert(prefix_distance(sg, old_route, old_route.len() as int) == prefix_distance(sg, route@, old_route.len() as int)) by {
                                lemma_prefix_same(sg, old_route, route@, old_route.len() as int);
                            }
                            assert forall|p: int, q: int|
                                0 <= p < route@.len() && 0 <= q < route@.len() && p != q implies #[trigger] route@[p]
                                    != #[trigger] route@[q] by {
                                if p == old_route.len() {
                                    assert(old_visited[route@[q] as int]);
                                } else if q == old_route.len() {
                                    assert(old_visited[route@[p] as int]);
                                }
                            }
                            assert forall|a: int, p: int, q: int|
                                0 <= a < routes@.len() && 0 <= p < routes@[a]@.len() && 0 <= q < route@.len() implies #[trigger] routes@[a]@[p]
                                    != #[trigger] route@[q] by {
                                if q == old_route.len() {
                                    assert(old_visited[routes@[a]@[p] as int]);
                                } else {
                                    assert(route@[q] == old_route[q]);
                                }
                            }
                            assert(used + route@ =~= used_now.push(next));
                            assert forall|j: int| 0 <= j < n implies (#[trigger] visited@[j] <==> (used + route@).contains(j as usize)) by {
                                lemma_contains_concat(used_now, seq![next], j as usize);
                                assert(used_now.push(next) =~= used_now + seq![next]);
                                if j as usize == next {
                                    assert(seq![next][0] == next);
                                } else {
                                    assert(old_visited[j] == visited@[j]);
                                    if seq![next].contains(j as usize) {
                                        let w = choose|w: int| 0 <= w < 1 && seq![next][w] == j as usize;
                                    }
                                }
                            }
                        }
                        found = true;
                    } else {
                        proof {
                            assert(!joins(sg, next, end.lon as int, end.lat as int, used_now, tol)) by {
                                if visited@[next as int] {
                                    assert(used_now.contains(next));
                                }
                            }
                        }
                    }
                    m += 1;
                }
                proof {
                    if !found {
                        assert(ans.skip(ans.len() as int) =~= Seq::<usize>::empty());
                        lemma_dead_end(*index, used, route@, search, ans);
                    } else {
                        lemma_step_found(*index, used, route0, route@.last(), search, ans);
                    }
                }
                if !found {
                    growing = false;
                }
            }
            proof {
                let c = route@;
                let old_attempts = attempts;
                attempts = attempts.push(c);
                lemma_flat_push(old_attempts, c);
                assert(attempt_ok(*index, c, used, seed, md, ms, search));
                assert forall|a: int| 0 <= a < s + 1 implies attempt_ok(*index, #[trigger] attempts[a], flat(attempts.take(a)), seeds[a], md, ms, search) by {
                    if a < s {
                        assert(attempts.take(a) =~= old_attempts.take(a));
                    } else {
                        assert(attempts.take(a) =~= old_attempts);
                    }
                }
            }
            if route.len() > 1 {
                let ghost old_routes = routes@;
                routes.push(route);
                proof {
                    assert(chain_views(routes@) =~= chain_views(old_routes).push(routes@[routes@.len() - 1]@));
                    assert forall|a: int, p: int, b: int, q: int|
                        0 <= a < chain_views(routes@).len() && 0 <= b < chain_views(routes@).len() && 0 <= p
                            < chain_views(routes@)[a].len() && 0 <= q < chain_views(routes@)[b].len() && (a != b
                            || p != q) implies #[trigger] chain_views(routes@)[a][p]
                        != #[trigger] chain_views(routes@)[b][q] by {
                        let last_a = old_routes.len() as int;
                        if a < last_a && b < last_a {
                            assert(chain_views(old_routes)[a][p] != chain_views(old_routes)[b][q]);
                        } else if a < last_a {
                            assert(old_routes[a]@[p] != routes@[b]@[q]);
                        } else if b < last_a {
                            assert(old_routes[b]@[q] != routes@[a]@[p]);
                        }
                    }
                }
            }
        }
        s += 1;
    }
    proof {
        assert(index.nearest_ok(start_point.1 as int, start_point.0 as int, search.seed_count as int, seeds));
        assert(trace_ok(*index, seeds, attempts, md, ms, search));
    }
    routes
}

proof fn lemma_prefix_same(segs: Seq<SpatialSegment>, a: Seq<usize>, b: Seq<usize>, m: int)
    requires
        0 <= m <= a.len(),
        m <= b.len(),
        forall|p: int| 0 <= p < m ==> a[p] == b[p],
    ensures
        prefix_distance(segs, a, m) == prefix_distance(segs, b, m),
    decreases m,
{
    if m > 0 {
        lemma_prefix_same(segs, a, b, m - 1);
    }
}

} // verus!
