//! Route synthesis: chains of connected segments turned into candidate
//! routes, kept when inside the target box, ranked by effort similarity.
use vstd::prelude::*;
use crate::itra_calculator::{effort, effort_input_ok, calculate_itra_effort};
use crate::models::{BoundingBox, GpxData, RouteCandidate, RouteData, RoutePoint};
use crate::route_matching::{
    filter_routes_by_bbox, find_similar_routes, gap_of, inputs_ok, inside, inside_only, key_lt,
    passes, ranked, scored_copy, RouteMatchingConfig, MAX_GAP_PPM,
};
use crate::rtree::{SpatialIndex, SpatialSegment, all_segments_valid, valid_segment, MAX_SEGMENT_CLIMB};
use crate::segment_index::{
    find_connected_segments, numbered_id, prefix_distance, chain_ok, chains_from, chain_views,
    decimal, ChainSearch,
};
use crate::geometry::{MAX_SURFACE_MM, valid_coord};

verus! {

/// Most segments a synthesised route may have.
pub const MAX_CHAIN_SEGMENTS: usize = 1_000_000;

/// Climb minus descent over the first `m` segments of a chain.
pub open spec fn climb_balance(segs: Seq<SpatialSegment>, c: Seq<usize>, m: int) -> int
    decreases m,
{
    if m <= 0 {
        0
    } else {
        climb_balance(segs, c, m - 1) + segs[c[m - 1] as int].elevation_gain_mm
            - segs[c[m - 1] as int].elevation_loss_mm
    }
}

pub open spec fn prefix_gain(segs: Seq<SpatialSegment>, c: Seq<usize>, m: int) -> int
    decreases m,
{
    if m <= 0 {
        0
    } else {
        prefix_gain(segs, c, m - 1) + segs[c[m - 1] as int].elevation_gain_mm
    }
}

pub open spec fn prefix_loss(segs: Seq<SpatialSegment>, c: Seq<usize>, m: int) -> int
    decreases m,
{
    if m <= 0 {
        0
    } else {
        prefix_loss(segs, c, m - 1) + segs[c[m - 1] as int].elevation_loss_mm
    }
}

/// The points of a chain: the first segment's start, then every segment's
/// end; elevations relative to the start, from the segments' climbs.
pub open spec fn chain_points(segs: Seq<SpatialSegment>, c: Seq<usize>) -> Seq<RoutePoint> {
    Seq::new(
        c.len() + 1,
        |j: int|
            if j == 0 {
                RoutePoint { lat: segs[c[0] as int].start.lat, lon: segs[c[0] as int].start.lon, ele: 0 }
            } else {
                RoutePoint {
                    lat: segs[c[j - 1] as int].end.lat,
                    lon: segs[c[j - 1] as int].end.lon,
                    ele: climb_balance(segs, c, j) as i64,
                }
            },
    )
}

/// `r` is the unscored candidate of chain `c`.
pub open spec fn candidate_of(r: RouteCandidate, segs: Seq<SpatialSegment>, c: Seq<usize>) -> bool {
    &&& r.distance_mm == prefix_distance(segs, c, c.len() as int)
    &&& r.elevation_gain_mm == prefix_gain(segs, c, c.len() as int)
    &&& r.elevation_loss_mm == prefix_loss(segs, c, c.len() as int)
    &&& r.itra_effort_distance == effort(r.distance_mm as int, r.elevation_gain_mm as int)
    &&& r.effort_gap == 0
    &&& r.route.points@ == chain_points(segs, c)
}

pub open spec fn chain_indices_ok(segs: Seq<SpatialSegment>, c: Seq<usize>) -> bool {
    &&& 1 <= c.len() <= MAX_CHAIN_SEGMENTS
    &&& forall|p: int| 0 <= p < c.len() ==> (#[trigger] c[p] as int) < segs.len()
}

proof fn lemma_chain_sums(segs: Seq<SpatialSegment>, c: Seq<usize>, m: int)
    requires
        all_segments_valid(segs),
        chain_indices_ok(segs, c),
        0 <= m <= c.len(),
    ensures
        0 <= prefix_distance(segs, c, m) <= m * MAX_SURFACE_MM,
        0 <= prefix_gain(segs, c, m) <= m * MAX_SEGMENT_CLIMB,
        0 <= prefix_loss(segs, c, m) <= m * MAX_SEGMENT_CLIMB,
        -m * MAX_SEGMENT_CLIMB <= climb_balance(segs, c, m) <= m * MAX_SEGMENT_CLIMB,
    decreases m,
{
    if m > 0 {
        lemma_chain_sums(segs, c, m - 1);
        assert(valid_segment(segs[c[m - 1] as int]));
    }
}

/// The candidate route of a chain, not yet scored.
pub fn chain_to_candidate(segs: &Vec<SpatialSegment>, chain: &Vec<usize>, id: String) -> (r: RouteCandidate)
    requires
        all_segments_valid(segs@),
        chain_indices_ok(segs@, chain@),
    ensures
        r.id == id,
        candidate_of(r, segs@, chain@),
        effort_input_ok(r.distance_mm as int, r.elevation_gain_mm as int),
{
    let ghost sg = segs@;
    let ghost c = chain@;
    let first = &segs[chain[0]];
    let mut points: Vec<RoutePoint> = Vec::new();
    points.push(RoutePoint { lat: first.start.lat, lon: first.start.lon, ele: 0 });
    let mut distance: i64 = 0;
    let mut gain: i64 = 0;
    let mut loss: i64 = 0;
    let mut balance: i64 = 0;
    let mut p: usize = 0;
    while p < chain.len()
        invariant
            sg == segs@,
            c == chain@,
            all_segments_valid(sg),
            chain_indices_ok(sg, c),
            0 <= p <= c.len(),
            points@.len() == p + 1,
            forall|j: int| 0 <= j <= p ==> #[trigger] points@[j] == chain_points(sg, c)[j],
            distance == prefix_distance(sg, c, p as int),
            gain == prefix_gain(sg, c, p as int),
            loss == prefix_loss(sg, c, p as int),
            balance == climb_balance(sg, c, p as int),
        decreases c.len() - p,
    {
        proof {
            lemma_chain_sums(sg, c, p + 1);
        }
        assert(((p + 1) as int) * MAX_SURFACE_MM <= MAX_CHAIN_SEGMENTS * MAX_SURFACE_MM) by (nonlinear_arith)
            requires
                p + 1 <= MAX_CHAIN_SEGMENTS,
        ;
        assert(((p + 1) as int) * MAX_SEGMENT_CLIMB <= MAX_CHAIN_SEGMENTS * MAX_SEGMENT_CLIMB) by (nonlinear_arith)
            requires
                p + 1 <= MAX_CHAIN_SEGMENTS,
        ;
        let s = &segs[chain[p]];
        distance = distance + s.distance_mm;
        gain = gain + s.elevation_gain_mm;
        loss = loss + s.elevation_loss_mm;
        balance = balance + s.elevation_gain_mm - s.elevation_loss_mm;
        points.push(RoutePoint { lat: s.end.lat, lon: s.end.lon, ele: balance });
        p += 1;
    }
    proof {
        lemma_chain_sums(sg, c, c.len() as int);
    }
    assert((c.len() as int) * MAX_SURFACE_MM <= MAX_CHAIN_SEGMENTS * MAX_SURFACE_MM) by (nonlinear_arith)
        requires
            c.len() <= MAX_CHAIN_SEGMENTS,
    ;
    assert((c.len() as int) * MAX_SEGMENT_CLIMB <= MAX_CHAIN_SEGMENTS * MAX_SEGMENT_CLIMB) by (nonlinear_arith)
        requires
            c.len() <= MAX_CHAIN_SEGMENTS,
    ;
    assert(points@ =~= chain_points(sg, c));
    let itra = calculate_itra_effort(distance, gain);
    RouteCandidate {
        id,
        distance_mm: distance,
        elevation_gain_mm: gain,
        elevation_loss_mm: loss,
        itra_effort_distance: itra,
        effort_gap: 0,
        route: RouteData { points },
    }
}

/// Synthesised routes: chains grown from the segments nearest `seed`
/// (latitude, longitude), those lying inside `bbox`, ranked by effort gap
/// to the reference (distance, gain, loss) and cut to the configured
/// number.
pub fn synthesize_routes(
    index: &SpatialIndex,
    seed: (i64, i64),
    max_distance_mm: i64,
    max_segments: usize,
    bbox: &BoundingBox,
    reference_metrics: (i64, i64, i64),
    config: RouteMatchingConfig,
) -> (r: Vec<RouteCandidate>)
    requires
        index.wf(),
        valid_coord(seed.0 as int, seed.1 as int),
        max_segments <= MAX_CHAIN_SEGMENTS,
        effort_input_ok(reference_metrics.0 as int, reference_metrics.1 as int),
        0 <= config.max_effort_gap_ppm <= MAX_GAP_PPM,
    ensures
        exists|chains: Seq<Seq<usize>>, cands: Seq<RouteCandidate>, sel: Seq<usize>|
            {
                &&& #[trigger] chains_from(
                    *index,
                    seed,
                    max_distance_mm as int,
                    max_segments as int,
                    ChainSearch::spec_standard(),
                    chains,
                )
                &&& cands.len() == chains.len()
                &&& forall|k: int|
                    0 <= k < cands.len() ==> candidate_of(#[trigger] cands[k], index.segment_seq(), chains[k])
                        && cands[k].id@ == "route"@ + seq!['-'] + decimal(k as nat)
                &&& #[trigger] ranked(
                    sel,
                    inside_only(cands, *bbox),
                    effort(reference_metrics.0 as int, reference_metrics.1 as int),
                    config.max_effort_gap_ppm as int,
                    config.max_results as int,
                )
                &&& r@.len() == sel.len()
                &&& forall|t: int|
                    0 <= t < sel.len() ==> scored_copy(
                        #[trigger] r@[t],
                        inside_only(cands, *bbox)[sel[t] as int],
                        gap_of(
                            inside_only(cands, *bbox)[sel[t] as int],
                            effort(reference_metrics.0 as int, reference_metrics.1 as int),
                        ),
                    )
            },
        r@.len() <= config.max_results,
        forall|t: int| 0 <= t < r@.len() ==> inside(#[trigger] r@[t], *bbox),
        forall|t: int|
            0 <= t < r@.len() ==> (#[trigger] r@[t]).effort_gap == gap_of(
                r@[t],
                effort(reference_metrics.0 as int, reference_metrics.1 as int),
            ) && passes(
                r@[t],
                effort(reference_metrics.0 as int, reference_metrics.1 as int),
                config.max_effort_gap_ppm as int,
            ),
        forall|t1: int, t2: int|
            0 <= t1 < t2 < r@.len() ==> (#[trigger] r@[t1]).effort_gap <= (#[trigger] r@[t2]).effort_gap,
{
    proof {
        index.lemma_wf_segments();
    }
    let chains = find_connected_segments(index, seed, max_distance_mm, max_segments);
    let segs = index.segments();
    let prefix = "route".to_owned();
    proof {
        reveal_strlit("route");
    }
    let mut candidates: Vec<RouteCandidate> = Vec::new();
    let mut k: usize = 0;
    while k < chains.len()
        invariant
            segs@ == index.segment_seq(),
            all_segments_valid(segs@),
            max_segments <= MAX_CHAIN_SEGMENTS,
            forall|a: int|
                0 <= a < chains@.len() ==> chain_ok(
                    index.segment_seq(),
                    #[trigger] chains@[a]@,
                    max_distance_mm as int,
                    max_segments as int,
                    100_000,
                ),
            0 <= k <= chains@.len(),
            candidates@.len() == k,
            inputs_ok(candidates@),
            prefix@ == "route"@,
            chains_from(
                *index,
                seed,
                max_distance_mm as int,
                max_segments as int,
                ChainSearch::spec_standard(),
                chain_views(chains@),
            ),
            forall|q: int|
                0 <= q < k ==> candidate_of(#[trigger] candidates@[q], index.segment_seq(), chains@[q]@)
                    && candidates@[q].id@ == "route"@ + seq!['-'] + decimal(q as nat),
        decreases chains@.len() - k,
    {
        assert(chain_ok(index.segment_seq(), chains@[k as int]@, max_distance_mm as int, max_segments as int, 100_000));
        let id = numbered_id(&prefix, k);
        let cand = chain_to_candidate(segs, &chains[k], id);
        candidates.push(cand);
        assert(candidates@[k as int] == cand);
        assert(inputs_ok(candidates@)) by {
            assert forall|i: int| 0 <= i < candidates@.len() implies effort_input_ok(
                (#[trigger] candidates@[i]).distance_mm as int,
                candidates@[i].elevation_gain_mm as int,
            ) by {
                if i < k {
                } else {
                    assert(candidates@[i] == cand);
                }
            }
        }
        k += 1;
    }
    let ghost all = candidates@;
    let inside_box = filter_routes_by_bbox(candidates, bbox);
    proof {
        crate::route_matching::lemma_bbox_filter(all, *bbox);
        assert forall|i: int| 0 <= i < inside_box@.len() implies effort_input_ok(
            (#[trigger] inside_box@[i]).distance_mm as int,
            inside_box@[i].elevation_gain_mm as int,
        ) by {
            assert(all.contains(inside_box@[i]));
            let w = choose|w: int| 0 <= w < all.len() && all[w] == inside_box@[i];
            assert(effort_input_ok(all[w].distance_mm as int, all[w].elevation_gain_mm as int));
        }
    }
    let ghost kept = inside_box@;
    let reference = GpxData { points: Vec::new() };
    let r = find_similar_routes(&reference, reference_metrics, inside_box, config);
    proof {
        let ref_e = effort(reference_metrics.0 as int, reference_metrics.1 as int);
        let sel = choose|sel: Seq<usize>|
            {
                &&& ranked(sel, kept, ref_e, config.max_effort_gap_ppm as int, config.max_results as int)
                &&& r@.len() == sel.len()
                &&& forall|t: int|
                    0 <= t < sel.len() ==> scored_copy(
                        #[trigger] r@[t],
                        kept[sel[t] as int],
                        gap_of(kept[sel[t] as int], ref_e),
                    )
            };
        let cv = chain_views(chains@);
        assert(all.len() == cv.len());
        assert(forall|k: int|
            0 <= k < all.len() ==> candidate_of(#[trigger] all[k], index.segment_seq(), cv[k])
                && all[k].id@ == "route"@ + seq!['-'] + decimal(k as nat));
        assert(kept == inside_only(all, *bbox));
        assert forall|t: int| 0 <= t < r@.len() implies inside(#[trigger] r@[t], *bbox) by {
            let c = kept[sel[t] as int];
            assert(scored_copy(r@[t], c, gap_of(c, ref_e)));
            assert(inside(c, *bbox));
        }
        assert forall|t: int|
            0 <= t < r@.len() implies (#[trigger] r@[t]).effort_gap == gap_of(r@[t], ref_e) && passes(
                r@[t],
                ref_e,
                config.max_effort_gap_ppm as int,
            ) by {
            let c = kept[sel[t] as int];
            assert(scored_copy(r@[t], c, gap_of(c, ref_e)));
        }
        assert forall|t1: int, t2: int|
            0 <= t1 < t2 < r@.len() implies (#[trigger] r@[t1]).effort_gap <= (#[trigger] r@[t2]).effort_gap by {
            let c1 = kept[sel[t1] as int];
            let c2 = kept[sel[t2] as int];
            assert(scored_copy(r@[t1], c1, gap_of(c1, ref_e)));
            assert(scored_copy(r@[t2], c2, gap_of(c2, ref_e)));
            assert(key_lt(gap_of(c1, ref_e), sel[t1] as int, gap_of(c2, ref_e), sel[t2] as int));
        }
    }
    r
}

} // verus!
