//! Ranking candidate routes against a reference by effort distance, and
//! keeping the routes that stay inside a box.
use vstd::prelude::*;
use crate::geometry::abs;
use crate::itra_calculator::{effort, effort_input_ok, calculate_itra_effort};
use crate::models::{BoundingBox, GpxData, RouteCandidate, RouteData};

verus! {

/// Selection rules for similar routes.
///
/// `max_effort_gap_ppm` bounds the relative effort gap in parts per million;
/// its default, 138 629, keeps the routes whose similarity score
/// `exp(-5 * gap)` is at least 0.5. `distance_tolerance_ppm` is the relative
/// distance tolerance, in parts per million.
#[derive(Clone, Copy, Debug)]
pub struct RouteMatchingConfig {
    pub max_results: usize,
    pub max_effort_gap_ppm: i64,
    pub distance_tolerance_ppm: i64,
}

impl Default for RouteMatchingConfig {
    fn default() -> (r: Self)
        ensures
            r.max_results == 50,
            r.max_effort_gap_ppm == 138_629,
            r.distance_tolerance_ppm == 200_000,
    {
        RouteMatchingConfig {
            max_results: 50,
            max_effort_gap_ppm: 138_629,
            distance_tolerance_ppm: 200_000,
        }
    }
}

/// Largest relative gap bound accepted, in parts per million.
pub const MAX_GAP_PPM: i64 = 1_000_000_000_000;

pub open spec fn gap_of(c: RouteCandidate, ref_effort: int) -> int {
    abs(ref_effort - effort(c.distance_mm as int, c.elevation_gain_mm as int))
}

pub open spec fn passes(c: RouteCandidate, ref_effort: int, max_ppm: int) -> bool {
    ref_effort > 0 && gap_of(c, ref_effort) * 1_000_000 <= max_ppm * ref_effort
}

/// Order by gap, then by position.
pub open spec fn key_lt(g1: int, i1: int, g2: int, i2: int) -> bool {
    g1 < g2 || (g1 == g2 && i1 < i2)
}

/// `sel` lists, closest first, the at most `k` candidates that pass and have
/// the smallest gaps, earlier candidates first among equal gaps.
pub open spec fn ranked(
    sel: Seq<usize>,
    cands: Seq<RouteCandidate>,
    ref_effort: int,
    max_ppm: int,
    k: int,
) -> bool {
    &&& sel.len() <= k
    &&& forall|t: int|
        0 <= t < sel.len() ==> (#[trigger] sel[t]) < cands.len() && passes(
            cands[sel[t] as int],
            ref_effort,
            max_ppm,
        )
    &&& forall|t1: int, t2: int|
        0 <= t1 < t2 < sel.len() ==> key_lt(
            gap_of(cands[sel[t1] as int], ref_effort),
            sel[t1] as int,
            gap_of(cands[sel[t2] as int], ref_effort),
            sel[t2] as int,
        )
    &&& forall|i: int|
        0 <= i < cands.len() && passes(#[trigger] cands[i], ref_effort, max_ppm) && !sel.contains(
            i as usize,
        ) ==> sel.len() == k && (sel.len() > 0 ==> key_lt(
            gap_of(cands[sel.last() as int], ref_effort),
            sel.last() as int,
            gap_of(cands[i], ref_effort),
            i,
        ))
}

/// `r` is `c` scored with the gap `gap`.
pub open spec fn scored_copy(r: RouteCandidate, c: RouteCandidate, gap: int) -> bool {
    &&& r.id@ == c.id@
    &&& r.distance_mm == c.distance_mm
    &&& r.elevation_gain_mm == c.elevation_gain_mm
    &&& r.elevation_loss_mm == c.elevation_loss_mm
    &&& r.itra_effort_distance == c.itra_effort_distance
    &&& r.effort_gap == gap
    &&& r.route.points@ == c.route.points@
}

pub open spec fn inputs_ok(cands: Seq<RouteCandidate>) -> bool {
    forall|i: int|
        0 <= i < cands.len() ==> effort_input_ok(
            (#[trigger] cands[i]).distance_mm as int,
            cands[i].elevation_gain_mm as int,
        )
}

fn scored(c: &RouteCandidate, gap: i64) -> (r: RouteCandidate)
    ensures
        scored_copy(r, *c, gap as int),
{
    let points = c.route.points.clone();
    assert(points@ =~= c.route.points@);
    RouteCandidate {
        id: c.id.clone(),
        distance_mm: c.distance_mm,
        elevation_gain_mm: c.elevation_gain_mm,
        elevation_loss_mm: c.elevation_loss_mm,
        itra_effort_distance: c.itra_effort_distance,
        effort_gap: gap,
        route: RouteData { points },
    }
}

/// The candidates closest in effort distance to the reference, closest
/// first, at most `config.max_results` of them, each with its effort gap.
/// A candidate is kept when its relative gap is within
/// `config.max_effort_gap_ppm`; none is when the reference effort is not
/// positive.
pub fn find_similar_routes(
    _reference: &GpxData,
    reference_metrics: (i64, i64, i64),
    candidates: Vec<RouteCandidate>,
    config: RouteMatchingConfig,
) -> (r: Vec<RouteCandidate>)
    requires
        effort_input_ok(reference_metrics.0 as int, reference_metrics.1 as int),
        inputs_ok(candidates@),
        0 <= config.max_effort_gap_ppm <= MAX_GAP_PPM,
    ensures
        ({
            let ref_effort = effort(reference_metrics.0 as int, reference_metrics.1 as int);
            exists|sel: Seq<usize>|
                {
                    &&& ranked(
                        sel,
                        candidates@,
                        ref_effort,
                        config.max_effort_gap_ppm as int,
                        config.max_results as int,
                    )
                    &&& r@.len() == sel.len()
                    &&& forall|t: int|
                        0 <= t < sel.len() ==> scored_copy(
                            #[trigger] r@[t],
                            candidates@[sel[t] as int],
                            gap_of(candidates@[sel[t] as int], ref_effort),
                        )
                }
        }),
{
    let ghost cands = candidates@;
    let ghost max_ppm = config.max_effort_gap_ppm as int;
    let k = config.max_results;
    let (ref_distance, ref_gain, _) = reference_metrics;
    let ref_effort = calculate_itra_effort(ref_distance, ref_gain);
    let n = candidates.len();
    let mut gaps: Vec<i64> = Vec::new();
    let mut pass: Vec<bool> = Vec::new();
    let mut taken: Vec<bool> = Vec::new();
    let mut i: usize = 0;
    while i < n
        invariant
            n == cands.len(),
            cands == candidates@,
            inputs_ok(cands),
            ref_effort == effort(reference_metrics.0 as int, reference_metrics.1 as int),
            effort_input_ok(reference_metrics.0 as int, reference_metrics.1 as int),
            max_ppm == config.max_effort_gap_ppm,
            0 <= max_ppm <= MAX_GAP_PPM,
            0 <= i <= n,
            gaps@.len() == i,
            pass@.len() == i,
            taken@.len() == i,
            forall|j: int| 0 <= j < i ==> #[trigger] gaps@[j] == gap_of(cands[j], ref_effort as int),
            forall|j: int| 0 <= j < i ==> #[trigger] pass@[j] == passes(cands[j], ref_effort as int, max_ppm),
            forall|j: int| 0 <= j < i ==> !#[trigger] taken@[j],
        decreases n - i,
    {
        assert(effort_input_ok(cands[i as int].distance_mm as int, cands[i as int].elevation_gain_mm as int));
        let e = calculate_itra_effort(candidates[i].distance_mm, candidates[i].elevation_gain_mm);
        let gap: i64 = if ref_effort >= e {
            ref_effort - e
        } else {
            e - ref_effort
        };
        assert(0 <= gap as int * 1_000_000 <= 3_000_000_000_000_000_000_000_000);
        assert(0 <= max_ppm * (ref_effort as int) <= MAX_GAP_PPM * 1_100_000_000_000_000_000 || ref_effort <= 0) by (nonlinear_arith)
            requires
                0 <= max_ppm <= MAX_GAP_PPM,
                ref_effort <= 1_100_000_000_000_000_000,
        ;
        let ok = ref_effort > 0 && (gap as i128) * 1_000_000 <= (config.max_effort_gap_ppm as i128)
            * (ref_effort as i128);
        gaps.push(gap);
        pass.push(ok);
        taken.push(false);
        i += 1;
    }
    let mut sel: Vec<usize> = Vec::new();
    let mut exhausted = false;
    while !exhausted && sel.len() < k
        invariant
            exhausted ==> forall|m: int| 0 <= m < n ==> !(#[trigger] pass@[m] && !taken@[m]),
            n == cands.len(),
            cands == candidates@,
            max_ppm == config.max_effort_gap_ppm,
            k == config.max_results,
            gaps@.len() == n,
            pass@.len() == n,
            taken@.len() == n,
            forall|j: int| 0 <= j < n ==> #[trigger] gaps@[j] == gap_of(cands[j], ref_effort as int),
            forall|j: int| 0 <= j < n ==> #[trigger] pass@[j] == passes(cands[j], ref_effort as int, max_ppm),
            sel@.len() <= k,
            forall|t: int| 0 <= t < sel@.len() ==> (#[trigger] sel@[t]) < n && taken@[sel@[t] as int] && pass@[sel@[t] as int],
            forall|j: int| 0 <= j < n && #[trigger] taken@[j] ==> sel@.contains(j as usize),
            forall|t1: int, t2: int|
                0 <= t1 < t2 < sel@.len() ==> key_lt(
                    gap_of(cands[sel@[t1] as int], ref_effort as int),
                    sel@[t1] as int,
                    gap_of(cands[sel@[t2] as int], ref_effort as int),
                    sel@[t2] as int,
                ),
            forall|t: int, j: int|
                0 <= t < sel@.len() && 0 <= j < n && #[trigger] pass@[j] && !taken@[j] ==> key_lt(
                    gap_of(cands[#[trigger] sel@[t] as int], ref_effort as int),
                    sel@[t] as int,
                    gap_of(cands[j], ref_effort as int),
                    j,
                ),
        decreases 2 * (k - sel@.len()) + if exhausted {
            0int
        } else {
            1int
        },
    {
        let mut best: usize = n;
        let mut j: usize = 0;
        while j < n
            invariant
                n == cands.len(),
                gaps@.len() == n,
                pass@.len() == n,
                taken@.len() == n,
                0 <= j <= n,
                best == n || (best < j && pass@[best as int] && !taken@[best as int]),
                forall|m: int|
                    0 <= m < j && #[trigger] pass@[m] && !taken@[m] ==> best < n && (best == m
                        || key_lt(gaps@[best as int] as int, best as int, gaps@[m] as int, m)),
            decreases n - j,
        {
            if pass[j] && !taken[j] && (best == n || gaps[j] < gaps[best]) {
                best = j;
            }
            j += 1;
        }
        if best == n {
            exhausted = true;
            continue;
        }
        proof {
            assert forall|t: int| 0 <= t < sel@.len() implies key_lt(
                gap_of(cands[sel@[t] as int], ref_effort as int),
                sel@[t] as int,
                gap_of(cands[best as int], ref_effort as int),
                best as int,
            ) by {
                assert(pass@[best as int] && !taken@[best as int]);
            }
        }
        taken.set(best, true);
        let ghost old_sel = sel@;
        sel.push(best);
        assert forall|m: int| 0 <= m < n && #[trigger] taken@[m] implies sel@.contains(m as usize) by {
            if m == best {
                assert(sel@[sel@.len() - 1] == best);
            } else {
                assert(old_sel.contains(m as usize));
                let w = choose|w: int| 0 <= w < old_sel.len() && old_sel[w] == m as usize;
                assert(sel@[w] == m as usize);
            }
        }
    }
    proof {
        let ref_e = ref_effort as int;
        assert forall|m: int|
            0 <= m < cands.len() && passes(#[trigger] cands[m], ref_e, max_ppm) && !sel@.contains(
                m as usize,
            ) implies sel@.len() == k && (sel@.len() > 0 ==> key_lt(
            gap_of(cands[sel@.last() as int], ref_e),
            sel@.last() as int,
            gap_of(cands[m], ref_e),
            m,
        )) by {
            assert(pass@[m]);
            assert(!taken@[m]);
            if sel@.len() > 0 {
                let t = sel@.len() - 1;
                assert(key_lt(
                    gap_of(cands[sel@[t] as int], ref_e),
                    sel@[t] as int,
                    gap_of(cands[m], ref_e),
                    m,
                ));
            }
        }
    }
    let mut r: Vec<RouteCandidate> = Vec::new();
    let mut t: usize = 0;
    while t < sel.len()
        invariant
            n == cands.len(),
            cands == candidates@,
            gaps@.len() == n,
            forall|j: int| 0 <= j < n ==> #[trigger] gaps@[j] == gap_of(cands[j], ref_effort as int),
            forall|u: int| 0 <= u < sel@.len() ==> (#[trigger] sel@[u]) < n,
            0 <= t <= sel@.len(),
            r@.len() == t,
            forall|u: int|
                0 <= u < t ==> scored_copy(
                    #[trigger] r@[u],
                    cands[sel@[u] as int],
                    gap_of(cands[sel@[u] as int], ref_effort as int),
                ),
        decreases sel@.len() - t,
    {
        let idx = sel[t];
        r.push(scored(&candidates[idx], gaps[idx]));
        t += 1;
    }
    assert(ranked(sel@, cands, ref_effort as int, max_ppm, k as int));
    r
}

pub open spec fn inside(route: RouteCandidate, bbox: BoundingBox) -> bool {
    forall|j: int|
        0 <= j < route.route.points@.len() ==> bbox.spec_contains(
            (#[trigger] route.route.points@[j]).lat as int,
            route.route.points@[j].lon as int,
        )
}

/// The routes, in order, whose every point lies inside the box.
pub open spec fn inside_only(s: Seq<RouteCandidate>, bbox: BoundingBox) -> Seq<RouteCandidate>
    decreases s.len(),
{
    if s.len() == 0 {
        s
    } else {
        let f = inside_only(s.drop_last(), bbox);
        if inside(s.last(), bbox) {
            f.push(s.last())
        } else {
            f
        }
    }
}

/// Box filtering keeps exactly the routes with every point inside: each
/// kept route lies inside, and each route of the input that lies inside is
/// kept.
pub proof fn lemma_bbox_filter(s: Seq<RouteCandidate>, b: BoundingBox)
    ensures
        forall|j: int|
            0 <= j < inside_only(s, b).len() ==> inside(#[trigger] inside_only(s, b)[j], b)
                && s.contains(inside_only(s, b)[j]),
        forall|i: int| 0 <= i < s.len() && inside(#[trigger] s[i], b) ==> inside_only(s, b).contains(s[i]),
    decreases s.len(),
{
    if s.len() > 0 {
        lemma_bbox_filter(s.drop_last(), b);
        let f = inside_only(s.drop_last(), b);
        assert forall|j: int| 0 <= j < inside_only(s, b).len() implies inside(
            #[trigger] inside_only(s, b)[j],
            b,
        ) && s.contains(inside_only(s, b)[j]) by {
            if j < f.len() {
                assert(inside_only(s, b)[j] == f[j]);
                let w = choose|w: int| 0 <= w < s.drop_last().len() && s.drop_last()[w] == f[j];
                assert(s[w] == f[j]);
            } else {
                assert(s[s.len() - 1] == s.last());
            }
        }
        assert forall|i: int| 0 <= i < s.len() && inside(#[trigger] s[i], b) implies inside_only(
            s,
            b,
        ).contains(s[i]) by {
            if i < s.len() - 1 {
                assert(s.drop_last()[i] == s[i]);
                assert(f.contains(s[i]));
                let w = choose|w: int| 0 <= w < f.len() && f[w] == s[i];
                assert(inside_only(s, b)[w] == s[i]);
            } else {
                let g = inside_only(s, b);
                assert(g[g.len() - 1] == s[i]);
            }
        }
    }
}

fn route_inside(route: &RouteCandidate, bbox: &BoundingBox) -> (r: bool)
    ensures
        r == inside(*route, *bbox),
{
    let points = &route.route.points;
    let mut j: usize = 0;
    while j < points.len()
        invariant
            points@ == route.route.points@,
            0 <= j <= points@.len(),
            forall|m: int| 0 <= m < j ==> bbox.spec_contains(
                (#[trigger] points@[m]).lat as int,
                points@[m].lon as int,
            ),
        decreases points@.len() - j,
    {
        if !bbox.contains(points[j].lat, points[j].lon) {
            return false;
        }
        j += 1;
    }
    true
}

/// Keeps the routes whose every point lies inside the box, in order.
pub fn filter_routes_by_bbox(routes: Vec<RouteCandidate>, bbox: &BoundingBox) -> (r: Vec<
    RouteCandidate,
>)
    ensures
        r@ == inside_only(routes@, *bbox),
{
    let ghost all = routes@;
    let mut rest = routes;
    let mut r: Vec<RouteCandidate> = Vec::new();
    let mut i: usize = 0;
    let n = rest.len();
    while rest.len() > 0
        invariant
            n == all.len(),
            rest@.len() + i == n,
            rest@ == all.skip(i as int),
            r@ == inside_only(all.take(i as int), *bbox),
        decreases rest@.len(),
    {
        let route = rest.remove(0);
        assert(rest@ =~= all.skip(i + 1));
        assert(route == all[i as int]);
        assert(all.take(i + 1).drop_last() =~= all.take(i as int));
        if route_inside(&route, bbox) {
            r.push(route);
        }
        i += 1;
    }
    assert(all.take(n as int) =~= all);
    r
}

} // verus!
