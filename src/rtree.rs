//! Spatial index of path segments: the segments in a vector, their
//! endpoints in one R-tree (rstar) for nearest-neighbour queries and their
//! envelopes in another for box queries.
use vstd::prelude::*;
use vstd::multiset::Multiset;
use crate::geometry::{valid_coord, MAX_SURFACE_MM};

verus! {

/// An R-tree of segment endpoints: each entry is (longitude, latitude,
/// segment index), coordinates in microdegrees.
#[verifier::external_body]
pub struct EndpointTree {
    tree: rstar::RTree<rstar::primitives::GeomWithData<[i64; 2], usize>>,
}

/// The entries an endpoint tree holds.
pub uninterp spec fn endpoint_entries(t: EndpointTree) -> Multiset<(i64, i64, usize)>;

pub open spec fn entry_valid(e: (i64, i64, usize)) -> bool {
    valid_coord(e.1 as int, e.0 as int)
}


/// Squared planar distance from an entry to a query point, as the tree
/// measures it.
pub open spec fn entry_dist2(e: (i64, i64, usize), x: int, y: int) -> int {
    (e.0 - x) * (e.0 - x) + (e.1 - y) * (e.1 - y)
}

/// Relies on rstar's `RTree::bulk_load`: the tree holds exactly the given
/// elements.
#[verifier::external_body]
fn tree_bulk_load(entries: Vec<(i64, i64, usize)>) -> (t: EndpointTree)
    ensures
        endpoint_entries(t) == entries@.to_multiset(),
{
    let items = entries.into_iter().map(|(x, y, i)| rstar::primitives::GeomWithData::new([x, y], i)).collect();
    EndpointTree { tree: rstar::RTree::bulk_load(items) }
}

/// Relies on rstar's `RTree::nearest_neighbor_iter`, which yields all
/// elements by increasing squared distance to the query point; the first
/// `k` are taken.
#[verifier::external_body]
fn tree_nearest(t: &EndpointTree, x: i64, y: i64, k: usize) -> (r: Vec<(i64, i64, usize)>)
    requires
        endpoint_entries(*t).len() > 0,
        forall|e| endpoint_entries(*t).contains(e) ==> entry_valid(e),
        valid_coord(y as int, x as int),
    ensures
        r@.len() == if k < endpoint_entries(*t).len() { k as nat } else { endpoint_entries(*t).len() },
        r@.to_multiset().subset_of(endpoint_entries(*t)),
        k >= endpoint_entries(*t).len() ==> r@.to_multiset() == endpoint_entries(*t),
        forall|i: int, j: int|
            0 <= i < j < r@.len() ==> entry_dist2(r@[i], x as int, y as int) <= entry_dist2(
                r@[j],
                x as int,
                y as int,
            ),
        forall|e: (i64, i64, usize)|
            #[trigger] endpoint_entries(*t).count(e) > r@.to_multiset().count(e) && r@.len() > 0
                ==> entry_dist2(r@.last(), x as int, y as int) <= entry_dist2(e, x as int, y as int),
{
    t.tree.nearest_neighbor_iter([x, y]).take(k).map(|g| (g.geom()[0], g.geom()[1], g.data)).collect()
}

/// An R-tree of segment envelopes: each entry is (smallest longitude,
/// smallest latitude, largest longitude, largest latitude, segment index).
#[verifier::external_body]
pub struct EnvelopeTree {
    tree: rstar::RTree<rstar::primitives::GeomWithData<rstar::primitives::Rectangle<[i64; 2]>, usize>>,
}

/// The entries an envelope tree holds.
pub uninterp spec fn envelope_entries(t: EnvelopeTree) -> Multiset<(i64, i64, i64, i64, usize)>;

pub open spec fn envelope_ordered(e: (i64, i64, i64, i64, usize)) -> bool {
    e.0 <= e.2 && e.1 <= e.3
}

pub open spec fn envelope_valid(e: (i64, i64, i64, i64, usize)) -> bool {
    envelope_ordered(e) && valid_coord(e.1 as int, e.0 as int) && valid_coord(e.3 as int, e.2 as int)
}

/// The envelope of an entry and the box share at least a point.
pub open spec fn envelope_meets(e: (i64, i64, i64, i64, usize), min_x: int, min_y: int, max_x: int, max_y: int) -> bool {
    e.0 <= max_x && e.2 >= min_x && e.1 <= max_y && e.3 >= min_y
}

/// Relies on rstar's `RTree::bulk_load` and `Rectangle::from_corners`: the
/// tree holds exactly the given rectangles, each with its index.
#[verifier::external_body]
fn envelope_bulk_load(entries: Vec<(i64, i64, i64, i64, usize)>) -> (t: EnvelopeTree)
    requires
        forall|j: int| 0 <= j < entries@.len() ==> envelope_ordered(#[trigger] entries@[j]),
    ensures
        envelope_entries(t) == entries@.to_multiset(),
{
    let items = entries.into_iter().map(|(a, b, c, d, i)| rstar::primitives::GeomWithData::new(rstar::primitives::Rectangle::from_corners([a, b], [c, d]), i)).collect();
    EnvelopeTree { tree: rstar::RTree::bulk_load(items) }
}

/// Relies on rstar's `RTree::locate_in_envelope_intersecting`: every element
/// whose envelope meets the box, edges included, each once.
#[verifier::external_body]
fn envelope_intersecting(t: &EnvelopeTree, min_x: i64, min_y: i64, max_x: i64, max_y: i64) -> (r: Vec<(i64, i64, i64, i64, usize)>)
    requires
        envelope_entries(*t).len() > 0,
        forall|e| envelope_entries(*t).contains(e) ==> envelope_valid(e),
        min_x <= max_x,
        min_y <= max_y,
    ensures
        forall|e: (i64, i64, i64, i64, usize)|
            #[trigger] r@.to_multiset().count(e) == if envelope_meets(e, min_x as int, min_y as int, max_x as int, max_y as int) {
                envelope_entries(*t).count(e)
            } else {
                0
            },
{
    let envelope = rstar::AABB::from_corners([min_x, min_y], [max_x, max_y]);
    t.tree.locate_in_envelope_intersecting(envelope).map(|g| {
        let (lo, hi) = (g.geom().lower(), g.geom().upper());
        (lo[0], lo[1], hi[0], hi[1], g.data)
    }).collect()
}

/// A position as (longitude, latitude) in microdegrees.
#[derive(Clone, Copy, Debug, PartialEq, Eq)]
pub struct Coord {
    pub lon: i64,
    pub lat: i64,
}

pub open spec fn coord_dist2(c: Coord, x: int, y: int) -> int {
    (c.lon - x) * (c.lon - x) + (c.lat - y) * (c.lat - y)
}

/// Squared planar distance from a segment's nearer endpoint to a point.
pub open spec fn segment_dist2(s: SpatialSegment, x: int, y: int) -> int {
    let a = coord_dist2(s.start, x, y);
    let b = coord_dist2(s.end, x, y);
    if a <= b {
        a
    } else {
        b
    }
}

/// Largest climb or descent of one segment, in millimetres.
pub const MAX_SEGMENT_CLIMB: i64 = 10_000_000;

/// A directed edge between two consecutive points of a track. Points are
/// (longitude, latitude) in microdegrees; distance and elevations in
/// millimetres.
#[derive(Clone, Debug)]
pub struct SpatialSegment {
    pub id: String,
    pub start: Coord,
    pub end: Coord,
    pub distance_mm: i64,
    pub elevation_gain_mm: i64,
    pub elevation_loss_mm: i64,
}

pub open spec fn valid_segment(s: SpatialSegment) -> bool {
    &&& valid_coord(s.start.lat as int, s.start.lon as int)
    &&& valid_coord(s.end.lat as int, s.end.lon as int)
    &&& 0 <= s.distance_mm <= MAX_SURFACE_MM
    &&& 0 <= s.elevation_gain_mm <= MAX_SEGMENT_CLIMB
    &&& 0 <= s.elevation_loss_mm <= MAX_SEGMENT_CLIMB
}

pub open spec fn all_segments_valid(s: Seq<SpatialSegment>) -> bool {
    forall|i: int| 0 <= i < s.len() ==> valid_segment(#[trigger] s[i])
}

/// The two endpoint entries of every segment, in order.
pub open spec fn endpoint_seq(s: Seq<SpatialSegment>) -> Seq<(i64, i64, usize)> {
    Seq::new(
        2 * s.len(),
        |j: int|
            if j % 2 == 0 {
                (s[j / 2].start.lon, s[j / 2].start.lat, (j / 2) as usize)
            } else {
                (s[j / 2].end.lon, s[j / 2].end.lat, (j / 2) as usize)
            },
    )
}

pub open spec fn min_of(a: i64, b: i64) -> i64 {
    if a <= b {
        a
    } else {
        b
    }
}

pub open spec fn max_of(a: i64, b: i64) -> i64 {
    if a <= b {
        b
    } else {
        a
    }
}

/// The envelope entry of a segment.
pub open spec fn envelope_of(s: SpatialSegment, i: usize) -> (i64, i64, i64, i64, usize) {
    (
        min_of(s.start.lon, s.end.lon),
        min_of(s.start.lat, s.end.lat),
        max_of(s.start.lon, s.end.lon),
        max_of(s.start.lat, s.end.lat),
        i,
    )
}

pub open spec fn envelope_seq(s: Seq<SpatialSegment>) -> Seq<(i64, i64, i64, i64, usize)> {
    Seq::new(s.len(), |i: int| envelope_of(s[i], i as usize))
}

/// A read-only snapshot of indexed segments. Queries return segment
/// positions in the snapshot.
pub struct SpatialIndex {
    segments: Vec<SpatialSegment>,
    tree: Option<EndpointTree>,
    boxes: Option<EnvelopeTree>,
}

impl SpatialIndex {
    pub closed spec fn segment_seq(self) -> Seq<SpatialSegment> {
        self.segments@
    }

    /// The tree holds both endpoints of every segment and nothing else.
    pub closed spec fn wf(self) -> bool {
        &&& all_segments_valid(self.segments@)
        &&& self.segments@.len() <= usize::MAX / 4
        &&& match self.tree {
            None => self.segments@.len() == 0,
            Some(t) => self.segments@.len() > 0 && endpoint_entries(t) == endpoint_seq(
                self.segments@,
            ).to_multiset(),
        }
        &&& match self.boxes {
            None => self.segments@.len() == 0,
            Some(b) => self.segments@.len() > 0 && envelope_entries(b) == envelope_seq(
                self.segments@,
            ).to_multiset(),
        }
    }

    proof fn lemma_envelope_entry(self, e: (i64, i64, i64, i64, usize))
        requires
            self.wf(),
            self.boxes is Some,
            envelope_entries(self.boxes->0).count(e) > 0,
        ensures
            envelope_valid(e),
            (e.4 as int) < self.segments@.len(),
            e == envelope_of(self.segments@[e.4 as int], e.4),
    {
        let s = envelope_seq(self.segments@);
        s.to_multiset_ensures();
        assert(s.contains(e));
        let j = choose|j: int| 0 <= j < s.len() && s[j] == e;
        assert(valid_segment(self.segments@[j]));
    }

    proof fn lemma_entry_valid(self, e: (i64, i64, usize))
        requires
            self.wf(),
            self.tree is Some,
            endpoint_entries(self.tree->0).count(e) > 0,
        ensures
            entry_valid(e),
            (e.2 as int) < self.segments@.len(),
            e.2 as int >= 0,
            (Coord { lon: e.0, lat: e.1 }) == self.segments@[e.2 as int].start || (Coord { lon: e.0, lat: e.1 })
                == self.segments@[e.2 as int].end,
    {
        let s = endpoint_seq(self.segments@);
        s.to_multiset_ensures();
        assert(s.contains(e));
        let j = choose|j: int| 0 <= j < s.len() && s[j] == e;
        assert(valid_segment(self.segments@[j / 2]));
        let seg = self.segments@[j / 2];
        assert(e.2 as int == j / 2);
        if j % 2 == 0 {
            assert(e == (seg.start.lon, seg.start.lat, (j / 2) as usize));
            assert((Coord { lon: e.0, lat: e.1 }) == seg.start);
        } else {
            assert(e == (seg.end.lon, seg.end.lat, (j / 2) as usize));
            assert((Coord { lon: e.0, lat: e.1 }) == seg.end);
        }
    }

    /// Every indexed segment is valid, and the index is far from the
    /// machine's size limit.
    pub proof fn lemma_wf_segments(self)
        requires
            self.wf(),
        ensures
            all_segments_valid(self.segment_seq()),
            self.segment_seq().len() <= usize::MAX / 4,
    {
    }

    /// An empty index.
    pub fn new() -> (r: Self)
        ensures
            r.wf(),
            r.segment_seq().len() == 0,
    {
        SpatialIndex { segments: Vec::new(), tree: None, boxes: None }
    }

    /// Indexes the segments in one bulk load.
    pub fn from_segments(segments: Vec<SpatialSegment>) -> (r: Self)
        requires
            all_segments_valid(segments@),
            segments@.len() <= usize::MAX / 4,
        ensures
            r.wf(),
            r.segment_seq() == segments@,
    {
        if segments.len() == 0 {
            return SpatialIndex { segments, tree: None, boxes: None };
        }
        let mut entries: Vec<(i64, i64, usize)> = Vec::new();
        let mut envelopes: Vec<(i64, i64, i64, i64, usize)> = Vec::new();
        let mut i: usize = 0;
        while i < segments.len()
            invariant
                0 <= i <= segments@.len(),
                segments@.len() <= usize::MAX / 4,
                entries@ == endpoint_seq(segments@.take(i as int)),
                envelopes@ == envelope_seq(segments@.take(i as int)),
            decreases segments@.len() - i,
        {
            let s = &segments[i];
            entries.push((s.start.lon, s.start.lat, i));
            entries.push((s.end.lon, s.end.lat, i));
            let (min_lon, max_lon) = if s.start.lon <= s.end.lon {
                (s.start.lon, s.end.lon)
            } else {
                (s.end.lon, s.start.lon)
            };
            let (min_lat, max_lat) = if s.start.lat <= s.end.lat {
                (s.start.lat, s.end.lat)
            } else {
                (s.end.lat, s.start.lat)
            };
            envelopes.push((min_lon, min_lat, max_lon, max_lat, i));
            assert(entries@ =~= endpoint_seq(segments@.take(i + 1)));
            assert(envelopes@ =~= envelope_seq(segments@.take(i + 1)));
            i += 1;
        }
        assert(segments@.take(segments@.len() as int) =~= segments@);
        let tree = tree_bulk_load(entries);
        let boxes = envelope_bulk_load(envelopes);
        SpatialIndex { segments, tree: Some(tree), boxes: Some(boxes) }
    }

    /// Adds a segment by rebuilding the snapshot with it.
    pub fn insert(&mut self, segment: SpatialSegment)
        requires
            old(self).wf(),
            valid_segment(segment),
            old(self).segment_seq().len() + 1 <= usize::MAX / 4,
        ensures
            final(self).wf(),
            final(self).segment_seq() == old(self).segment_seq().push(segment),
    {
        let mut segments: Vec<SpatialSegment> = Vec::new();
        core::mem::swap(&mut segments, &mut self.segments);
        segments.push(segment);
        *self = SpatialIndex::from_segments(segments);
    }

    /// The indexed segments.
    pub fn segments(&self) -> (r: &Vec<SpatialSegment>)
        ensures
            r@ == self.segment_seq(),
    {
        &self.segments
    }

    /// Segment `i`'s envelope and the box with corners (`lon_a`, `lat_a`)
    /// and (`lon_b`, `lat_b`) share at least a point.
    pub open spec fn meets_box(self, i: int, lon_a: int, lat_a: int, lon_b: int, lat_b: int) -> bool {
        envelope_meets(
            envelope_of(self.segment_seq()[i], i as usize),
            if lon_a <= lon_b { lon_a } else { lon_b },
            if lat_a <= lat_b { lat_a } else { lat_b },
            if lon_a <= lon_b { lon_b } else { lon_a },
            if lat_a <= lat_b { lat_b } else { lat_a },
        )
    }

    /// The segments lying fully or partly inside the box with the given
    /// corners, by their envelopes, each once.
    pub fn query_bbox(&self, lon_a: i64, lat_a: i64, lon_b: i64, lat_b: i64) -> (r: Vec<usize>)
        requires
            self.wf(),
        ensures
            r@.no_duplicates(),
            forall|i: int|
                0 <= i < self.segment_seq().len() ==> (r@.contains(i as usize) <==> self.meets_box(
                    i,
                    lon_a as int,
                    lat_a as int,
                    lon_b as int,
                    lat_b as int,
                )),
            forall|t: int| 0 <= t < r@.len() ==> (#[trigger] r@[t] as int) < self.segment_seq().len(),
    {
        let n = self.segments.len();
        let mut r: Vec<usize> = Vec::new();
        let (min_lon, max_lon) = if lon_a <= lon_b {
            (lon_a, lon_b)
        } else {
            (lon_b, lon_a)
        };
        let (min_lat, max_lat) = if lat_a <= lat_b {
            (lat_a, lat_b)
        } else {
            (lat_b, lat_a)
        };
        let boxes = match &self.boxes {
            Some(b) => b,
            None => {
                return r;
            },
        };
        proof {
            envelope_seq(self.segments@).to_multiset_ensures();
            assert forall|e| envelope_entries(*boxes).contains(e) implies envelope_valid(e) by {
                self.lemma_envelope_entry(e);
            }
        }
        let found = envelope_intersecting(boxes, min_lon, min_lat, max_lon, max_lat);
        let mut seen: Vec<bool> = Vec::new();
        let mut i: usize = 0;
        while i < n
            invariant
                0 <= i <= n,
                seen@.len() == i,
                forall|j: int| 0 <= j < i ==> !#[trigger] seen@[j],
            decreases n - i,
        {
            seen.push(false);
            i += 1;
        }
        let mut k: usize = 0;
        while k < found.len()
            invariant
                self.wf(),
                self.boxes == Some(*boxes),
                n == self.segments@.len(),
                seen@.len() == n,
                0 <= k <= found@.len(),
                r@.no_duplicates(),
                forall|t: int| 0 <= t < r@.len() ==> (#[trigger] r@[t] as int) < n,
                forall|j: int| 0 <= j < n ==> (#[trigger] seen@[j] <==> r@.contains(j as usize)),
                forall|j: int| 0 <= j < n && #[trigger] seen@[j] ==> self.meets_box(
                    j,
                    min_lon as int,
                    min_lat as int,
                    max_lon as int,
                    max_lat as int,
                ),
                forall|m: int| 0 <= m < k ==> ((#[trigger] found@[m]).4 as int) < n && seen@[found@[m].4 as int],
                forall|e: (i64, i64, i64, i64, usize)|
                    #[trigger] found@.to_multiset().count(e) == if envelope_meets(
                        e,
                        min_lon as int,
                        min_lat as int,
                        max_lon as int,
                        max_lat as int,
                    ) {
                        envelope_entries(*boxes).count(e)
                    } else {
                        0
                    },
            decreases found@.len() - k,
        {
            let e = found[k];
            proof {
                found@.to_multiset_ensures();
                assert(found@.contains(e));
                assert(found@.to_multiset().count(e) > 0);
                self.lemma_envelope_entry(e);
            }
            let idx = e.4;
            let ghost before_seen = seen@;
            if !seen[idx] {
                let ghost old_r = r@;
                seen.set(idx, true);
                r.push(idx);
                proof {
                    assert forall|j: int| 0 <= j < n implies (#[trigger] seen@[j] <==> r@.contains(
                        j as usize,
                    )) by {
                        if j == idx {
                            assert(r@[r@.len() - 1] == idx);
                        } else {
                            if r@.contains(j as usize) {
                                let w = choose|w: int| 0 <= w < r@.len() && r@[w] == j as usize;
                                assert(w < old_r.len());
                                assert(old_r.contains(j as usize));
                            }
                            if old_r.contains(j as usize) {
                                let w = choose|w: int| 0 <= w < old_r.len() && old_r[w] == j as usize;
                                assert(r@[w] == j as usize);
                            }
                        }
                    }
                }
            }
            assert forall|m: int| 0 <= m < k + 1 implies ((#[trigger] found@[m]).4 as int) < n
                && seen@[found@[m].4 as int] by {
                if m < k {
                    assert(before_seen[found@[m].4 as int]);
                }
            }
            k += 1;
        }
        proof {
            assert forall|i: int|
                0 <= i < n && self.meets_box(
                    i,
                    min_lon as int,
                    min_lat as int,
                    max_lon as int,
                    max_lat as int,
                ) implies r@.contains(i as usize) by {
                let es = envelope_seq(self.segments@);
                let e = es[i];
                es.to_multiset_ensures();
                assert(es.contains(e));
                found@.to_multiset_ensures();
                assert(found@.to_multiset().count(e) > 0);
                assert(found@.contains(e));
                let m = choose|m: int| 0 <= m < found@.len() && found@[m] == e;
                assert(seen@[i]);
            }
            assert forall|i: int| 0 <= i < n implies (r@.contains(i as usize) <==> self.meets_box(
                i,
                lon_a as int,
                lat_a as int,
                lon_b as int,
                lat_b as int,
            )) by {
                assert(seen@[i] <==> r@.contains(i as usize));
                assert(self.meets_box(i, min_lon as int, min_lat as int, max_lon as int, max_lat as int)
                    == self.meets_box(i, lon_a as int, lat_a as int, lon_b as int, lat_b as int));
            }
        }
        r
    }

    /// Nothing in the tree beyond position `bound` of the nearest-first
    /// listing `near` is nearer than the entry at `bound`.
    proof fn lemma_not_nearer(
        tree: EndpointTree,
        near: Seq<(i64, i64, usize)>,
        x: int,
        y: int,
        e: (i64, i64, usize),
        bound: int,
    )
        requires
            near.to_multiset().subset_of(endpoint_entries(tree)),
            forall|a: int, b: int|
                0 <= a < b < near.len() ==> entry_dist2(near[a], x, y) <= entry_dist2(near[b], x, y),
            forall|f: (i64, i64, usize)|
                #[trigger] endpoint_entries(tree).count(f) > near.to_multiset().count(f) && near.len() > 0
                    ==> entry_dist2(near.last(), x, y) <= entry_dist2(f, x, y),
            endpoint_entries(tree).count(e) > 0,
            0 <= bound < near.len(),
            forall|m: int| 0 <= m < near.len() && near[m] == e ==> m >= bound,
        ensures
            entry_dist2(near[bound], x, y) <= entry_dist2(e, x, y),
    {
        near.to_multiset_ensures();
        if endpoint_entries(tree).count(e) > near.to_multiset().count(e) {
            assert(entry_dist2(near.last(), x, y) <= entry_dist2(e, x, y));
            if bound < near.len() - 1 {
                assert(entry_dist2(near[bound], x, y) <= entry_dist2(near[near.len() - 1], x, y));
            }
        } else {
            assert(near.contains(e));
            let m = choose|m: int| 0 <= m < near.len() && near[m] == e;
            if bound < m {
                assert(entry_dist2(near[bound], x, y) <= entry_dist2(near[m], x, y));
            }
        }
    }

    proof fn lemma_endpoints_in_tree(self, i: int)
        requires
            self.wf(),
            self.tree is Some,
            0 <= i < self.segments@.len(),
        ensures
            endpoint_entries(self.tree->0).count(
                (self.segments@[i].start.lon, self.segments@[i].start.lat, i as usize),
            ) > 0,
            endpoint_entries(self.tree->0).count(
                (self.segments@[i].end.lon, self.segments@[i].end.lat, i as usize),
            ) > 0,
    {
        let es = endpoint_seq(self.segments@);
        es.to_multiset_ensures();
        assert(es[2 * i] == (self.segments@[i].start.lon, self.segments@[i].start.lat, i as usize));
        assert(es[2 * i + 1] == (self.segments@[i].end.lon, self.segments@[i].end.lat, i as usize));
        assert(es.contains(es[2 * i]));
        assert(es.contains(es[2 * i + 1]));
    }

    /// The distinct segments of a nearest-first listing of endpoints, in
    /// order of first appearance, at most `k` of them.
    fn collect_nearest(
        &self,
        tree: &EndpointTree,
        near: &Vec<(i64, i64, usize)>,
        lon: i64,
        lat: i64,
        k: usize,
    ) -> (r: Vec<usize>)
        requires
            self.wf(),
            self.tree == Some(*tree),
            near@.to_multiset().subset_of(endpoint_entries(*tree)),
            forall|a: int, b: int|
                0 <= a < b < near@.len() ==> entry_dist2(near@[a], lon as int, lat as int)
                    <= entry_dist2(near@[b], lon as int, lat as int),
            forall|f: (i64, i64, usize)|
                #[trigger] endpoint_entries(*tree).count(f) > near@.to_multiset().count(f)
                    && near@.len() > 0 ==> entry_dist2(near@.last(), lon as int, lat as int)
                    <= entry_dist2(f, lon as int, lat as int),
        ensures
            r@.no_duplicates(),
            r@.len() <= k,
            forall|t: int| 0 <= t < r@.len() ==> (#[trigger] r@[t] as int) < self.segment_seq().len(),
            k > 0 && near@.len() > 0 ==> r@.len() > 0,
            r@.len() < k ==> forall|q: int| 0 <= q < near@.len() ==> r@.contains((#[trigger] near@[q]).2),
            forall|t1: int, t2: int|
                0 <= t1 < t2 < r@.len() ==> segment_dist2(
                    self.segment_seq()[#[trigger] r@[t1] as int],
                    lon as int,
                    lat as int,
                ) <= segment_dist2(self.segment_seq()[#[trigger] r@[t2] as int], lon as int, lat as int),
            forall|i: int|
                0 <= i < self.segment_seq().len() && !r@.contains(i as usize) && r@.len() > 0
                    ==> segment_dist2(self.segment_seq()[r@.last() as int], lon as int, lat as int)
                    <= segment_dist2(#[trigger] self.segment_seq()[i], lon as int, lat as int),
    {
        let n = self.segments.len();
        let ghost x = lon as int;
        let ghost y = lat as int;
        let mut r: Vec<usize> = Vec::new();
        let mut seen: Vec<bool> = Vec::new();
        let mut i: usize = 0;
        while i < n
            invariant
                0 <= i <= n,
                seen@.len() == i,
                forall|j: int| 0 <= j < i ==> !#[trigger] seen@[j],
            decreases n - i,
        {
            seen.push(false);
            i += 1;
        }
        let ghost mut wit: Seq<int> = Seq::empty();
        let mut m: usize = 0;
        while m < near.len() && r.len() < k
            invariant
                self.wf(),
                self.tree == Some(*tree),
                n == self.segments@.len(),
                seen@.len() == n,
                0 <= m <= near@.len(),
                r@.len() <= k,
                near@.to_multiset().subset_of(endpoint_entries(*tree)),
                r@.no_duplicates(),
                forall|t: int| 0 <= t < r@.len() ==> (#[trigger] r@[t] as int) < n,
                forall|j: int| 0 <= j < n ==> (#[trigger] seen@[j] <==> r@.contains(j as usize)),
                wit.len() == r@.len(),
                forall|t: int|
                    0 <= t < r@.len() ==> 0 <= #[trigger] wit[t] < m && near@[wit[t]].2 == r@[t],
                forall|t: int, q: int|
                    0 <= t < r@.len() && 0 <= q < wit[t] ==> (#[trigger] near@[q]).2 != #[trigger] r@[t],
                forall|t1: int, t2: int| 0 <= t1 < t2 < r@.len() ==> #[trigger] wit[t1] < #[trigger] wit[t2],
                forall|q: int| 0 <= q < m ==> ((#[trigger] near@[q]).2 as int) < n && seen@[near@[q].2 as int],
                m > 0 ==> r@.len() > 0,
            decreases near@.len() - m,
        {
            let e = near[m];
            proof {
                near@.to_multiset_ensures();
                assert(near@.contains(e));
                assert(near@.to_multiset().count(e) > 0);
                assert(endpoint_entries(*tree).count(e) > 0);
                self.lemma_entry_valid(e);
            }
            let idx = e.2;
            let ghost before_seen = seen@;
            if !seen[idx] {
                let ghost old_r = r@;
                let ghost old_seen = seen@;
                seen.set(idx, true);
                r.push(idx);
                proof {
                    assert forall|q: int| 0 <= q < m implies (#[trigger] near@[q]).2 != idx by {
                        assert(old_seen[near@[q].2 as int]);
                    }
                    wit = wit.push(m as int);
                    assert forall|j: int| 0 <= j < n implies (#[trigger] seen@[j] <==> r@.contains(
                        j as usize,
                    )) by {
                        if j == idx {
                            assert(r@[r@.len() - 1] == idx);
                        } else {
                            if r@.contains(j as usize) {
                                let w = choose|w: int| 0 <= w < r@.len() && r@[w] == j as usize;
                                assert(w < old_r.len());
                                assert(old_r.contains(j as usize));
                            }
                            if old_r.contains(j as usize) {
                                let w = choose|w: int| 0 <= w < old_r.len() && old_r[w] == j as usize;
                                assert(r@[w] == j as usize);
                            }
                        }
                    }
                    assert forall|t: int, q: int|
                        0 <= t < r@.len() && 0 <= q < wit[t] implies (#[trigger] near@[q]).2
                        != #[trigger] r@[t] by {
                        if t < old_r.len() {
                            assert(r@[t] == old_r[t]);
                        }
                    }
                }
            }
            assert forall|q: int| 0 <= q < m + 1 implies ((#[trigger] near@[q]).2 as int) < n
                && seen@[near@[q].2 as int] by {
                if q < m {
                    assert(before_seen[near@[q].2 as int]);
                }
            }
            m += 1;
        }
        proof {
            let ss = self.segments@;
            endpoint_seq(ss).to_multiset_ensures();
            assert(endpoint_entries(*tree).len() == 2 * n);
            assert forall|t: int| 0 <= t < r@.len() implies segment_dist2(ss[r@[t] as int], x, y)
                == entry_dist2(#[trigger] near@[wit[t]], x, y) by {
                let e0 = near@[wit[t]];
                near@.to_multiset_ensures();
                assert(near@.contains(e0));
                self.lemma_entry_valid(e0);
                let c = r@[t] as int;
                self.lemma_endpoints_in_tree(c);
                let es = (ss[c].start.lon, ss[c].start.lat, c as usize);
                let ee = (ss[c].end.lon, ss[c].end.lat, c as usize);
                assert forall|q: int| 0 <= q < near@.len() && near@[q] == es implies q >= wit[t] by {
                    if q < wit[t] {
                        assert(near@[q].2 != r@[t]);
                    }
                }
                assert forall|q: int| 0 <= q < near@.len() && near@[q] == ee implies q >= wit[t] by {
                    if q < wit[t] {
                        assert(near@[q].2 != r@[t]);
                    }
                }
                Self::lemma_not_nearer(*tree, near@, x, y, es, wit[t]);
                Self::lemma_not_nearer(*tree, near@, x, y, ee, wit[t]);
            }
            assert forall|t1: int, t2: int|
                0 <= t1 < t2 < r@.len() implies segment_dist2(
                ss[#[trigger] r@[t1] as int],
                x,
                y,
            ) <= segment_dist2(ss[#[trigger] r@[t2] as int], x, y) by {
                assert(wit[t1] < wit[t2]);
                assert(entry_dist2(near@[wit[t1]], x, y) == segment_dist2(ss[r@[t1] as int], x, y));
                assert(entry_dist2(near@[wit[t2]], x, y) == segment_dist2(ss[r@[t2] as int], x, y));
            }
            assert forall|i: int|
                0 <= i < n && !r@.contains(i as usize) && r@.len() > 0 implies segment_dist2(
                ss[r@.last() as int],
                x,
                y,
            ) <= segment_dist2(#[trigger] ss[i], x, y) by {
                let last = r@.len() - 1;
                assert(entry_dist2(near@[wit[last]], x, y) == segment_dist2(ss[r@[last] as int], x, y));
                self.lemma_endpoints_in_tree(i);
                let es = (ss[i].start.lon, ss[i].start.lat, i as usize);
                let ee = (ss[i].end.lon, ss[i].end.lat, i as usize);
                assert(!seen@[i]);
                assert forall|q: int| 0 <= q < near@.len() && near@[q] == es implies q >= wit[last] by {
                    if q < m {
                        assert(seen@[near@[q].2 as int]);
                    }
                }
                assert forall|q: int| 0 <= q < near@.len() && near@[q] == ee implies q >= wit[last] by {
                    if q < m {
                        assert(seen@[near@[q].2 as int]);
                    }
                }
                Self::lemma_not_nearer(*tree, near@, x, y, es, wit[last]);
                Self::lemma_not_nearer(*tree, near@, x, y, ee, wit[last]);
            }
            if r@.len() < k {
                assert(m == near@.len());
                assert forall|q: int| 0 <= q < near@.len() implies r@.contains((#[trigger] near@[q]).2) by {
                    assert(seen@[near@[q].2 as int]);
                }
            }
        }
        r
    }

    /// `r` lists at most `k` distinct segments nearest the point (`x`
    /// longitude, `y` latitude), by the squared distance to the nearer
    /// endpoint, nearest first: `k` of them, or every segment when there are
    /// fewer; every other segment is at least as far as the last one listed.
    #[verifier::opaque]
    pub open spec fn nearest_ok(self, x: int, y: int, k: int, r: Seq<usize>) -> bool {
        &&& r.no_duplicates()
        &&& r.len() <= k
        &&& forall|t: int| 0 <= t < r.len() ==> (#[trigger] r[t] as int) < self.segment_seq().len()
        &&& (r.len() == k || forall|i: usize| (i as int) < self.segment_seq().len() ==> #[trigger] r.contains(i))
        &&& forall|t1: int, t2: int|
            0 <= t1 < t2 < r.len() ==> segment_dist2(self.segment_seq()[#[trigger] r[t1] as int], x, y)
                <= segment_dist2(self.segment_seq()[#[trigger] r[t2] as int], x, y)
        &&& forall|i: int|
            0 <= i < self.segment_seq().len() && !r.contains(i as usize) && r.len() > 0
                ==> segment_dist2(self.segment_seq()[r.last() as int], x, y)
                <= segment_dist2(#[trigger] self.segment_seq()[i], x, y)
    }

    /// Positions of at most `k` distinct segments nearest the point, by the
    /// squared distance to the nearer endpoint, nearest first: `k` of them,
    /// or every segment when there are fewer. Every other segment is at least
    /// as far as the last one returned.
    pub fn nearest_neighbor(&self, lon: i64, lat: i64, k: usize) -> (r: Vec<usize>)
        requires
            self.wf(),
            valid_coord(lat as int, lon as int),
        ensures
            self.nearest_ok(lon as int, lat as int, k as int, r@),
    {
        proof {
            reveal(SpatialIndex::nearest_ok);
        }
        let n = self.segments.len();
        let tree = match &self.tree {
            Some(t) => t,
            None => {
                return Vec::new();
            },
        };
        proof {
            endpoint_seq(self.segments@).to_multiset_ensures();
            assert forall|e| endpoint_entries(*tree).contains(e) implies entry_valid(e) by {
                self.lemma_entry_valid(e);
            }
        }
        let total: usize = 2 * n;
        assert(endpoint_entries(*tree).len() == total);
        let cap: usize = if k <= n {
            k
        } else {
            n
        };
        let want: usize = 2 * cap;
        let near = tree_nearest(tree, lon, lat, want);
        let r = self.collect_nearest(tree, &near, lon, lat, k);
        if r.len() < k && want < total {
            let all = tree_nearest(tree, lon, lat, total);
            let r2 = self.collect_nearest(tree, &all, lon, lat, k);
            proof {
                self.lemma_all_listed(tree, all@, r2@, k);
            }
            return r2;
        }
        proof {
            if r@.len() < k {
                self.lemma_all_listed(tree, near@, r@, k);
            }
        }
        r
    }

    /// When the listing holds every entry and fewer than `k` segments came
    /// out, every segment came out.
    proof fn lemma_all_listed(self, tree: &EndpointTree, near: Seq<(i64, i64, usize)>, r: Seq<usize>, k: usize)
        requires
            self.wf(),
            self.tree == Some(*tree),
            near.to_multiset() == endpoint_entries(*tree),
            r.len() < k ==> forall|q: int| 0 <= q < near.len() ==> r.contains((#[trigger] near[q]).2),
        ensures
            r.len() >= k || forall|i: usize| (i as int) < self.segment_seq().len() ==> #[trigger] r.contains(i),
    {
        if r.len() < k {
            assert forall|i: usize| (i as int) < self.segment_seq().len() implies #[trigger] r.contains(i) by {
                self.lemma_endpoints_in_tree(i as int);
                let es = (self.segments@[i as int].start.lon, self.segments@[i as int].start.lat, i);
                near.to_multiset_ensures();
                assert(near.contains(es));
                let q = choose|q: int| 0 <= q < near.len() && near[q] == es;
                assert(r.contains(near[q].2));
            }
        }
    }
}

} // verus!
