//! Effort distance (distance plus 1 km per 100 m of climbing) and the
//! effort gap on which route similarity rests.
use vstd::prelude::*;
use crate::geometry::abs;

verus! {

/// Largest distance or gain magnitude accepted, in millimetres.
pub const EFFORT_INPUT_LIMIT: i64 = 100_000_000_000_000_000;

/// Effort distance in millimetres: the distance plus ten times the gain.
pub open spec fn effort(distance_mm: int, gain_mm: int) -> int {
    distance_mm + gain_mm * 10
}

pub open spec fn effort_input_ok(distance_mm: int, gain_mm: int) -> bool {
    -EFFORT_INPUT_LIMIT <= distance_mm <= EFFORT_INPUT_LIMIT && -EFFORT_INPUT_LIMIT <= gain_mm
        <= EFFORT_INPUT_LIMIT
}

/// Effort distance of a route, in millimetres.
pub fn calculate_itra_effort(distance_mm: i64, elevation_gain_mm: i64) -> (r: i64)
    requires
        effort_input_ok(distance_mm as int, elevation_gain_mm as int),
    ensures
        r == effort(distance_mm as int, elevation_gain_mm as int),
{
    distance_mm + elevation_gain_mm * 10
}

/// How far a candidate's effort distance lies from a reference's. The
/// similarity score is `exp(-5 * effort_gap / reference_effort)`: 1 exactly
/// when the gap is 0, smaller as the relative gap grows.
#[derive(Clone, Copy, Debug, PartialEq, Eq)]
pub struct Similarity {
    pub effort_gap: i64,
    pub reference_effort: i64,
}

impl Similarity {
    /// The candidate's effort distance equals the reference's.
    pub fn is_exact(&self) -> (r: bool)
        ensures
            r == (self.effort_gap == 0),
    {
        self.effort_gap == 0
    }

    pub open spec fn spec_closer(self, other: Similarity) -> bool {
        self.effort_gap * other.reference_effort < other.effort_gap * self.reference_effort
    }

    /// The relative gap of `self` is smaller than that of `other` (so its
    /// score is higher), for positive reference efforts.
    pub fn is_closer_than(&self, other: &Similarity) -> (r: bool)
        ensures
            r == self.spec_closer(*other),
    {
        let a = self.effort_gap as i128;
        let b = other.reference_effort as i128;
        let c = other.effort_gap as i128;
        let d = self.reference_effort as i128;
        assert(-0x4000_0000_0000_0000_0000_0000_0000_0000 <= a * b <= 0x4000_0000_0000_0000_0000_0000_0000_0000) by (nonlinear_arith)
            requires
                -0x8000_0000_0000_0000 <= a < 0x8000_0000_0000_0000,
                -0x8000_0000_0000_0000 <= b < 0x8000_0000_0000_0000,
        ;
        assert(-0x4000_0000_0000_0000_0000_0000_0000_0000 <= c * d <= 0x4000_0000_0000_0000_0000_0000_0000_0000) by (nonlinear_arith)
            requires
                -0x8000_0000_0000_0000 <= c < 0x8000_0000_0000_0000,
                -0x8000_0000_0000_0000 <= d < 0x8000_0000_0000_0000,
        ;
        a * b < c * d
    }
}

/// The comparison of a candidate (`cd`, `cg`) with a reference (`rd`, `rg`):
/// none when the reference's effort distance is 0.
pub open spec fn similarity_of(rd: int, rg: int, cd: int, cg: int) -> Option<Similarity> {
    let re = effort(rd, rg);
    if re == 0 {
        None
    } else {
        Some(Similarity { effort_gap: abs(re - effort(cd, cg)) as i64, reference_effort: re as i64 })
    }
}

/// Compares a candidate with a reference by effort distance; `None` when the
/// reference's effort distance is 0.
pub fn calculate_similarity(
    ref_distance: i64,
    ref_elevation_gain: i64,
    cand_distance: i64,
    cand_elevation_gain: i64,
) -> (r: Option<Similarity>)
    requires
        effort_input_ok(ref_distance as int, ref_elevation_gain as int),
        effort_input_ok(cand_distance as int, cand_elevation_gain as int),
    ensures
        r == similarity_of(
            ref_distance as int,
            ref_elevation_gain as int,
            cand_distance as int,
            cand_elevation_gain as int,
        ),
{
    let reference = calculate_itra_effort(ref_distance, ref_elevation_gain);
    let candidate = calculate_itra_effort(cand_distance, cand_elevation_gain);
    if reference == 0 {
        return None;
    }
    let gap = if reference >= candidate {
        reference - candidate
    } else {
        candidate - reference
    };
    Some(Similarity { effort_gap: gap, reference_effort: reference })
}

/// A route compared with itself matches exactly; against one positive
/// reference, one candidate ranks closer than another exactly when its
/// effort gap is smaller, so its score `exp(-5 * gap / reference)` is
/// higher.
pub proof fn lemma_similarity_order(rd: int, rg: int, cd1: int, cg1: int, cd2: int, cg2: int)
    requires
        effort_input_ok(rd, rg),
        effort_input_ok(cd1, cg1),
        effort_input_ok(cd2, cg2),
        effort(rd, rg) > 0,
    ensures
        similarity_of(rd, rg, rd, rg) matches Some(s) && s.effort_gap == 0,
        ({
            let s1 = similarity_of(rd, rg, cd1, cg1)->0;
            let s2 = similarity_of(rd, rg, cd2, cg2)->0;
            s1.spec_closer(s2) <==> s1.effort_gap < s2.effort_gap
        }),
{
    let s1 = similarity_of(rd, rg, cd1, cg1)->0;
    let s2 = similarity_of(rd, rg, cd2, cg2)->0;
    let r = effort(rd, rg);
    assert(s1.reference_effort == r && s2.reference_effort == r);
    if s1.effort_gap < s2.effort_gap {
        assert(s1.effort_gap * r < s2.effort_gap * r) by (nonlinear_arith)
            requires
                s1.effort_gap < s2.effort_gap,
                r > 0,
        ;
    } else {
        assert(s1.effort_gap * r >= s2.effort_gap * r) by (nonlinear_arith)
            requires
                s1.effort_gap >= s2.effort_gap,
                r > 0,
        ;
    }
}

} // verus!
