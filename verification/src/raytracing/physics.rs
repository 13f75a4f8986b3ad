//! Nearest hit, recursion bound, shadows and the side from which a ray
//! meets a surface.

use vstd::prelude::*;
use crate::single::{
    GREATEST, ZERO, above, below, nan, value, is_negative, clamped, negated, unit, greater, less,
    clamp_unit, negate, sign_negative, lemma_one_is_unit, lemma_below_is_finite,
};

verus! {

/// What a scan over the primitives has found so far: the place of the
/// primitive last taken as nearest, if any, and the distance to beat.
pub struct Scan {
    pub winner: Option<int>,
    pub nearest: u32,
}

/// The scan over the first `k` primitives. `hits[i]` is the distance at
/// which the ray hits primitive `i`, or nothing. The distance to beat
/// starts at the greatest finite one; a hit is taken unless its distance is
/// above the one to beat, so of several at one distance the last is taken.
pub open spec fn scan(hits: Seq<Option<u32>>, k: int) -> Scan
    decreases k,
{
    if k <= 0 {
        Scan { winner: None, nearest: GREATEST }
    } else {
        let before = scan(hits, k - 1);
        match hits[k - 1] {
            Some(d) => if above(d, before.nearest) {
                before
            } else {
                Scan { winner: Some(k - 1), nearest: d }
            },
            None => before,
        }
    }
}

/// What the scene reports for a ray: whether anything is hit within
/// view, the place of the nearest primitive, and its distance.
pub struct Nearest {
    pub hit: bool,
    pub index: Option<usize>,
    pub distance: u32,
}

/// Where every hit is a number, the scan has found the least distance
/// that is not beyond the greatest finite one, at the last place that has
/// it; and it has found nothing only where there is no such distance.
pub proof fn lemma_scan_finds_last_least(hits: Seq<Option<u32>>, k: int)
    requires
        0 <= k <= hits.len(),
        forall|j: int| 0 <= j < k ==> (#[trigger] hits[j] matches Some(d) ==> !nan(d)),
    ensures
        !nan(scan(hits, k).nearest),
        value(scan(hits, k).nearest) <= value(GREATEST),
        scan(hits, k).winner matches Some(i) ==> 0 <= i < k && hits[i] == Some(scan(hits, k).nearest),
        scan(hits, k).winner is None ==> scan(hits, k).nearest == GREATEST,
        forall|j: int|
            0 <= j < k ==> (#[trigger] hits[j] matches Some(d) ==> value(d) >= value(
                scan(hits, k).nearest,
            )),
        forall|j: int|
            0 <= j < k ==> (#[trigger] hits[j] matches Some(d) ==> (scan(hits, k).winner matches Some(
                i,
            ) ==> i < j ==> value(d) > value(scan(hits, k).nearest))),
        forall|j: int|
            0 <= j < k ==> (#[trigger] hits[j] matches Some(d) ==> (scan(hits, k).winner is None
                ==> value(d) > value(GREATEST))),
    decreases k,
{
    assert(!nan(GREATEST)) by {
        assert(crate::single::exponent(GREATEST) == 254);
    }
    if k > 0 {
        lemma_scan_finds_last_least(hits, k - 1);
    }
}

/// Scans the primitives for the nearest hit and reports it as a hit of the
/// scene if its distance is below `limit`, the range of view.
pub fn scene_intersect(hits: &Vec<Option<u32>>, limit: u32) -> (found: Nearest)
    ensures
        found.distance == scan(hits@, hits@.len() as int).nearest,
        found.index is Some <==> scan(hits@, hits@.len() as int).winner is Some,
        found.index matches Some(i) ==> scan(hits@, hits@.len() as int).winner == Some(i as int),
        found.hit == below(found.distance, limit),
{
    let mut index: Option<usize> = None;
    let mut nearest: u32 = GREATEST;
    let mut k: usize = 0;
    while k < hits.len()
        invariant
            0 <= k <= hits@.len(),
            nearest == scan(hits@, k as int).nearest,
            index is Some <==> scan(hits@, k as int).winner is Some,
            index matches Some(i) ==> scan(hits@, k as int).winner == Some(i as int),
        decreases hits@.len() - k,
    {
        match hits[k] {
            Some(d) => {
                if !greater(d, nearest) {
                    nearest = d;
                    index = Some(k);
                }
            },
            None => {},
        }
        k = k + 1;
    }
    Nearest { hit: less(nearest, limit), index, distance: nearest }
}

/// Whether a ray is given the background colour without being shaded: it
/// is deeper than the bound, or it hits nothing.
pub open spec fn ends(depth: int, max_depth: int, hit: bool) -> bool {
    depth > max_depth || !hit
}

/// Whether the ray at `depth` ends in the background colour.
pub fn ray_ends(depth: i32, max_depth: i32, hit: bool) -> (over: bool)
    ensures
        over == ends(depth as int, max_depth as int, hit),
{
    depth > max_depth || !hit
}

/// The rays that a shaded ray at the bound casts on end in the
/// background colour, whatever they hit. With a bound of zero no ray
/// bounces: the branches of every primary ray end so.
pub proof fn lemma_branches_end_at_bound(depth: int, max_depth: int, hit: bool)
    requires
        depth >= max_depth,
    ensures
        ends(depth + 1, max_depth, hit),
{
}

/// Whether a light reaches a point: it does unless the ray from the point
/// towards it hits something at a distance below the light's own.
pub open spec fn reaches(blocked: bool, blocker: u32, light: u32) -> bool {
    !(blocked && below(blocker, light))
}

/// Whether the light at distance `light` adds to the shade of a point,
/// given whether the ray towards it hits anything, and at what distance.
pub fn light_reaches(blocked: bool, blocker: u32, light: u32) -> (lit: bool)
    ensures
        lit == reaches(blocked, blocker, light),
{
    !(blocked && less(blocker, light))
}

/// A primitive between a point and a light takes the light away: where
/// the ray towards the light hits a primitive nearer than the light and
/// within view, the scan reports a hit that the light does not get past.
pub proof fn lemma_blocker_casts_shadow(hits: Seq<Option<u32>>, j: int, limit: u32, light: u32)
    requires
        forall|k: int| 0 <= k < hits.len() ==> (#[trigger] hits[k] matches Some(d) ==> !nan(d)),
        0 <= j < hits.len(),
        hits[j] matches Some(d) && below(d, light) && below(d, limit),
    ensures
        below(scan(hits, hits.len() as int).nearest, limit),
        !reaches(true, scan(hits, hits.len() as int).nearest, light),
{
    lemma_scan_finds_last_least(hits, hits.len() as int);
    lemma_below_is_finite(hits[j]->0, light);
    let found = scan(hits, hits.len() as int);
    assert(hits[j] is Some);
    if found.winner is None {
        assert(false);
    }
}

/// The side from which a ray meets a surface, and the cosine of its angle
/// with the normal on that side.
pub struct Incidence {
    /// The ray comes from inside: normal and refractive indices change places.
    pub inside: bool,
    pub cosine: u32,
}

/// The incidence of a ray, from the product `dot` of its direction with
/// the outward normal. The product is held between minus one and one; the
/// cosine is its negative. A negative cosine means that the ray leaves the
/// medium: seen from the other side the cosine is the product itself.
pub open spec fn incidence_of(dot: u32) -> Incidence {
    if value(clamped(dot)) > 0 {
        Incidence { inside: true, cosine: clamped(dot) }
    } else {
        Incidence { inside: false, cosine: negated(clamped(dot)) }
    }
}

/// Finds the side from which the ray meets the surface. One change of
/// sides is enough: the cosine that comes out is never negative.
pub fn incidence(dot: u32) -> (met: Incidence)
    requires
        !nan(dot),
    ensures
        met == incidence_of(dot),
        !nan(met.cosine),
        0 <= value(met.cosine) <= unit(),
{
    proof {
        lemma_one_is_unit();
    }
    let held = clamp_unit(dot);
    let cosine = negate(held);
    if less(cosine, ZERO) {
        Incidence { inside: true, cosine: held }
    } else {
        Incidence { inside: false, cosine }
    }
}

/// Whether refraction gives way to total internal reflection: the term
/// under the root carries the sign.
pub fn total_reflection(k: u32) -> (total: bool)
    ensures
        total == is_negative(k),
{
    sign_negative(k)
}

} // verus!
