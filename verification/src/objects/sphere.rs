//! Which root of the ray-sphere quadratic counts as the hit.

use vstd::prelude::*;
use crate::single::{above, greater};

verus! {

/// The root that counts, given the squared distance `d2` of the centre
/// from the ray, the squared radius `r2`, the near root `t0`, the far
/// root `t1` and the threshold `eps`.
///
/// A ray that passes further from the centre than the radius misses. Of
/// the two roots the near one counts if it lies beyond the threshold; the
/// far one only if the near one does not, which is so when the ray starts
/// inside the sphere.
pub open spec fn root_of(d2: u32, r2: u32, t0: u32, t1: u32, eps: u32) -> Option<u32> {
    if above(d2, r2) {
        None
    } else if above(t0, eps) {
        Some(t0)
    } else if above(t1, eps) {
        Some(t1)
    } else {
        None
    }
}

/// The distance at which the ray hits the sphere, or nothing.
pub fn intersect(d2: u32, r2: u32, t0: u32, t1: u32, eps: u32) -> (hit: Option<u32>)
    ensures
        hit == root_of(d2, r2, t0, t1, eps),
        hit matches Some(t) ==> above(t, eps) && (t == t0 || t == t1),
{
    if greater(d2, r2) {
        return None;
    }
    if greater(t0, eps) {
        return Some(t0);
    }
    if greater(t1, eps) {
        return Some(t1);
    }
    None
}

/// A ray that starts outside the sphere and points at it hits at the
/// near root: the ray passes within the radius, and the near root lies
/// ahead beyond the threshold.
pub proof fn lemma_ray_from_outside_hits_near_root(d2: u32, r2: u32, t0: u32, t1: u32, eps: u32)
    requires
        !above(d2, r2),
        above(t0, eps),
    ensures
        root_of(d2, r2, t0, t1, eps) == Some(t0),
{
}

/// Whatever distance counts lies beyond the threshold: no ray hits the
/// surface that it has just left.
pub proof fn lemma_root_beyond_threshold(d2: u32, r2: u32, t0: u32, t1: u32, eps: u32)
    ensures
        root_of(d2, r2, t0, t1, eps) matches Some(t) ==> above(t, eps),
{
}

} // verus!
