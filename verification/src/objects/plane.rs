//! Whether a ray hits the square tile, and which of its two colours a
//! point of it has.

use vstd::prelude::*;
use crate::single::{above, below, low_bits, floor_of, greater, less, magnitude, floor_to_i32};

verus! {

/// The square that the tile covers, by the least and greatest coordinate
/// along each of its two axes.
pub struct Footprint {
    pub x_low: u32,
    pub x_high: u32,
    pub z_low: u32,
    pub z_high: u32,
}

/// Whether the point `(x, z)` lies strictly inside the footprint.
pub open spec fn within(f: Footprint, x: u32, z: u32) -> bool {
    below(f.x_low, x) && below(x, f.x_high) && below(f.z_low, z) && below(z, f.z_high)
}

/// Whether a ray whose direction has the height `dir_y`, and which meets
/// the tile's plane at the distance `d` in the point `(x, z)`, hits the
/// tile: it must not run along the plane, the plane must lie ahead beyond
/// the threshold, and the point must lie inside the footprint.
pub open spec fn hits(dir_y: u32, d: u32, x: u32, z: u32, f: Footprint, eps: u32) -> bool {
    above((low_bits(dir_y) as u32), eps) && above(d, eps) && within(f, x, z)
}

/// The distance at which the ray hits the tile, or nothing.
pub fn intersect(dir_y: u32, d: u32, x: u32, z: u32, f: &Footprint, eps: u32) -> (hit: Option<u32>)
    ensures
        hit == if hits(dir_y, d, x, z, *f, eps) {
            Some(d)
        } else {
            None
        },
{
    if greater(magnitude(dir_y), eps) {
        let x_bounds = less(f.x_low, x) && less(x, f.x_high);
        let z_bounds = less(f.z_low, z) && less(z, f.z_high);
        if greater(d, eps) && x_bounds && z_bounds {
            return Some(d);
        }
    }
    None
}

/// A ray that meets the plane ahead, inside the footprint, hits the tile
/// at that distance.
pub proof fn lemma_inside_footprint_hits(dir_y: u32, d: u32, x: u32, z: u32, f: Footprint, eps: u32)
    requires
        above((low_bits(dir_y) as u32), eps),
        above(d, eps),
        within(f, x, z),
    ensures
        hits(dir_y, d, x, z, f, eps),
{
}

/// A ray that meets the plane at or beyond an edge of the footprint
/// misses the tile, whatever its distance.
pub proof fn lemma_beyond_footprint_misses(
    dir_y: u32,
    d: u32,
    x: u32,
    z: u32,
    f: Footprint,
    eps: u32,
)
    requires
        !below(x, f.x_high) || !below(f.x_low, x) || !below(z, f.z_high) || !below(f.z_low, z),
    ensures
        !hits(dir_y, d, x, z, f, eps),
{
}

/// Whether a cell of the pattern has the first colour: the cell's number,
/// taken with the bits 1 and 32 alone, is 1.
pub open spec fn first_colour(cell: i32) -> bool {
    cell & 33 == 1
}

/// Whether the point of the tile whose coordinates have the product
/// `product` has the first colour of the pattern.
pub fn checker(product: u32) -> (first: bool)
    ensures
        first == first_colour(floor_of(product) as i32),
{
    let cell = floor_to_i32(product);
    cell & 33 == 1
}

} // verus!
