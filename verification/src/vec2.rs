//! A plain two-dimensional vector in fixed-point curve space.

use vstd::prelude::*;
use crate::units::KNOT_BOUND;

verus! {

/// A point or offset in curve space, in fixed-point units.
#[derive(Clone, Copy, Debug, PartialEq, Eq, Structural)]
pub struct Vec2 {
    pub x: i64,
    pub y: i64,
}

impl Vec2 {
    pub fn new(x: i64, y: i64) -> (v: Vec2)
        ensures
            v.x == x,
            v.y == y,
    {
        Vec2 { x, y }
    }
}

/// Both components within the coordinate bound that keeps curve arithmetic
/// free of overflow.
pub open spec fn vec_in_bounds(v: Vec2) -> bool {
    &&& -KNOT_BOUND <= v.x <= KNOT_BOUND
    &&& -KNOT_BOUND <= v.y <= KNOT_BOUND
}

} // verus!
