//! Control points of the curve, and the tangent correction that keeps a
//! Bezier segment's x-component monotonic between two knots.

use vstd::prelude::*;
use crate::units::{div_trunc, lemma_div_trunc_le, KNOT_BOUND};
use crate::vec2::{vec_in_bounds, Vec2};

verus! {

/// Interpolation used between a knot and the next one.
#[derive(Clone, Copy, Debug, PartialEq, Eq, Structural)]
pub enum KnotInterpolation {
    Constant,
    Linear,
    Bezier,
}

/// A control point of the curve.
#[derive(Clone, Copy, Debug, PartialEq, Eq, Structural)]
pub struct Knot {
    /// The position of this knot in curve space.
    pub position: Vec2,
    /// Interpolation used between this and the next knot.
    pub interpolation: KnotInterpolation,
    /// Identifier used by callers because the index might change during modification.
    pub id: usize,
    /// Left tangent relative to the knot position; x above 0 reads as 0.
    pub left_tangent: Vec2,
    /// Right tangent relative to the knot position; x below 0 reads as 0.
    pub right_tangent: Vec2,
}

/// Position and both tangents within the coordinate bound.
pub open spec fn knot_in_bounds(k: Knot) -> bool {
    &&& vec_in_bounds(k.position)
    &&& vec_in_bounds(k.left_tangent)
    &&& vec_in_bounds(k.right_tangent)
}

/// The value behind an optional reference.
pub open spec fn deref_opt(o: Option<&Knot>) -> Option<Knot> {
    match o {
        Some(k) => Some(*k),
        None => None,
    }
}

/// Effective left tangent of `k` against its previous knot, as an (x, y)
/// pair: a non-negative raw x reads as 0, and a reach past the previous knot
/// is rescaled to end exactly on it, preserving the tangent's slope.
pub open spec fn corrected_left(k: Knot, prev: Option<Knot>) -> (int, int) {
    if k.left_tangent.x >= 0 {
        (0int, k.left_tangent.y as int)
    } else {
        match prev {
            Some(p) => {
                let min_x = p.position.x - k.position.x;
                if k.left_tangent.x < min_x {
                    (min_x, div_trunc(k.left_tangent.y * -min_x, -k.left_tangent.x))
                } else {
                    (k.left_tangent.x as int, k.left_tangent.y as int)
                }
            },
            None => (k.left_tangent.x as int, k.left_tangent.y as int),
        }
    }
}

/// Effective right tangent of `k` against its next knot, mirroring
/// `corrected_left`: a non-positive raw x reads as 0, and a reach past the
/// next knot is rescaled to end exactly on it.
pub open spec fn corrected_right(k: Knot, next: Option<Knot>) -> (int, int) {
    if k.right_tangent.x <= 0 {
        (0int, k.right_tangent.y as int)
    } else {
        match next {
            Some(n) => {
                let max_x = n.position.x - k.position.x;
                if k.right_tangent.x > max_x {
                    (max_x, div_trunc(k.right_tangent.y * max_x, k.right_tangent.x as int))
                } else {
                    (k.right_tangent.x as int, k.right_tangent.y as int)
                }
            },
            None => (k.right_tangent.x as int, k.right_tangent.y as int),
        }
    }
}

/// The corrected left tangent reaches at most twice the coordinate bound in x
/// and never grows in y beyond the raw tangent's bound.
pub proof fn lemma_corrected_left_bounds(k: Knot, prev: Option<Knot>)
    requires
        knot_in_bounds(k),
        prev is Some ==> knot_in_bounds(prev->0) && prev->0.position.x <= k.position.x,
    ensures
        -2 * KNOT_BOUND <= corrected_left(k, prev).0 <= KNOT_BOUND,
        -KNOT_BOUND <= corrected_left(k, prev).1 <= KNOT_BOUND,
{
    if k.left_tangent.x < 0 && prev is Some {
        let p = prev->0;
        let min_x = p.position.x - k.position.x;
        if k.left_tangent.x < min_x {
            let m = -min_x;
            let l = -k.left_tangent.x;
            assert(0 <= m <= l);
            assert(-(l * KNOT_BOUND) <= k.left_tangent.y * m <= l * KNOT_BOUND)
                by (nonlinear_arith)
                requires
                    0 <= m <= l,
                    -KNOT_BOUND <= k.left_tangent.y <= KNOT_BOUND,
            ;
            lemma_div_trunc_le(k.left_tangent.y * m, l, KNOT_BOUND as int);
        }
    }
}

/// Mirror of `lemma_corrected_left_bounds` for the right tangent.
pub proof fn lemma_corrected_right_bounds(k: Knot, next: Option<Knot>)
    requires
        knot_in_bounds(k),
        next is Some ==> knot_in_bounds(next->0) && next->0.position.x >= k.position.x,
    ensures
        -KNOT_BOUND <= corrected_right(k, next).0 <= 2 * KNOT_BOUND,
        -KNOT_BOUND <= corrected_right(k, next).1 <= KNOT_BOUND,
{
    if k.right_tangent.x > 0 && next is Some {
        let n = next->0;
        let max_x = n.position.x - k.position.x;
        if k.right_tangent.x > max_x {
            let r = k.right_tangent.x as int;
            assert(0 <= max_x < r);
            assert(-(r * KNOT_BOUND) <= k.right_tangent.y * max_x <= r * KNOT_BOUND)
                by (nonlinear_arith)
                requires
                    0 <= max_x < r,
                    -KNOT_BOUND <= k.right_tangent.y <= KNOT_BOUND,
            ;
            lemma_div_trunc_le(k.right_tangent.y * max_x, r, KNOT_BOUND as int);
        }
    }
}

/// The tangent clamp law: a non-negative raw left-tangent x reads as exactly
/// 0, and a reach past the previous knot is clamped to land exactly on it.
pub proof fn lemma_tangent_clamp(k: Knot, prev: Option<Knot>)
    requires
        prev is Some ==> prev->0.position.x <= k.position.x,
    ensures
        k.left_tangent.x >= 0 ==> corrected_left(k, prev).0 == 0,
        prev is Some && k.left_tangent.x < prev->0.position.x - k.position.x
            ==> corrected_left(k, prev).0 == prev->0.position.x - k.position.x,
{
}

impl Knot {
    /// Returns the left tangent of this knot, corrected between the previous
    /// knot and this one, so that the curve never goes backwards in x.
    pub fn left_tangent_corrected(&self, prev_knot: Option<&Knot>) -> (r: Vec2)
        requires
            knot_in_bounds(*self),
            prev_knot is Some ==> knot_in_bounds(*prev_knot->0)
                && prev_knot->0.position.x <= self.position.x,
        ensures
            r.x == corrected_left(*self, deref_opt(prev_knot)).0,
            r.y == corrected_left(*self, deref_opt(prev_knot)).1,
            -2 * KNOT_BOUND <= r.x <= KNOT_BOUND,
            -KNOT_BOUND <= r.y <= KNOT_BOUND,
    {
        proof {
            lemma_corrected_left_bounds(*self, deref_opt(prev_knot));
        }
        if self.left_tangent.x >= 0 {
            return Vec2 { x: 0, y: self.left_tangent.y };
        }

        if let Some(prev_knot) = prev_knot {
            let min_x = prev_knot.position.x - self.position.x;
            if self.left_tangent.x < min_x {
                proof {
                    assert(-(2 * KNOT_BOUND * KNOT_BOUND) <= self.left_tangent.y * (-min_x)
                        <= 2 * KNOT_BOUND * KNOT_BOUND)
                        by (nonlinear_arith)
                        requires
                            -KNOT_BOUND <= self.left_tangent.y <= KNOT_BOUND,
                            0 <= -min_x <= 2 * KNOT_BOUND,
                    ;
                }
                let num: i128 = (self.left_tangent.y as i128) * (-(min_x as i128));
                let den: i128 = -(self.left_tangent.x as i128);
                let y = crate::units::div_q(num, den);
                return Vec2 { x: min_x, y: y as i64 };
            }
        }

        self.left_tangent
    }

    /// Returns the right tangent of this knot, corrected between the next
    /// knot and this one, so that the curve never goes backwards in x.
    pub fn right_tangent_corrected(&self, next_knot: Option<&Knot>) -> (r: Vec2)
        requires
            knot_in_bounds(*self),
            next_knot is Some ==> knot_in_bounds(*next_knot->0)
                && next_knot->0.position.x >= self.position.x,
        ensures
            r.x == corrected_right(*self, deref_opt(next_knot)).0,
            r.y == corrected_right(*self, deref_opt(next_knot)).1,
            -KNOT_BOUND <= r.x <= 2 * KNOT_BOUND,
            -KNOT_BOUND <= r.y <= KNOT_BOUND,
    {
        proof {
            lemma_corrected_right_bounds(*self, deref_opt(next_knot));
        }
        if self.right_tangent.x <= 0 {
            return Vec2 { x: 0, y: self.right_tangent.y };
        }

        if let Some(next_knot) = next_knot {
            let max_x = next_knot.position.x - self.position.x;
            if self.right_tangent.x > max_x {
                proof {
                    assert(-(2 * KNOT_BOUND * KNOT_BOUND) <= self.right_tangent.y * max_x
                        <= 2 * KNOT_BOUND * KNOT_BOUND)
                        by (nonlinear_arith)
                        requires
                            -KNOT_BOUND <= self.right_tangent.y <= KNOT_BOUND,
                            0 <= max_x <= 2 * KNOT_BOUND,
                    ;
                }
                let num: i128 = (self.right_tangent.y as i128) * (max_x as i128);
                let den: i128 = self.right_tangent.x as i128;
                let y = crate::units::div_q(num, den);
                return Vec2 { x: max_x, y: y as i64 };
            }
        }

        self.right_tangent
    }
}

impl Default for Knot {
    /// A knot at the origin with linear interpolation and short horizontal
    /// tangents of a tenth of a curve-space unit.
    fn default() -> (k: Self)
        ensures
            k.position.x == 0 && k.position.y == 0,
            k.interpolation is Linear,
            k.id == 0,
            k.right_tangent.x == 100_000 && k.right_tangent.y == 0,
            k.left_tangent.x == -100_000 && k.left_tangent.y == 0,
            knot_in_bounds(k),
    {
        Self {
            position: Vec2 { x: 0, y: 0 },
            interpolation: KnotInterpolation::Linear,
            id: 0,
            right_tangent: Vec2 { x: 100_000, y: 0 },
            left_tangent: Vec2 { x: -100_000, y: 0 },
        }
    }
}

} // verus!
