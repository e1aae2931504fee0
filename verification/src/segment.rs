//! An ephemeral cubic Bezier segment, held as polynomial coefficients, with
//! exact fixed-point evaluation and a Newton inversion that recovers y from x.

use vstd::prelude::*;
use vstd::math::abs;
use crate::units::{div_trunc, div_q, lemma_div_trunc_le, CP_BOUND, SCALE, T_LIMIT};
use crate::vec2::Vec2;

verus! {

/// Largest magnitude `cubic_eval` can reach on well-formed coefficients and a
/// clamped parameter.
pub const EVAL_BOUND: i64 = 35_937 * CP_BOUND;

/// Largest magnitude `vel_eval` can reach on well-formed coefficients and a
/// clamped parameter.
pub const VEL_BOUND: i64 = 6_534 * CP_BOUND;

/// Newton stops once the evaluated x is within this many units of the target.
pub const MAX_ERROR: i64 = 10;

/// Fixed cap on Newton iterations; the inversion is best-effort past it.
pub const MAX_ITERS: u32 = 8;

/// One coordinate of `pos(t) = a + b*t + c*t^2 + d*t^3`, with `t` in `SCALE`
/// units, evaluated by Horner steps that each rescale by one truncating
/// division.
pub open spec fn cubic_eval(a: int, b: int, c: int, d: int, t: int) -> int {
    let h1 = div_trunc(d * t, SCALE as int) + c;
    let h2 = div_trunc(h1 * t, SCALE as int) + b;
    div_trunc(h2 * t, SCALE as int) + a
}

/// One coordinate of the derivative `b + 2*c*t + 3*d*t^2`, in the same units.
pub open spec fn vel_eval(b: int, c: int, d: int, t: int) -> int {
    let v1 = div_trunc(3 * d * t, SCALE as int) + 2 * c;
    div_trunc(v1 * t, SCALE as int) + b
}

/// The Newton parameter kept within its working range.
pub open spec fn clamped(v: int) -> int {
    if v < -T_LIMIT {
        -T_LIMIT as int
    } else if v > T_LIMIT {
        T_LIMIT as int
    } else {
        v
    }
}

/// A cubic polynomial `a + b*t + c*t^2 + d*t^3` over curve-space points,
/// derived from four Bezier control points and rebuilt on every sample.
#[derive(Clone, Copy, Debug, PartialEq, Eq, Structural)]
pub struct CubicSegment {
    pub a: Vec2,
    pub b: Vec2,
    pub c: Vec2,
    pub d: Vec2,
}

/// Coefficient bounds that follow from control points within `CP_BOUND` and
/// keep every evaluation free of overflow.
pub open spec fn coeff_in_bounds(a: i64, b: i64, c: i64, d: i64) -> bool {
    &&& -CP_BOUND <= a <= CP_BOUND
    &&& -6 * CP_BOUND <= b <= 6 * CP_BOUND
    &&& -12 * CP_BOUND <= c <= 12 * CP_BOUND
    &&& -8 * CP_BOUND <= d <= 8 * CP_BOUND
}

/// On well-formed coefficients and a clamped parameter, the polynomial stays
/// within `EVAL_BOUND`.
pub proof fn lemma_cubic_eval_bound(a: int, b: int, c: int, d: int, t: int)
    requires
        -CP_BOUND <= a <= CP_BOUND,
        -6 * CP_BOUND <= b <= 6 * CP_BOUND,
        -12 * CP_BOUND <= c <= 12 * CP_BOUND,
        -8 * CP_BOUND <= d <= 8 * CP_BOUND,
        -T_LIMIT <= t <= T_LIMIT,
    ensures
        -EVAL_BOUND <= cubic_eval(a, b, c, d, t) <= EVAL_BOUND,
{
    let s = SCALE as int;
    assert(-(s * (128 * CP_BOUND)) <= d * t <= s * (128 * CP_BOUND)) by (nonlinear_arith)
        requires
            -8 * CP_BOUND <= d <= 8 * CP_BOUND,
            -T_LIMIT <= t <= T_LIMIT,
            s == SCALE as int,
            T_LIMIT == 16 * SCALE,
            CP_BOUND > 0,
    ;
    lemma_div_trunc_le(d * t, s, 128 * CP_BOUND);
    let h1 = div_trunc(d * t, s) + c;
    assert(-(s * (2240 * CP_BOUND)) <= h1 * t <= s * (2240 * CP_BOUND)) by (nonlinear_arith)
        requires
            -140 * CP_BOUND <= h1 <= 140 * CP_BOUND,
            -T_LIMIT <= t <= T_LIMIT,
            s == SCALE as int,
            T_LIMIT == 16 * SCALE,
            CP_BOUND > 0,
    ;
    lemma_div_trunc_le(h1 * t, s, 2240 * CP_BOUND);
    let h2 = div_trunc(h1 * t, s) + b;
    assert(-(s * (35_936 * CP_BOUND)) <= h2 * t <= s * (35_936 * CP_BOUND)) by (nonlinear_arith)
        requires
            -2246 * CP_BOUND <= h2 <= 2246 * CP_BOUND,
            -T_LIMIT <= t <= T_LIMIT,
            s == SCALE as int,
            T_LIMIT == 16 * SCALE,
            CP_BOUND > 0,
    ;
    lemma_div_trunc_le(h2 * t, s, 35_936 * CP_BOUND);
}

/// On well-formed coefficients and a clamped parameter, the derivative stays
/// within `VEL_BOUND`.
pub proof fn lemma_vel_eval_bound(b: int, c: int, d: int, t: int)
    requires
        -6 * CP_BOUND <= b <= 6 * CP_BOUND,
        -12 * CP_BOUND <= c <= 12 * CP_BOUND,
        -8 * CP_BOUND <= d <= 8 * CP_BOUND,
        -T_LIMIT <= t <= T_LIMIT,
    ensures
        -VEL_BOUND <= vel_eval(b, c, d, t) <= VEL_BOUND,
{
    let s = SCALE as int;
    assert(-(s * (384 * CP_BOUND)) <= 3 * d * t <= s * (384 * CP_BOUND)) by (nonlinear_arith)
        requires
            -8 * CP_BOUND <= d <= 8 * CP_BOUND,
            -T_LIMIT <= t <= T_LIMIT,
            s == SCALE as int,
            T_LIMIT == 16 * SCALE,
            CP_BOUND > 0,
    ;
    lemma_div_trunc_le(3 * d * t, s, 384 * CP_BOUND);
    let v1 = div_trunc(3 * d * t, s) + 2 * c;
    assert(-(s * (6528 * CP_BOUND)) <= v1 * t <= s * (6528 * CP_BOUND)) by (nonlinear_arith)
        requires
            -408 * CP_BOUND <= v1 <= 408 * CP_BOUND,
            -T_LIMIT <= t <= T_LIMIT,
            s == SCALE as int,
            T_LIMIT == 16 * SCALE,
            CP_BOUND > 0,
    ;
    lemma_div_trunc_le(v1 * t, s, 6528 * CP_BOUND);
}

/// One Newton pass from parameter `t` with `fuel` iterations left: evaluate,
/// stop once the x error is within `MAX_ERROR` (converged), on exhausted fuel
/// or a flat tangent (best-effort), else step by the tangent line and recurse
/// with the parameter clamped. Yields (pos x, pos y, converged).
pub open spec fn newton_go(s: CubicSegment, x: int, t: int, fuel: nat) -> (int, int, bool)
    decreases fuel,
{
    let px = cubic_eval(s.a.x as int, s.b.x as int, s.c.x as int, s.d.x as int, t);
    let py = cubic_eval(s.a.y as int, s.b.y as int, s.c.y as int, s.d.y as int, t);
    let err = px - x;
    if abs(err) <= MAX_ERROR {
        (px, py, true)
    } else if fuel <= 1 {
        (px, py, false)
    } else {
        let slope = vel_eval(s.b.x as int, s.c.x as int, s.d.x as int, t);
        if slope == 0 {
            (px, py, false)
        } else {
            let step = if slope > 0 {
                div_trunc(err * SCALE, slope)
            } else {
                -div_trunc(err * SCALE, -slope)
            };
            newton_go(s, x, clamped(t - step), (fuel - 1) as nat)
        }
    }
}

/// The whole inversion: Newton from the initial guess `t = x`, clamped, with
/// `MAX_ITERS` iterations of fuel.
pub open spec fn newton_result(s: CubicSegment, x: int) -> (int, int, bool) {
    newton_go(s, x, clamped(x), MAX_ITERS as nat)
}

/// A converged inversion really is within tolerance of the target x.
pub proof fn lemma_newton_converged(s: CubicSegment, x: int, t: int, fuel: nat)
    ensures
        newton_go(s, x, t, fuel).2 ==> abs(newton_go(s, x, t, fuel).0 - x) <= MAX_ERROR,
    decreases fuel,
{
    let px = cubic_eval(s.a.x as int, s.b.x as int, s.c.x as int, s.d.x as int, t);
    let err = px - x;
    if abs(err) <= MAX_ERROR || fuel <= 1 {
    } else {
        let slope = vel_eval(s.b.x as int, s.c.x as int, s.d.x as int, t);
        if slope != 0 {
            let step = if slope > 0 {
                div_trunc(err * SCALE, slope)
            } else {
                -div_trunc(err * SCALE, -slope)
            };
            lemma_newton_converged(s, x, clamped(t - step), (fuel - 1) as nat);
        }
    }
}

impl CubicSegment {
    /// Coefficients within the bounds that `from_bezier_points` establishes.
    pub open spec fn wf(self) -> bool {
        &&& coeff_in_bounds(self.a.x, self.b.x, self.c.x, self.d.x)
        &&& coeff_in_bounds(self.a.y, self.b.y, self.c.y, self.d.y)
    }

    /// Instantaneous position of a point at parametric value `t`.
    pub fn position(&self, t: i64) -> (pos: Vec2)
        requires
            self.wf(),
            -T_LIMIT <= t <= T_LIMIT,
        ensures
            pos.x == cubic_eval(self.a.x as int, self.b.x as int, self.c.x as int,
                self.d.x as int, t as int),
            pos.y == cubic_eval(self.a.y as int, self.b.y as int, self.c.y as int,
                self.d.y as int, t as int),
            -EVAL_BOUND <= pos.x <= EVAL_BOUND,
            -EVAL_BOUND <= pos.y <= EVAL_BOUND,
    {
        let x = eval_cubic(self.a.x, self.b.x, self.c.x, self.d.x, t);
        let y = eval_cubic(self.a.y, self.b.y, self.c.y, self.d.y, t);
        Vec2 { x, y }
    }

    /// Instantaneous velocity of a point at parametric value `t`.
    pub fn velocity(&self, t: i64) -> (vel: Vec2)
        requires
            self.wf(),
            -T_LIMIT <= t <= T_LIMIT,
        ensures
            vel.x == vel_eval(self.b.x as int, self.c.x as int, self.d.x as int, t as int),
            vel.y == vel_eval(self.b.y as int, self.c.y as int, self.d.y as int, t as int),
            -VEL_BOUND <= vel.x <= VEL_BOUND,
            -VEL_BOUND <= vel.y <= VEL_BOUND,
    {
        let x = eval_vel(self.b.x, self.c.x, self.d.x, t);
        let y = eval_vel(self.b.y, self.c.y, self.d.y, t);
        Vec2 { x, y }
    }
}

/// A control-point component small enough for the coefficient derivation.
pub open spec fn cp_in_bounds(v: Vec2) -> bool {
    &&& -CP_BOUND <= v.x <= CP_BOUND
    &&& -CP_BOUND <= v.y <= CP_BOUND
}

/// One row of a characteristic matrix applied to one coordinate of the four
/// control points, scaled by `multiplier`.
pub open spec fn row_dot(row: [i64; 4], v0: i64, v1: i64, v2: i64, v3: i64, multiplier: i64)
    -> int {
    multiplier * (row[0] * v0 + row[1] * v1 + row[2] * v2 + row[3] * v3)
}

/// Exact evaluation of `row_dot` on bounded entries.
fn dot4(row: [i64; 4], v0: i64, v1: i64, v2: i64, v3: i64, multiplier: i64) -> (r: i64)
    requires
        forall|c: int| 0 <= c < 4 ==> -8 <= #[trigger] row[c] <= 8,
        -CP_BOUND <= v0 <= CP_BOUND,
        -CP_BOUND <= v1 <= CP_BOUND,
        -CP_BOUND <= v2 <= CP_BOUND,
        -CP_BOUND <= v3 <= CP_BOUND,
        -8 <= multiplier <= 8,
    ensures
        r == row_dot(row, v0, v1, v2, v3, multiplier),
        -256 * CP_BOUND <= r <= 256 * CP_BOUND,
{
    proof {
        assert(row[0int] == row@[0] && row[1int] == row@[1] && row[2int] == row@[2]
            && row[3int] == row@[3]);
        assert({
            &&& -8 * CP_BOUND <= row@[0] * v0 <= 8 * CP_BOUND
            &&& -8 * CP_BOUND <= row@[1] * v1 <= 8 * CP_BOUND
            &&& -8 * CP_BOUND <= row@[2] * v2 <= 8 * CP_BOUND
            &&& -8 * CP_BOUND <= row@[3] * v3 <= 8 * CP_BOUND
        }) by (nonlinear_arith)
            requires
                -8 <= row@[0] <= 8,
                -8 <= row@[1] <= 8,
                -8 <= row@[2] <= 8,
                -8 <= row@[3] <= 8,
                -CP_BOUND <= v0 <= CP_BOUND,
                -CP_BOUND <= v1 <= CP_BOUND,
                -CP_BOUND <= v2 <= CP_BOUND,
                -CP_BOUND <= v3 <= CP_BOUND,
                CP_BOUND > 0,
        ;
    }
    let sum: i64 = row[0] * v0 + row[1] * v1 + row[2] * v2 + row[3] * v3;
    proof {
        assert(-(256 * CP_BOUND) <= multiplier * sum <= 256 * CP_BOUND) by (nonlinear_arith)
            requires
                -8 <= multiplier <= 8,
                -32 * CP_BOUND <= sum <= 32 * CP_BOUND,
                CP_BOUND > 0,
        ;
    }
    multiplier * sum
}

impl CubicSegment {
    /// The polynomial coefficients: a characteristic matrix, row by row,
    /// applied to the four control points, scaled by `multiplier`.
    fn coefficients(p: [Vec2; 4], multiplier: i64, char_matrix: [[i64; 4]; 4])
        -> (seg: CubicSegment)
        requires
            cp_in_bounds(p@[0]),
            cp_in_bounds(p@[1]),
            cp_in_bounds(p@[2]),
            cp_in_bounds(p@[3]),
            forall|r: int, c: int| 0 <= r < 4 && 0 <= c < 4
                ==> -8 <= #[trigger] char_matrix[r][c] <= 8,
            -8 <= multiplier <= 8,
        ensures
            seg.a.x == row_dot(char_matrix[0], p@[0].x, p@[1].x, p@[2].x, p@[3].x, multiplier),
            seg.a.y == row_dot(char_matrix[0], p@[0].y, p@[1].y, p@[2].y, p@[3].y, multiplier),
            seg.b.x == row_dot(char_matrix[1], p@[0].x, p@[1].x, p@[2].x, p@[3].x, multiplier),
            seg.b.y == row_dot(char_matrix[1], p@[0].y, p@[1].y, p@[2].y, p@[3].y, multiplier),
            seg.c.x == row_dot(char_matrix[2], p@[0].x, p@[1].x, p@[2].x, p@[3].x, multiplier),
            seg.c.y == row_dot(char_matrix[2], p@[0].y, p@[1].y, p@[2].y, p@[3].y, multiplier),
            seg.d.x == row_dot(char_matrix[3], p@[0].x, p@[1].x, p@[2].x, p@[3].x, multiplier),
            seg.d.y == row_dot(char_matrix[3], p@[0].y, p@[1].y, p@[2].y, p@[3].y, multiplier),
    {
        let p0 = p[0];
        let p1 = p[1];
        let p2 = p[2];
        let p3 = p[3];
        let c0 = char_matrix[0];
        let c1 = char_matrix[1];
        let c2 = char_matrix[2];
        let c3 = char_matrix[3];
        let a = Vec2 {
            x: dot4(c0, p0.x, p1.x, p2.x, p3.x, multiplier),
            y: dot4(c0, p0.y, p1.y, p2.y, p3.y, multiplier),
        };
        let b = Vec2 {
            x: dot4(c1, p0.x, p1.x, p2.x, p3.x, multiplier),
            y: dot4(c1, p0.y, p1.y, p2.y, p3.y, multiplier),
        };
        let c = Vec2 {
            x: dot4(c2, p0.x, p1.x, p2.x, p3.x, multiplier),
            y: dot4(c2, p0.y, p1.y, p2.y, p3.y, multiplier),
        };
        let d = Vec2 {
            x: dot4(c3, p0.x, p1.x, p2.x, p3.x, multiplier),
            y: dot4(c3, p0.y, p1.y, p2.y, p3.y, multiplier),
        };
        CubicSegment { a, b, c, d }
    }

    /// Derives the polynomial coefficients from four Bezier control points by
    /// the characteristic matrix
    /// `[[1,0,0,0],[-3,3,0,0],[3,-6,3,0],[-1,3,-3,1]]`.
    pub fn from_bezier_points(control_points: [Vec2; 4]) -> (seg: CubicSegment)
        requires
            cp_in_bounds(control_points@[0]),
            cp_in_bounds(control_points@[1]),
            cp_in_bounds(control_points@[2]),
            cp_in_bounds(control_points@[3]),
        ensures
            seg.a.x == control_points@[0].x,
            seg.a.y == control_points@[0].y,
            seg.b.x == 3 * (control_points@[1].x - control_points@[0].x),
            seg.b.y == 3 * (control_points@[1].y - control_points@[0].y),
            seg.c.x == 3 * (control_points@[2].x - 2 * control_points@[1].x
                + control_points@[0].x),
            seg.c.y == 3 * (control_points@[2].y - 2 * control_points@[1].y
                + control_points@[0].y),
            seg.d.x == control_points@[3].x - 3 * control_points@[2].x
                + 3 * control_points@[1].x - control_points@[0].x,
            seg.d.y == control_points@[3].y - 3 * control_points@[2].y
                + 3 * control_points@[1].y - control_points@[0].y,
            seg.wf(),
    {
        let char_matrix: [[i64; 4]; 4] = [
            [1, 0, 0, 0],
            [-3, 3, 0, 0],
            [3, -6, 3, 0],
            [-1, 3, -3, 1],
        ];
        Self::coefficients(control_points, 1, char_matrix)
    }

    /// Finds y for the given x by Newton's-method inversion of the segment's
    /// x-polynomial, best-effort after `MAX_ITERS` iterations.
    pub fn find_y_given_x(&self, x: i64) -> (y: i64)
        requires
            self.wf(),
            -CP_BOUND <= x <= CP_BOUND,
        ensures
            y == newton_result(*self, x as int).1,
    {
        let (y, _) = self.find_y_given_x_converged(x);
        y
    }

    /// As `find_y_given_x`, but also reports whether the inversion converged:
    /// whether the final position's x lies within `MAX_ERROR` of the target.
    pub fn find_y_given_x_converged(&self, x: i64) -> (r: (i64, bool))
        requires
            self.wf(),
            -CP_BOUND <= x <= CP_BOUND,
        ensures
            r.0 == newton_result(*self, x as int).1,
            r.1 == newton_result(*self, x as int).2,
            r.1 ==> abs(newton_result(*self, x as int).0 - x) <= MAX_ERROR,
    {
        proof {
            lemma_newton_converged(*self, x as int, clamped(x as int), MAX_ITERS as nat);
        }
        let t0 = clamp_param(x as i128);
        let (pos, converged) = self.newton_step(x, t0, MAX_ITERS);
        (pos.y, converged)
    }

    /// One recursive Newton pass, mirroring `newton_go` exactly.
    fn newton_step(&self, x: i64, t: i64, fuel: u32) -> (r: (Vec2, bool))
        requires
            self.wf(),
            -CP_BOUND <= x <= CP_BOUND,
            -T_LIMIT <= t <= T_LIMIT,
            1 <= fuel,
        ensures
            r.0.x == newton_go(*self, x as int, t as int, fuel as nat).0,
            r.0.y == newton_go(*self, x as int, t as int, fuel as nat).1,
            r.1 == newton_go(*self, x as int, t as int, fuel as nat).2,
        decreases fuel,
    {
        let pos = self.position(t);
        let err: i64 = pos.x - x;
        let abs_err: i64 = if err >= 0 { err } else { -err };
        if abs_err <= MAX_ERROR {
            return (pos, true);
        }
        if fuel == 1 {
            return (pos, false);
        }
        let vel = self.velocity(t);
        let slope: i64 = vel.x;
        if slope == 0 {
            return (pos, false);
        }
        proof {
            assert(-((EVAL_BOUND + CP_BOUND) * SCALE) <= err * SCALE
                <= (EVAL_BOUND + CP_BOUND) * SCALE) by (nonlinear_arith)
                requires
                    -(EVAL_BOUND + CP_BOUND) <= err <= EVAL_BOUND + CP_BOUND,
                    SCALE > 0,
            ;
        }
        let num: i128 = (err as i128) * (SCALE as i128);
        let den: i128 = if slope > 0 {
            slope as i128
        } else {
            -(slope as i128)
        };
        proof {
            assert((EVAL_BOUND + CP_BOUND) * SCALE <= den * ((EVAL_BOUND + CP_BOUND) * SCALE))
                by (nonlinear_arith)
                requires
                    1 <= den,
                    0 <= (EVAL_BOUND + CP_BOUND) * SCALE,
            ;
            lemma_div_trunc_le(num as int, den as int, (EVAL_BOUND + CP_BOUND) * SCALE);
        }
        let q: i128 = div_q(num, den);
        let step: i128 = if slope > 0 {
            q
        } else {
            -q
        };
        let t_next: i64 = clamp_param((t as i128) - step);
        self.newton_step(x, t_next, fuel - 1)
    }
}

/// The Newton parameter clamped into its working range.
fn clamp_param(v: i128) -> (r: i64)
    ensures
        r == clamped(v as int),
        -T_LIMIT <= r <= T_LIMIT,
{
    if v < -(T_LIMIT as i128) {
        -T_LIMIT
    } else if v > T_LIMIT as i128 {
        T_LIMIT
    } else {
        v as i64
    }
}

/// Exact evaluation of `cubic_eval` over `i128` intermediates.
fn eval_cubic(a: i64, b: i64, c: i64, d: i64, t: i64) -> (r: i64)
    requires
        coeff_in_bounds(a, b, c, d),
        -T_LIMIT <= t <= T_LIMIT,
    ensures
        r == cubic_eval(a as int, b as int, c as int, d as int, t as int),
        -EVAL_BOUND <= r <= EVAL_BOUND,
{
    proof {
        lemma_cubic_eval_bound(a as int, b as int, c as int, d as int, t as int);
    }
    let s: i128 = SCALE as i128;
    proof {
        assert(-(s * (128 * CP_BOUND)) <= d * t <= s * (128 * CP_BOUND)) by (nonlinear_arith)
            requires
                -8 * CP_BOUND <= d <= 8 * CP_BOUND,
                -T_LIMIT <= t <= T_LIMIT,
                s == SCALE as int,
                T_LIMIT == 16 * SCALE,
                CP_BOUND > 0,
        ;
    }
    let p0: i128 = (d as i128) * (t as i128);
    proof {
        lemma_div_trunc_le(p0 as int, s as int, 128 * CP_BOUND);
    }
    let h1: i128 = div_q(p0, s) + (c as i128);
    proof {
        assert(-(s * (2240 * CP_BOUND)) <= h1 * t <= s * (2240 * CP_BOUND)) by (nonlinear_arith)
            requires
                -140 * CP_BOUND <= h1 <= 140 * CP_BOUND,
                -T_LIMIT <= t <= T_LIMIT,
                s == SCALE as int,
                T_LIMIT == 16 * SCALE,
                CP_BOUND > 0,
        ;
    }
    let p1: i128 = h1 * (t as i128);
    proof {
        lemma_div_trunc_le(p1 as int, s as int, 2240 * CP_BOUND);
    }
    let h2: i128 = div_q(p1, s) + (b as i128);
    proof {
        assert(-(s * (35_936 * CP_BOUND)) <= h2 * t <= s * (35_936 * CP_BOUND))
            by (nonlinear_arith)
            requires
                -2246 * CP_BOUND <= h2 <= 2246 * CP_BOUND,
                -T_LIMIT <= t <= T_LIMIT,
                s == SCALE as int,
                T_LIMIT == 16 * SCALE,
                CP_BOUND > 0,
        ;
    }
    let p2: i128 = h2 * (t as i128);
    proof {
        lemma_div_trunc_le(p2 as int, s as int, 35_936 * CP_BOUND);
    }
    let r: i128 = div_q(p2, s) + (a as i128);
    r as i64
}

/// Exact evaluation of `vel_eval` over `i128` intermediates.
fn eval_vel(b: i64, c: i64, d: i64, t: i64) -> (r: i64)
    requires
        -6 * CP_BOUND <= b <= 6 * CP_BOUND,
        -12 * CP_BOUND <= c <= 12 * CP_BOUND,
        -8 * CP_BOUND <= d <= 8 * CP_BOUND,
        -T_LIMIT <= t <= T_LIMIT,
    ensures
        r == vel_eval(b as int, c as int, d as int, t as int),
        -VEL_BOUND <= r <= VEL_BOUND,
{
    proof {
        lemma_vel_eval_bound(b as int, c as int, d as int, t as int);
    }
    let s: i128 = SCALE as i128;
    proof {
        assert(-(s * (384 * CP_BOUND)) <= 3 * d * t <= s * (384 * CP_BOUND)) by (nonlinear_arith)
            requires
                -8 * CP_BOUND <= d <= 8 * CP_BOUND,
                -T_LIMIT <= t <= T_LIMIT,
                s == SCALE as int,
                T_LIMIT == 16 * SCALE,
                CP_BOUND > 0,
        ;
    }
    let p0: i128 = 3 * (d as i128) * (t as i128);
    proof {
        lemma_div_trunc_le(p0 as int, s as int, 384 * CP_BOUND);
    }
    let v1: i128 = div_q(p0, s) + 2 * (c as i128);
    proof {
        assert(-(s * (6528 * CP_BOUND)) <= v1 * t <= s * (6528 * CP_BOUND)) by (nonlinear_arith)
            requires
                -408 * CP_BOUND <= v1 <= 408 * CP_BOUND,
                -T_LIMIT <= t <= T_LIMIT,
                s == SCALE as int,
                T_LIMIT == 16 * SCALE,
                CP_BOUND > 0,
        ;
    }
    let p1: i128 = v1 * (t as i128);
    proof {
        lemma_div_trunc_le(p1 as int, s as int, 6528 * CP_BOUND);
    }
    let r: i128 = div_q(p1, s) + (b as i128);
    r as i64
}

} // verus!
