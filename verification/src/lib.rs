//! A single-valued 2D lookup curve: given an x, it returns one y, using a
//! small ordered list of control points ("knots") interpolated by per-segment
//! rules (constant, linear, or cubic Bezier).
//!
//! Curve space is measured in fixed-point units: `units::SCALE` units make up
//! one curve-space unit, so every coordinate, tangent and tolerance is an
//! integer and every operation is exact and verified.

pub mod curve;
pub mod knot;
pub mod segment;
pub mod units;
pub mod vec2;
