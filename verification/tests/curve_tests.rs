use lookup_curve::curve::LookupCurve;
use lookup_curve::knot::{Knot, KnotInterpolation};
use lookup_curve::units::{KNOT_BOUND, SCALE};
use lookup_curve::vec2::Vec2;

fn knot(x: i64, y: i64, interpolation: KnotInterpolation, id: usize) -> Knot {
    Knot {
        position: Vec2 { x, y },
        interpolation,
        id,
        ..Knot::default()
    }
}

#[test]
fn empty_curve_returns_zero() {
    let curve = LookupCurve::new(Vec::new());
    assert_eq!(curve.find_y_given_x(0), 0);
    assert_eq!(curve.find_y_given_x(-123_456_789), 0);
    assert_eq!(curve.find_y_given_x(987_654_321), 0);
}

#[test]
fn single_knot_flat_everywhere() {
    // A single knot at (5, 3) answers 3 for every x, near or far.
    let curve = LookupCurve::new(vec![knot(5 * SCALE, 3 * SCALE, KnotInterpolation::Linear, 1)]);
    assert_eq!(curve.find_y_given_x(-100 * SCALE), 3 * SCALE);
    assert_eq!(curve.find_y_given_x(100 * SCALE), 3 * SCALE);
    assert_eq!(curve.find_y_given_x(5 * SCALE), 3 * SCALE);
}

#[test]
fn two_linear_knots_midpoint() {
    // Knots (0, 0) and (1, 1): the curve at 0.5 is 0.5.
    let curve = LookupCurve::new(vec![
        knot(0, 0, KnotInterpolation::Linear, 1),
        knot(SCALE, SCALE, KnotInterpolation::Linear, 2),
    ]);
    assert_eq!(curve.find_y_given_x(SCALE / 2), SCALE / 2);
}

#[test]
fn two_constant_knots_hold_first_value() {
    // Constant knots (0, 1) and (2, 5): the curve at 1.0 still answers 1.
    let curve = LookupCurve::new(vec![
        knot(0, SCALE, KnotInterpolation::Constant, 1),
        knot(2 * SCALE, 5 * SCALE, KnotInterpolation::Constant, 2),
    ]);
    assert_eq!(curve.find_y_given_x(SCALE), SCALE);
    assert_eq!(curve.find_y_given_x(2 * SCALE - 1), SCALE);
    assert_eq!(curve.find_y_given_x(2 * SCALE), 5 * SCALE);
}

#[test]
fn linear_interpolation_truncates_toward_zero() {
    // Knots (0, 0) and (3, 10) in raw units: at x = 1 the exact value 10/3
    // truncates to 3.
    let curve = LookupCurve::new(vec![
        knot(0, 0, KnotInterpolation::Linear, 1),
        knot(3, 10, KnotInterpolation::Linear, 2),
    ]);
    assert_eq!(curve.find_y_given_x(1), 3);
}

#[test]
fn flat_extrapolation_outside_range() {
    let curve = LookupCurve::new(vec![
        knot(0, 7 * SCALE, KnotInterpolation::Linear, 1),
        knot(SCALE, 9 * SCALE, KnotInterpolation::Linear, 2),
    ]);
    assert_eq!(curve.find_y_given_x(-SCALE), 7 * SCALE);
    assert_eq!(curve.find_y_given_x(10 * SCALE), 9 * SCALE);
}

#[test]
fn endpoint_exactness_on_linear_curve() {
    let curve = LookupCurve::new(vec![
        knot(0, 11, KnotInterpolation::Linear, 1),
        knot(SCALE, -17, KnotInterpolation::Linear, 2),
        knot(3 * SCALE, 23, KnotInterpolation::Linear, 3),
    ]);
    assert_eq!(curve.find_y_given_x(0), 11);
    assert_eq!(curve.find_y_given_x(SCALE), -17);
    assert_eq!(curve.find_y_given_x(3 * SCALE), 23);
}

#[test]
fn construction_sorts_by_x() {
    let curve = LookupCurve::new(vec![
        knot(2 * SCALE, 1, KnotInterpolation::Linear, 1),
        knot(-SCALE, 2, KnotInterpolation::Linear, 2),
        knot(SCALE, 3, KnotInterpolation::Linear, 3),
        knot(0, 4, KnotInterpolation::Linear, 4),
    ]);
    let knots = curve.knots();
    assert_eq!(knots.len(), 4);
    for w in knots.windows(2) {
        assert!(w[0].position.x <= w[1].position.x);
    }
    assert_eq!(knots[0].id, 2);
    assert_eq!(knots[1].id, 4);
    assert_eq!(knots[2].id, 3);
    assert_eq!(knots[3].id, 1);
}

#[test]
fn construction_sort_is_stable_on_equal_x() {
    let curve = LookupCurve::new(vec![
        knot(SCALE, 1, KnotInterpolation::Linear, 10),
        knot(0, 2, KnotInterpolation::Linear, 20),
        knot(SCALE, 3, KnotInterpolation::Linear, 30),
        knot(SCALE, 4, KnotInterpolation::Linear, 40),
    ]);
    let knots = curve.knots();
    assert_eq!(knots[0].id, 20);
    assert_eq!(knots[1].id, 10);
    assert_eq!(knots[2].id, 30);
    assert_eq!(knots[3].id, 40);
}

#[test]
fn modify_knot_in_place_keeps_index_and_others() {
    let mut curve = LookupCurve::new(vec![
        knot(0, 0, KnotInterpolation::Linear, 1),
        knot(SCALE, 5, KnotInterpolation::Linear, 2),
        knot(2 * SCALE, 9, KnotInterpolation::Linear, 3),
    ]);
    let mut v = knot(SCALE, 5, KnotInterpolation::Constant, 2);
    v.id = 99;
    let new_i = curve.modify_knot(1, &v);
    assert_eq!(new_i, 1);
    let knots = curve.knots();
    assert_eq!(knots[0].id, 1);
    assert_eq!(knots[1].id, 99);
    assert_eq!(knots[2].id, 3);
    assert!(matches!(knots[1].interpolation, KnotInterpolation::Constant));
}

#[test]
fn modify_knot_reindexes_when_crossing_neighbors() {
    let mut curve = LookupCurve::new(vec![
        knot(0, 1, KnotInterpolation::Linear, 1),
        knot(SCALE, 2, KnotInterpolation::Linear, 2),
        knot(2 * SCALE, 3, KnotInterpolation::Linear, 3),
        knot(3 * SCALE, 4, KnotInterpolation::Linear, 4),
    ]);
    // Move the knot at index 1 past the next two neighbors.
    let v = knot(5 * SCALE, 2, KnotInterpolation::Linear, 2);
    let new_i = curve.modify_knot(1, &v);
    assert_eq!(new_i, 3);
    let knots = curve.knots();
    assert_eq!(knots.len(), 4);
    for w in knots.windows(2) {
        assert!(w[0].position.x <= w[1].position.x);
    }
    assert_eq!(knots[3].position.x, 5 * SCALE);
    assert_eq!(knots[3].id, 2);
    assert_eq!(knots[0].id, 1);
    assert_eq!(knots[1].id, 3);
    assert_eq!(knots[2].id, 4);

    // And back below the first knot.
    let w = knot(-SCALE, 2, KnotInterpolation::Linear, 2);
    let back_i = curve.modify_knot(3, &w);
    assert_eq!(back_i, 0);
    let knots = curve.knots();
    assert_eq!(knots[0].id, 2);
    assert_eq!(knots[0].position.x, -SCALE);
}

#[test]
fn delete_knot_shrinks_by_one_and_keeps_order() {
    let mut curve = LookupCurve::new(vec![
        knot(0, 1, KnotInterpolation::Linear, 1),
        knot(SCALE, 2, KnotInterpolation::Linear, 2),
        knot(2 * SCALE, 3, KnotInterpolation::Linear, 3),
    ]);
    curve.delete_knot(1);
    let knots = curve.knots();
    assert_eq!(knots.len(), 2);
    assert_eq!(knots[0].id, 1);
    assert_eq!(knots[1].id, 3);
}

#[test]
fn linear_interpolation_at_coordinate_extremes() {
    let curve = LookupCurve::new(vec![
        knot(-KNOT_BOUND, -KNOT_BOUND, KnotInterpolation::Linear, 1),
        knot(KNOT_BOUND, KNOT_BOUND, KnotInterpolation::Linear, 2),
    ]);
    assert_eq!(curve.find_y_given_x(0), 0);
    assert_eq!(curve.find_y_given_x(KNOT_BOUND / 2), KNOT_BOUND / 2);
    assert_eq!(curve.find_y_given_x(-2 * KNOT_BOUND), -KNOT_BOUND);
}

#[test]
fn default_knot_values() {
    let k = Knot::default();
    assert_eq!(k.position, Vec2 { x: 0, y: 0 });
    assert!(matches!(k.interpolation, KnotInterpolation::Linear));
    assert_eq!(k.id, 0);
    assert_eq!(k.right_tangent, Vec2 { x: SCALE / 10, y: 0 });
    assert_eq!(k.left_tangent, Vec2 { x: -SCALE / 10, y: 0 });
}
