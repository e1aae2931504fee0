use lookup_curve::curve::LookupCurve;
use lookup_curve::knot::{Knot, KnotInterpolation};
use lookup_curve::segment::{CubicSegment, MAX_ERROR};
use lookup_curve::units::SCALE;
use lookup_curve::vec2::Vec2;

fn symmetric_segment() -> CubicSegment {
    // A gentle S-shaped segment from (0, 0) to (1, 1) whose tangents stay
    // well away from vertical.
    CubicSegment::from_bezier_points([
        Vec2 { x: 0, y: 0 },
        Vec2 { x: SCALE / 4, y: 0 },
        Vec2 { x: 3 * SCALE / 4, y: SCALE },
        Vec2 { x: SCALE, y: SCALE },
    ])
}

#[test]
fn bezier_coefficients_match_characteristic_matrix() {
    let seg = symmetric_segment();
    // a = p0, b = 3(p1 - p0), c = 3(p2 - 2 p1 + p0), d = p3 - 3 p2 + 3 p1 - p0.
    assert_eq!(seg.a, Vec2 { x: 0, y: 0 });
    assert_eq!(seg.b, Vec2 { x: 750_000, y: 0 });
    assert_eq!(seg.c, Vec2 { x: 750_000, y: 3_000_000 });
    assert_eq!(seg.d, Vec2 { x: -500_000, y: -2_000_000 });
}

#[test]
fn position_hits_the_segment_ends() {
    let seg = symmetric_segment();
    assert_eq!(seg.position(0), Vec2 { x: 0, y: 0 });
    assert_eq!(seg.position(SCALE), Vec2 { x: SCALE, y: SCALE });
}

#[test]
fn velocity_at_zero_is_the_leading_tangent() {
    let seg = symmetric_segment();
    assert_eq!(seg.velocity(0), seg.b);
}

#[test]
fn newton_inversion_converges_on_tame_segment() {
    let seg = symmetric_segment();
    let (y, converged) = seg.find_y_given_x_converged(SCALE / 2);
    assert!(converged);
    // The segment is symmetric about its midpoint, where x and y are 0.5.
    assert_eq!(y, SCALE / 2);
    for x in [SCALE / 10, SCALE / 3, 7 * SCALE / 10, 9 * SCALE / 10] {
        let (_, converged) = seg.find_y_given_x_converged(x);
        assert!(converged, "no convergence at x = {}", x);
    }
    assert!(MAX_ERROR < SCALE);
}

#[test]
fn flat_tangent_guard_reports_no_convergence() {
    // All four control points on one spot: x velocity is identically zero, so
    // the inversion stops with a best-effort answer instead of diverging.
    let p = Vec2 { x: 0, y: 0 };
    let seg = CubicSegment::from_bezier_points([p, p, p, p]);
    let (y, converged) = seg.find_y_given_x_converged(SCALE);
    assert!(!converged);
    assert_eq!(y, 0);
}

#[test]
fn curve_samples_bezier_segment() {
    // The same S-shaped segment reached through a curve: tangents a quarter
    // unit long and horizontal.
    let a = Knot {
        position: Vec2 { x: 0, y: 0 },
        interpolation: KnotInterpolation::Bezier,
        id: 1,
        left_tangent: Vec2 { x: -SCALE / 4, y: 0 },
        right_tangent: Vec2 { x: SCALE / 4, y: 0 },
    };
    let b = Knot {
        position: Vec2 { x: SCALE, y: SCALE },
        interpolation: KnotInterpolation::Linear,
        id: 2,
        left_tangent: Vec2 { x: -SCALE / 4, y: 0 },
        right_tangent: Vec2 { x: SCALE / 4, y: 0 },
    };
    let curve = LookupCurve::new(vec![a, b]);
    assert_eq!(curve.find_y_given_x(SCALE / 2), SCALE / 2);
    let quarter = curve.find_y_given_x(SCALE / 4);
    assert!(quarter < SCALE / 4, "the easing curve starts below the diagonal");
}

#[test]
fn tangent_correction_zeroes_wrong_sign() {
    let mut k = Knot::default();
    k.left_tangent = Vec2 { x: 500, y: 77 };
    let c = k.left_tangent_corrected(None);
    assert_eq!(c, Vec2 { x: 0, y: 77 });

    k.right_tangent = Vec2 { x: -500, y: -33 };
    let c = k.right_tangent_corrected(None);
    assert_eq!(c, Vec2 { x: 0, y: -33 });
}

#[test]
fn tangent_correction_rescales_overreach() {
    // A right tangent of (4, 2) against a neighbor one unit away is clamped
    // to exactly reach it, keeping the slope: (1, 0.5).
    let mut k = Knot::default();
    k.position = Vec2 { x: 0, y: 0 };
    k.right_tangent = Vec2 { x: 4 * SCALE, y: 2 * SCALE };
    let mut next = Knot::default();
    next.position = Vec2 { x: SCALE, y: 0 };
    let c = k.right_tangent_corrected(Some(&next));
    assert_eq!(c, Vec2 { x: SCALE, y: SCALE / 2 });

    // Mirror case on the left.
    let mut m = Knot::default();
    m.position = Vec2 { x: SCALE, y: 0 };
    m.left_tangent = Vec2 { x: -4 * SCALE, y: 2 * SCALE };
    let mut prev = Knot::default();
    prev.position = Vec2 { x: 0, y: 0 };
    let c = m.left_tangent_corrected(Some(&prev));
    assert_eq!(c, Vec2 { x: -SCALE, y: SCALE / 2 });
}

#[test]
fn tangent_within_reach_is_unchanged() {
    let mut k = Knot::default();
    k.position = Vec2 { x: 0, y: 0 };
    k.right_tangent = Vec2 { x: SCALE / 2, y: 123 };
    let mut next = Knot::default();
    next.position = Vec2 { x: SCALE, y: 0 };
    assert_eq!(k.right_tangent_corrected(Some(&next)), Vec2 { x: SCALE / 2, y: 123 });
}
