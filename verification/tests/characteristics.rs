use flo_curves::geo::Coord2;
use flo_curves::characteristics::{CurveCategory, characterize_cubic_bezier, characterize_curve, canonical_curve_transform, to_canonical_curve};
use flo_curves::curve::Curve;

#[test]
fn canonical_curve_coeffs_are_valid_1() {
    // Mapping the three control points via the affine transform should leave them at (0,0), (0,1) and (1,1)
    let w1 = Coord2(1, 1);
    let w2 = Coord2(2, 3);
    let w3 = Coord2(5, 2);

    let t = canonical_curve_transform(&w1, &w2, &w3).unwrap();
    let (a, b, c, d, e, f) = (t.a as f64, t.b as f64, t.c as f64, t.d as f64, t.e as f64, t.f as f64);
    let denom = t.denom as f64;
    let (a, b, c, d, e, f) = (a / denom, b / denom, c / denom, d / denom, e / denom, f / denom);

    let (w1x, w1y) = (w1.x() as f64, w1.y() as f64);
    let (w2x, w2y) = (w2.x() as f64, w2.y() as f64);
    let (w3x, w3y) = (w3.x() as f64, w3.y() as f64);

    let w1_new_x = w1x * a + w1y * b + c;
    let w1_new_y = w1x * d + w1y * e + f;
    let w2_new_x = w2x * a + w2y * b + c;
    let w2_new_y = w2x * d + w2y * e + f;
    let w3_new_x = w3x * a + w3y * b + c;
    let w3_new_y = w3x * d + w3y * e + f;

    assert!((w1_new_x - 0.0).abs() < 0.0001);
    assert!((w1_new_y - 0.0).abs() < 0.0001);

    assert!((w2_new_x - 0.0).abs() < 0.0001);
    assert!((w2_new_y - 1.0).abs() < 0.0001);

    assert!((w3_new_x - 1.0).abs() < 0.0001);
    assert!((w3_new_y - 1.0).abs() < 0.0001);
}

#[test]
fn detect_loop_1() {
    let w1 = Coord2(148, 151);
    let w2 = Coord2(292, 199);
    let w3 = Coord2(73, 221);
    let w4 = Coord2(249, 136);

    assert!(characterize_cubic_bezier(&w1, &w2, &w3, &w4) == CurveCategory::Loop);
}

#[test]
fn detect_loop_2() {
    let w1 = Coord2(161, 191);
    let w2 = Coord2(292, 199);
    let w3 = Coord2(73, 221);
    let w4 = Coord2(249, 136);

    assert!(characterize_cubic_bezier(&w1, &w2, &w3, &w4) == CurveCategory::Loop);
}

#[test]
fn detect_loop_3() {
    let w1 = Coord2(205, 159);
    let w2 = Coord2(81, 219);
    let w3 = Coord2(287, 227);
    let w4 = Coord2(205, 159);

    assert!(characterize_cubic_bezier(&w1, &w2, &w3, &w4) == CurveCategory::Loop);
}

#[test]
fn not_loop_1() {
    let w1 = Coord2(219, 173);
    let w2 = Coord2(292, 199);
    let w3 = Coord2(73, 221);
    let w4 = Coord2(249, 136);

    assert!(characterize_cubic_bezier(&w1, &w2, &w3, &w4) == CurveCategory::Arch);
}

#[test]
fn not_loop_2() {
    let w1 = Coord2(286, 101);
    let w2 = Coord2(292, 199);
    let w3 = Coord2(73, 221);
    let w4 = Coord2(249, 136);

    assert!(characterize_cubic_bezier(&w1, &w2, &w3, &w4) == CurveCategory::Arch);
}

#[test]
fn not_loop_3() {
    let w1 = Coord2(205, 159);
    let w2 = Coord2(81, 219);
    let w3 = Coord2(287, 227);
    let w4 = Coord2(206, 159);

    assert!(characterize_cubic_bezier(&w1, &w2, &w3, &w4) == CurveCategory::Arch);
}

#[test]
fn not_loop_4() {
    let w1 = Coord2(215, 214);
    let w2 = Coord2(123, 129);
    let w3 = Coord2(72, 92);
    let w4 = Coord2(48, 77);

    assert!(characterize_cubic_bezier(&w1, &w2, &w3, &w4) != CurveCategory::Loop);
}

#[test]
fn not_loop_5() {
    let w1 = Coord2(215, 214);
    let w2 = Coord2(123, 129);
    let w3 = Coord2(72, 92);
    let w4 = Coord2(48, 77);

    assert!(characterize_cubic_bezier(&w4, &w3, &w2, &w1) != CurveCategory::Loop);
}

#[test]
fn cusp_1() {
    let w1 = Coord2(55, 200);
    let w2 = Coord2(287, 227);
    let w3 = Coord2(55, 227);
    let w4 = Coord2(287, 200);

    assert!(characterize_cubic_bezier(&w1, &w2, &w3, &w4) == CurveCategory::Cusp);
}

#[test]
fn single_inflection_1() {
    let w1 = Coord2(278, 260);
    let w2 = Coord2(292, 199);
    let w3 = Coord2(73, 221);
    let w4 = Coord2(249, 136);

    assert!(characterize_cubic_bezier(&w1, &w2, &w3, &w4) == CurveCategory::SingleInflectionPoint);
}

#[test]
fn arch_1() {
    let w1 = Coord2(65, 146);
    let w2 = Coord2(95, 213);
    let w3 = Coord2(249, 218);
    let w4 = Coord2(256, 181);

    assert!(characterize_cubic_bezier(&w1, &w2, &w3, &w4) == CurveCategory::Arch);
}

#[test]
fn arch_2() {
    let w1 = Coord2(11, 143);
    let w2 = Coord2(156, 261);
    let w3 = Coord2(23, 278);
    let w4 = Coord2(24, 200);

    assert!(characterize_cubic_bezier(&w1, &w2, &w3, &w4) == CurveCategory::Arch);
}

#[test]
fn double_inflection_1() {
    let w1 = Coord2(56, 162);
    let w2 = Coord2(238, 232);
    let w3 = Coord2(108, 233);
    let w4 = Coord2(329, 129);

    assert!(characterize_cubic_bezier(&w1, &w2, &w3, &w4) == CurveCategory::DoubleInflectionPoint);
}

#[test]
fn degenerate_single_point() {
    let w1 = Coord2(56, 162);
    let w2 = Coord2(56, 162);
    let w3 = Coord2(56, 162);
    let w4 = Coord2(56, 162);

    assert!(characterize_cubic_bezier(&w1, &w2, &w3, &w4) == CurveCategory::Point);
}

#[test]
fn degenerate_horizontal_line() {
    let w1 = Coord2(56, 162);
    let w2 = Coord2(64, 162);
    let w3 = Coord2(72, 162);
    let w4 = Coord2(128, 162);

    assert!(characterize_cubic_bezier(&w1, &w2, &w3, &w4) == CurveCategory::Linear);
}

#[test]
fn degenerate_horizontal_line_overlapping_control_points() {
    let w1 = Coord2(56, 162);
    let w2 = Coord2(64, 162);
    let w3 = Coord2(64, 162);
    let w4 = Coord2(128, 162);

    assert!(characterize_cubic_bezier(&w1, &w2, &w3, &w4) == CurveCategory::Linear);
}

#[test]
fn degenerate_line_only_two_control_points() {
    let w1 = Coord2(56, 162);
    let w2 = Coord2(56, 162);
    let w3 = Coord2(56, 162);
    let w4 = Coord2(128, 162);

    assert!(characterize_cubic_bezier(&w1, &w2, &w3, &w4) == CurveCategory::Linear);
}

#[test]
fn degenerate_line_overlapping_all_control_points() {
    let w1 = Coord2(518, 765);
    let w2 = Coord2(518, 765);
    let w3 = Coord2(163, 611);
    let w4 = Coord2(163, 611);

    assert!(characterize_cubic_bezier(&w1, &w2, &w3, &w4) == CurveCategory::Linear);
}

#[test]
fn degenerate_cubic_curve() {
    let w1 = Coord2(56, 162);
    let w2 = Coord2(72, 172);
    let w3 = Coord2(72, 172);
    let w4 = Coord2(128, 162);

    assert!(characterize_cubic_bezier(&w1, &w2, &w3, &w4) == CurveCategory::DoubleInflectionPoint);
}

#[test]
fn degenerate_needs_reversal() {
    let w1 = Coord2(55, 200);
    let w2 = Coord2(131, 200);
    let w3 = Coord2(290, 200);
    let w4 = Coord2(290, 95);

    assert!(characterize_cubic_bezier(&w1, &w2, &w3, &w4) == CurveCategory::SingleInflectionPoint);
}
#[test]
fn exact_canonical_point_of_loop() {
    // (148,151), (292,199), (73,221): divisor is 22*(-144) - (-219)*(-48) = -13680
    let p = to_canonical_curve(&Coord2(148, 151), &Coord2(292, 199), &Coord2(73, 221), &Coord2(249, 136)).unwrap();
    assert_eq!(p.denom, 13680);
    assert_eq!(p.x_num, -(48 * 101 + (-144) * (-15)));
    assert_eq!(p.y_num, -((-22) * 101 + (-219) * (-15)));
}

#[test]
fn collinear_first_points_have_no_canonical_form() {
    assert!(canonical_curve_transform(&Coord2(0, 0), &Coord2(1, 1), &Coord2(5, 5)).is_none());
    assert!(to_canonical_curve(&Coord2(0, 0), &Coord2(1, 1), &Coord2(5, 5), &Coord2(3, 9)).is_none());
}

#[test]
fn canonical_point_three_zero_is_on_the_cusp_line() {
    // w1 = (0,0), w2 = (0,1), w3 = (1,1) is already canonical; the point (3, 0) has delta = 0 and x > 1
    let c = characterize_cubic_bezier(&Coord2(0, 0), &Coord2(0, 1), &Coord2(1, 1), &Coord2(3, 0));
    assert_eq!(c, CurveCategory::Arch);
}

#[test]
fn cusp_inside_curve() {
    // x = 1, y = 1/2 gives delta = 1 - 2 + 2 - 3 = -2: use x = -1, y = 0: delta = 1 + 2 - 3 = 0, x <= 1
    let c = characterize_cubic_bezier(&Coord2(0, 0), &Coord2(0, 1), &Coord2(1, 1), &Coord2(-1, 0));
    assert_eq!(c, CurveCategory::Cusp);
}

#[test]
fn cusp_outside_curve_is_arch() {
    // delta = x^2 - 2x + 4y - 3 = 0 with x = 3, y = 0 is parabolic; x = 5, y = -3 gives delta = 0 and x > 1
    let c = characterize_cubic_bezier(&Coord2(0, 0), &Coord2(0, 1), &Coord2(1, 1), &Coord2(5, -3));
    assert_eq!(c, CurveCategory::Arch);
}

#[test]
fn characterize_curve_matches_control_points() {
    let curve = Curve::from_points(Coord2(148, 151), (Coord2(292, 199), Coord2(73, 221)), Coord2(249, 136));
    assert_eq!(characterize_curve(&curve), CurveCategory::Loop);
}

#[test]
fn translation_keeps_category() {
    let shift = |c: Coord2| Coord2(c.x() + 1000, c.y() - 700);
    let (w1, w2, w3, w4) = (Coord2(56, 162), Coord2(238, 232), Coord2(108, 233), Coord2(329, 129));
    assert_eq!(
        characterize_cubic_bezier(&shift(w1), &shift(w2), &shift(w3), &shift(w4)),
        characterize_cubic_bezier(&w1, &w2, &w3, &w4)
    );
}

#[test]
fn near_collinear_far_points_count_as_linear() {
    // w2 == w3; w4 is about 0.0009 away from the line from w1 to w3, within SMALL_DISTANCE
    let w1 = Coord2(0, 0);
    let w3 = Coord2(2000, 1);
    let w4 = Coord2(4001, 2);
    assert_eq!(characterize_cubic_bezier(&w1, &w3, &w3, &w4), CurveCategory::Linear);
    let w4_off = Coord2(4000, 5);
    assert_eq!(characterize_cubic_bezier(&w1, &w3, &w3, &w4_off), CurveCategory::DoubleInflectionPoint);
}

#[test]
fn category_is_unchanged_by_an_affine_map() {
    // A loop, and its image under (x, y) -> (2x + y + 7, x - 3y - 4)
    let w = [Coord2(0, 0), Coord2(0, 100), Coord2(100, 100), Coord2(0, 50)];
    let map = |p: Coord2| Coord2(2 * p.0 + p.1 + 7, p.0 - 3 * p.1 - 4);
    let v = [map(w[0]), map(w[1]), map(w[2]), map(w[3])];
    assert_eq!(characterize_cubic_bezier(&w[0], &w[1], &w[2], &w[3]), CurveCategory::Loop);
    assert_eq!(characterize_cubic_bezier(&v[0], &v[1], &v[2], &v[3]), CurveCategory::Loop);

    let p = to_canonical_curve(&w[0], &w[1], &w[2], &w[3]).unwrap();
    let q = to_canonical_curve(&v[0], &v[1], &v[2], &v[3]).unwrap();
    // The determinant of the map is -7: the parts are multiplied by 7
    assert_eq!((q.x_num, q.y_num, q.denom), (7 * p.x_num, 7 * p.y_num, 7 * p.denom));
}

#[test]
fn category_can_depend_on_the_direction_a_curve_is_traced() {
    // Canonical point (0.1, 0.99): an arch one way, a double inflection the other way
    let (w1, w2, w3, w4) = (Coord2(0, 0), Coord2(0, 100), Coord2(100, 100), Coord2(10, 99));
    assert_eq!(characterize_cubic_bezier(&w1, &w2, &w3, &w4), CurveCategory::Arch);
    assert_eq!(characterize_cubic_bezier(&w4, &w3, &w2, &w1), CurveCategory::DoubleInflectionPoint);
}

#[test]
fn loop_is_a_loop_in_either_direction() {
    let (w1, w2, w3, w4) = (Coord2(0, 0), Coord2(0, 100), Coord2(100, 100), Coord2(0, 50));
    assert_eq!(characterize_cubic_bezier(&w1, &w2, &w3, &w4), CurveCategory::Loop);
    assert_eq!(characterize_cubic_bezier(&w4, &w3, &w2, &w1), CurveCategory::Loop);
}

#[test]
fn canonical_point_is_unchanged_by_a_rational_affine_map() {
    // The image of a loop under (x, y) -> ((x - y) / 2, (x + y) / 2)
    let w = [Coord2(0, 0), Coord2(0, 100), Coord2(100, 100), Coord2(0, 50)];
    let v = [Coord2(0, 0), Coord2(-50, 50), Coord2(0, 100), Coord2(-25, 25)];
    assert_eq!(characterize_cubic_bezier(&v[0], &v[1], &v[2], &v[3]), CurveCategory::Loop);
    let p = to_canonical_curve(&w[0], &w[1], &w[2], &w[3]).unwrap();
    let q = to_canonical_curve(&v[0], &v[1], &v[2], &v[3]).unwrap();
    // Same fractions: the parts times den^2 = 4 are those for `w` times |a d - b c| = 2
    assert_eq!((4 * q.x_num, 4 * q.y_num, 4 * q.denom), (2 * p.x_num, 2 * p.y_num, 2 * p.denom));
}
