use roadgen::config::{random_angle, AngleDirection, EPSILON_ROOT, UNIT};
use roadgen::math::{
    add_points, cross_product, distance_to_line, divide, do_line_segments_intersect, dot_product,
    equal_v, integer_sqrt, length, length2, length_v, length_v2, mult_v_scalar, project, sign,
    subtract_points, IntersectionResult, Point,
};
use roadgen::utility::{extended_max, extended_min, min_degree_difference};

fn p(x: i64, y: i64) -> Point {
    Point::new(x, y)
}

#[test]
fn point_accessors_return_the_coordinates() {
    let a = p(3, -4);
    assert_eq!(a.x(), 3);
    assert_eq!(a.y(), -4);
    assert!(a.is_in_range());
    assert!(!p(1 << 40, 0).is_in_range());
}

#[test]
fn vector_sums_differences_and_multiples() {
    assert_eq!(add_points(p(1, 2), p(10, -20)), p(11, -18));
    assert_eq!(subtract_points(p(1, 2), p(10, -20)), p(-9, 22));
    assert_eq!(mult_v_scalar(p(3, -4), -2), p(-6, 8));
}

#[test]
fn scalar_products() {
    assert_eq!(dot_product(p(1, 2), p(3, 4)), 11);
    assert_eq!(cross_product(p(1, 2), p(3, 4)), -2);
    assert_eq!(cross_product(p(0, 1), p(1, 0)), -1);
    assert_eq!(length_v2(p(3, -4)), 25);
    assert_eq!(length2(p(1, 1), p(4, 5)), 25);
}

#[test]
fn lengths_are_rounded_down() {
    assert_eq!(length_v(p(3, 4)), 5);
    assert_eq!(length_v(p(1, 1)), 1);
    assert_eq!(length_v(p(0, 0)), 0);
    assert_eq!(length(p(0, 0), p(400 * UNIT, 0)), 400 * UNIT);
    assert_eq!(integer_sqrt(0), 0);
    assert_eq!(integer_sqrt(24), 4);
    assert_eq!(integer_sqrt(25), 5);
    assert_eq!(integer_sqrt(1 << 100), 1 << 50);
}

#[test]
fn division_rounds_toward_zero() {
    assert_eq!(divide(7, 2), 3);
    assert_eq!(divide(-7, 2), -3);
    assert_eq!(divide(7, -2), -3);
    assert_eq!(divide(-7, -2), 3);
    assert_eq!(divide(0, -5), 0);
}

#[test]
fn sign_is_minus_one_zero_or_one() {
    assert_eq!(sign(17), 1);
    assert_eq!(sign(-3), -1);
    assert_eq!(sign(0), 0);
}

#[test]
fn a_point_equals_itself() {
    assert!(equal_v(p(12, -7), p(12, -7)));
}

#[test]
fn a_point_differs_from_one_two_roots_of_epsilon_away() {
    assert!(!equal_v(p(12, -7), p(12 + 2 * EPSILON_ROOT, -7)));
    assert!(!equal_v(p(12, -7), p(13, -7)));
}

#[test]
fn projection_gives_scalar_product_and_projected_vector() {
    let r = project(p(3, 4), p(10, 0));
    assert_eq!(r.dot_product, 30);
    assert_eq!(r.projected, p(3, 0));
    let s = project(p(1, 1), p(3, 0));
    assert_eq!(s.dot_product, 3);
    assert_eq!(s.projected, p(1, 0));
    let t = project(p(-5, 2), p(0, 3));
    assert_eq!(t.dot_product, 6);
    assert_eq!(t.projected, p(0, 2));
}

#[test]
fn distance_to_line_measures_the_foot() {
    let r = distance_to_line(p(5, 7), p(0, 0), p(10, 0));
    assert_eq!(r.point_on_line, p(5, 0));
    assert_eq!(r.distance2, 49);
    assert_eq!(r.line_proj_2, 25);
    assert_eq!(r.length2, 100);
}

#[test]
fn distance_to_line_before_the_start_is_negative() {
    let r = distance_to_line(p(-400, 0), p(0, 0), p(400, 0));
    assert_eq!(r.point_on_line, p(-400, 0));
    assert_eq!(r.line_proj_2, -160000);
    assert_eq!(r.length2, 160000);
    assert_eq!(r.distance2, 0);
}

#[test]
fn crossing_segments_meet_in_the_middle() {
    let r = do_line_segments_intersect(p(0, 0), p(10, 0), p(5, -5), p(5, 5), true);
    assert_eq!(r, Some(IntersectionResult { x: 5, y: 0, t: UNIT / 2 }));
}

#[test]
fn shared_end_meets_only_when_ends_count() {
    let with_ends = do_line_segments_intersect(p(0, 0), p(10, 0), p(0, 0), p(0, 10), false);
    assert_eq!(with_ends, Some(IntersectionResult { x: 0, y: 0, t: 0 }));
    let without = do_line_segments_intersect(p(0, 0), p(10, 0), p(0, 0), p(0, 10), true);
    assert_eq!(without, None);
}

#[test]
fn shared_far_end_meets_at_one() {
    let r = do_line_segments_intersect(p(0, 0), p(10, 0), p(10, 0), p(10, 10), false);
    assert_eq!(r, Some(IntersectionResult { x: 10, y: 0, t: UNIT }));
    assert_eq!(do_line_segments_intersect(p(0, 0), p(10, 0), p(10, 0), p(10, 10), true), None);
}

#[test]
fn parallel_and_collinear_segments_never_meet() {
    assert_eq!(do_line_segments_intersect(p(0, 0), p(10, 0), p(0, 1), p(10, 1), false), None);
    assert_eq!(do_line_segments_intersect(p(0, 0), p(10, 0), p(5, 0), p(15, 0), false), None);
    assert_eq!(do_line_segments_intersect(p(0, 0), p(400, 0), p(0, 0), p(-400, 0), true), None);
}

#[test]
fn segments_apart_do_not_meet() {
    assert_eq!(do_line_segments_intersect(p(0, 0), p(10, 0), p(20, -5), p(20, 5), false), None);
    assert_eq!(do_line_segments_intersect(p(0, 0), p(10, 0), p(5, 1), p(5, 5), false), None);
}

#[test]
fn crossing_near_an_end_is_left_out() {
    // the crossing lies a two-thousandth of the way along the first segment
    let r = do_line_segments_intersect(p(0, 0), p(2000, 0), p(1, -5), p(1, 5), true);
    assert_eq!(r, None);
    let s = do_line_segments_intersect(p(0, 0), p(2000, 0), p(1, -5), p(1, 5), false);
    assert_eq!(s, Some(IntersectionResult { x: 1, y: 0, t: 5 }));
}

#[test]
fn crossing_is_rounded_toward_the_start() {
    let r = do_line_segments_intersect(p(0, 0), p(3, 3), p(0, 1), p(3, 0), false);
    // the lines meet at (3/4, 3/4)
    assert_eq!(r, Some(IntersectionResult { x: 0, y: 0, t: 2500 }));
}

#[test]
fn first_extremes_of_a_list() {
    assert_eq!(extended_min(&vec![3, 1, 2, 1]), Some((1, 1)));
    assert_eq!(extended_max(&vec![3, 1, 3, 2]), Some((3, 0)));
    assert_eq!(extended_min(&vec![]), None);
    assert_eq!(extended_max(&vec![]), None);
    assert_eq!(extended_max(&vec![-5]), Some((-5, 0)));
}

#[test]
fn degree_difference_of_a_direction_with_itself_is_zero() {
    assert_eq!(min_degree_difference(37 * UNIT, 37 * UNIT), 0);
    assert_eq!(min_degree_difference(-120 * UNIT, -120 * UNIT), 0);
}

#[test]
fn degree_difference_of_opposite_directions_is_zero() {
    assert_eq!(min_degree_difference(37 * UNIT, 217 * UNIT), 0);
    assert_eq!(min_degree_difference(90 * UNIT, -90 * UNIT), 0);
}

#[test]
fn degree_difference_of_a_quarter_turn_is_ninety() {
    assert_eq!(min_degree_difference(37 * UNIT, 127 * UNIT), 90 * UNIT);
    assert_eq!(min_degree_difference(0, -90 * UNIT), 90 * UNIT);
}

#[test]
fn degree_difference_folds_into_a_quarter_turn() {
    assert_eq!(min_degree_difference(10 * UNIT, 160 * UNIT), 30 * UNIT);
    assert_eq!(min_degree_difference(0, 405 * UNIT), 45 * UNIT);
    assert_eq!(min_degree_difference(5, 0), 5);
}

#[test]
fn sampler_drops_zero_and_keeps_small_angles() {
    assert_eq!(random_angle(AngleDirection::Branch, 0, 0), None);
    assert_eq!(random_angle(AngleDirection::Branch, 1, 0), None);
    assert_eq!(random_angle(AngleDirection::Branch, 1, 1), Some(1));
    assert_eq!(random_angle(AngleDirection::Forward, -15 * UNIT, UNIT - 1), None);
    assert_eq!(random_angle(AngleDirection::Forward, -15 * UNIT, UNIT), Some(-15 * UNIT));
}

#[test]
fn sampler_compares_the_draw_with_the_cube_of_the_angle() {
    // half the limit: the cube is an eighth, 1250 steps of a ten-thousandth
    let half = 3 * UNIT / 2;
    assert_eq!(random_angle(AngleDirection::Branch, half, 1249), None);
    assert_eq!(random_angle(AngleDirection::Branch, half, 1250), Some(half));
    assert_eq!(random_angle(AngleDirection::Branch, -half, 1250), Some(-half));
    let quarter = 15 * UNIT / 4;
    assert_eq!(random_angle(AngleDirection::Forward, quarter, 156), None);
    assert_eq!(random_angle(AngleDirection::Forward, quarter, 157), Some(quarter));
}
