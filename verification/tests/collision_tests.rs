use roadgen::collision::{CollisionLimits, CollisionObject, CollisionProperties, CollisionType};
use roadgen::math::Point;
use roadgen::segment::Road;

fn p(x: i64, y: i64) -> Point {
    Point::new(x, y)
}

fn rect(corners: Vec<Point>) -> CollisionProperties {
    CollisionProperties { corners, start: p(0, 0), end: p(0, 0), center: p(0, 0), radius: 0, width: 0 }
}

fn line(start: Point, end: Point, width: i64) -> CollisionProperties {
    CollisionProperties { corners: Vec::new(), start, end, center: p(0, 0), radius: 0, width }
}

fn circle(center: Point, radius: i64) -> CollisionProperties {
    CollisionProperties { corners: Vec::new(), start: p(0, 0), end: p(0, 0), center, radius, width: 0 }
}

fn square(x: i64, y: i64, side: i64) -> Vec<Point> {
    vec![p(x, y), p(x + side, y), p(x + side, y + side), p(x, y + side)]
}

fn object(kind: CollisionType, props: CollisionProperties, id: usize) -> CollisionObject {
    CollisionObject::new(Road { start: p(0, 0), end: p(0, 0) }, kind, props, id)
}

#[test]
fn new_collider_starts_at_revision_one_without_limits() {
    let c = object(CollisionType::Line, line(p(1, 2), p(3, 4), 6), 9);
    assert_eq!(c.collision_revision, 1);
    assert_eq!(c.limits_revision, None);
    assert_eq!(c.id, Some(9));
    assert_eq!(c.cached_limits, Some(CollisionLimits { x: 0, y: 0, width: 0, height: 0, id: Some(9) }));
}

#[test]
fn limits_of_a_line_ignore_its_width() {
    let mut c = object(CollisionType::Line, line(p(10, -5), p(-20, 35), 16), 4);
    let l = c.limits();
    assert_eq!(l, CollisionLimits { x: -20, y: -5, width: 30, height: 40, id: Some(4) });
    assert_eq!(c.limits_revision, Some(1));
    assert_eq!(c.cached_limits, Some(l));
}

#[test]
fn limits_of_a_rectangle_span_its_corners() {
    let mut c = object(CollisionType::Rect, rect(vec![p(0, 5), p(5, 10), p(10, 5), p(5, 0)]), 1);
    assert_eq!(c.limits(), CollisionLimits { x: 0, y: 0, width: 10, height: 10, id: Some(1) });
}

#[test]
fn limits_of_a_circle_are_its_square() {
    let mut c = object(CollisionType::Circle, circle(p(7, -3), 5), 2);
    assert_eq!(c.limits(), CollisionLimits { x: 2, y: -8, width: 10, height: 10, id: Some(2) });
}

#[test]
fn limits_follow_the_shape_after_an_update() {
    let mut c = object(CollisionType::Line, line(p(0, 0), p(10, 0), 6), 3);
    assert_eq!(c.limits().width, 10);
    c.update_collision_properties(None, Some(p(4, 3)));
    assert_eq!(c.collision_revision, 2);
    assert_eq!(c.limits_revision, Some(1));
    assert_eq!(c.limits(), CollisionLimits { x: 0, y: 0, width: 4, height: 3, id: Some(3) });
    assert_eq!(c.limits_revision, Some(2));
    c.update_collision_properties(Some(p(-1, -1)), None);
    assert_eq!(c.collision_revision, 3);
    assert_eq!(c.limits(), CollisionLimits { x: -1, y: -1, width: 5, height: 4, id: Some(3) });
}

#[test]
fn overlapping_rectangles_are_pulled_apart_along_the_first_shortest_axis() {
    let a = rect(square(0, 0, 10));
    let b = rect(square(5, 5, 10));
    let v = CollisionObject::rect_rect_intersection(&a, &b);
    assert_eq!(v, Some(p(0, -5)));
    let v = v.unwrap();
    assert!(v.x * v.x + v.y * v.y > 0);
}

#[test]
fn rectangles_apart_do_not_intersect() {
    let a = rect(square(0, 0, 10));
    let b = rect(square(25, 5, 10));
    assert_eq!(CollisionObject::rect_rect_intersection(&a, &b), None);
}

#[test]
fn rectangle_overlap_does_not_depend_on_the_order() {
    let a = rect(square(0, 0, 10));
    let near = rect(square(5, 5, 10));
    let far = rect(square(25, 5, 10));
    let tilted = rect(vec![p(8, 0), p(16, 8), p(8, 16), p(0, 8)]);
    assert!(CollisionObject::rect_rect_intersection(&a, &near).is_some());
    assert!(CollisionObject::rect_rect_intersection(&near, &a).is_some());
    assert!(CollisionObject::rect_rect_intersection(&a, &far).is_none());
    assert!(CollisionObject::rect_rect_intersection(&far, &a).is_none());
    assert_eq!(
        CollisionObject::rect_rect_intersection(&a, &tilted).is_some(),
        CollisionObject::rect_rect_intersection(&tilted, &a).is_some()
    );
    assert_eq!(
        CollisionObject::rect_rect_intersection(&far, &tilted).is_some(),
        CollisionObject::rect_rect_intersection(&tilted, &far).is_some()
    );
}

#[test]
fn tilted_rectangle_beside_a_corner_is_separated_by_its_own_axis() {
    let a = rect(square(0, 0, 10));
    // a diamond whose bounding box overlaps the square, but which lies beyond its corner
    let diamond = rect(vec![p(19, 9), p(29, 19), p(19, 29), p(9, 19)]);
    assert_eq!(CollisionObject::rect_rect_intersection(&a, &diamond), None);
    assert_eq!(CollisionObject::rect_rect_intersection(&diamond, &a), None);
}

#[test]
fn a_thick_line_covers_a_rectangle() {
    let r = CollisionObject::rect_props_from_line(&line(p(0, 0), p(10, 0), 6));
    assert_eq!(r.corners, vec![p(0, 3), p(0, -3), p(10, -3), p(10, 3)]);
    assert_eq!(r.width, 0);
    let s = CollisionObject::rect_props_from_line(&line(p(0, 0), p(0, 10), 16));
    assert_eq!(s.corners, vec![p(-8, 0), p(8, 0), p(8, 10), p(-8, 10)]);
    let t = CollisionObject::rect_props_from_line(&line(p(0, 0), p(30, 40), 100));
    assert_eq!(t.corners, vec![p(-40, 30), p(40, -30), p(70, 10), p(-10, 70)]);
}

#[test]
fn circle_touches_rectangle_at_a_corner_an_edge_or_inside() {
    let r = rect(square(0, 0, 10));
    assert!(CollisionObject::rect_circle_collision(&r, &circle(p(-3, -4), 5)));
    assert!(!CollisionObject::rect_circle_collision(&r, &circle(p(-3, -4), 4)));
    assert!(CollisionObject::rect_circle_collision(&r, &circle(p(5, -2), 2)));
    assert!(!CollisionObject::rect_circle_collision(&r, &circle(p(5, -3), 2)));
    assert!(CollisionObject::rect_circle_collision(&r, &circle(p(5, 5), 1)));
    assert!(!CollisionObject::rect_circle_collision(&r, &circle(p(50, 50), 1)));
}

#[test]
fn collide_goes_by_the_pair_of_shapes() {
    let mut a = object(CollisionType::Rect, rect(square(0, 0, 10)), 1);
    let mut b = object(CollisionType::Rect, rect(square(5, 5, 10)), 2);
    let mut far = object(CollisionType::Rect, rect(square(25, 5, 10)), 3);
    let mut road = object(CollisionType::Line, line(p(-5, 5), p(15, 5), 6), 4);
    let mut lane = object(CollisionType::Line, line(p(5, -5), p(5, 15), 6), 5);
    let mut beside = object(CollisionType::Line, line(p(-5, 20), p(15, 20), 6), 6);
    let mut ball = object(CollisionType::Circle, circle(p(5, 5), 2), 7);
    let mut other_ball = object(CollisionType::Circle, circle(p(6, 6), 2), 8);
    assert!(a.collide(&mut b));
    assert!(!a.collide(&mut far));
    assert!(a.collide(&mut road));
    assert!(road.collide(&mut a));
    assert!(road.collide(&mut lane));
    assert!(!road.collide(&mut beside));
    assert!(a.collide(&mut ball));
    assert!(ball.collide(&mut a));
    assert!(!ball.collide(&mut other_ball));
    assert!(!road.collide(&mut ball));
    assert!(!ball.collide(&mut road));
}

#[test]
fn collide_says_no_when_the_boxes_are_apart_and_refreshes_them() {
    let mut a = object(CollisionType::Rect, rect(square(0, 0, 10)), 1);
    let mut ball = object(CollisionType::Circle, circle(p(40, 40), 2), 7);
    assert!(!a.collide(&mut ball));
    assert_eq!(a.limits_revision, Some(1));
    assert_eq!(ball.limits_revision, Some(1));
    assert_eq!(ball.cached_limits, Some(CollisionLimits { x: 38, y: 38, width: 4, height: 4, id: Some(7) }));
}

#[test]
fn clones_keep_the_shape() {
    let a = object(CollisionType::Rect, rect(square(0, 0, 10)), 1);
    let b = a.clone();
    assert_eq!(b.collision_properties.corners, a.collision_properties.corners);
    assert_eq!(b.id, Some(1));
    assert_eq!(b.collision_type, CollisionType::Rect);
}

#[test]
fn shapes_that_are_no_parallelograms_may_overlap_one_way_only() {
    // each call looks along two sides of its first shape only
    let a = rect(vec![p(-5, 14), p(-5, -3), p(8, -2), p(-4, 1)]);
    let b = rect(vec![p(9, 3), p(22, 0), p(19, 7), p(11, 8)]);
    assert!(CollisionObject::rect_rect_intersection(&a, &b).is_some());
    assert!(CollisionObject::rect_rect_intersection(&b, &a).is_none());
}
