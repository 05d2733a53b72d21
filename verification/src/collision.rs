//! Colliders: a shape, its bounding box and the overlap tests between shapes.
use vstd::prelude::*;
use crate::config::COORDINATE_LIMIT;
use crate::math::{
    add_points, distance_to_line, divide, foot_on_segment, length2, length_v, length_v2,
    lemma_product_bound, magnitude, mult_v_scalar, project, quotient, spec_foot,
    spec_line_proj_2, spec_project, subtract_points, is_floor_sqrt, Point, Vector,
};
use crate::segment::Road;
use crate::utility::{
    extended_max, extended_min, first_max, first_min, is_first_max, is_first_min,
    lemma_first_extremes_exist, lemma_first_max_unique, lemma_first_min_unique,
};

verus! {

/// The shape of a collider.
#[derive(Clone, Copy, Debug, PartialEq, Eq, Structural)]
pub enum CollisionType {
    Rect,
    Line,
    Circle,
}

/// The geometry of a collider; which fields count depends on its shape.
///
/// A rectangle is its four `corners` in winding order; a line runs from
/// `start` to `end` and is `width` thick; a circle is `center` and `radius`.
#[derive(Debug)]
pub struct CollisionProperties {
    pub corners: Vec<Point>,
    pub start: Point,
    pub end: Point,
    pub center: Point,
    pub radius: i64,
    pub width: i64,
}

/// The model of `CollisionProperties`.
pub struct ShapeView {
    pub corners: Seq<Point>,
    pub start: Point,
    pub end: Point,
    pub center: Point,
    pub radius: i64,
    pub width: i64,
}

impl View for CollisionProperties {
    type V = ShapeView;

    open spec fn view(&self) -> ShapeView {
        ShapeView {
            corners: self.corners@,
            start: self.start,
            end: self.end,
            center: self.center,
            radius: self.radius,
            width: self.width,
        }
    }
}

impl Clone for CollisionProperties {
    fn clone(&self) -> (r: Self)
        ensures
            r@ == self@,
    {
        let mut corners: Vec<Point> = Vec::new();
        let mut i: usize = 0;
        while i < self.corners.len()
            invariant
                i <= self.corners.len(),
                corners@ == self.corners@.subrange(0, i as int),
            decreases self.corners.len() - i,
        {
            corners.push(self.corners[i]);
            assert(corners@ =~= self.corners@.subrange(0, i + 1));
            i += 1;
        }
        assert(corners@ =~= self.corners@);
        CollisionProperties {
            corners,
            start: self.start,
            end: self.end,
            center: self.center,
            radius: self.radius,
            width: self.width,
        }
    }
}

/// An axis-aligned bounding box, tagged with the segment that owns it.
#[derive(Clone, Copy, Debug, PartialEq, Eq, Structural)]
pub struct CollisionLimits {
    pub x: i64,
    pub y: i64,
    pub width: i64,
    pub height: i64,
    pub id: Option<usize>,
}

/// The least of the first `n` values of `s`.
pub open spec fn least(s: Seq<int>, n: int) -> int
    decreases n,
{
    if n <= 1 {
        s[0]
    } else if s[n - 1] < least(s, n - 1) {
        s[n - 1]
    } else {
        least(s, n - 1)
    }
}

/// The greatest of the first `n` values of `s`.
pub open spec fn greatest(s: Seq<int>, n: int) -> int
    decreases n,
{
    if n <= 1 {
        s[0]
    } else if s[n - 1] > greatest(s, n - 1) {
        s[n - 1]
    } else {
        greatest(s, n - 1)
    }
}

/// The x coordinates of the corners.
pub open spec fn xs(corners: Seq<Point>) -> Seq<int> {
    Seq::new(corners.len(), |i: int| corners[i].x as int)
}

/// The y coordinates of the corners.
pub open spec fn ys(corners: Seq<Point>) -> Seq<int> {
    Seq::new(corners.len(), |i: int| corners[i].y as int)
}

/// The extremes of a list lie among its values.
pub proof fn lemma_extremes_bounded(s: Seq<int>, n: int, limit: int)
    requires
        1 <= n <= s.len(),
        forall|i: int| 0 <= i < s.len() ==> -limit <= #[trigger] s[i] <= limit,
    ensures
        -limit <= least(s, n) <= greatest(s, n) <= limit,
        forall|i: int| 0 <= i < n ==> least(s, n) <= #[trigger] s[i] <= greatest(s, n),
    decreases n,
{
    if n > 1 {
        lemma_extremes_bounded(s, n - 1, limit);
    }
}

impl ShapeView {
    /// The bounding box of the shape.
    pub open spec fn limits(self, collision_type: CollisionType, id: Option<usize>)
        -> CollisionLimits {
        match collision_type {
            CollisionType::Rect => {
                let n = self.corners.len() as int;
                let min_x = least(xs(self.corners), n);
                let min_y = least(ys(self.corners), n);
                CollisionLimits {
                    x: min_x as i64,
                    y: min_y as i64,
                    width: (greatest(xs(self.corners), n) - min_x) as i64,
                    height: (greatest(ys(self.corners), n) - min_y) as i64,
                    id,
                }
            },
            CollisionType::Line => CollisionLimits {
                x: if self.start.x < self.end.x {
                    self.start.x
                } else {
                    self.end.x
                },
                y: if self.start.y < self.end.y {
                    self.start.y
                } else {
                    self.end.y
                },
                width: magnitude(self.start.x - self.end.x) as i64,
                height: magnitude(self.start.y - self.end.y) as i64,
                id,
            },
            CollisionType::Circle => CollisionLimits {
                x: (self.center.x - self.radius) as i64,
                y: (self.center.y - self.radius) as i64,
                width: (self.radius * 2) as i64,
                height: (self.radius * 2) as i64,
                id,
            },
        }
    }

    /// The shape lies where its bounding box can be computed.
    pub open spec fn measurable(self, collision_type: CollisionType) -> bool {
        match collision_type {
            CollisionType::Rect => {
                &&& self.corners.len() > 0
                &&& forall|i: int|
                    0 <= i < self.corners.len() ==> (#[trigger] self.corners[i]).in_range()
            },
            CollisionType::Line => self.start.in_range() && self.end.in_range(),
            CollisionType::Circle => {
                &&& self.center.in_range()
                &&& -COORDINATE_LIMIT <= self.radius <= COORDINATE_LIMIT
            },
        }
    }
}

/// A shape with its bounding box, which is worked out when first asked for
/// after the shape has changed.
#[derive(Debug)]
pub struct CollisionObject {
    pub road: Road,
    pub collision_type: CollisionType,
    pub collision_properties: CollisionProperties,
    pub collision_revision: u32,
    pub limits_revision: Option<u32>,
    pub cached_limits: Option<CollisionLimits>,
    pub id: Option<usize>,
}

/// The model of a `CollisionObject`.
pub struct ColliderView {
    pub road: Road,
    pub collision_type: CollisionType,
    pub collision_properties: ShapeView,
    pub collision_revision: u32,
    pub limits_revision: Option<u32>,
    pub cached_limits: Option<CollisionLimits>,
    pub id: Option<usize>,
}

impl ColliderView {
    /// The bounding box of the shape as it is now.
    pub open spec fn limits(self) -> CollisionLimits {
        self.collision_properties.limits(self.collision_type, self.id)
    }

    /// The revision of the shape that the cached box was computed for; zero
    /// before the first computation.
    pub open spec fn cached_revision(self) -> u32 {
        match self.limits_revision {
            Some(r) => r,
            None => 0,
        }
    }

    /// The cache never runs ahead of the shape, and where it has caught up
    /// it holds the shape's bounding box.
    pub open spec fn wf(self) -> bool {
        &&& self.collision_revision >= 1
        &&& self.cached_revision() <= self.collision_revision
        &&& self.cached_limits.is_some()
        &&& self.cached_revision() == self.collision_revision ==> self.cached_limits == Some(
            self.limits(),
        )
    }

    /// The shape lies where its bounding box can be computed.
    pub open spec fn measurable(self) -> bool {
        self.collision_properties.measurable(self.collision_type)
    }

    /// The shape can take part in an overlap test.
    pub open spec fn collidable(self) -> bool {
        self.collision_properties.collidable(self.collision_type)
    }

    /// The collider once its bounding box has been brought up to date.
    pub open spec fn refreshed(self) -> ColliderView {
        ColliderView {
            limits_revision: Some(self.collision_revision),
            cached_limits: Some(self.limits()),
            ..self
        }
    }
}

impl View for CollisionObject {
    type V = ColliderView;

    open spec fn view(&self) -> ColliderView {
        ColliderView {
            road: self.road,
            collision_type: self.collision_type,
            collision_properties: self.collision_properties@,
            collision_revision: self.collision_revision,
            limits_revision: self.limits_revision,
            cached_limits: self.cached_limits,
            id: self.id,
        }
    }
}

impl Clone for CollisionObject {
    fn clone(&self) -> (r: Self)
        ensures
            r@ == self@,
    {
        CollisionObject {
            road: self.road,
            collision_type: self.collision_type,
            collision_properties: self.collision_properties.clone(),
            collision_revision: self.collision_revision,
            limits_revision: self.limits_revision,
            cached_limits: self.cached_limits,
            id: self.id,
        }
    }
}

impl CollisionObject {
    /// A collider at revision 1 whose bounding box has not been computed yet.
    pub fn new(
        road: Road,
        collision_type: CollisionType,
        collision_properties: CollisionProperties,
        id: usize,
    ) -> (r: Self)
        ensures
            r@ == (ColliderView {
                road,
                collision_type,
                collision_properties: collision_properties@,
                collision_revision: 1,
                limits_revision: None,
                cached_limits: Some(
                    CollisionLimits { x: 0, y: 0, width: 0, height: 0, id: Some(id) },
                ),
                id: Some(id),
            }),
            r@.wf(),
    {
        CollisionObject {
            road,
            collision_type,
            collision_properties,
            collision_revision: 1,
            limits_revision: None,
            cached_limits: Some(CollisionLimits { x: 0, y: 0, width: 0, height: 0, id: Some(id) }),
            id: Some(id),
        }
    }

    /// Moves the ends of the line, where given, and advances the revision.
    pub fn update_collision_properties(&mut self, start: Option<Point>, end: Option<Point>)
        requires
            old(self)@.wf(),
            old(self).collision_revision < u32::MAX,
        ensures
            final(self)@ == (ColliderView {
                collision_revision: (old(self).collision_revision + 1) as u32,
                collision_properties: ShapeView {
                    start: match start {
                        Some(s) => s,
                        None => old(self).collision_properties.start,
                    },
                    end: match end {
                        Some(e) => e,
                        None => old(self).collision_properties.end,
                    },
                    ..old(self)@.collision_properties
                },
                ..old(self)@
            }),
            final(self)@.wf(),
    {
        self.collision_revision += 1;
        if let Some(start) = start {
            self.collision_properties.start = start
        }
        if let Some(end) = end {
            self.collision_properties.end = end
        }
    }

    /// The bounding box of the shape, from the cache where that is current.
    pub fn limits(&mut self) -> (r: CollisionLimits)
        requires
            old(self)@.wf(),
            old(self)@.measurable(),
        ensures
            r == old(self)@.limits(),
            final(self)@ == old(self)@.refreshed(),
            final(self)@.wf(),
            -2 * COORDINATE_LIMIT <= r.x <= 2 * COORDINATE_LIMIT,
            -2 * COORDINATE_LIMIT <= r.y <= 2 * COORDINATE_LIMIT,
            -2 * COORDINATE_LIMIT <= r.width <= 2 * COORDINATE_LIMIT,
            -2 * COORDINATE_LIMIT <= r.height <= 2 * COORDINATE_LIMIT,
    {
        proof {
            if self.collision_type == CollisionType::Rect {
                let sx = xs(self.collision_properties.corners@);
                let sy = ys(self.collision_properties.corners@);
                assert forall|i: int| 0 <= i < sx.len() implies -COORDINATE_LIMIT
                    <= #[trigger] sx[i] <= COORDINATE_LIMIT by {
                    assert(self.collision_properties.corners@[i].in_range());
                }
                assert forall|i: int| 0 <= i < sy.len() implies -COORDINATE_LIMIT
                    <= #[trigger] sy[i] <= COORDINATE_LIMIT by {
                    assert(self.collision_properties.corners@[i].in_range());
                }
                lemma_extremes_bounded(sx, sx.len() as int, COORDINATE_LIMIT as int);
                lemma_extremes_bounded(sy, sy.len() as int, COORDINATE_LIMIT as int);
            }
        }
        if self.collision_revision != self.limits_revision.unwrap_or_default() {
            self.limits_revision = Some(self.collision_revision);
            self.cached_limits = match self.collision_type {
                CollisionType::Rect => {
                    let ghost sx = xs(self.collision_properties.corners@);
                    let ghost sy = ys(self.collision_properties.corners@);
                    let mut min_x: i64 = self.collision_properties.corners[0].x;
                    let mut min_y: i64 = self.collision_properties.corners[0].y;
                    let mut max_x: i64 = self.collision_properties.corners[0].x;
                    let mut max_y: i64 = self.collision_properties.corners[0].y;
                    let mut i: usize = 1;
                    while i < self.collision_properties.corners.len()
                        invariant
                            1 <= i <= self.collision_properties.corners.len(),
                            sx == xs(self.collision_properties.corners@),
                            sy == ys(self.collision_properties.corners@),
                            min_x == least(sx, i as int),
                            min_y == least(sy, i as int),
                            max_x == greatest(sx, i as int),
                            max_y == greatest(sy, i as int),
                        decreases self.collision_properties.corners.len() - i,
                    {
                        let p = self.collision_properties.corners[i];
                        if p.x < min_x {
                            min_x = p.x;
                        }
                        if p.y < min_y {
                            min_y = p.y;
                        }
                        if p.x > max_x {
                            max_x = p.x;
                        }
                        if p.y > max_y {
                            max_y = p.y;
                        }
                        i += 1;
                    }
                    Some(
                        CollisionLimits {
                            x: min_x,
                            y: min_y,
                            width: max_x - min_x,
                            height: max_y - min_y,
                            id: self.id,
                        },
                    )
                },
                CollisionType::Line => {
                    let s = self.collision_properties.start;
                    let e = self.collision_properties.end;
                    Some(
                        CollisionLimits {
                            x: if s.x < e.x { s.x } else { e.x },
                            y: if s.y < e.y { s.y } else { e.y },
                            width: if s.x < e.x { e.x - s.x } else { s.x - e.x },
                            height: if s.y < e.y { e.y - s.y } else { s.y - e.y },
                            id: self.id,
                        },
                    )
                },
                CollisionType::Circle => Some(
                    CollisionLimits {
                        x: self.collision_properties.center.x - self.collision_properties.radius,
                        y: self.collision_properties.center.y - self.collision_properties.radius,
                        width: self.collision_properties.radius * 2,
                        height: self.collision_properties.radius * 2,
                        id: self.id,
                    },
                ),
            };
        }
        self.cached_limits.unwrap()
    }
}

/// The offset from the centre line of a thick line to its border: the
/// perpendicular `(-dy, dx)` scaled to half the width, each coordinate
/// rounded toward zero. The perpendicular's length is the whole number `len`.
pub open spec fn half_offset(start: Vector, end: Vector, width: int, len: int) -> Vector {
    let dir = end.minus(start);
    Vector { x: quotient(-dir.y * width, 2 * len), y: quotient(dir.x * width, 2 * len) }
}

/// The four corners of the rectangle that a thick line covers.
pub open spec fn expanded(start: Vector, end: Vector, half: Vector) -> Seq<Vector> {
    seq![start.plus(half), start.minus(half), end.minus(half), end.plus(half)]
}

/// The lattice point at the tip of a vector that fits.
pub open spec fn point_of(v: Vector) -> Point {
    Point { x: v.x as i64, y: v.y as i64 }
}

/// The corners as vectors.
pub open spec fn corner_vectors(corners: Seq<Point>) -> Seq<Vector> {
    Seq::new(corners.len(), |i: int| corners[i]@)
}

/// Where each corner falls along `axis`: its scalar product with the axis.
pub open spec fn positions(corners: Seq<Point>, axis: Vector) -> Seq<i128> {
    Seq::new(corners.len(), |i: int| corners[i]@.dot(axis) as i128)
}

/// The four axes the rectangles are compared along.
pub open spec fn sat_axes(a: Seq<Point>, b: Seq<Point>) -> Seq<Vector> {
    seq![a[3]@.minus(a[0]@), a[3]@.minus(a[2]@), b[0]@.minus(b[1]@), b[0]@.minus(b[3]@)]
}

/// The rectangles' shadows on `axis` are apart.
pub open spec fn separated_on(a: Seq<Point>, b: Seq<Point>, axis: Vector) -> bool {
    let pa = positions(a, axis);
    let pb = positions(b, axis);
    pa[first_max(pa)] < pb[first_min(pb)] || pb[first_max(pb)] < pa[first_min(pa)]
}

/// How far the shadows on `axis` overlap, as a vector along the axis that
/// points out of `a`; nothing when the shadows are apart.
pub open spec fn axis_overlap(a: Seq<Point>, b: Seq<Point>, axis: Vector) -> Option<Vector> {
    let pa = positions(a, axis);
    let pb = positions(b, axis);
    if separated_on(a, b, axis) {
        None
    } else {
        let diff1 = spec_project(a[first_max(pa)]@, axis).minus(
            spec_project(b[first_min(pb)]@, axis),
        );
        let diff2 = spec_project(b[first_max(pb)]@, axis).minus(
            spec_project(a[first_min(pa)]@, axis),
        );
        if diff1.norm2() < diff2.norm2() {
            Some(diff1)
        } else {
            Some(diff2.times(-1))
        }
    }
}

/// No axis separates the two rectangles.
pub open spec fn rects_overlap(a: Seq<Point>, b: Seq<Point>) -> bool {
    forall|k: int| 0 <= k < 4 ==> !separated_on(a, b, #[trigger] sat_axes(a, b)[k])
}

/// The squared lengths of the overlaps on the four axes.
pub open spec fn overlap_norms(a: Seq<Point>, b: Seq<Point>) -> Seq<i128> {
    Seq::new(4, |k: int| axis_overlap(a, b, sat_axes(a, b)[k]).unwrap().norm2() as i128)
}

/// The shortest way to pull `a` out of `b`: the first shortest of the four
/// overlaps, reversed.
pub open spec fn sat_displacement(a: Seq<Point>, b: Seq<Point>) -> Option<Vector> {
    if rects_overlap(a, b) {
        Some(
            axis_overlap(a, b, sat_axes(a, b)[first_min(overlap_norms(a, b))]).unwrap().times(-1),
        )
    } else {
        None
    }
}

/// Some corner of the rectangle lies within the circle.
pub open spec fn corner_in_circle(rect: Seq<Point>, center: Vector, radius: int) -> bool {
    exists|i: int| 0 <= i < rect.len() && corner_within(rect, i, center, radius)
}

/// The `i`-th corner lies within the circle.
pub open spec fn corner_within(rect: Seq<Point>, i: int, center: Vector, radius: int) -> bool {
    center.minus(rect[i]@).norm2() <= radius * radius
}

/// The perpendicular from the centre meets the `i`-th edge strictly inside
/// it and is no longer than the radius.
pub open spec fn edge_within(rect: Seq<Point>, i: int, center: Vector, radius: int) -> bool {
    let start = rect[i]@;
    let end = rect[(i + 1) % (rect.len() as int)]@;
    &&& 0 < spec_line_proj_2(center, start, end) < end.minus(start).norm2()
    &&& center.minus(spec_foot(center, start, end)).norm2() <= radius * radius
}

/// Some edge of the rectangle comes within the circle.
pub open spec fn edge_in_circle(rect: Seq<Point>, center: Vector, radius: int) -> bool {
    exists|i: int| 0 <= i < rect.len() && edge_within(rect, i, center, radius)
}

/// The centre projects onto both sides of the rectangle that leave its
/// last corner.
pub open spec fn center_inside(rect: Seq<Point>, center: Vector) -> bool {
    let axis0 = rect[3]@.minus(rect[0]@);
    let axis1 = rect[3]@.minus(rect[2]@);
    let from0 = center.minus(rect[0]@);
    let from2 = center.minus(rect[2]@);
    !(from0.dot(axis0) < 0 || spec_project(from0, axis0).norm2() > axis0.norm2() || from2.dot(
        axis1,
    ) < 0 || spec_project(from2, axis1).norm2() > axis1.norm2())
}

/// The rectangle and the circle touch.
pub open spec fn rect_meets_circle(rect: Seq<Point>, center: Vector, radius: int) -> bool {
    corner_in_circle(rect, center, radius) || edge_in_circle(rect, center, radius)
        || center_inside(rect, center)
}

impl ShapeView {
    /// Four corners, each where the geometry accepts it, no two neighbours
    /// the same point.
    pub open spec fn is_rect(self) -> bool {
        &&& self.corners.len() == 4
        &&& forall|i: int| 0 <= i < 4 ==> (#[trigger] self.corners[i]).in_range()
        &&& self.corners[0] != self.corners[1]
        &&& self.corners[1] != self.corners[2]
        &&& self.corners[2] != self.corners[3]
        &&& self.corners[3] != self.corners[0]
    }

    /// The whole length of the line's perpendicular.
    pub open spec fn perpendicular_length(self) -> int {
        crate::math::floor_sqrt(self.end@.minus(self.start@).norm2())
    }

    /// The offset from the centre line of the thick line to its border.
    pub open spec fn half(self) -> Vector {
        half_offset(self.start@, self.end@, self.width as int, self.perpendicular_length())
    }

    /// The corners of the rectangle that the thick line covers.
    pub open spec fn expanded_corners(self) -> Seq<Point> {
        let corners = expanded(self.start@, self.end@, self.half());
        seq![
            point_of(corners[0]),
            point_of(corners[1]),
            point_of(corners[2]),
            point_of(corners[3]),
        ]
    }

    /// A line with two ends, thick enough to cover a rectangle, within half
    /// the range of the geometry.
    pub open spec fn is_thick_line(self) -> bool {
        &&& self.start != self.end
        &&& self.start@.bounded(COORDINATE_LIMIT / 2)
        &&& self.end@.bounded(COORDINATE_LIMIT / 2)
        &&& -COORDINATE_LIMIT / 2 <= self.width <= COORDINATE_LIMIT / 2
        &&& self.half() != Vector { x: 0, y: 0 }
    }

    /// A circle that lies where the geometry accepts it.
    pub open spec fn is_circle(self) -> bool {
        self.center.in_range() && -COORDINATE_LIMIT <= self.radius <= COORDINATE_LIMIT
    }

    /// The shape can take part in an overlap test.
    pub open spec fn collidable(self, collision_type: CollisionType) -> bool {
        match collision_type {
            CollisionType::Rect => self.is_rect(),
            CollisionType::Line => self.is_thick_line(),
            CollisionType::Circle => self.is_circle(),
        }
    }
}

/// Projects each corner onto the axis: the projected points and the
/// positions along the axis.
fn project_corners(corners: &Vec<Point>, axis: Point) -> (r: (Vec<Point>, Vec<i128>))
    requires
        corners.len() == 4,
        forall|i: int| 0 <= i < 4 ==> (#[trigger] corners@[i]).in_range(),
        axis@.bounded(2 * COORDINATE_LIMIT),
        axis@.norm2() != 0,
    ensures
        r.0.len() == 4,
        forall|i: int| 0 <= i < 4 ==> (#[trigger] r.0@[i])@ == spec_project(corners@[i]@, axis@),
        forall|i: int| 0 <= i < 4 ==> (#[trigger] r.0@[i])@.bounded(2 * COORDINATE_LIMIT),
        r.1@ == positions(corners@, axis@),
{
    let mut projected: Vec<Point> = Vec::new();
    let mut places: Vec<i128> = Vec::new();
    let mut i: usize = 0;
    while i < 4
        invariant
            i <= 4,
            corners.len() == 4,
            forall|i: int| 0 <= i < 4 ==> (#[trigger] corners@[i]).in_range(),
            axis@.bounded(2 * COORDINATE_LIMIT),
            axis@.norm2() != 0,
            projected.len() == i,
            places.len() == i,
            forall|j: int|
                0 <= j < i ==> (#[trigger] projected@[j])@ == spec_project(corners@[j]@, axis@),
            forall|j: int| 0 <= j < i ==> (#[trigger] projected@[j])@.bounded(2 * COORDINATE_LIMIT),
            forall|j: int| 0 <= j < i ==> #[trigger] places@[j] == positions(corners@, axis@)[j],
        decreases 4 - i,
    {
        assert(corners@[i as int].in_range());
        let p = project(corners[i], axis);
        projected.push(p.projected);
        places.push(p.dot_product);
        i += 1;
    }
    assert(places@ =~= positions(corners@, axis@));
    (projected, places)
}

impl CollisionObject {
    /// The rectangle that a thick line covers.
    pub fn rect_props_from_line(line_props: &CollisionProperties) -> (r: CollisionProperties)
        requires
            line_props@.is_thick_line(),
        ensures
            corner_vectors(r@.corners) == expanded(
                line_props.start@,
                line_props.end@,
                line_props@.half(),
            ),
            r@.corners == line_props@.expanded_corners(),
            r@.is_rect(),
            r.start == (Point { x: 0, y: 0 }),
            r.end == (Point { x: 0, y: 0 }),
            r.center == (Point { x: 0, y: 0 }),
            r.radius == 0,
            r.width == 0,
    {
        let dir = subtract_points(line_props.end, line_props.start);
        let perp_dir = Point { x: -dir.y, y: dir.x };
        let len = length_v(perp_dir);
        let width = line_props.width;
        proof {
            assert(perp_dir@.norm2() == dir@.norm2()) by (nonlinear_arith)
                requires perp_dir@.x == -dir@.y, perp_dir@.y == dir@.x;
            crate::math::lemma_floor_sqrt_unique(
                dir@.norm2(),
                len as int,
                line_props@.perpendicular_length(),
            );
            assert(len >= 1 && magnitude(perp_dir.x as int) <= len && magnitude(perp_dir.y as int)
                <= len) by (nonlinear_arith)
                requires
                    is_floor_sqrt(perp_dir@.norm2(), len as int),
                    perp_dir@.norm2() == perp_dir.x * perp_dir.x + perp_dir.y * perp_dir.y,
                    perp_dir.x != 0 || perp_dir.y != 0,
            ;
            lemma_product_bound(
                perp_dir.x as int,
                width as int,
                COORDINATE_LIMIT as int,
                COORDINATE_LIMIT as int,
            );
            lemma_product_bound(
                perp_dir.y as int,
                width as int,
                COORDINATE_LIMIT as int,
                COORDINATE_LIMIT as int,
            );
            assert(magnitude(perp_dir.x * width) <= magnitude(width as int) * magnitude(2 * len)
                && magnitude(perp_dir.y * width) <= magnitude(width as int) * magnitude(2 * len))
                by (nonlinear_arith)
                requires
                    len >= 1,
                    magnitude(perp_dir.x as int) <= len,
                    magnitude(perp_dir.y as int) <= len,
            ;
            crate::math::lemma_quotient_bound(
                perp_dir.x * width,
                2 * len,
                magnitude(width as int),
            );
            crate::math::lemma_quotient_bound(
                perp_dir.y * width,
                2 * len,
                magnitude(width as int),
            );
        }
        let hx = divide((perp_dir.x as i128) * (width as i128), 2 * (len as i128));
        let hy = divide((perp_dir.y as i128) * (width as i128), 2 * (len as i128));
        let half_width_perp_dir = Point { x: hx as i64, y: hy as i64 };
        let mut corners: Vec<Point> = Vec::new();
        corners.push(add_points(line_props.start, half_width_perp_dir));
        corners.push(subtract_points(line_props.start, half_width_perp_dir));
        corners.push(subtract_points(line_props.end, half_width_perp_dir));
        corners.push(add_points(line_props.end, half_width_perp_dir));
        assert(corner_vectors(corners@) =~= expanded(
            line_props.start@,
            line_props.end@,
            line_props@.half(),
        ));
        assert(corners@ =~= line_props@.expanded_corners());
        CollisionProperties {
            corners,
            start: Point { x: 0, y: 0 },
            end: Point { x: 0, y: 0 },
            center: Point { x: 0, y: 0 },
            radius: 0,
            width: 0,
        }
    }

    /// The overlap of the two rectangles' shadows on one axis.
    fn overlap_on_axis(c_a: &Vec<Point>, c_b: &Vec<Point>, axis: Point) -> (r: Option<Point>)
        requires
            c_a.len() == 4,
            c_b.len() == 4,
            forall|i: int| 0 <= i < 4 ==> (#[trigger] c_a@[i]).in_range(),
            forall|i: int| 0 <= i < 4 ==> (#[trigger] c_b@[i]).in_range(),
            axis@.bounded(2 * COORDINATE_LIMIT),
            axis@.norm2() != 0,
        ensures
            match r {
                Some(v) => axis_overlap(c_a@, c_b@, axis@) == Some(v@),
                None => axis_overlap(c_a@, c_b@, axis@).is_none(),
            },
            r matches Some(v) ==> v@.bounded(4 * COORDINATE_LIMIT),
    {
        let (projected_vectors_a, positions_on_axis_a) = project_corners(c_a, axis);
        let (projected_vectors_b, positions_on_axis_b) = project_corners(c_b, axis);
        let (max_a, max_a_i) = extended_max(&positions_on_axis_a).unwrap();
        let (min_a, min_a_i) = extended_min(&positions_on_axis_a).unwrap();
        let (max_b, max_b_i) = extended_max(&positions_on_axis_b).unwrap();
        let (min_b, min_b_i) = extended_min(&positions_on_axis_b).unwrap();
        if max_a < min_b || max_b < min_a {
            None
        } else {
            let diff1 = subtract_points(projected_vectors_a[max_a_i], projected_vectors_b[min_b_i]);
            let diff2 = subtract_points(projected_vectors_b[max_b_i], projected_vectors_a[min_a_i]);
            if length_v2(diff1) < length_v2(diff2) {
                Some(diff1)
            } else {
                Some(mult_v_scalar(diff2, -1))
            }
        }
    }

    /// The separating-axis test on two rectangles: the shortest
    /// displacement that pulls `rect_a_props` out of `rect_b_props`, or
    /// nothing when they do not overlap.
    pub fn rect_rect_intersection(
        rect_a_props: &CollisionProperties,
        rect_b_props: &CollisionProperties,
    ) -> (r: Option<Point>)
        requires
            rect_a_props@.is_rect(),
            rect_b_props@.is_rect(),
        ensures
            r.is_some() == rects_overlap(rect_a_props@.corners, rect_b_props@.corners),
            match r {
                Some(v) => sat_displacement(rect_a_props@.corners, rect_b_props@.corners) == Some(
                    v@,
                ),
                None => sat_displacement(rect_a_props@.corners, rect_b_props@.corners).is_none(),
            },
    {
        let c_a = &rect_a_props.corners;
        let c_b = &rect_b_props.corners;
        let ghost a = c_a@;
        let ghost b = c_b@;
        assert(c_a@[0].in_range() && c_a@[2].in_range() && c_a@[3].in_range());
        assert(c_b@[0].in_range() && c_b@[1].in_range() && c_b@[3].in_range());
        let mut axes: Vec<Point> = Vec::new();
        axes.push(subtract_points(c_a[3], c_a[0]));
        axes.push(subtract_points(c_a[3], c_a[2]));
        axes.push(subtract_points(c_b[0], c_b[1]));
        axes.push(subtract_points(c_b[0], c_b[3]));
        proof {
            assert forall|k: int| 0 <= k < 4 implies (#[trigger] axes@[k])@ == sat_axes(a, b)[k]
                && axes@[k]@.norm2() != 0 && axes@[k]@.bounded(2 * COORDINATE_LIMIT) by {
                let v = axes@[k]@;
                assert(v.x != 0 || v.y != 0);
                assert(v.norm2() != 0) by (nonlinear_arith)
                    requires v.x != 0 || v.y != 0;
            }
        }
        let mut axis_overlaps: Vec<Point> = Vec::new();
        let mut norms: Vec<i128> = Vec::new();
        let mut k: usize = 0;
        while k < 4
            invariant
                k <= 4,
                a == c_a@,
                b == c_b@,
                rect_a_props@.is_rect(),
                rect_b_props@.is_rect(),
                c_a@ == rect_a_props@.corners,
                c_b@ == rect_b_props@.corners,
                axes.len() == 4,
                forall|j: int|
                    0 <= j < 4 ==> (#[trigger] axes@[j])@ == sat_axes(a, b)[j] && axes@[j]@.norm2()
                        != 0 && axes@[j]@.bounded(2 * COORDINATE_LIMIT),
                axis_overlaps.len() == k,
                norms.len() == k,
                forall|j: int|
                    0 <= j < k ==> axis_overlap(a, b, sat_axes(a, b)[j]) == Some(
                        (#[trigger] axis_overlaps@[j])@,
                    ),
                forall|j: int|
                    0 <= j < k ==> (#[trigger] axis_overlaps@[j])@.bounded(4 * COORDINATE_LIMIT),
                forall|j: int| 0 <= j < k ==> #[trigger] norms@[j] == overlap_norms(a, b)[j],
            decreases 4 - k,
        {
            let axis = axes[k];
            match Self::overlap_on_axis(c_a, c_b, axis) {
                None => {
                    assert(separated_on(a, b, sat_axes(a, b)[k as int]));
                    return None;
                },
                Some(v) => {
                    proof {
                        lemma_product_bound(
                            v.x as int,
                            v.x as int,
                            4 * COORDINATE_LIMIT,
                            4 * COORDINATE_LIMIT,
                        );
                        lemma_product_bound(
                            v.y as int,
                            v.y as int,
                            4 * COORDINATE_LIMIT,
                            4 * COORDINATE_LIMIT,
                        );
                    }
                    norms.push(length_v2(v));
                    axis_overlaps.push(v);
                },
            }
            k += 1;
        }
        assert(norms@ =~= overlap_norms(a, b));
        assert(rects_overlap(a, b)) by {
            assert forall|j: int| 0 <= j < 4 implies !separated_on(
                a,
                b,
                #[trigger] sat_axes(a, b)[j],
            ) by {
                assert(axis_overlap(a, b, sat_axes(a, b)[j]) == Some(axis_overlaps@[j]@));
            }
        }
        let (_, min_i) = extended_min(&norms).unwrap();
        let min_vector = axis_overlaps[min_i];
        assert(min_vector@.bounded(4 * COORDINATE_LIMIT));
        Some(mult_v_scalar(min_vector, -1))
    }
}

/// The two boxes have a gap between them on some axis.
pub open spec fn boxes_apart(a: CollisionLimits, b: CollisionLimits) -> bool {
    a.x + a.width < b.x || b.x + b.width < a.x || a.y + a.height < b.y || b.y + b.height < a.y
}

/// Whether two shapes collide: never when their bounding boxes are apart;
/// else by the test for their pair of shapes, a line standing for the
/// rectangle it covers. A line or a circle never collides with a circle.
pub open spec fn spec_collide(a: ColliderView, b: ColliderView) -> bool {
    let pa = a.collision_properties;
    let pb = b.collision_properties;
    if boxes_apart(a.limits(), b.limits()) {
        false
    } else {
        match a.collision_type {
            CollisionType::Circle => match b.collision_type {
                CollisionType::Rect => rect_meets_circle(
                    pb.corners,
                    pa.center@,
                    pa.radius as int,
                ),
                _ => false,
            },
            CollisionType::Rect => match b.collision_type {
                CollisionType::Rect => rects_overlap(pa.corners, pb.corners),
                CollisionType::Line => rects_overlap(pa.corners, pb.expanded_corners()),
                CollisionType::Circle => rect_meets_circle(
                    pa.corners,
                    pb.center@,
                    pb.radius as int,
                ),
            },
            CollisionType::Line => match b.collision_type {
                CollisionType::Rect => rects_overlap(pa.expanded_corners(), pb.corners),
                CollisionType::Line => rects_overlap(
                    pa.expanded_corners(),
                    pb.expanded_corners(),
                ),
                _ => false,
            },
        }
    }
}

impl CollisionObject {
    /// Whether a rectangle, the first argument, and a circle, the second,
    /// touch.
    pub fn rect_circle_collision(
        rect_props: &CollisionProperties,
        circle_props: &CollisionProperties,
    ) -> (r: bool)
        requires
            rect_props@.is_rect(),
            circle_props@.is_circle(),
        ensures
            r == rect_meets_circle(
                rect_props@.corners,
                circle_props.center@,
                circle_props.radius as int,
            ),
    {
        let corners: &Vec<Point> = &rect_props.corners;
        let center = circle_props.center;
        let ghost rect = corners@;
        let ghost radius = circle_props.radius as int;
        proof {
            lemma_product_bound(radius, radius, COORDINATE_LIMIT as int, COORDINATE_LIMIT as int);
        }
        let radius2: i128 = (circle_props.radius as i128) * (circle_props.radius as i128);
        let mut i: usize = 0;
        while i < corners.len()
            invariant
                i <= corners.len(),
                rect == corners@,
                rect_props@.is_rect(),
                corners@ == rect_props@.corners,
                center.in_range(),
                center == circle_props.center,
                radius == circle_props.radius,
                radius2 == radius * radius,
                forall|j: int| 0 <= j < i ==> !corner_within(rect, j, center@, radius),
            decreases corners.len() - i,
        {
            assert(corners@[i as int].in_range());
            if length2(corners[i], center) <= radius2 {
                assert(corner_within(rect, i as int, center@, radius));
                assert(corner_in_circle(rect, center@, radius));
                return true;
            }
            i += 1;
        }
        i = 0;
        while i < corners.len()
            invariant
                i <= corners.len(),
                rect == corners@,
                rect_props@.is_rect(),
                corners@ == rect_props@.corners,
                center.in_range(),
                center == circle_props.center,
                radius == circle_props.radius,
                radius2 == radius * radius,
                forall|j: int| 0 <= j < i ==> !edge_within(rect, j, center@, radius),
            decreases corners.len() - i,
        {
            let next: usize = (i + 1) % corners.len();
            assert(corners@[i as int].in_range() && corners@[next as int].in_range());
            assert(corners@[i as int] != corners@[next as int]) by {
                assert(corners.len() == 4);
                assert(i == 0 || i == 1 || i == 2 || i == 3);
                assert(i == 3 ==> next == 0);
                assert(i < 3 ==> next == i + 1);
            }
            let start = corners[i];
            let end = corners[next];
            let added_point = distance_to_line(center, start, end);
            if added_point.line_proj_2 > 0 && added_point.line_proj_2 < added_point.length2
                && added_point.distance2 <= radius2 {
                assert(edge_within(rect, i as int, center@, radius));
                assert(edge_in_circle(rect, center@, radius));
                return true;
            }
            i += 1;
        }
        assert(!corner_in_circle(rect, center@, radius));
        assert(!edge_in_circle(rect, center@, radius));
        assert(corners@[0].in_range() && corners@[2].in_range() && corners@[3].in_range());
        let axis0 = subtract_points(corners[3], corners[0]);
        let axis1 = subtract_points(corners[3], corners[2]);
        proof {
            assert(axis0@.norm2() != 0) by (nonlinear_arith)
                requires axis0@.x != 0 || axis0@.y != 0;
            assert(axis1@.norm2() != 0) by (nonlinear_arith)
                requires axis1@.x != 0 || axis1@.y != 0;
        }
        let projection0 = project(subtract_points(center, corners[0]), axis0);
        let projection1 = project(subtract_points(center, corners[2]), axis1);
        if projection0.dot_product < 0 || length_v2(projection0.projected) > length_v2(axis0)
            || projection1.dot_product < 0 || length_v2(projection1.projected) > length_v2(axis1) {
            return false;
        }
        true
    }

    /// Whether this collider and the other collide. Both bounding boxes are
    /// brought up to date on the way.
    pub fn collide(&mut self, other: &mut CollisionObject) -> (r: bool)
        requires
            old(self)@.wf(),
            old(self)@.measurable(),
            old(self)@.collidable(),
            old(other)@.wf(),
            old(other)@.measurable(),
            old(other)@.collidable(),
        ensures
            r == spec_collide(old(self)@, old(other)@),
            final(self)@ == old(self)@.refreshed(),
            final(other)@ == old(other)@.refreshed(),
    {
        let obj_limits = self.limits();
        let other_limits = other.limits();
        if obj_limits.x + obj_limits.width < other_limits.x || other_limits.x + other_limits.width
            < obj_limits.x || obj_limits.y + obj_limits.height < other_limits.y || other_limits.y
            + other_limits.height < obj_limits.y {
            return false;
        }
        match self.collision_type {
            CollisionType::Circle => match other.collision_type {
                CollisionType::Rect => Self::rect_circle_collision(
                    &other.collision_properties,
                    &self.collision_properties,
                ),
                _ => false,
            },
            CollisionType::Rect => match other.collision_type {
                CollisionType::Rect => Self::rect_rect_intersection(
                    &self.collision_properties,
                    &other.collision_properties,
                ).is_some(),
                CollisionType::Line => Self::rect_rect_intersection(
                    &self.collision_properties,
                    &Self::rect_props_from_line(&other.collision_properties),
                ).is_some(),
                CollisionType::Circle => Self::rect_circle_collision(
                    &self.collision_properties,
                    &other.collision_properties,
                ),
            },
            CollisionType::Line => match other.collision_type {
                CollisionType::Rect => Self::rect_rect_intersection(
                    &Self::rect_props_from_line(&self.collision_properties),
                    &other.collision_properties,
                ).is_some(),
                CollisionType::Line => Self::rect_rect_intersection(
                    &Self::rect_props_from_line(&self.collision_properties),
                    &Self::rect_props_from_line(&other.collision_properties),
                ).is_some(),
                _ => false,
            },
        }
    }
}

/// Opposite sides of the four-cornered shape are equal and parallel.
pub open spec fn is_parallelogram(c: Seq<Point>) -> bool {
    c[0]@.minus(c[1]@) == c[3]@.minus(c[2]@)
}

/// Turning the axis round leaves the verdict on it as it was.
pub proof fn lemma_separated_on_reverse(a: Seq<Point>, b: Seq<Point>, axis: Vector)
    requires
        a.len() > 0,
        b.len() > 0,
        forall|i: int| 0 <= i < a.len() ==> (#[trigger] a[i]).in_range(),
        forall|i: int| 0 <= i < b.len() ==> (#[trigger] b[i]).in_range(),
        axis.bounded(2 * COORDINATE_LIMIT),
    ensures
        separated_on(a, b, axis) == separated_on(a, b, axis.times(-1)),
{
    lemma_positions_reverse(a, axis);
    lemma_positions_reverse(b, axis);
    let pa = positions(a, axis);
    let pb = positions(b, axis);
    let na = positions(a, axis.times(-1));
    let nb = positions(b, axis.times(-1));
    lemma_first_extremes_exist(pa);
    lemma_first_extremes_exist(pb);
    assert(na[first_max(na)] == -pa[first_min(pa)]);
    assert(na[first_min(na)] == -pa[first_max(pa)]);
    assert(nb[first_max(nb)] == -pb[first_min(pb)]);
    assert(nb[first_min(nb)] == -pb[first_max(pb)]);
}

/// Along the reversed axis the first greatest position is the first least
/// of before, and the positions have changed their signs.
pub proof fn lemma_positions_reverse(a: Seq<Point>, axis: Vector)
    requires
        a.len() > 0,
        forall|i: int| 0 <= i < a.len() ==> (#[trigger] a[i]).in_range(),
        axis.bounded(2 * COORDINATE_LIMIT),
    ensures
        first_max(positions(a, axis.times(-1))) == first_min(positions(a, axis)),
        first_min(positions(a, axis.times(-1))) == first_max(positions(a, axis)),
        forall|i: int|
            0 <= i < a.len() ==> #[trigger] positions(a, axis.times(-1))[i] == -positions(
                a,
                axis,
            )[i],
{
    let pa = positions(a, axis);
    let na = positions(a, axis.times(-1));
    assert forall|i: int| 0 <= i < a.len() implies #[trigger] na[i] == -pa[i] by {
        let c = a[i];
        assert(c.in_range());
        lemma_product_bound(c.x as int, axis.x, COORDINATE_LIMIT as int, 2 * COORDINATE_LIMIT);
        lemma_product_bound(c.y as int, axis.y, COORDINATE_LIMIT as int, 2 * COORDINATE_LIMIT);
        assert(c@.dot(axis.times(-1)) == -c@.dot(axis)) by (nonlinear_arith)
            requires
                c@.dot(axis.times(-1)) == c@.x * (axis.x * -1) + c@.y * (axis.y * -1),
                c@.dot(axis) == c@.x * axis.x + c@.y * axis.y,
        ;
    }
    lemma_first_extremes_exist(pa);
    let lo = first_min(pa);
    let hi = first_max(pa);
    assert(is_first_max(na, lo)) by {
        assert forall|j: int| 0 <= j < na.len() implies na[lo] >= #[trigger] na[j] by {
            assert(pa[lo] <= pa[j]);
        }
        assert forall|j: int| 0 <= j < lo implies na[lo] > #[trigger] na[j] by {
            assert(pa[lo] < pa[j]);
        }
    }
    assert(is_first_min(na, hi)) by {
        assert forall|j: int| 0 <= j < na.len() implies na[hi] <= #[trigger] na[j] by {
            assert(pa[hi] >= pa[j]);
        }
        assert forall|j: int| 0 <= j < hi implies na[hi] < #[trigger] na[j] by {
            assert(pa[hi] > pa[j]);
        }
    }
    lemma_first_max_unique(na, lo);
    lemma_first_min_unique(na, hi);
}

/// Whether two parallelograms overlap does not depend on which of them is
/// named first.
pub proof fn lemma_rects_overlap_symmetric(a: Seq<Point>, b: Seq<Point>)
    requires
        a.len() == 4,
        b.len() == 4,
        forall|i: int| 0 <= i < 4 ==> (#[trigger] a[i]).in_range(),
        forall|i: int| 0 <= i < 4 ==> (#[trigger] b[i]).in_range(),
        is_parallelogram(a),
        is_parallelogram(b),
    ensures
        rects_overlap(a, b) == rects_overlap(b, a),
{
    let ab = sat_axes(a, b);
    let ba = sat_axes(b, a);
    assert(a[0].in_range() && a[1].in_range() && a[2].in_range() && a[3].in_range());
    assert(b[0].in_range() && b[1].in_range() && b[2].in_range() && b[3].in_range());
    assert(ba[0] == ab[3].times(-1));
    assert(ba[1] == ab[2]);
    assert(ba[2] == ab[1]);
    assert(ba[3] == ab[0].times(-1));
    lemma_separated_on_reverse(a, b, ab[3]);
    lemma_separated_on_reverse(a, b, ab[0]);
    assert forall|k: int| 0 <= k < 4 implies separated_on(a, b, ab[k]) == separated_on(
        b,
        a,
        ab[k],
    ) by {}
    assert forall|k: int| 0 <= k < 4 implies separated_on(a, b, ba[k]) == separated_on(
        b,
        a,
        ba[k],
    ) by {}
    if rects_overlap(a, b) {
        assert(!separated_on(a, b, ab[0]) && !separated_on(a, b, ab[1]) && !separated_on(
            a,
            b,
            ab[2],
        ) && !separated_on(a, b, ab[3]));
        assert forall|k: int| 0 <= k < 4 implies !separated_on(b, a, #[trigger] ba[k]) by {}
    }
    if rects_overlap(b, a) {
        assert(!separated_on(b, a, ba[0]) && !separated_on(b, a, ba[1]) && !separated_on(
            b,
            a,
            ba[2],
        ) && !separated_on(b, a, ba[3]));
        assert forall|k: int| 0 <= k < 4 implies !separated_on(a, b, #[trigger] ab[k]) by {}
    }
}

} // verus!
