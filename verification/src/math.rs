//! Exact vector algebra on the lattice.
use vstd::prelude::*;
use crate::config::{COORDINATE_LIMIT, EPSILON, EPSILON_ROOT, UNIT, WIDE_LIMIT};

verus! {

/// A point of the lattice, or the vector from the origin to it.
#[derive(Clone, Copy, Debug, PartialEq, Eq, Structural)]
pub struct Point {
    pub x: i64,
    pub y: i64,
}

/// A vector with unbounded integer coordinates: the model of a `Point`.
pub struct Vector {
    pub x: int,
    pub y: int,
}

impl Vector {
    /// The sum of two vectors.
    pub open spec fn plus(self, other: Vector) -> Vector {
        Vector { x: self.x + other.x, y: self.y + other.y }
    }

    /// The difference of two vectors.
    pub open spec fn minus(self, other: Vector) -> Vector {
        Vector { x: self.x - other.x, y: self.y - other.y }
    }

    /// The vector `n` times as long.
    pub open spec fn times(self, n: int) -> Vector {
        Vector { x: self.x * n, y: self.y * n }
    }

    /// The scalar product.
    pub open spec fn dot(self, other: Vector) -> int {
        self.x * other.x + self.y * other.y
    }

    /// The cross product, a scalar in the plane.
    pub open spec fn cross(self, other: Vector) -> int {
        self.x * other.y - self.y * other.x
    }

    /// The squared length.
    pub open spec fn norm2(self) -> int {
        self.x * self.x + self.y * self.y
    }

    /// Both coordinates lie in `[-limit, limit]`.
    pub open spec fn bounded(self, limit: int) -> bool {
        -limit <= self.x <= limit && -limit <= self.y <= limit
    }

    /// Both coordinates fit a machine word.
    pub open spec fn fits(self) -> bool {
        i64::MIN <= self.x <= i64::MAX && i64::MIN <= self.y <= i64::MAX
    }
}

impl View for Point {
    type V = Vector;

    open spec fn view(&self) -> Vector {
        Vector { x: self.x as int, y: self.y as int }
    }
}

impl Point {
    /// The point with the coordinates `x` and `y`.
    pub fn new(x: i64, y: i64) -> (p: Point)
        ensures
            p == (Point { x, y }),
    {
        Point { x, y }
    }

    /// The first coordinate.
    pub fn x(&self) -> (x: i64)
        ensures
            x == self.x,
    {
        self.x
    }

    /// The second coordinate.
    pub fn y(&self) -> (y: i64)
        ensures
            y == self.y,
    {
        self.y
    }

    /// The point is one the geometry accepts.
    pub open spec fn in_range(self) -> bool {
        self@.bounded(COORDINATE_LIMIT as int)
    }

    /// Whether the point is one the geometry accepts.
    pub fn is_in_range(&self) -> (b: bool)
        ensures
            b == self.in_range(),
    {
        -COORDINATE_LIMIT <= self.x && self.x <= COORDINATE_LIMIT && -COORDINATE_LIMIT <= self.y
            && self.y <= COORDINATE_LIMIT
    }
}

/// The absolute value of an integer.
pub open spec fn magnitude(a: int) -> int {
    if a < 0 {
        -a
    } else {
        a
    }
}

/// The quotient of `a` by `b`, rounded toward zero; zero when `b` is zero.
pub open spec fn quotient(a: int, b: int) -> int {
    if b == 0 {
        0
    } else if (a >= 0) == (b > 0) {
        magnitude(a) / magnitude(b)
    } else {
        -(magnitude(a) / magnitude(b))
    }
}

/// `r` is the largest integer whose square does not exceed `n`.
pub open spec fn is_floor_sqrt(n: int, r: int) -> bool {
    0 <= r && r * r <= n < (r + 1) * (r + 1)
}

/// The floor of the square root of `n`.
pub open spec fn floor_sqrt(n: int) -> int {
    choose|r: int| is_floor_sqrt(n, r)
}

/// A product of two bounded numbers is bounded by the product of the bounds.
/// Every number that is not negative has a floor of its square root, which
/// is not negative and no greater than the number.
pub proof fn lemma_floor_sqrt_exists(n: int)
    requires
        n >= 0,
    ensures
        is_floor_sqrt(n, floor_sqrt(n)),
        0 <= floor_sqrt(n) <= n,
{
    let r = lemma_floor_sqrt_of(n);
    let root = floor_sqrt(n);
    assert(is_floor_sqrt(n, root));
    assert(root <= n) by (nonlinear_arith)
        requires 0 <= root, root * root <= n;
}

proof fn lemma_floor_sqrt_of(n: int) -> (r: int)
    requires
        n >= 0,
    ensures
        is_floor_sqrt(n, r),
    decreases n,
{
    if n == 0 {
        assert(is_floor_sqrt(0, 0)) by (nonlinear_arith);
        0
    } else {
        let r = lemma_floor_sqrt_of(n - 1);
        if (r + 1) * (r + 1) <= n {
            assert(n < (r + 2) * (r + 2)) by (nonlinear_arith)
                requires n - 1 < (r + 1) * (r + 1), r >= 0;
            assert(is_floor_sqrt(n, r + 1));
            r + 1
        } else {
            r
        }
    }
}

pub proof fn lemma_product_bound(a: int, b: int, m: int, n: int)
    by (nonlinear_arith)
    requires
        -m <= a <= m,
        -n <= b <= n,
    ensures
        -(m * n) <= a * b <= m * n,
{
}

/// At most one integer is the floor of the square root of `n`.
pub proof fn lemma_floor_sqrt_unique(n: int, r1: int, r2: int)
    by (nonlinear_arith)
    requires
        is_floor_sqrt(n, r1),
        is_floor_sqrt(n, r2),
    ensures
        r1 == r2,
{
    if r1 < r2 {
        assert((r1 + 1) * (r1 + 1) <= r2 * r2);
    } else if r2 < r1 {
        assert((r2 + 1) * (r2 + 1) <= r1 * r1);
    }
}

/// Division that rounds toward zero, whatever the signs.
pub fn divide(a: i128, b: i128) -> (q: i128)
    requires
        b != 0,
        a > i128::MIN,
        b > i128::MIN,
    ensures
        q == quotient(a as int, b as int),
        magnitude(q as int) <= magnitude(a as int),
{
    let ma: i128 = if a < 0 { -a } else { a };
    let mb: i128 = if b < 0 { -b } else { b };
    let mq: i128 = ma / mb;
    assert(0 <= mq <= ma) by (nonlinear_arith)
        requires mq == (ma as int) / (mb as int), ma >= 0, mb > 0;
    if (a >= 0) == (b > 0) {
        mq
    } else {
        -mq
    }
}

/// The floor of the square root.
pub fn integer_sqrt(n: i128) -> (r: i64)
    requires
        0 <= n < 0x4000_0000_0000_0000_0000_0000_0000_0000,
    ensures
        is_floor_sqrt(n as int, r as int),
        r == floor_sqrt(n as int),
{
    let mut lo: i128 = 0;
    let mut hi: i128 = 0x8000_0000_0000_0000;
    while hi - lo > 1
        invariant
            0 <= lo < hi <= 0x8000_0000_0000_0000,
            lo * lo <= n < hi * hi,
        decreases hi - lo,
    {
        let mid: i128 = lo + (hi - lo) / 2;
        assert(0 <= mid * mid <= 0x8000_0000_0000_0000 * 0x8000_0000_0000_0000)
            by (nonlinear_arith)
            requires 0 <= mid <= 0x8000_0000_0000_0000;
        if mid * mid <= n {
            lo = mid;
        } else {
            hi = mid;
        }
    }
    proof {
        assert(is_floor_sqrt(n as int, lo as int));
        lemma_floor_sqrt_unique(n as int, lo as int, floor_sqrt(n as int));
    }
    lo as i64
}

/// The vector from `point2` to `point1`.
pub fn subtract_points(point1: Point, point2: Point) -> (r: Point)
    requires
        point1@.minus(point2@).fits(),
    ensures
        r@ == point1@.minus(point2@),
{
    Point { x: point1.x - point2.x, y: point1.y - point2.y }
}

/// The sum of two vectors.
pub fn add_points(point1: Point, point2: Point) -> (r: Point)
    requires
        point1@.plus(point2@).fits(),
    ensures
        r@ == point1@.plus(point2@),
{
    Point { x: point1.x + point2.x, y: point1.y + point2.y }
}

/// The vector `n` times as long as `v`.
pub fn mult_v_scalar(v: Point, n: i64) -> (r: Point)
    requires
        v@.times(n as int).fits(),
    ensures
        r@ == v@.times(n as int),
{
    Point { x: v.x * n, y: v.y * n }
}

/// The squared length of `v`.
pub fn length_v2(v: Point) -> (r: i128)
    requires
        v@.bounded(WIDE_LIMIT as int),
    ensures
        r == v@.norm2(),
        r >= 0,
{
    proof {
        lemma_product_bound(v.x as int, v.x as int, WIDE_LIMIT as int, WIDE_LIMIT as int);
        lemma_product_bound(v.y as int, v.y as int, WIDE_LIMIT as int, WIDE_LIMIT as int);
        assert(v.x * v.x >= 0 && v.y * v.y >= 0) by (nonlinear_arith);
    }
    (v.x as i128) * (v.x as i128) + (v.y as i128) * (v.y as i128)
}

/// The scalar product of two vectors.
pub fn dot_product(point1: Point, point2: Point) -> (r: i128)
    requires
        point1@.bounded(WIDE_LIMIT as int),
        point2@.bounded(WIDE_LIMIT as int),
    ensures
        r == point1@.dot(point2@),
{
    proof {
        lemma_product_bound(point1.x as int, point2.x as int, WIDE_LIMIT as int, WIDE_LIMIT as int);
        lemma_product_bound(point1.y as int, point2.y as int, WIDE_LIMIT as int, WIDE_LIMIT as int);
    }
    (point1.x as i128) * (point2.x as i128) + (point1.y as i128) * (point2.y as i128)
}

/// The cross product of two vectors, a scalar in the plane.
pub fn cross_product(point1: Point, point2: Point) -> (r: i128)
    requires
        point1@.bounded(WIDE_LIMIT as int),
        point2@.bounded(WIDE_LIMIT as int),
    ensures
        r == point1@.cross(point2@),
{
    proof {
        lemma_product_bound(point1.x as int, point2.y as int, WIDE_LIMIT as int, WIDE_LIMIT as int);
        lemma_product_bound(point1.y as int, point2.x as int, WIDE_LIMIT as int, WIDE_LIMIT as int);
    }
    (point1.x as i128) * (point2.y as i128) - (point1.y as i128) * (point2.x as i128)
}

/// The sign of `x`: -1, 0 or 1.
pub fn sign(x: i128) -> (s: i64)
    ensures
        s == if x > 0 { 1int } else if x < 0 { -1int } else { 0int },
{
    if x > 0 {
        1
    } else if x < 0 {
        -1
    } else {
        0
    }
}

/// The length of `v`, rounded down to a whole lattice step.
pub fn length_v(v: Point) -> (r: i64)
    requires
        v@.bounded(WIDE_LIMIT as int),
    ensures
        is_floor_sqrt(v@.norm2(), r as int),
        r == floor_sqrt(v@.norm2()),
{
    proof {
        lemma_product_bound(v.x as int, v.x as int, WIDE_LIMIT as int, WIDE_LIMIT as int);
        lemma_product_bound(v.y as int, v.y as int, WIDE_LIMIT as int, WIDE_LIMIT as int);
    }
    integer_sqrt(length_v2(v))
}

/// The squared distance between two points.
pub fn length2(point1: Point, point2: Point) -> (r: i128)
    requires
        point1@.bounded(WIDE_LIMIT / 2),
        point2@.bounded(WIDE_LIMIT / 2),
    ensures
        r == point2@.minus(point1@).norm2(),
        r >= 0,
{
    let v = subtract_points(point2, point1);
    length_v2(v)
}

/// The distance between two points, rounded down to a whole lattice step.
pub fn length(point1: Point, point2: Point) -> (r: i64)
    requires
        point1@.bounded(WIDE_LIMIT / 2),
        point2@.bounded(WIDE_LIMIT / 2),
    ensures
        is_floor_sqrt(point2@.minus(point1@).norm2(), r as int),
        r == floor_sqrt(point2@.minus(point1@).norm2()),
{
    let v = subtract_points(point2, point1);
    length_v(v)
}

/// Whether two points are the same up to `EPSILON`.
pub open spec fn spec_equal_v(v1: Vector, v2: Vector) -> bool {
    v1.minus(v2).norm2() < EPSILON
}

/// Whether two points are the same up to `EPSILON`.
pub fn equal_v(v1: Point, v2: Point) -> (b: bool)
    requires
        v1@.bounded(WIDE_LIMIT / 2),
        v2@.bounded(WIDE_LIMIT / 2),
    ensures
        b == spec_equal_v(v1@, v2@),
{
    let diff = subtract_points(v1, v2);
    let _length2 = length_v2(diff);
    _length2 < EPSILON as i128
}

/// A point equals itself.
pub proof fn lemma_equal_v_reflexive(p: Vector)
    ensures
        spec_equal_v(p, p),
{
    assert(p.minus(p).norm2() == 0) by (nonlinear_arith)
        requires p.minus(p).x == 0, p.minus(p).y == 0;
}

/// A point differs from the point twice the root of `EPSILON` to its right.
pub proof fn lemma_equal_v_separates(p: Vector)
    ensures
        !spec_equal_v(p, p.plus(Vector { x: 2 * EPSILON_ROOT, y: 0 })),
{
    let d = p.minus(p.plus(Vector { x: 2 * EPSILON_ROOT, y: 0 }));
    assert(d.x == -2 && d.y == 0);
    assert(d.norm2() == 4) by (nonlinear_arith)
        requires d.x == -2, d.y == 0;
}

/// On the lattice two points are equal up to `EPSILON` exactly when they coincide.
pub proof fn lemma_equal_v_is_identity(v1: Vector, v2: Vector)
    ensures
        spec_equal_v(v1, v2) <==> v1 == v2,
{
    let d = v1.minus(v2);
    assert(d.norm2() < 1 <==> (d.x == 0 && d.y == 0)) by (nonlinear_arith);
}

/// A scalar product of a vector with another, and its projection onto it.
#[derive(Clone, Copy, Debug, PartialEq, Eq, Structural)]
pub struct DotProduct {
    pub dot_product: i128,
    pub projected: Point,
}

/// What `distance_to_line` measures of a point against a line.
#[derive(Clone, Copy, Debug, PartialEq, Eq, Structural)]
pub struct AddedPoint {
    pub distance2: i128,
    pub point_on_line: Point,
    pub line_proj_2: i128,
    pub length2: i128,
}

/// The projection of `v` onto `onto`: `onto` scaled by `v.onto / |onto|^2`,
/// each coordinate rounded toward zero.
pub open spec fn spec_project(v: Vector, onto: Vector) -> Vector {
    Vector {
        x: quotient(onto.x * v.dot(onto), onto.norm2()),
        y: quotient(onto.y * v.dot(onto), onto.norm2()),
    }
}

/// A quotient is no larger than what the dividend holds of the divisor.
pub proof fn lemma_quotient_bound(a: int, b: int, m: int)
    requires
        b != 0,
        0 <= m,
        magnitude(a) <= m * magnitude(b),
    ensures
        magnitude(quotient(a, b)) <= m,
{
    let ma = magnitude(a);
    let mb = magnitude(b);
    assert(0 <= ma / mb <= m) by (nonlinear_arith)
        requires 0 <= ma, 0 < mb, 0 <= m, ma <= m * mb;
}

/// A coordinate of a projection is no longer than the projected vector's
/// two coordinates together.
pub proof fn lemma_projection_bound(vx: int, vy: int, ox: int, oy: int)
    ensures
        magnitude(ox * (vx * ox + vy * oy)) <= (magnitude(vx) + magnitude(vy)) * (ox * ox + oy
            * oy),
{
    let a = magnitude(vx);
    let b = magnitude(vy);
    let p = magnitude(ox);
    let q = magnitude(oy);
    assert(ox * ox == p * p && oy * oy == q * q) by (nonlinear_arith)
        requires p == magnitude(ox), q == magnitude(oy);
    assert(magnitude(ox * (vx * ox + vy * oy)) <= a * (p * p) + b * (p * q))
        by (nonlinear_arith)
        requires
            a == magnitude(vx),
            b == magnitude(vy),
            p == magnitude(ox),
            q == magnitude(oy),
    {
        assert(magnitude(vx * ox) == a * p);
        assert(magnitude(vy * oy) == b * q);
        assert(magnitude(vx * ox + vy * oy) <= a * p + b * q);
        assert(magnitude(ox * (vx * ox + vy * oy)) == p * magnitude(vx * ox + vy * oy));
        assert(p * magnitude(vx * ox + vy * oy) <= p * (a * p + b * q));
        assert(p * (a * p + b * q) == a * (p * p) + b * (p * q));
    }
    assert(b * (p * q) <= b * (p * p + q * q)) by (nonlinear_arith)
        requires 0 <= b, 0 <= p, 0 <= q,
    {
        assert((p - q) * (p - q) >= 0);
        assert(p * q <= p * p + q * q);
    }
    assert(a * (p * p) + b * (p * p + q * q) <= (a + b) * (p * p + q * q)) by (nonlinear_arith)
        requires 0 <= a, 0 <= b;
}

/// The scalar product of `v` with `onto` and the projection of `v` onto it.
pub fn project(v: Point, onto: Point) -> (r: DotProduct)
    requires
        v@.bounded(2 * COORDINATE_LIMIT),
        onto@.bounded(2 * COORDINATE_LIMIT),
        onto@.norm2() != 0,
    ensures
        r.dot_product == v@.dot(onto@),
        r.projected@ == spec_project(v@, onto@),
        r.projected@.bounded(magnitude(v.x as int) + magnitude(v.y as int)),
{
    let dot_product = dot_product(v, onto);
    let norm = length_v2(onto);
    proof {
        lemma_product_bound(v.x as int, onto.x as int, 0x200_0000_0000, 0x200_0000_0000);
        lemma_product_bound(v.y as int, onto.y as int, 0x200_0000_0000, 0x200_0000_0000);
        lemma_product_bound(
            onto.x as int,
            dot_product as int,
            0x200_0000_0000,
            0x8_0000_0000_0000_0000_0000,
        );
        lemma_product_bound(
            onto.y as int,
            dot_product as int,
            0x200_0000_0000,
            0x8_0000_0000_0000_0000_0000,
        );
        lemma_projection_bound(v.x as int, v.y as int, onto.x as int, onto.y as int);
        lemma_projection_bound(v.y as int, v.x as int, onto.y as int, onto.x as int);
        assert(v.y * onto.y + v.x * onto.x == v.x * onto.x + v.y * onto.y);
        assert(onto.y * onto.y + onto.x * onto.x == onto.x * onto.x + onto.y * onto.y);
        lemma_quotient_bound(
            onto.x * dot_product,
            norm as int,
            magnitude(v.x as int) + magnitude(v.y as int),
        );
        lemma_quotient_bound(
            onto.y * dot_product,
            norm as int,
            magnitude(v.x as int) + magnitude(v.y as int),
        );
    }
    let px = divide((onto.x as i128) * dot_product, norm);
    let py = divide((onto.y as i128) * dot_product, norm);
    DotProduct { dot_product, projected: Point { x: px as i64, y: py as i64 } }
}

/// The foot of the perpendicular from `center` to the line through `start`
/// and `end`.
pub open spec fn spec_foot(center: Vector, start: Vector, end: Vector) -> Vector {
    start.plus(spec_project(center.minus(start), end.minus(start)))
}

/// The sign of the scalar product times the squared length of the projection:
/// where along the line the foot lies, measured from `start`.
pub open spec fn spec_line_proj_2(center: Vector, start: Vector, end: Vector) -> int {
    let dot = center.minus(start).dot(end.minus(start));
    let len = spec_project(center.minus(start), end.minus(start)).norm2();
    if dot > 0 {
        len
    } else if dot < 0 {
        -len
    } else {
        0
    }
}

/// The foot lies on the segment from `start` to `end`, ends included.
pub open spec fn foot_on_segment(center: Vector, start: Vector, end: Vector) -> bool {
    0 <= spec_line_proj_2(center, start, end) <= end.minus(start).norm2()
}

/// `c` lies between `a` and `b`, whichever of the two is larger.
pub open spec fn between(a: int, b: int, c: int) -> bool {
    (a <= c <= b) || (b <= c <= a)
}

/// A quotient by a positive number keeps the sign of the dividend and
/// grows with its size.
pub proof fn lemma_quotient_monotone(a: int, k: int, n: int)
    requires
        n > 0,
    ensures
        magnitude(a) <= magnitude(k) * n ==> magnitude(quotient(a, n)) <= magnitude(k),
        magnitude(a) >= magnitude(k) * n ==> magnitude(quotient(a, n)) >= magnitude(k),
        a >= 0 ==> quotient(a, n) >= 0,
        a <= 0 ==> quotient(a, n) <= 0,
{
    let ma = magnitude(a);
    let mk = magnitude(k);
    assert(ma <= mk * n ==> ma / n <= mk) by (nonlinear_arith)
        requires n > 0, ma >= 0, mk >= 0;
    assert(ma >= mk * n ==> ma / n >= mk) by (nonlinear_arith)
        requires n > 0, ma >= 0, mk >= 0;
    assert(ma / n >= 0) by (nonlinear_arith)
        requires n > 0, ma >= 0;
    assert(a == 0 ==> ma / n == 0) by (nonlinear_arith)
        requires n > 0, ma == magnitude(a);
}

/// When the foot lies on the segment, each of its coordinates lies between
/// the coordinates of the segment's ends.
pub proof fn lemma_foot_inside(center: Vector, start: Vector, end: Vector)
    requires
        end.minus(start).norm2() != 0,
        foot_on_segment(center, start, end),
    ensures
        between(start.x, end.x, spec_foot(center, start, end).x),
        between(start.y, end.y, spec_foot(center, start, end).y),
{
    let ab = end.minus(start);
    let dot = center.minus(start).dot(ab);
    let n = ab.norm2();
    let pr = spec_project(center.minus(start), ab);
    assert(n > 0) by (nonlinear_arith)
        requires n == ab.x * ab.x + ab.y * ab.y, n != 0;
    assert(pr.x * pr.x >= 0 && pr.y * pr.y >= 0) by (nonlinear_arith);
    if dot < 0 {
        assert(pr.x == 0 && pr.y == 0) by (nonlinear_arith)
            requires pr.x * pr.x + pr.y * pr.y <= 0;
    } else if dot == 0 {
        assert(ab.x * dot == 0 && ab.y * dot == 0) by (nonlinear_arith)
            requires dot == 0;
    } else {
        assert(magnitude(ab.x * dot) == magnitude(ab.x) * dot && magnitude(ab.y * dot)
            == magnitude(ab.y) * dot) by (nonlinear_arith)
            requires dot > 0;
        assert((ab.x >= 0 ==> ab.x * dot >= 0) && (ab.x <= 0 ==> ab.x * dot <= 0) && (ab.y >= 0
            ==> ab.y * dot >= 0) && (ab.y <= 0 ==> ab.y * dot <= 0)) by (nonlinear_arith)
            requires dot > 0;
        lemma_quotient_monotone(ab.x * dot, ab.x, n);
        lemma_quotient_monotone(ab.y * dot, ab.y, n);
        if dot <= n {
            assert(magnitude(ab.x) * dot <= magnitude(ab.x) * n && magnitude(ab.y) * dot
                <= magnitude(ab.y) * n) by (nonlinear_arith)
                requires 0 < dot <= n;
        } else {
            assert(magnitude(ab.x) * dot >= magnitude(ab.x) * n && magnitude(ab.y) * dot
                >= magnitude(ab.y) * n) by (nonlinear_arith)
                requires 0 < n < dot;
            let mx = magnitude(pr.x);
            let my = magnitude(pr.y);
            let ax = magnitude(ab.x);
            let ay = magnitude(ab.y);
            assert(pr.x * pr.x == mx * mx && pr.y * pr.y == my * my && ab.x * ab.x == ax * ax
                && ab.y * ab.y == ay * ay) by (nonlinear_arith)
                requires
                    mx == magnitude(pr.x),
                    my == magnitude(pr.y),
                    ax == magnitude(ab.x),
                    ay == magnitude(ab.y),
            ;
            assert(mx == ax && my == ay) by (nonlinear_arith)
                requires
                    mx >= ax >= 0,
                    my >= ay >= 0,
                    mx * mx + my * my <= ax * ax + ay * ay,
            {
                assert(mx * mx >= ax * ax);
                assert(my * my >= ay * ay);
                assert(mx > ax ==> mx * mx > ax * ax);
                assert(my > ay ==> my * my > ay * ay);
            }
        }
    }
}

/// Measures the point `center` against the line through `start` and
/// `end`: the foot of the perpendicular, the squared distance to it, where
/// along the line it lies and the squared length of the segment.
pub fn distance_to_line(center: Point, start: Point, end: Point) -> (r: AddedPoint)
    requires
        center.in_range(),
        start.in_range(),
        end.in_range(),
        start != end,
    ensures
        r.point_on_line@ == spec_foot(center@, start@, end@),
        r.distance2 == center@.minus(r.point_on_line@).norm2(),
        r.line_proj_2 == spec_line_proj_2(center@, start@, end@),
        r.length2 == end@.minus(start@).norm2(),
        foot_on_segment(center@, start@, end@) ==> {
            &&& r.point_on_line.in_range()
            &&& between(start.x as int, end.x as int, r.point_on_line.x as int)
            &&& between(start.y as int, end.y as int, r.point_on_line.y as int)
        },
{
    let ap = subtract_points(center, start);
    let ab = subtract_points(end, start);
    proof {
        assert(ab@.norm2() != 0) by (nonlinear_arith)
            requires ab@.x != 0 || ab@.y != 0;
    }
    let result = project(ap, ab);
    let ad = result.projected;
    let d = add_points(start, ad);
    proof {
        if foot_on_segment(center@, start@, end@) {
            lemma_foot_inside(center@, start@, end@);
        }
    }
    let side = sign(result.dot_product);
    let projected2 = length_v2(ad);
    AddedPoint {
        distance2: length2(d, center),
        point_on_line: d,
        line_proj_2: if side > 0 {
            projected2
        } else if side < 0 {
            -projected2
        } else {
            0
        },
        length2: length_v2(ab),
    }
}

/// The crossing of two segments: where it lies, and how far along the first
/// segment, in steps of `1 / UNIT`.
#[derive(Clone, Copy, Debug, PartialEq, Eq, Structural)]
pub struct IntersectionResult {
    pub x: i64,
    pub y: i64,
    pub t: i64,
}

/// Whether the fraction `num / den` counts as on the segment: within
/// `[0, 1]`, or strictly within `(0.001, 0.999)` when the ends are left out.
pub open spec fn fraction_on_segment(num: int, den: int, omit_ends: bool) -> bool {
    let n = if den > 0 { num } else { -num };
    let d = magnitude(den);
    if omit_ends {
        d < 1000 * n && 1000 * n < 999 * d
    } else {
        0 <= n <= d
    }
}

/// Whether the segment from `p` to `p2` meets the segment from `q` to `q2`.
/// Parallel segments never do, even where they overlap.
pub open spec fn segments_meet(p: Vector, p2: Vector, q: Vector, q2: Vector, omit_ends: bool)
    -> bool {
    let r = p2.minus(p);
    let s = q2.minus(q);
    let den = r.cross(s);
    &&& den != 0
    &&& fraction_on_segment(q.minus(p).cross(s), den, omit_ends)
    &&& fraction_on_segment(q.minus(p).cross(r), den, omit_ends)
}

/// The crossing of the two lines as `(x, y, t)`: `p + t (p2 - p)`, where `t`
/// is the fraction `cross(q - p, s) / cross(r, s)`; every quotient is
/// rounded toward zero.
pub open spec fn spec_crossing(p: Vector, p2: Vector, q: Vector, q2: Vector) -> (int, int, int) {
    let r = p2.minus(p);
    let s = q2.minus(q);
    let den = r.cross(s);
    let num = q.minus(p).cross(s);
    (p.x + quotient(num * r.x, den), p.y + quotient(num * r.y, den), quotient(num * UNIT, den))
}

/// A fraction within `[0, 1]` of `k` lies between zero and `k`.
pub proof fn lemma_fraction_of(num: int, den: int, k: int)
    requires
        fraction_on_segment(num, den, false),
        den != 0,
    ensures
        between(0, k, quotient(num * k, den)),
{
    let n = if den > 0 { num } else { -num };
    let d = magnitude(den);
    let mk = magnitude(k);
    assert(magnitude(num) == n);
    assert(magnitude(num * k) == n * mk) by (nonlinear_arith)
        requires n == magnitude(num), mk == magnitude(k);
    assert(n * mk <= d * mk) by (nonlinear_arith)
        requires 0 <= n <= d, 0 <= mk;
    assert(0 <= (n * mk) / d <= mk) by (nonlinear_arith)
        requires 0 <= n * mk <= d * mk, d > 0, mk >= 0;
    assert(n == 0 ==> num * k == 0) by (nonlinear_arith)
        requires n == magnitude(num);
    assert((num > 0 && k > 0 ==> num * k > 0) && (num < 0 && k < 0 ==> num * k > 0) && (num > 0
        && k < 0 ==> num * k < 0) && (num < 0 && k > 0 ==> num * k < 0) && (k == 0 ==> num * k
        == 0)) by (nonlinear_arith);
    assert(0int / d == 0) by (nonlinear_arith)
        requires d > 0;
}

/// What a quotient leaves over is smaller than the divisor.
pub proof fn lemma_quotient_remainder(a: int, b: int)
    requires
        b != 0,
    ensures
        magnitude(a - quotient(a, b) * b) < magnitude(b),
{
    let ma = magnitude(a);
    let mb = magnitude(b);
    let mq = ma / mb;
    let rest = ma - mq * mb;
    assert(0 <= rest < mb) by (nonlinear_arith)
        requires ma >= 0, mb > 0, mq == ma / mb, rest == ma - mq * mb;
    if b > 0 {
        if a >= 0 {
            assert(a - mq * b == rest);
        } else {
            assert(a - (-mq) * b == -rest) by (nonlinear_arith)
                requires a == -ma, b == mb, rest == ma - mq * mb;
        }
    } else {
        if a >= 0 {
            assert(a - (-mq) * b == rest) by (nonlinear_arith)
                requires a == ma, b == -mb, rest == ma - mq * mb;
        } else {
            assert(a - mq * b == -rest) by (nonlinear_arith)
                requires a == -ma, b == -mb, rest == ma - mq * mb;
        }
    }
}

/// An integer within one divisor of a fraction of `k` lies between zero
/// and `k`.
pub proof fn lemma_fraction_near(n: int, d: int, k: int, m: int)
    requires
        d > 0,
        0 <= n <= d,
        magnitude(n * k - m * d) < d,
    ensures
        between(0, k, m),
{
    if k >= 0 {
        assert(0 <= n * k <= d * k) by (nonlinear_arith)
            requires 0 <= n <= d, k >= 0;
        assert(m >= 0) by (nonlinear_arith)
            requires m * d > -d, d > 0;
        assert(m <= k) by (nonlinear_arith)
            requires m * d < d * k + d, d > 0;
    } else {
        assert(d * k <= n * k <= 0) by (nonlinear_arith)
            requires 0 <= n <= d, k < 0;
        assert(m <= 0) by (nonlinear_arith)
            requires m * d < d, d > 0;
        assert(m >= k) by (nonlinear_arith)
            requires m * d > d * k - d, d > 0;
    }
}

/// Both segments lead to the same point: `t` times the first, taken from
/// its start, is `u` times the second, taken from its start, once both
/// are multiplied by the common denominator.
pub proof fn lemma_crossing_identity(p: Vector, p2: Vector, q: Vector, q2: Vector)
    ensures
        ({
            let r = p2.minus(p);
            let s = q2.minus(q);
            let qp = q.minus(p);
            &&& qp.cross(s) * r.x - qp.cross(r) * s.x == qp.x * r.cross(s)
            &&& qp.cross(s) * r.y - qp.cross(r) * s.y == qp.y * r.cross(s)
        }),
{
    let r = p2.minus(p);
    let s = q2.minus(q);
    let qp = q.minus(p);
    let den = r.cross(s);
    let t_num = qp.cross(s);
    let u_num = qp.cross(r);
    let a1 = qp.x * s.y;
    let a2 = qp.y * s.x;
    let b1 = qp.x * r.y;
    let b2 = qp.y * r.x;
    assert(t_num * r.x == a1 * r.x - a2 * r.x && t_num * r.y == a1 * r.y - a2 * r.y)
        by (nonlinear_arith)
        requires t_num == a1 - a2;
    assert(u_num * s.x == b1 * s.x - b2 * s.x && u_num * s.y == b1 * s.y - b2 * s.y)
        by (nonlinear_arith)
        requires u_num == b1 - b2;
    assert(a2 * r.x == b2 * s.x) by (nonlinear_arith)
        requires a2 == qp.y * s.x, b2 == qp.y * r.x;
    assert(a1 * r.y == b1 * s.y) by (nonlinear_arith)
        requires a1 == qp.x * s.y, b1 == qp.x * r.y;
    assert(a1 * r.x - b1 * s.x == qp.x * den) by (nonlinear_arith)
        requires a1 == qp.x * s.y, b1 == qp.x * r.y, den == r.x * s.y - r.y * s.x;
    assert(b2 * s.y - a2 * r.y == qp.y * den) by (nonlinear_arith)
        requires a2 == qp.y * s.x, b2 == qp.y * r.x, den == r.x * s.y - r.y * s.x;
}

/// Where two segments meet, ends included, the crossing as it is computed
/// along the first lies between the ends of the second, coordinate by
/// coordinate.
pub proof fn lemma_crossing_inside_second(p: Vector, p2: Vector, q: Vector, q2: Vector)
    requires
        segments_meet(p, p2, q, q2, false),
    ensures
        between(q.x, q2.x, spec_crossing(p, p2, q, q2).0),
        between(q.y, q2.y, spec_crossing(p, p2, q, q2).1),
{
    let r = p2.minus(p);
    let s = q2.minus(q);
    let qp = q.minus(p);
    let den = r.cross(s);
    let t_num = qp.cross(s);
    let u_num = qp.cross(r);
    let d = magnitude(den);
    let n = if den > 0 { u_num } else { -u_num };
    lemma_crossing_identity(p, p2, q, q2);
    let qx = quotient(t_num * r.x, den);
    let qy = quotient(t_num * r.y, den);
    lemma_quotient_remainder(t_num * r.x, den);
    lemma_quotient_remainder(t_num * r.y, den);
    let mx = qx - qp.x;
    let my = qy - qp.y;
    assert(magnitude(n * s.x - mx * d) < d && magnitude(n * s.y - my * d) < d) by (nonlinear_arith)
        requires
            magnitude(t_num * r.x - qx * den) < d,
            magnitude(t_num * r.y - qy * den) < d,
            t_num * r.x - u_num * s.x == qp.x * den,
            t_num * r.y - u_num * s.y == qp.y * den,
            d == magnitude(den),
            n == (if den > 0 { u_num } else { -u_num }),
            mx == qx - qp.x,
            my == qy - qp.y,
    ;
    lemma_fraction_near(n, d, s.x, mx);
    lemma_fraction_near(n, d, s.y, my);
}

/// The lesser of two numbers.
pub open spec fn lesser(a: int, b: int) -> int {
    if a < b {
        a
    } else {
        b
    }
}

/// The greater of two numbers.
pub open spec fn greater(a: int, b: int) -> int {
    if a < b {
        b
    } else {
        a
    }
}

/// A fraction of the way from `a` to `a + k`, multiplied by the
/// denominator, lies between the two ends, multiplied likewise.
pub proof fn lemma_fraction_between(n: int, d: int, a: int, k: int)
    requires
        d > 0,
        0 <= n <= d,
    ensures
        d * lesser(a, a + k) <= d * a + n * k <= d * greater(a, a + k),
{
    if k >= 0 {
        assert(0 <= n * k <= d * k) by (nonlinear_arith)
            requires 0 <= n <= d, k >= 0;
        assert(d * (a + k) == d * a + d * k) by (nonlinear_arith);
    } else {
        assert(d * k <= n * k <= 0) by (nonlinear_arith)
            requires 0 <= n <= d, k < 0;
        assert(d * (a + k) == d * a + d * k) by (nonlinear_arith);
    }
}

/// Segments that meet have bounding boxes that meet: on each axis the
/// spans of the two segments overlap.
pub proof fn lemma_meeting_spans_overlap(p: Vector, p2: Vector, q: Vector, q2: Vector)
    requires
        segments_meet(p, p2, q, q2, false),
    ensures
        lesser(p.x, p2.x) <= greater(q.x, q2.x),
        lesser(q.x, q2.x) <= greater(p.x, p2.x),
        lesser(p.y, p2.y) <= greater(q.y, q2.y),
        lesser(q.y, q2.y) <= greater(p.y, p2.y),
{
    let r = p2.minus(p);
    let s = q2.minus(q);
    let qp = q.minus(p);
    let den = r.cross(s);
    let t_num = qp.cross(s);
    let u_num = qp.cross(r);
    let d = magnitude(den);
    let nt = if den > 0 { t_num } else { -t_num };
    let nu = if den > 0 { u_num } else { -u_num };
    lemma_crossing_identity(p, p2, q, q2);
    assert(nt * r.x - nu * s.x == qp.x * d && nt * r.y - nu * s.y == qp.y * d) by (nonlinear_arith)
        requires
            t_num * r.x - u_num * s.x == qp.x * den,
            t_num * r.y - u_num * s.y == qp.y * den,
            d == magnitude(den),
            nt == (if den > 0 { t_num } else { -t_num }),
            nu == (if den > 0 { u_num } else { -u_num }),
    ;
    lemma_fraction_between(nt, d, p.x, r.x);
    lemma_fraction_between(nu, d, q.x, s.x);
    lemma_fraction_between(nt, d, p.y, r.y);
    lemma_fraction_between(nu, d, q.y, s.y);
    assert(d * p.x + nt * r.x == d * q.x + nu * s.x && d * p.y + nt * r.y == d * q.y + nu * s.y)
        by (nonlinear_arith)
        requires
            nt * r.x - nu * s.x == qp.x * d,
            nt * r.y - nu * s.y == qp.y * d,
            qp.x == q.x - p.x,
            qp.y == q.y - p.y,
    ;
    assert(p.x + r.x == p2.x && q.x + s.x == q2.x && p.y + r.y == p2.y && q.y + s.y == q2.y);
    let (a, b, c, e) = (
        lesser(p.x, p2.x),
        greater(q.x, q2.x),
        lesser(q.x, q2.x),
        greater(p.x, p2.x),
    );
    assert(a <= b && c <= e) by (nonlinear_arith)
        requires d > 0, d * a <= d * b, d * c <= d * e;
    let (f, g, h, i) = (
        lesser(p.y, p2.y),
        greater(q.y, q2.y),
        lesser(q.y, q2.y),
        greater(p.y, p2.y),
    );
    assert(f <= g && h <= i) by (nonlinear_arith)
        requires d > 0, d * f <= d * g, d * h <= d * i;
}

/// Where the segment from `p` to `p2` meets the segment from `q` to `q2`,
/// if it does. With `omit_ends` a meeting within a thousandth of an end of
/// either segment does not count.
pub fn do_line_segments_intersect(p: Point, p2: Point, q: Point, q2: Point, omit_ends: bool) -> (r:
    Option<IntersectionResult>)
    requires
        p.in_range(),
        p2.in_range(),
        q.in_range(),
        q2.in_range(),
    ensures
        r.is_some() == segments_meet(p@, p2@, q@, q2@, omit_ends),
        r matches Some(c) ==> {
            &&& (c.x as int, c.y as int, c.t as int) == spec_crossing(p@, p2@, q@, q2@)
            &&& between(p.x as int, p2.x as int, c.x as int)
            &&& between(p.y as int, p2.y as int, c.y as int)
            &&& between(q.x as int, q2.x as int, c.x as int)
            &&& between(q.y as int, q2.y as int, c.y as int)
            &&& 0 <= c.t <= UNIT
        },
{
    let r = subtract_points(p2, p);
    let s = subtract_points(q2, q);
    let qp = subtract_points(q, p);
    let limit: Ghost<int> = Ghost(0x200_0000_0000);
    proof {
        lemma_product_bound(qp.x as int, r.y as int, limit@, limit@);
        lemma_product_bound(qp.y as int, r.x as int, limit@, limit@);
        lemma_product_bound(qp.x as int, s.y as int, limit@, limit@);
        lemma_product_bound(qp.y as int, s.x as int, limit@, limit@);
        lemma_product_bound(r.x as int, s.y as int, limit@, limit@);
        lemma_product_bound(r.y as int, s.x as int, limit@, limit@);
    }
    let u_numerator = cross_product(qp, r);
    let denominator = cross_product(r, s);

    if u_numerator == 0 && denominator == 0 {
        // collinear: overlap is not looked for
        return None;
    }
    if denominator == 0 {
        // parallel
        return None;
    }
    let t_numerator = cross_product(qp, s);
    let (un, tn, d) = if denominator > 0 {
        (u_numerator, t_numerator, denominator)
    } else {
        (-u_numerator, -t_numerator, -denominator)
    };
    let do_segments_intersect = if !omit_ends {
        tn >= 0 && tn <= d && un >= 0 && un <= d
    } else {
        d < 1000 * tn && 1000 * tn < 999 * d && d < 1000 * un && 1000 * un < 999 * d
    };
    if do_segments_intersect {
        proof {
            lemma_product_bound(t_numerator as int, r.x as int, 0x8_0000_0000_0000_0000_0000, limit@);
            lemma_product_bound(t_numerator as int, r.y as int, 0x8_0000_0000_0000_0000_0000, limit@);
            lemma_product_bound(t_numerator as int, UNIT as int, 0x8_0000_0000_0000_0000_0000, UNIT as int);
            lemma_fraction_of(t_numerator as int, denominator as int, r.x as int);
            lemma_fraction_of(t_numerator as int, denominator as int, r.y as int);
            lemma_fraction_of(t_numerator as int, denominator as int, UNIT as int);
            lemma_crossing_inside_second(p@, p2@, q@, q2@);
        }
        let dx = divide(t_numerator * (r.x as i128), denominator);
        let dy = divide(t_numerator * (r.y as i128), denominator);
        let t = divide(t_numerator * (UNIT as i128), denominator);
        return Some(IntersectionResult { x: p.x + dx as i64, y: p.y + dy as i64, t: t as i64 });
    }
    None
}

/// Two segments that share an end and are not parallel meet there when the
/// ends count, at `t = 0` or `t = 1`, and do not meet when the ends are
/// left out.
pub proof fn lemma_shared_end_meets(p: Vector, p2: Vector, q: Vector, q2: Vector)
    requires
        p2.minus(p).cross(q2.minus(q)) != 0,
        q == p || q == p2 || q2 == p || q2 == p2,
    ensures
        segments_meet(p, p2, q, q2, false),
        spec_crossing(p, p2, q, q2).2 == 0 || spec_crossing(p, p2, q, q2).2 == UNIT,
        !segments_meet(p, p2, q, q2, true),
{
    let r = p2.minus(p);
    let s = q2.minus(q);
    let den = r.cross(s);
    let t_num = q.minus(p).cross(s);
    let u_num = q.minus(p).cross(r);
    assert((t_num == 0 || t_num == den) && (u_num == 0 || u_num == den)) by (nonlinear_arith)
        requires
            q == p || q == p2 || q2 == p || q2 == p2,
            r == p2.minus(p),
            s == q2.minus(q),
            den == r.cross(s),
            t_num == q.minus(p).cross(s),
            u_num == q.minus(p).cross(r),
    ;
    assert(0 * UNIT == 0);
    assert(magnitude(den * UNIT) / magnitude(den) == UNIT) by (nonlinear_arith)
        requires den != 0,
    {
        assert(magnitude(den * UNIT) == magnitude(den) * 10000);
    }
    assert(0int / magnitude(den) == 0) by (nonlinear_arith)
        requires den != 0;
    assert((den > 0 ==> den * UNIT > 0) && (den < 0 ==> den * UNIT < 0)) by (nonlinear_arith);
}

} // verus!
