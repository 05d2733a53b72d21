//! The growth of the network: one candidate at a time is taken from the
//! schedule, fitted to the roads that exist, linked to them and made to
//! sprout its successors.
use vstd::prelude::*;
use crate::collision::{boxes_apart, CollisionLimits, CollisionType};
use crate::config::{
    BRANCH_TANGENT, COORDINATE_LIMIT, DEFAULT_BRANCH_PROBABILITY, DEFAULT_SEGMENT_LENGTH,
    FORWARD_TANGENT, TANGENT_SCALE, DEVIATION_COSINE2_DENOMINATOR,
    DEVIATION_COSINE2_NUMERATOR, HIGHWAY_BRANCH_POPULATION_THRESHOLD,
    HIGHWAY_BRANCH_PROBABILITY, HIGHWAY_SEGMENT_LENGTH, NORMAL_BRANCH_POPULATION_THRESHOLD,
    NORMAL_BRANCH_TIME_DELAY_FROM_HIGHWAY, ROAD_SNAP_DISTANCE, SEGMENT_COUNT_LIMIT, UNIT,
};
use crate::math::{
    between, cross_product, greater, lemma_meeting_spans_overlap, lesser, distance_to_line, do_line_segments_intersect, dot_product, equal_v, floor_sqrt,
    foot_on_segment, length, length_v2, lemma_product_bound, magnitude, segments_meet,
    spec_crossing,
    spec_equal_v, spec_foot, subtract_points, IntersectionResult, Point, Vector,
};
use crate::quad_tree::{Quadtree, QuadtreeView, ROOT_CORNER, ROOT_SIZE};
use crate::utility::{extended_min, first_min, is_first_min};
use crate::segment::{
    copy_ids, find_segment, first_with_id, holds_id, ids_of, is_position, lemma_position_found,
    lemma_position, lemma_rewired_keeps, rewired, split_state, views, CollisionMetaInfo, LinkView, Road, Segment,
    SegmentDirection, SegmentView,
};

verus! {

/// The state of the growth: the accepted segments in the order of their
/// acceptance, the last id given out, the index over the accepted
/// segments' bounding boxes and the candidates that wait for their turn.
pub struct GlobalConfig {
    pub segments: Vec<Segment>,
    pub last_id: usize,
    pub quad_tree: Quadtree,
    pub priority_q: Vec<Segment>,
}

/// The model of a `GlobalConfig`.
pub struct GrowthView {
    pub segments: Seq<SegmentView>,
    pub last_id: usize,
    pub quad_tree: QuadtreeView,
    pub priority_q: Seq<SegmentView>,
}

impl View for GlobalConfig {
    type V = GrowthView;

    open spec fn view(&self) -> GrowthView {
        GrowthView {
            segments: views(self.segments@),
            last_id: self.last_id,
            quad_tree: self.quad_tree@,
            priority_q: views(self.priority_q@),
        }
    }
}

/// What may be done to a candidate that comes too near a road.
#[derive(Clone, Copy, Debug, PartialEq, Eq, Structural)]
pub enum LocalConstraintsAction {
    /// The candidate crosses the road: it ends at the crossing.
    IntersectionAction,
    /// The candidate ends near the road: it ends on the road.
    SnapAction,
    /// The candidate ends near the end of the road: it ends there.
    RadiusAction,
}

/// The change chosen for a candidate: what to do, at which point, and to
/// which accepted segment. Priority 0 and no action stand for no change.
#[derive(Clone, Copy, Debug, PartialEq, Eq, Structural)]
pub struct LocalConstraints {
    pub priority: i32,
    pub action: Option<LocalConstraintsAction>,
    pub point: Point,
    pub this_road_index: usize,
}

impl LocalConstraints {
    /// No change.
    pub open spec fn nothing() -> LocalConstraints {
        LocalConstraints {
            priority: 0,
            action: None,
            point: Point { x: 0, y: 0 },
            this_road_index: 0,
        }
    }
}

/// The lattice point of a vector whose coordinates fit.
pub open spec fn point_at(x: int, y: int) -> Point {
    Point { x: x as i64, y: y as i64 }
}

/// The candidate road crosses the other strictly between the ends of both.
pub open spec fn roads_cross(c: Road, n: Road) -> bool {
    segments_meet(c.start@, c.end@, n.start@, n.end@, true)
}

/// The candidate ends within the snap distance of the other road's end.
pub open spec fn ends_near(c: Road, n: Road) -> bool {
    floor_sqrt(n.end@.minus(c.end@).norm2()) < ROAD_SNAP_DISTANCE
}

/// The candidate ends within the snap distance of the other road, at a
/// point whose perpendicular meets that road.
pub open spec fn end_near_road(c: Road, n: Road) -> bool {
    &&& n.start != n.end
    &&& c.end@.minus(spec_foot(c.end@, n.start@, n.end@)).norm2() < ROAD_SNAP_DISTANCE
        * ROAD_SNAP_DISTANCE
    &&& foot_on_segment(c.end@, n.start@, n.end@)
}

/// The choice after the candidate road `c` has been held against the road
/// `n` of the accepted segment at `index`: a crossing is chosen unless the
/// choice so far is more urgent than a crossing, which nothing is; else an
/// end nearby, unless the choice is a crossing; else the road nearby,
/// unless the choice is a crossing or an end.
pub open spec fn considered(choice: LocalConstraints, c: Road, n: Road, index: int)
    -> LocalConstraints {
    if choice.priority <= 4 && roads_cross(c, n) {
        let at = spec_crossing(c.start@, c.end@, n.start@, n.end@);
        LocalConstraints {
            priority: 4,
            action: Some(LocalConstraintsAction::IntersectionAction),
            point: point_at(at.0, at.1),
            this_road_index: index as usize,
        }
    } else if choice.priority <= 3 && ends_near(c, n) {
        LocalConstraints {
            priority: 3,
            action: Some(LocalConstraintsAction::RadiusAction),
            point: n.end,
            this_road_index: index as usize,
        }
    } else if choice.priority <= 2 && end_near_road(c, n) {
        let foot = spec_foot(c.end@, n.start@, n.end@);
        LocalConstraints {
            priority: 2,
            action: Some(LocalConstraintsAction::SnapAction),
            point: point_at(foot.x, foot.y),
            this_road_index: index as usize,
        }
    } else {
        choice
    }
}

/// The choice after the first `n` of the boxes found have been gone
/// through in their order. A box whose segment is not among `segments` is
/// passed over.
pub open spec fn scanned(segments: Seq<SegmentView>, c: Road, found: Seq<CollisionLimits>, n: int)
    -> LocalConstraints
    decreases n,
{
    if n <= 0 {
        LocalConstraints::nothing()
    } else {
        let before = scanned(segments, c, found, n - 1);
        match found[n - 1].id {
            Some(id) => match first_with_id(segments, id) {
                Some(at) => considered(before, c, segments[at].r, at),
                None => before,
            },
            None => before,
        }
    }
}

/// The two roads run at less than the minimum deviation, thirty degrees,
/// to each other, whichever way each is directed: the squared cosine of
/// the angle between them, which is the square of their scalar product
/// over the product of their squared lengths, exceeds three quarters.
pub open spec fn deviation_too_small(a: Road, b: Road) -> bool {
    let da = a.end@.minus(a.start@);
    let db = b.end@.minus(b.start@);
    DEVIATION_COSINE2_DENOMINATOR * (da.dot(db) * da.dot(db)) > DEVIATION_COSINE2_NUMERATOR * (
    da.norm2() * db.norm2())
}

/// Whether two roads meet at too small an angle.
pub fn roads_too_aligned(a: &Road, b: &Road) -> (r: bool)
    requires
        a.in_range(),
        b.in_range(),
    ensures
        r == deviation_too_small(*a, *b),
{
    let da = subtract_points(a.end, a.start);
    let db = subtract_points(b.end, b.start);
    proof {
        let m: int = 0x4000_0000;
        lemma_product_bound(da.x as int, db.x as int, m, m);
        lemma_product_bound(da.y as int, db.y as int, m, m);
        lemma_product_bound(da.x as int, da.x as int, m, m);
        lemma_product_bound(da.y as int, da.y as int, m, m);
        lemma_product_bound(db.x as int, db.x as int, m, m);
        lemma_product_bound(db.y as int, db.y as int, m, m);
        lemma_product_bound(da@.dot(db@), da@.dot(db@), 2 * (m * m), 2 * (m * m));
        lemma_product_bound(da@.norm2(), db@.norm2(), 2 * (m * m), 2 * (m * m));
    }
    let dot = dot_product(da, db);
    let na = length_v2(da);
    let nb = length_v2(db);
    DEVIATION_COSINE2_DENOMINATOR * (dot * dot) > DEVIATION_COSINE2_NUMERATOR * (na * nb)
}

impl GlobalConfig {
    /// The place among the accepted segments of the segment with the id,
    /// and a copy of that segment.
    pub fn find_with_index(&self, target_id: usize) -> (r: Option<(Segment, usize)>)
        ensures
            match r {
                Some((segment, index)) => {
                    &&& first_with_id(self@.segments, target_id) == Some(index as int)
                    &&& index < self.segments.len()
                    &&& segment@ == self@.segments[index as int]
                    &&& segment@.id == target_id
                },
                None => first_with_id(self@.segments, target_id).is_none(),
            },
    {
        match find_segment(&self.segments, target_id) {
            Some(index) => Some((self.segments[index].clone(), index)),
            None => None,
        }
    }

    /// Where the two roads cross strictly between their ends, if they do.
    pub fn do_road_segments_intersect(r1: &Road, r2: &Road) -> (r: Option<IntersectionResult>)
        requires
            r1.in_range(),
            r2.in_range(),
        ensures
            r.is_some() == roads_cross(*r1, *r2),
            r matches Some(c) ==> (c.x as int, c.y as int, c.t as int) == spec_crossing(
                r1.start@,
                r1.end@,
                r2.start@,
                r2.end@,
            ) && (Point { x: c.x, y: c.y }).in_range() && r2.inside(Point { x: c.x, y: c.y }),
    {
        do_line_segments_intersect(r1.start, r1.end, r2.start, r2.end, true)
    }

    /// Holds the candidate road against one accepted road and updates the
    /// choice.
    pub fn consider(choice: LocalConstraints, c: &Road, n: &Road, index: usize) -> (r:
        LocalConstraints)
        requires
            c.in_range(),
            n.in_range(),
            choice.action.is_some() ==> choice.point.in_range(),
        ensures
            r == considered(choice, *c, *n, index as int),
            r.action.is_some() ==> r.point.in_range(),
            r != choice ==> {
                &&& r.this_road_index == index
                &&& r.action.is_some()
                &&& between(n.start.x as int, n.end.x as int, r.point.x as int)
                &&& between(n.start.y as int, n.end.y as int, r.point.y as int)
            },
    {
        let mut action = choice;
        if action.priority <= 4 {
            let intersection = Self::do_road_segments_intersect(c, n);
            if intersection.is_some() {
                let at = intersection.unwrap();
                action =
                LocalConstraints {
                    priority: 4,
                    action: Some(LocalConstraintsAction::IntersectionAction),
                    point: Point { x: at.x, y: at.y },
                    this_road_index: index,
                };
                return action;
            }
        }
        if action.priority <= 3 {
            if length(c.end, n.end) < ROAD_SNAP_DISTANCE {
                action =
                LocalConstraints {
                    priority: 3,
                    action: Some(LocalConstraintsAction::RadiusAction),
                    point: n.end,
                    this_road_index: index,
                };
                return action;
            }
        }
        if action.priority <= 2 {
            if n.start != n.end {
                let snap: i128 = ROAD_SNAP_DISTANCE as i128;
                assert(snap * snap == ROAD_SNAP_DISTANCE * ROAD_SNAP_DISTANCE && snap * snap
                    == 250000000000) by (nonlinear_arith)
                    requires snap == 500000, ROAD_SNAP_DISTANCE == 500000;
                let added_point = distance_to_line(c.end, n.start, n.end);
                if added_point.distance2 < snap * snap && added_point.line_proj_2 >= 0
                    && added_point.line_proj_2 <= added_point.length2 {
                    action =
                    LocalConstraints {
                        priority: 2,
                        action: Some(LocalConstraintsAction::SnapAction),
                        point: added_point.point_on_line,
                        this_road_index: index,
                    };
                }
            }
        }
        action
    }
}

/// Why a round of the growth could not be played: a segment names a
/// neighbour that is not among the accepted segments.
#[derive(Clone, Copy, Debug, PartialEq, Eq, Structural)]
pub enum GrowthError {
    MissingNeighbour,
}

/// What the local constraints make of a candidate: whether it is
/// accepted, and the state and the candidate as they are left.
pub struct Verdict {
    pub accepted: bool,
    pub state: GrowthView,
    pub segment: SegmentView,
}

impl SegmentView {
    /// The segment has a link to `id`.
    pub open spec fn holds(self, id: usize) -> bool {
        self.links.b.contains(id) || self.links.f.contains(id)
    }

    /// The segment with `new_id` added to the link set that holds
    /// `anchor`, `b` before `f`; unchanged where neither holds it.
    pub open spec fn told(self, anchor: usize, new_id: usize) -> SegmentView {
        if self.links.b.contains(anchor) {
            SegmentView { links: LinkView { b: self.links.b.push(new_id), ..self.links }, ..self }
        } else if self.links.f.contains(anchor) {
            SegmentView { links: LinkView { f: self.links.f.push(new_id), ..self.links }, ..self }
        } else {
            self
        }
    }

    /// The segment cut short at `end` and marked as severed.
    pub open spec fn severed_at(self, end: Point) -> SegmentView {
        SegmentView { q: CollisionMetaInfo { severed: true, ..self.q }, ..self.with_end(end) }
    }

    /// The segment is sound and neither of its revisions has passed
    /// `revision`, the collider's being one ahead.
    pub open spec fn settled(self, revision: int) -> bool {
        &&& self.wf()
        &&& self.road_revision <= revision
        &&& self.collider.collision_revision <= revision + 1
    }

    /// Neither cache was filed under a revision that the road has yet to
    /// reach.
    pub open spec fn rested(self) -> bool {
        self.dir_revision <= self.road_revision && self.length_revision <= self.road_revision
    }

    /// The segment as it waits in the schedule: sound, moved once at most,
    /// not severed, its caches as they were filed when it was made.
    pub open spec fn pending(self) -> bool {
        &&& self.settled(1)
        &&& !self.q.severed
        &&& self.dir_revision <= 1
        &&& self.length_revision <= 1
    }

    /// The segment as the local constraints leave it: sound, moved twice
    /// at most, and rested where it was severed.
    pub open spec fn fitted(self) -> bool {
        &&& self.settled(2)
        &&& self.dir_revision <= 1
        &&& self.length_revision <= 1
        &&& self.q.severed ==> self.rested()
    }
}

/// `segments` after the neighbours named by the first `n` of `ids` have
/// each been told of `new_id`: where a neighbour holds `anchor`, `new_id`
/// joins `anchor` in that link set.
pub open spec fn announced(
    segments: Seq<SegmentView>,
    ids: Seq<usize>,
    n: int,
    anchor: usize,
    new_id: usize,
) -> Seq<SegmentView>
    decreases n,
{
    if n <= 0 {
        segments
    } else {
        let before = announced(segments, ids, n - 1, anchor, new_id);
        match first_with_id(before, ids[n - 1]) {
            Some(at) => before.update(at, before[at].told(anchor, new_id)),
            None => before,
        }
    }
}

/// Those of the first `n` of `ids`, in their order, whose segment was
/// found and held `anchor` when its turn came.
pub open spec fn hearers(
    segments: Seq<SegmentView>,
    ids: Seq<usize>,
    n: int,
    anchor: usize,
    new_id: usize,
) -> Seq<usize>
    decreases n,
{
    if n <= 0 {
        Seq::empty()
    } else {
        let before = announced(segments, ids, n - 1, anchor, new_id);
        let heard = hearers(segments, ids, n - 1, anchor, new_id);
        match first_with_id(before, ids[n - 1]) {
            Some(at) => if before[at].holds(anchor) {
                heard.push(ids[n - 1])
            } else {
                heard
            },
            None => heard,
        }
    }
}

/// Telling neighbours changes links and nothing else.
pub proof fn lemma_announced_keeps(
    segments: Seq<SegmentView>,
    ids: Seq<usize>,
    n: int,
    anchor: usize,
    new_id: usize,
)
    ensures
        announced(segments, ids, n, anchor, new_id).len() == segments.len(),
        ids_of(announced(segments, ids, n, anchor, new_id)) == ids_of(segments),
        forall|i: int|
            0 <= i < segments.len() ==> {
                let s = #[trigger] announced(segments, ids, n, anchor, new_id)[i];
                s == SegmentView { links: s.links, ..segments[i] }
            },
    decreases n,
{
    if n > 0 {
        lemma_announced_keeps(segments, ids, n - 1, anchor, new_id);
        let before = announced(segments, ids, n - 1, anchor, new_id);
        let after = announced(segments, ids, n, anchor, new_id);
        lemma_position_found(ids_of(before), ids[n - 1]);
        assert(ids_of(after) =~= ids_of(before));
    }
}

/// The two roads join the same two points, in either direction.
pub open spec fn same_road(a: Road, b: Road) -> bool {
    (spec_equal_v(a.start@, b.end@) && spec_equal_v(a.end@, b.start@)) || (spec_equal_v(
        a.start@,
        b.start@,
    ) && spec_equal_v(a.end@, b.end@))
}

/// The neighbour `id` stands in the way of the road: it is the same road,
/// or it is not among `segments` at all.
pub open spec fn blocks(segments: Seq<SegmentView>, id: usize, road: Road) -> bool {
    match first_with_id(segments, id) {
        Some(at) => same_road(segments[at].r, road),
        None => true,
    }
}

/// One of the neighbours stands in the way of the road.
pub open spec fn duplicated(segments: Seq<SegmentView>, links: Seq<usize>, road: Road) -> bool {
    exists|j: int| 0 <= j < links.len() && blocks(segments, #[trigger] links[j], road)
}

/// The box `outer` holds the box `inner` whole.
pub open spec fn covers(outer: CollisionLimits, inner: CollisionLimits) -> bool {
    &&& outer.x <= inner.x
    &&& inner.x + inner.width <= outer.x + outer.width
    &&& outer.y <= inner.y
    &&& inner.y + inner.height <= outer.y + outer.height
}

/// The index stores, under the id of the segment, a box that holds the
/// segment's bounding box whole.
pub open spec fn housed(tree: QuadtreeView, s: SegmentView) -> bool {
    exists|x: CollisionLimits|
        #[trigger] tree.stores(x) && x.id == Some(s.id) && covers(x, s.collider.limits())
}

/// A segment stays housed when a box is put into the index.
pub proof fn lemma_housed_inserted(tree: QuadtreeView, b: CollisionLimits, s: SegmentView)
    requires
        tree.wf(),
        housed(tree, s),
    ensures
        housed(tree.inserted(b), s),
{
    let x = choose|x: CollisionLimits|
        #[trigger] tree.stores(x) && x.id == Some(s.id) && covers(x, s.collider.limits());
    tree.lemma_inserted_stores(b);
    assert(tree.inserted(b).stores(x));
}

/// A segment is housed as another of the same id and shape is.
pub proof fn lemma_housed_same(tree: QuadtreeView, s: SegmentView, t: SegmentView)
    requires
        housed(tree, s),
        t.id == s.id,
        t.collider.limits() == s.collider.limits(),
    ensures
        housed(tree, t),
{
    let x = choose|x: CollisionLimits|
        #[trigger] tree.stores(x) && x.id == Some(s.id) && covers(x, s.collider.limits());
    assert(tree.stores(x) && x.id == Some(t.id) && covers(x, t.collider.limits()));
}

/// A segment is housed once its own bounding box is in the index.
pub proof fn lemma_housed_own(tree: QuadtreeView, s: SegmentView)
    requires
        tree.wf(),
        s.wf(),
    ensures
        housed(tree.inserted(s.collider.limits()), s),
{
    let x = s.collider.limits();
    tree.lemma_inserted_stores(x);
    assert(tree.inserted(x).stores(x));
    assert(covers(x, x));
}

/// A segment stays housed when its start moves to a point between its
/// two ends.
pub proof fn lemma_housed_shrunk(tree: QuadtreeView, s: SegmentView, point: Point)
    requires
        housed(tree, s),
        s.wf(),
        point.in_range(),
        between(s.r.start.x as int, s.r.end.x as int, point.x as int),
        between(s.r.start.y as int, s.r.end.y as int, point.y as int),
    ensures
        housed(tree, s.with_start(point)),
{
    let x = choose|x: CollisionLimits|
        #[trigger] tree.stores(x) && x.id == Some(s.id) && covers(x, s.collider.limits());
    assert(covers(s.collider.limits(), s.with_start(point).collider.limits()));
    assert(tree.stores(x) && x.id == Some(s.with_start(point).id) && covers(
        x,
        s.with_start(point).collider.limits(),
    ));
}

impl GrowthView {
    /// What the growth relies on from round to round.
    ///
    /// The index is sound and each of its boxes names a segment. Every
    /// segment, accepted or waiting, is sound. Every accepted segment is
    /// rested, and the index stores under its id a box that holds its
    /// bounding box. Revisions, ids and times stay within what the number
    /// of accepted segments allows, and that number within one of the
    /// limit.
    pub open spec fn wf(self) -> bool {
        self.wf_with(0)
    }

    /// What the growth relies on while a round is played: as between
    /// rounds, but that `extra` ids more may have been given out, which
    /// is one while a candidate with its new id is in hand.
    pub open spec fn wf_with(self, extra: int) -> bool {
        &&& self.quad_tree.wf()
        &&& self.quad_tree.placed()
        &&& self.quad_tree.tagged()
        &&& self.segments.len() <= SEGMENT_COUNT_LIMIT + 1
        &&& self.last_id <= self.segments.len() + 2 + extra
        &&& forall|i: int|
            0 <= i < self.segments.len() ==> {
                &&& (#[trigger] self.segments[i]).settled(self.segments.len() as int + 1)
                &&& self.segments[i].rested()
                &&& housed(self.quad_tree, self.segments[i])
            }
        &&& forall|i: int|
            0 <= i < self.priority_q.len() ==> {
                &&& (#[trigger] self.priority_q[i]).pending()
                &&& self.priority_q[i].t <= 6 * (self.segments.len() + 1)
            }
    }

    /// The state after the accepted segment at `index` has been split at
    /// `point` by the segment with the id `by`.
    pub open spec fn with_split(self, index: int, point: Point, by: usize) -> GrowthView {
        let n = self.segments[index];
        let after = split_state(self, n, point, by);
        GrowthView {
            segments: after.segments.update(
                index,
                n.split_rest(
                    point,
                    by,
                    (self.last_id + 1) as usize,
                    n.start_is_backwards(self.segments),
                ),
            ),
            ..after
        }
    }

    /// The candidate `c` crosses the accepted segment that was chosen.
    ///
    /// Where the two meet at too small an angle the candidate is turned
    /// down. Else the accepted segment is split at the crossing and the
    /// candidate, linked to both halves, ends there.
    pub open spec fn crossed(self, c: SegmentView, choice: LocalConstraints) -> Option<Verdict> {
        let index = choice.this_road_index as int;
        let n = self.segments[index];
        if deviation_too_small(n.r, c.r) {
            Some(Verdict { accepted: false, state: self, segment: c })
        } else if !n.split_ready(self.segments) {
            None
        } else {
            Some(
                Verdict {
                    accepted: true,
                    state: self.with_split(index, choice.point, c.id),
                    segment: c.joined(
                        n.id,
                        (self.last_id + 1) as usize,
                        n.start_is_backwards(self.segments),
                    ).severed_at(choice.point),
                },
            )
        }
    }

    /// The candidate `c` ends near the accepted segment that was chosen.
    ///
    /// The candidate is made to end on that segment, at the foot of the
    /// perpendicular from its old end. Where the two then meet at too
    /// small an angle the candidate is turned down. Else the accepted
    /// segment is split at the foot and the candidate linked to both
    /// halves.
    pub open spec fn line_snapped(self, c: SegmentView, choice: LocalConstraints) -> Option<
        Verdict,
    > {
        let index = choice.this_road_index as int;
        let n = self.segments[index];
        let moved = c.severed_at(choice.point);
        if deviation_too_small(n.r, moved.r) {
            Some(Verdict { accepted: false, state: self, segment: moved })
        } else if !n.split_ready(self.segments) {
            None
        } else {
            Some(
                Verdict {
                    accepted: true,
                    state: self.with_split(index, choice.point, c.id),
                    segment: moved.joined(
                        n.id,
                        (self.last_id + 1) as usize,
                        n.start_is_backwards(self.segments),
                    ),
                },
            )
        }
    }

    /// The candidate `c` ends near the end of the accepted segment that
    /// was chosen.
    ///
    /// The candidate is made to end where that segment ends. It is turned
    /// down where a neighbour at that end is the same road as the
    /// candidate, or is not among the accepted segments. Else each
    /// neighbour at that end that has a link to the chosen segment gets a
    /// link to the candidate, and the candidate one to it; and the chosen
    /// segment and the candidate are linked.
    pub open spec fn end_snapped(self, c: SegmentView, choice: LocalConstraints) -> Option<
        Verdict,
    > {
        let index = choice.this_road_index as int;
        let n = self.segments[index];
        let moved = c.severed_at(n.r.end);
        if !n.oriented_in(self.segments) {
            None
        } else {
            let backwards = n.start_is_backwards(self.segments);
            let links = if backwards {
                n.links.f
            } else {
                n.links.b
            };
            if duplicated(self.segments, links, moved.r) {
                Some(Verdict { accepted: false, state: self, segment: moved })
            } else {
                let told = announced(self.segments, links, links.len() as int, n.id, c.id);
                let heard = hearers(self.segments, links, links.len() as int, n.id, c.id);
                let shared = SegmentView {
                    links: if backwards {
                        LinkView { f: links.push(c.id), ..n.links }
                    } else {
                        LinkView { b: links.push(c.id), ..n.links }
                    },
                    ..n
                };
                Some(
                    Verdict {
                        accepted: true,
                        state: GrowthView { segments: told.update(index, shared), ..self },
                        segment: SegmentView {
                            links: LinkView {
                                f: (moved.links.f + heard).push(n.id),
                                ..moved.links
                            },
                            ..moved
                        },
                    },
                )
            }
        }
    }

    /// What the local constraints make of the candidate `c`; nothing
    /// where a neighbour that has to be looked up is missing.
    ///
    /// The boxes that the index finds for the candidate's bounding box are
    /// gone through in their order, and the change of the highest
    /// priority is made, the last one found among equals; a candidate that
    /// nothing comes near to is accepted as it is.
    pub open spec fn constrained(self, c: SegmentView) -> Option<Verdict> {
        let measured = SegmentView { collider: c.collider.refreshed(), ..c };
        let found = self.quad_tree.retrieve(c.collider.limits());
        let choice = scanned(self.segments, c.r, found, found.len() as int);
        match choice.action {
            None => Some(Verdict { accepted: true, state: self, segment: measured }),
            Some(LocalConstraintsAction::IntersectionAction) => self.crossed(measured, choice),
            Some(LocalConstraintsAction::RadiusAction) => self.end_snapped(measured, choice),
            Some(LocalConstraintsAction::SnapAction) => self.line_snapped(measured, choice),
        }
    }
}

impl GrowthView {
    /// The id `k` is that of an accepted segment or of a candidate that
    /// waits.
    pub open spec fn given(self, k: usize) -> bool {
        ||| exists|i: int| 0 <= i < self.segments.len() && (#[trigger] self.segments[i]).id == k
        ||| exists|j: int|
            0 <= j < self.priority_q.len() && (#[trigger] self.priority_q[j]).id == k
    }

    /// The ids are given out one after the other, and each once.
    ///
    /// Every accepted segment has an id from 1 to the last one given out,
    /// and no two have the same. A candidate that waits for its parent
    /// has no id yet, which is the id 0; one without a parent has an id
    /// from 1 on that no other segment has.
    pub open spec fn ids_apart(self) -> bool {
        &&& forall|i: int|
            0 <= i < self.segments.len() ==> 1 <= (#[trigger] self.segments[i]).id <= self.last_id
        &&& forall|i: int|
            0 <= i < self.priority_q.len() ==> (#[trigger] self.priority_q[i]).id <= self.last_id
                && (self.priority_q[i].prev_segment_to_link.is_some() <==> self.priority_q[i].id
                == 0)
        &&& forall|i: int, j: int|
            0 <= i < j < self.segments.len() ==> (#[trigger] self.segments[i]).id != (
            #[trigger] self.segments[j]).id
        &&& forall|i: int, j: int|
            0 <= i < j < self.priority_q.len() ==> (#[trigger] self.priority_q[i]).id != (
            #[trigger] self.priority_q[j]).id || self.priority_q[i].id == 0
        &&& forall|i: int, j: int|
            0 <= i < self.segments.len() && 0 <= j < self.priority_q.len() ==> (
            #[trigger] self.segments[i]).id != (#[trigger] self.priority_q[j]).id
    }

    /// The ids are given out one after the other, each once, and none is
    /// left out: every id from 1 to the last one given out belongs to an
    /// accepted segment or to a candidate that waits.
    pub open spec fn well_numbered(self) -> bool {
        &&& self.ids_apart()
        &&& forall|k: usize| 1 <= k <= self.last_id ==> #[trigger] self.given(k)
    }

    /// The id of `c` was given out and belongs to no segment of the state.
    pub open spec fn apart(self, c: SegmentView) -> bool {
        &&& 1 <= c.id <= self.last_id
        &&& forall|i: int| 0 <= i < self.segments.len() ==> (#[trigger] self.segments[i]).id != c.id
        &&& forall|i: int|
            0 <= i < self.priority_q.len() ==> (#[trigger] self.priority_q[i]).id != c.id
    }

    /// The state is well numbered once the candidate `c`, which is in
    /// hand and has an id of its own, is counted in.
    pub open spec fn numbered_with(self, c: SegmentView) -> bool {
        &&& self.ids_apart()
        &&& self.apart(c)
        &&& forall|k: usize| 1 <= k <= self.last_id ==> #[trigger] self.given(k) || k == c.id
    }

    /// The state is numbered as it is when the candidate `c` has been
    /// taken out of the schedule: well, where `c` has a parent and so no
    /// id yet; and well once `c` is counted in, where `c` has none.
    pub open spec fn lined_up(self, c: SegmentView) -> bool {
        if c.prev_segment_to_link.is_some() {
            self.well_numbered() && c.id == 0
        } else {
            self.numbered_with(c)
        }
    }

    /// Taking a candidate out of the schedule leaves the state lined up.
    pub proof fn lemma_taken_lined_up(self, at: int)
        requires
            self.well_numbered(),
            0 <= at < self.priority_q.len(),
        ensures
            (GrowthView { priority_q: self.priority_q.remove(at), ..self }).lined_up(
                self.priority_q[at],
            ),
    {
        let rest = GrowthView { priority_q: self.priority_q.remove(at), ..self };
        let c = self.priority_q[at];
        let shift = |i: int| if i < at { i } else { i + 1 };
        assert forall|i: int| 0 <= i < rest.priority_q.len() implies #[trigger] rest.priority_q[i]
            == self.priority_q[shift(i)] by {}
        assert forall|i: int| 0 <= i < rest.priority_q.len() implies (#[trigger] rest.priority_q[
            i
        ]).id <= rest.last_id && (rest.priority_q[i].prev_segment_to_link.is_some()
            <==> rest.priority_q[i].id == 0) && (c.id != 0 ==> rest.priority_q[i].id != c.id) by {
            assert(self.priority_q[shift(i)].id <= self.last_id);
            if shift(i) < at {
                assert(self.priority_q[shift(i)].id != self.priority_q[at].id
                    || self.priority_q[shift(i)].id == 0);
            } else {
                assert(self.priority_q[at].id != self.priority_q[shift(i)].id
                    || self.priority_q[at].id == 0);
            }
        }
        assert forall|i: int, j: int| 0 <= i < j < rest.priority_q.len() implies (
        #[trigger] rest.priority_q[i]).id != (#[trigger] rest.priority_q[j]).id
            || rest.priority_q[i].id == 0 by {
            assert(self.priority_q[shift(i)].id != self.priority_q[shift(j)].id
                || self.priority_q[shift(i)].id == 0);
        }
        assert forall|i: int, j: int|
            0 <= i < rest.segments.len() && 0 <= j < rest.priority_q.len() implies (
        #[trigger] rest.segments[i]).id != (#[trigger] rest.priority_q[j]).id by {
            assert(self.segments[i].id != self.priority_q[shift(j)].id);
        }
        assert forall|i: int| 0 <= i < rest.segments.len() implies (#[trigger] rest.segments[
            i
        ]).id != c.id by {
            assert(self.segments[i].id != self.priority_q[at].id);
        }
        assert(self.priority_q[at].id <= self.last_id);
        assert forall|k: usize| 1 <= k <= rest.last_id implies #[trigger] rest.given(k) || k
            == c.id by {
            assert(self.given(k));
            if exists|i: int|
                0 <= i < self.segments.len() && (#[trigger] self.segments[i]).id == k {
                let i = choose|i: int|
                    0 <= i < self.segments.len() && (#[trigger] self.segments[i]).id == k;
                assert(rest.segments[i].id == k);
            } else {
                let j = choose|j: int|
                    0 <= j < self.priority_q.len() && (#[trigger] self.priority_q[j]).id == k;
                if j < at {
                    assert(rest.priority_q[j].id == k);
                } else if j > at {
                    assert(rest.priority_q[j - 1].id == k);
                }
            }
        }
    }

    /// Taking a candidate up leaves the state well numbered with the
    /// candidate counted in.
    pub proof fn lemma_enrolled_numbered(self, c: SegmentView)
        requires
            self.lined_up(c),
            self.last_id < usize::MAX,
        ensures
            self.enrolled(c).0.numbered_with(self.enrolled(c).1),
    {
        if c.prev_segment_to_link.is_some() {
            let after = self.enrolled(c).0;
            let d = self.enrolled(c).1;
            assert forall|i: int| 0 <= i < after.segments.len() implies 1 <= (
            #[trigger] after.segments[i]).id <= after.last_id && after.segments[i].id != d.id by {
                assert(1 <= self.segments[i].id <= self.last_id);
            }
            assert forall|i: int| 0 <= i < after.priority_q.len() implies (
            #[trigger] after.priority_q[i]).id <= after.last_id && after.priority_q[i].id
                != d.id by {
                assert(self.priority_q[i].id <= self.last_id);
            }
            assert forall|k: usize| 1 <= k <= after.last_id implies #[trigger] after.given(k) || k
                == d.id by {
                if k <= self.last_id {
                    assert(self.given(k));
                    self.lemma_given_stays(after, k);
                }
            }
        }
    }

    /// When the candidate in hand joins the accepted segments and its
    /// successors, which have no ids yet, join the schedule, the state
    /// is well numbered.
    pub proof fn lemma_settled_numbered(self, c: SegmentView, survey: Survey)
        requires
            self.numbered_with(c),
        ensures
            self.settled_in(c, survey).well_numbered(),
    {
        let after = self.settled_in(c, survey);
        let kids = c.sprouts(survey);
        let queued = scheduled(kids, c.t);
        let accepted = self.segments.len() as int;
        let waiting = self.priority_q.len() as int;
        assert forall|j: int| 0 <= j < queued.len() implies (#[trigger] queued[j]).id == 0
            && queued[j].prev_segment_to_link.is_some() by {
            assert(queued[j].id == kids[j].id);
        }
        assert forall|i: int| 0 <= i < after.priority_q.len() implies (#[trigger] after.priority_q[
            i
        ]).id <= after.last_id && (after.priority_q[i].prev_segment_to_link.is_some()
            <==> after.priority_q[i].id == 0) && (i < waiting ==> after.priority_q[i]
            == self.priority_q[i]) && (i >= waiting ==> after.priority_q[i].id == 0) by {
            if i < waiting {
                assert(self.priority_q[i].id <= self.last_id);
            } else {
                assert(after.priority_q[i] == queued[i - waiting]);
            }
        }
        assert forall|i: int| 0 <= i < after.segments.len() implies 1 <= (
        #[trigger] after.segments[i]).id <= after.last_id && (i < accepted ==> after.segments[i]
            == self.segments[i]) && (i == accepted ==> after.segments[i].id == c.id) by {
            if i < accepted {
                assert(1 <= self.segments[i].id <= self.last_id);
            }
        }
        assert forall|i: int, j: int| 0 <= i < j < after.segments.len() implies (
        #[trigger] after.segments[i]).id != (#[trigger] after.segments[j]).id by {
            if j < accepted {
                assert(self.segments[i].id != self.segments[j].id);
            } else {
                assert(self.segments[i].id != c.id);
            }
        }
        assert forall|i: int, j: int| 0 <= i < j < after.priority_q.len() implies (
        #[trigger] after.priority_q[i]).id != (#[trigger] after.priority_q[j]).id
            || after.priority_q[i].id == 0 by {
            if j < waiting {
                assert(self.priority_q[i].id != self.priority_q[j].id || self.priority_q[i].id
                    == 0);
            } else if i < waiting {
                assert(self.priority_q[i].id == 0 || self.priority_q[i].id >= 1);
            }
        }
        assert forall|i: int, j: int|
            0 <= i < after.segments.len() && 0 <= j < after.priority_q.len() implies (
        #[trigger] after.segments[i]).id != (#[trigger] after.priority_q[j]).id by {
            if j < waiting {
                if i < accepted {
                    assert(self.segments[i].id != self.priority_q[j].id);
                } else {
                    assert(self.priority_q[j].id != c.id);
                }
            }
        }
        assert forall|k: usize| 1 <= k <= after.last_id implies #[trigger] after.given(k) by {
            if k == c.id {
                assert(after.segments[accepted].id == k);
            } else {
                assert(self.given(k));
                if exists|i: int|
                    0 <= i < self.segments.len() && (#[trigger] self.segments[i]).id == k {
                    let i = choose|i: int|
                        0 <= i < self.segments.len() && (#[trigger] self.segments[i]).id == k;
                    assert(after.segments[i].id == k);
                } else {
                    let j = choose|j: int|
                        0 <= j < self.priority_q.len() && (#[trigger] self.priority_q[j]).id == k;
                    assert(after.priority_q[j].id == k);
                }
            }
        }
    }

    /// An id that is given stays given when every segment keeps its id.
    pub proof fn lemma_given_stays(self, after: GrowthView, k: usize)
        requires
            self.given(k),
            after.segments.len() >= self.segments.len(),
            forall|i: int|
                0 <= i < self.segments.len() ==> (#[trigger] after.segments[i]).id
                    == self.segments[i].id,
            after.priority_q == self.priority_q,
        ensures
            after.given(k),
    {
        if exists|i: int| 0 <= i < self.segments.len() && (#[trigger] self.segments[i]).id == k {
            let i = choose|i: int|
                0 <= i < self.segments.len() && (#[trigger] self.segments[i]).id == k;
            assert(after.segments[i].id == k);
        }
    }

    /// A change that keeps every id keeps the numbering.
    pub proof fn lemma_numbered_same_ids(self, after: GrowthView, c: SegmentView, d: SegmentView)
        requires
            self.numbered_with(c),
            after.last_id == self.last_id,
            after.segments.len() == self.segments.len(),
            forall|i: int|
                0 <= i < self.segments.len() ==> (#[trigger] after.segments[i]).id
                    == self.segments[i].id,
            after.priority_q == self.priority_q,
            d.id == c.id,
        ensures
            after.numbered_with(d),
    {
        assert forall|i: int, j: int| 0 <= i < j < after.segments.len() implies (
        #[trigger] after.segments[i]).id != (#[trigger] after.segments[j]).id by {
            assert(self.segments[i].id != self.segments[j].id);
        }
        assert forall|i: int, j: int|
            0 <= i < after.segments.len() && 0 <= j < after.priority_q.len() implies (
        #[trigger] after.segments[i]).id != (#[trigger] after.priority_q[j]).id by {
            assert(self.segments[i].id != self.priority_q[j].id);
        }
        assert forall|i: int| 0 <= i < after.segments.len() implies (#[trigger] after.segments[
            i
        ]).id != d.id by {
            assert(self.segments[i].id != c.id);
        }
        assert forall|i: int| 0 <= i < after.segments.len() implies 1 <= (
        #[trigger] after.segments[i]).id <= after.last_id by {
            assert(1 <= self.segments[i].id <= self.last_id);
        }
        assert forall|k: usize| 1 <= k <= after.last_id implies #[trigger] after.given(k) || k
            == d.id by {
            if self.given(k) {
                self.lemma_given_stays(after, k);
            }
        }
    }

    /// A change that keeps every id and adds a segment under the next id
    /// keeps the numbering.
    pub proof fn lemma_numbered_grown(self, after: GrowthView, c: SegmentView, d: SegmentView)
        requires
            self.numbered_with(c),
            after.last_id == self.last_id + 1,
            after.segments.len() == self.segments.len() + 1,
            forall|i: int|
                0 <= i < self.segments.len() ==> (#[trigger] after.segments[i]).id
                    == self.segments[i].id,
            after.segments[self.segments.len() as int].id == after.last_id,
            after.priority_q == self.priority_q,
            d.id == c.id,
        ensures
            after.numbered_with(d),
    {
        let n = self.segments.len() as int;
        assert forall|i: int, j: int| 0 <= i < j < after.segments.len() implies (
        #[trigger] after.segments[i]).id != (#[trigger] after.segments[j]).id by {
            assert(self.segments[i].id <= self.last_id);
            if j < n {
                assert(self.segments[i].id != self.segments[j].id);
            }
        }
        assert forall|i: int, j: int|
            0 <= i < after.segments.len() && 0 <= j < after.priority_q.len() implies (
        #[trigger] after.segments[i]).id != (#[trigger] after.priority_q[j]).id by {
            assert(self.priority_q[j].id <= self.last_id);
            if i < n {
                assert(self.segments[i].id != self.priority_q[j].id);
            }
        }
        assert forall|i: int| 0 <= i < after.segments.len() implies (#[trigger] after.segments[
            i
        ]).id != d.id by {
            if i < n {
                assert(self.segments[i].id != c.id);
            }
        }
        assert forall|i: int| 0 <= i < after.segments.len() implies 1 <= (
        #[trigger] after.segments[i]).id <= after.last_id by {
            if i < n {
                assert(1 <= self.segments[i].id <= self.last_id);
            }
        }
        assert forall|i: int| 0 <= i < after.priority_q.len() implies (#[trigger] after.priority_q[
            i
        ]).id <= after.last_id by {
            assert(self.priority_q[i].id <= self.last_id);
        }
        assert forall|k: usize| 1 <= k <= after.last_id implies #[trigger] after.given(k) || k
            == d.id by {
            if k == after.last_id {
                assert(after.segments[n].id == k);
            } else if self.given(k) {
                self.lemma_given_stays(after, k);
            }
        }
    }
}

impl GlobalConfig {
    /// Tells the neighbours named by `ids` of the segment `new_id`: each
    /// that is found and has a link to `anchor` gets `new_id` into the
    /// same link set. Returns the ids of those neighbours.
    pub fn announce(&mut self, ids: &Vec<usize>, anchor: usize, new_id: usize) -> (heard: Vec<usize>)
        ensures
            final(self)@ == (GrowthView {
                segments: announced(
                    old(self)@.segments,
                    ids@,
                    ids.len() as int,
                    anchor,
                    new_id,
                ),
                ..old(self)@
            }),
            heard@ == hearers(old(self)@.segments, ids@, ids.len() as int, anchor, new_id),
    {
        let ghost start = self@.segments;
        let mut heard: Vec<usize> = Vec::new();
        let mut i: usize = 0;
        while i < ids.len()
            invariant
                i <= ids.len(),
                self@.segments == announced(start, ids@, i as int, anchor, new_id),
                heard@ == hearers(start, ids@, i as int, anchor, new_id),
                self.last_id == old(self).last_id,
                self.quad_tree@ == old(self).quad_tree@,
                views(self.priority_q@) == views(old(self).priority_q@),
            decreases ids.len() - i,
        {
            let ghost before = self@.segments;
            match self.find_with_index(ids[i]) {
                None => {},
                Some((link_segment, at)) => {
                    let (vec_to_push, direction) = link_segment.links_for_end_containing(&anchor);
                    if let Some(mut link_links) = vec_to_push {
                        link_links.push(new_id);
                        let link = &mut self.segments[at];
                        match direction {
                            SegmentDirection::Back => {
                                link.links.b = link_links;
                            },
                            SegmentDirection::Forward => {
                                link.links.f = link_links;
                            },
                            SegmentDirection::Neither => {},
                        }
                        heard.push(ids[i]);
                        assert(self@.segments =~= before.update(
                            at as int,
                            before[at as int].told(anchor, new_id),
                        ));
                    }
                },
            }
            i += 1;
        }
        heard
    }

    /// Whether one of the neighbours named by `links` is the same road as
    /// `road` or is missing.
    pub fn is_duplicated(&self, links: &Vec<usize>, road: &Road) -> (r: bool)
        requires
            road.in_range(),
            forall|i: int| 0 <= i < self@.segments.len() ==> (#[trigger] self@.segments[i]).r.in_range(),
        ensures
            r == duplicated(self@.segments, links@, *road),
    {
        let mut j: usize = 0;
        while j < links.len()
            invariant
                j <= links.len(),
                road.in_range(),
                forall|i: int|
                    0 <= i < self@.segments.len() ==> (#[trigger] self@.segments[i]).r.in_range(),
                forall|k: int| 0 <= k < j ==> !blocks(self@.segments, #[trigger] links@[k], *road),
            decreases links.len() - j,
        {
            match find_segment(&self.segments, links[j]) {
                Some(at) => {
                    let link = &self.segments[at];
                    assert(self@.segments[at as int] == link@);
                    assert(self@.segments[at as int].r.in_range());
                    if (equal_v(link.r.start, road.end) && equal_v(link.r.end, road.start)) || (
                    equal_v(link.r.start, road.start) && equal_v(link.r.end, road.end)) {
                        assert(blocks(self@.segments, links@[j as int], *road));
                        return true;
                    }
                },
                None => {
                    assert(blocks(self@.segments, links@[j as int], *road));
                    return true;
                },
            }
            j += 1;
        }
        false
    }

    /// Whether a segment can be oriented: it has no link, or the neighbour
    /// that its first link names is among the accepted segments.
    pub fn is_oriented(&self, n: &Segment) -> (r: bool)
        ensures
            r == n@.oriented_in(self@.segments),
    {
        if n.links.b.len() > 0 {
            find_segment(&self.segments, n.links.b[0]).is_some()
        } else if n.links.f.len() > 0 {
            find_segment(&self.segments, n.links.f[0]).is_some()
        } else {
            true
        }
    }

    /// Whether every neighbour that a split of `n` looks up is among the
    /// accepted segments.
    pub fn is_split_ready(&self, n: &Segment) -> (r: bool)
        requires
            n@.r.in_range(),
            forall|i: int| 0 <= i < self@.segments.len() ==> (#[trigger] self@.segments[i]).r.in_range(),
        ensures
            r == n@.split_ready(self@.segments),
    {
        if !self.is_oriented(n) {
            return false;
        }
        assert forall|i: int| 0 <= i < self.segments.len() implies (#[trigger] self.segments@[
            i
        ]).r.in_range() by {
            assert(self@.segments[i].r.in_range());
        }
        let backwards = n.start_is_backwards(&self.segments);
        let moved = if backwards {
            &n.links.b
        } else {
            &n.links.f
        };
        let mut j: usize = 0;
        while j < moved.len()
            invariant
                j <= moved.len(),
                moved@ == n@.moved_links(self@.segments),
                forall|k: int|
                    0 <= k < j ==> first_with_id(self@.segments, #[trigger] moved@[k]).is_some(),
            decreases moved.len() - j,
        {
            if find_segment(&self.segments, moved[j]).is_none() {
                return false;
            }
            j += 1;
        }
        true
    }

    /// Splits the accepted segment at `index` at `point`, where the
    /// candidate `segment` has run into it.
    pub fn split_at(&mut self, index: usize, point: Point, segment: &mut Segment)
        requires
            old(self)@.wf_with(1),
            old(self).segments.len() < SEGMENT_COUNT_LIMIT,
            index < old(self).segments.len(),
            point.in_range(),
            old(self)@.segments[index as int].r.inside(point),
            old(self)@.segments[index as int].split_ready(old(self)@.segments),
        ensures
            final(self)@ == old(self)@.with_split(index as int, point, old(segment).id),
            final(segment)@ == old(segment)@.joined(
                old(self)@.segments[index as int].id,
                (old(self).last_id + 1) as usize,
                old(self)@.segments[index as int].start_is_backwards(old(self)@.segments),
            ),
            final(self)@.wf_with(1),
            old(self)@.numbered_with(old(segment)@) ==> final(self)@.numbered_with(final(segment)@),
            final(self).segments.len() == old(self).segments.len() + 1,
            final(segment).t == old(segment).t,
            final(segment).id == old(segment).id,
            final(segment).prev_segment_to_link == old(segment).prev_segment_to_link,
    {
        let ghost g0 = self@;
        let ghost n = g0.segments[index as int];
        let ghost moved = n.moved_links(g0.segments);
        let mut this_road = self.segments[index].clone();
        assert(this_road@ == n);
        assert(n.settled(g0.segments.len() as int + 1));
        assert forall|i: int| 0 <= i < self.segments.len() implies (#[trigger] self.segments@[
            i
        ]).r.in_range() by {
            assert(g0.segments[i].settled(g0.segments.len() as int + 1));
        }
        this_road.split(point, segment, self);
        let ghost g1 = self@;
        proof {
            lemma_rewired_keeps(
                g0.segments,
                moved,
                moved.len() as int,
                n.id,
                (g0.last_id + 1) as usize,
            );
        }
        self.segments[index] = this_road;
        assert(self@.segments =~= g1.segments.update(index as int, this_road@));
        proof {
            let wired = rewired(
                g0.segments,
                moved,
                moved.len() as int,
                n.id,
                (g0.last_id + 1) as usize,
            );
            let part = g1.segments.last();
            assert(self@.quad_tree == g0.quad_tree.inserted(part.collider.limits()));
            assert forall|i: int| 0 <= i < self@.segments.len() implies {
                &&& (#[trigger] self@.segments[i]).settled(self@.segments.len() as int + 1)
                &&& self@.segments[i].rested()
                &&& housed(self@.quad_tree, self@.segments[i])
            } by {
                if i == index {
                    assert(g0.segments[i].settled(g0.segments.len() as int + 1));
                    lemma_housed_shrunk(g0.quad_tree, n, point);
                    lemma_housed_inserted(
                        g0.quad_tree,
                        part.collider.limits(),
                        n.with_start(point),
                    );
                    lemma_housed_same(self@.quad_tree, n.with_start(point), self@.segments[i]);
                } else if i < g0.segments.len() {
                    assert(self@.segments[i] == wired[i]);
                    assert(g0.segments[i].settled(g0.segments.len() as int + 1));
                    lemma_housed_inserted(g0.quad_tree, part.collider.limits(), g0.segments[i]);
                    lemma_housed_same(self@.quad_tree, g0.segments[i], self@.segments[i]);
                } else {
                    assert(self@.segments[i] == part);
                    lemma_housed_own(g0.quad_tree, part);
                }
            }
            assert forall|i: int| 0 <= i < self@.priority_q.len() implies {
                &&& (#[trigger] self@.priority_q[i]).pending()
                &&& self@.priority_q[i].t <= 6 * (self@.segments.len() + 1)
            } by {
                assert(g0.priority_q[i].pending());
            }
            if g0.numbered_with(old(segment)@) {
                assert forall|i: int| 0 <= i < g0.segments.len() implies (
                #[trigger] self@.segments[i]).id == g0.segments[i].id by {
                    if i != index {
                        assert(self@.segments[i] == wired[i]);
                    }
                }
                g0.lemma_numbered_grown(self@, old(segment)@, segment@);
            }
        }
    }

    /// Makes the change for a candidate that crosses an accepted segment.
    pub fn accept_crossing(&mut self, segment: &mut Segment, action: LocalConstraints) -> (r:
        Result<bool, GrowthError>)
        requires
            old(self)@.wf_with(1),
            old(self).segments.len() < SEGMENT_COUNT_LIMIT,
            old(segment)@.pending(),
            action.this_road_index < old(self).segments.len(),
            action.point.in_range(),
            old(self)@.segments[action.this_road_index as int].r.inside(action.point),
        ensures
            match r {
                Ok(accepted) => old(self)@.crossed(old(segment)@, action) == Some(
                    Verdict { accepted, state: final(self)@, segment: final(segment)@ },
                ),
                Err(_) => old(self)@.crossed(old(segment)@, action).is_none(),
            },
            r.is_err() || r == Ok::<bool, GrowthError>(false) ==> final(self)@ == old(self)@,
            final(self)@.priority_q == old(self)@.priority_q,
            r.is_ok() ==> final(self)@.wf_with(1) && final(segment)@.fitted(),
            r.is_ok() && old(self)@.numbered_with(old(segment)@) ==> final(self)@.numbered_with(
                final(segment)@,
            ),
            final(segment).t == old(segment).t,
            final(segment).id == old(segment).id,
            final(segment).prev_segment_to_link == old(segment).prev_segment_to_link,
            final(self).segments.len() <= old(self).segments.len() + 1,
            old(self).segments.len() <= final(self).segments.len(),
    {
        let index = action.this_road_index;
        assert(self@.segments[index as int].settled(self@.segments.len() as int + 1));
        assert(self@.segments[index as int] == self.segments@[index as int]@);
        if roads_too_aligned(&self.segments[index].r, &segment.r) {
            return Ok(false);
        }
        assert forall|i: int| 0 <= i < self@.segments.len() implies (#[trigger] self@.segments[
            i
        ]).r.in_range() by {
            assert(self@.segments[i].settled(self@.segments.len() as int + 1));
        }
        if !self.is_split_ready(&self.segments[index]) {
            return Err(GrowthError::MissingNeighbour);
        }
        self.split_at(index, action.point, segment);
        segment.set_end(&action.point);
        segment.q.severed = true;
        Ok(true)
    }

    /// Makes the change for a candidate that ends near an accepted
    /// segment.
    pub fn accept_line_snap(&mut self, segment: &mut Segment, action: LocalConstraints) -> (r:
        Result<bool, GrowthError>)
        requires
            old(self)@.wf_with(1),
            old(self).segments.len() < SEGMENT_COUNT_LIMIT,
            old(segment)@.pending(),
            action.this_road_index < old(self).segments.len(),
            action.point.in_range(),
            old(self)@.segments[action.this_road_index as int].r.inside(action.point),
        ensures
            match r {
                Ok(accepted) => old(self)@.line_snapped(old(segment)@, action) == Some(
                    Verdict { accepted, state: final(self)@, segment: final(segment)@ },
                ),
                Err(_) => old(self)@.line_snapped(old(segment)@, action).is_none(),
            },
            r.is_err() || r == Ok::<bool, GrowthError>(false) ==> final(self)@ == old(self)@,
            final(self)@.priority_q == old(self)@.priority_q,
            r.is_ok() ==> final(self)@.wf_with(1) && final(segment)@.fitted(),
            r.is_ok() && old(self)@.numbered_with(old(segment)@) ==> final(self)@.numbered_with(
                final(segment)@,
            ),
            final(segment).t == old(segment).t,
            final(segment).id == old(segment).id,
            final(segment).prev_segment_to_link == old(segment).prev_segment_to_link,
            final(self).segments.len() <= old(self).segments.len() + 1,
            old(self).segments.len() <= final(self).segments.len(),
    {
        let index = action.this_road_index;
        segment.set_end(&action.point);
        segment.q.severed = true;
        assert(self@.segments[index as int].settled(self@.segments.len() as int + 1));
        assert(self@.segments[index as int] == self.segments@[index as int]@);
        if roads_too_aligned(&self.segments[index].r, &segment.r) {
            return Ok(false);
        }
        assert forall|i: int| 0 <= i < self@.segments.len() implies (#[trigger] self@.segments[
            i
        ]).r.in_range() by {
            assert(self@.segments[i].settled(self@.segments.len() as int + 1));
        }
        if !self.is_split_ready(&self.segments[index]) {
            return Err(GrowthError::MissingNeighbour);
        }
        self.split_at(index, action.point, segment);
        Ok(true)
    }
}

impl GlobalConfig {
    /// Makes the change for a candidate that ends near the end of an
    /// accepted segment.
    pub fn accept_end_snap(&mut self, segment: &mut Segment, action: LocalConstraints) -> (r:
        Result<bool, GrowthError>)
        requires
            old(self)@.wf_with(1),
            old(self).segments.len() < SEGMENT_COUNT_LIMIT,
            old(segment)@.pending(),
            action.this_road_index < old(self).segments.len(),
        ensures
            match r {
                Ok(accepted) => old(self)@.end_snapped(old(segment)@, action) == Some(
                    Verdict { accepted, state: final(self)@, segment: final(segment)@ },
                ),
                Err(_) => old(self)@.end_snapped(old(segment)@, action).is_none(),
            },
            r.is_err() || r == Ok::<bool, GrowthError>(false) ==> final(self)@ == old(self)@,
            final(self)@.priority_q == old(self)@.priority_q,
            r.is_ok() ==> final(self)@.wf_with(1) && final(segment)@.fitted(),
            r.is_ok() && old(self)@.numbered_with(old(segment)@) ==> final(self)@.numbered_with(
                final(segment)@,
            ),
            final(segment).t == old(segment).t,
            final(segment).id == old(segment).id,
            final(segment).prev_segment_to_link == old(segment).prev_segment_to_link,
            final(self).segments.len() <= old(self).segments.len() + 1,
            old(self).segments.len() <= final(self).segments.len(),
    {
        let ghost g0 = self@;
        let index = action.this_road_index;
        let ghost n = g0.segments[index as int];
        assert(n.settled(g0.segments.len() as int + 1));
        assert forall|i: int| 0 <= i < self@.segments.len() implies (#[trigger] self@.segments[
            i
        ]).r.in_range() by {
            assert(self@.segments[i].settled(self@.segments.len() as int + 1));
        }
        assert forall|i: int| 0 <= i < self.segments.len() implies (#[trigger] self.segments@[
            i
        ]).r.in_range() by {
            assert(g0.segments[i].r.in_range());
        }
        let mut this_road = self.segments[index].clone();
        let point = this_road.r.end;
        let direction: SegmentDirection;

        segment.set_end(&point);
        segment.q.severed = true;

        if !self.is_oriented(&this_road) {
            return Err(GrowthError::MissingNeighbour);
        }
        let mut links = if this_road.start_is_backwards(&self.segments) {
            direction = SegmentDirection::Forward;
            copy_ids(&this_road.links.f)
        } else {
            direction = SegmentDirection::Back;
            copy_ids(&this_road.links.b)
        };
        let ghost shared = links@;

        if self.is_duplicated(&links, &segment.r) {
            return Ok(false);
        }
        let mut heard = self.announce(&links, this_road.id, segment.id);
        segment.links.f.append(&mut heard);
        links.push(segment.id);
        segment.links.f.push(this_road.id);

        match direction {
            SegmentDirection::Forward => {
                this_road.links.f = links;
            },
            SegmentDirection::Back => {
                this_road.links.b = links;
            },
            SegmentDirection::Neither => {},
        }
        let ghost told = self@.segments;
        proof {
            lemma_announced_keeps(g0.segments, shared, shared.len() as int, n.id, segment.id);
        }
        self.segments[index] = this_road;
        assert(self@.segments =~= told.update(index as int, this_road@));
        proof {
            assert forall|i: int| 0 <= i < self@.segments.len() implies {
                &&& (#[trigger] self@.segments[i]).settled(self@.segments.len() as int + 1)
                &&& self@.segments[i].rested()
                &&& housed(self@.quad_tree, self@.segments[i])
            } by {
                if i != index {
                    assert(self@.segments[i] == told[i]);
                }
                assert(g0.segments[i].settled(g0.segments.len() as int + 1));
                lemma_housed_same(g0.quad_tree, g0.segments[i], self@.segments[i]);
            }
            assert forall|i: int| 0 <= i < self@.priority_q.len() implies {
                &&& (#[trigger] self@.priority_q[i]).pending()
                &&& self@.priority_q[i].t <= 6 * (self@.segments.len() + 1)
            } by {
                assert(g0.priority_q[i].pending());
            }
            if g0.numbered_with(old(segment)@) {
                assert forall|i: int| 0 <= i < g0.segments.len() implies (
                #[trigger] self@.segments[i]).id == g0.segments[i].id by {
                    if i != index {
                        assert(self@.segments[i] == told[i]);
                    }
                }
                g0.lemma_numbered_same_ids(self@, old(segment)@, segment@);
            }
        }
        Ok(true)
    }

    /// Goes through the boxes found for the candidate road and makes the
    /// choice.
    pub fn scan(&self, road: &Road, matches: &Vec<CollisionLimits>) -> (r: LocalConstraints)
        requires
            self@.wf_with(1),
            road.in_range(),
            forall|i: int| 0 <= i < matches.len() ==> (#[trigger] matches@[i]).id.is_some(),
        ensures
            r == scanned(self@.segments, *road, matches@, matches.len() as int),
            r.action.is_some() ==> {
                &&& r.point.in_range()
                &&& r.this_road_index < self.segments.len()
                &&& self@.segments[r.this_road_index as int].r.inside(r.point)
            },
    {
        let mut action = LocalConstraints {
            priority: 0,
            action: None,
            point: Point { x: 0, y: 0 },
            this_road_index: 0,
        };
        let mut i: usize = 0;
        while i < matches.len()
            invariant
                i <= matches.len(),
                self@.wf_with(1),
                road.in_range(),
                forall|i: int| 0 <= i < matches.len() ==> (#[trigger] matches@[i]).id.is_some(),
                action == scanned(self@.segments, *road, matches@, i as int),
                action.action.is_some() ==> {
                    &&& action.point.in_range()
                    &&& action.this_road_index < self.segments.len()
                    &&& self@.segments[action.this_road_index as int].r.inside(action.point)
                },
            decreases matches.len() - i,
        {
            let _match = matches[i];
            assert(matches@[i as int].id.is_some());
            match self.find_with_index(_match.id.unwrap()) {
                Some((this_road, this_road_index)) => {
                    assert(self@.segments[this_road_index as int].settled(
                        self@.segments.len() as int + 1,
                    ));
                    action = Self::consider(action, road, &this_road.r, this_road_index);
                },
                None => {},
            }
            i += 1;
        }
        action
    }

    /// Fits a candidate to the accepted segments.
    ///
    /// The candidate is held against every accepted segment that the index
    /// finds for its bounding box. Of the changes that these call for, the
    /// most urgent is made, the last one found among equals: ending at a
    /// crossing, ending at a road's end nearby, ending on a road nearby.
    /// Returns whether the candidate is accepted; an error where a segment
    /// names a neighbour that is not among the accepted segments.
    pub fn local_constraints(&mut self, segment: &mut Segment) -> (r: Result<bool, GrowthError>)
        requires
            old(self)@.wf_with(1),
            old(self).segments.len() < SEGMENT_COUNT_LIMIT,
            old(segment)@.pending(),
        ensures
            match r {
                Ok(accepted) => old(self)@.constrained(old(segment)@) == Some(
                    Verdict { accepted, state: final(self)@, segment: final(segment)@ },
                ),
                Err(_) => old(self)@.constrained(old(segment)@).is_none(),
            },
            r.is_err() || r == Ok::<bool, GrowthError>(false) ==> final(self)@ == old(self)@,
            final(self)@.priority_q == old(self)@.priority_q,
            r.is_ok() ==> final(self)@.wf_with(1) && final(segment)@.fitted(),
            r.is_ok() && old(self)@.numbered_with(old(segment)@) ==> final(self)@.numbered_with(
                final(segment)@,
            ),
            final(segment).t == old(segment).t,
            final(segment).id == old(segment).id,
            final(segment).prev_segment_to_link == old(segment).prev_segment_to_link,
            r.is_ok() && !final(segment).q.severed ==> final(segment)@.course() == old(
                segment,
            )@.course(),
            final(self).segments.len() <= old(self).segments.len() + 1,
            old(self).segments.len() <= final(self).segments.len(),
    {
        let limits = segment.collider.limits();
        let matches = self.quad_tree.retrieve(&limits);
        proof {
            assert forall|i: int| 0 <= i < matches.len() implies (#[trigger] matches@[i]).id.is_some() by {
                assert(matches@.contains(matches@[i]));
                self@.quad_tree.lemma_retrieved_is_stored(limits, matches@[i]);
            }
        }
        if matches.len() < 1 {
            return Ok(true);
        }
        let action = self.scan(&segment.r, &matches);
        match action.action {
            Some(LocalConstraintsAction::IntersectionAction) => self.accept_crossing(
                segment,
                action,
            ),
            Some(LocalConstraintsAction::RadiusAction) => self.accept_end_snap(segment, action),
            Some(LocalConstraintsAction::SnapAction) => self.accept_line_snap(segment, action),
            None => Ok(true),
        }
    }
}

/// The noise field at one point: its three samples, each between -1 and 1
/// in steps of `1 / UNIT`.
#[derive(Clone, Copy, Debug, PartialEq, Eq, Structural)]
pub struct NoiseSamples {
    pub near: i64,
    pub middle: i64,
    pub far: i64,
}

impl NoiseSamples {
    /// Each sample lies between -1 and 1.
    pub open spec fn wf(self) -> bool {
        &&& -UNIT <= self.near <= UNIT
        &&& -UNIT <= self.middle <= UNIT
        &&& -UNIT <= self.far <= UNIT
    }
}

/// The population at a point with the samples `s`, between 0 and 1 in
/// steps of `1 / UNIT`: each sample `n` counts as `(n + 1) / 2`, and the
/// population is the square of `(near * middle + far) / 2`.
pub open spec fn spec_population(s: NoiseSamples) -> int {
    let value1 = (s.near + UNIT) / 2;
    let value2 = (s.middle + UNIT) / 2;
    let value3 = (s.far + UNIT) / 2;
    let half = (value1 * value2 / (UNIT as int) + value3) / 2;
    half * half / (UNIT as int)
}

/// The population on a road: the mean of the populations at its ends.
pub open spec fn spec_pop_on_road(start: NoiseSamples, end: NoiseSamples) -> int {
    (spec_population(start) + spec_population(end)) / 2
}

/// The population at a point with the samples `s`.
pub fn population_at(s: &NoiseSamples) -> (r: i64)
    requires
        s.wf(),
    ensures
        r == spec_population(*s),
        0 <= r <= UNIT,
{
    let value1 = (s.near + UNIT) / 2;
    let value2 = (s.middle + UNIT) / 2;
    let value3 = (s.far + UNIT) / 2;
    assert(0 <= value1 * value2 <= 10000 * 10000) by (nonlinear_arith)
        requires 0 <= value1 <= 10000, 0 <= value2 <= 10000;
    let half = (value1 * value2 / UNIT + value3) / 2;
    assert(0 <= half * half <= 10000 * 10000) by (nonlinear_arith)
        requires 0 <= half <= 10000;
    half * half / UNIT
}

/// The population on a road whose ends have the samples `start` and `end`.
pub fn pop_on_road(start: &NoiseSamples, end: &NoiseSamples) -> (r: i64)
    requires
        start.wf(),
        end.wf(),
    ensures
        r == spec_pop_on_road(*start, *end),
        0 <= r <= UNIT,
{
    (population_at(start) + population_at(end)) / 2
}

/// What the surroundings of an accepted segment hold for its successors,
/// all of which start where the segment ends.
///
/// The ends are those of the straight continuation, of the continuation
/// at a random turn, of the highway branches to the left and to the right
/// and of the normal branches to the left and to the right. The samples
/// are those of the noise field where the segment ends and where the two
/// continuations end. The draws are uniform in `[0, 1)`, in steps of
/// `1 / UNIT`, one for each branch that chance decides on.
#[derive(Clone, Copy, Debug, PartialEq, Eq, Structural)]
pub struct Survey {
    pub origin: NoiseSamples,
    pub straight_end: Point,
    pub straight: NoiseSamples,
    pub random_end: Point,
    pub random: NoiseSamples,
    pub highway_left_end: Point,
    pub highway_right_end: Point,
    pub branch_left_end: Point,
    pub branch_right_end: Point,
    pub highway_left_draw: i64,
    pub highway_right_draw: i64,
    pub branch_left_draw: i64,
    pub branch_right_draw: i64,
}

impl Survey {
    /// The samples are sound and the ends lie where the geometry accepts
    /// them.
    pub open spec fn wf(self) -> bool {
        &&& self.origin.wf()
        &&& self.straight.wf()
        &&& self.random.wf()
        &&& self.straight_end.in_range()
        &&& self.random_end.in_range()
        &&& self.highway_left_end.in_range()
        &&& self.highway_right_end.in_range()
        &&& self.branch_left_end.in_range()
        &&& self.branch_right_end.in_range()
    }

    /// Whether the survey is sound.
    pub fn is_wf(&self) -> (b: bool)
        ensures
            b == self.wf(),
    {
        let fine = |s: &NoiseSamples| -> (b: bool)
            ensures
                b == s.wf(),
            { -UNIT <= s.near && s.near <= UNIT && -UNIT <= s.middle && s.middle <= UNIT && -UNIT
                <= s.far && s.far <= UNIT };
        fine(&self.origin) && fine(&self.straight) && fine(&self.random)
            && self.straight_end.is_in_range() && self.random_end.is_in_range()
            && self.highway_left_end.is_in_range() && self.highway_right_end.is_in_range()
            && self.branch_left_end.is_in_range() && self.branch_right_end.is_in_range()
    }
}

/// Whether `v` keeps to the heading `h` within the angle whose tangent is
/// `tangent` parts of `TANGENT_SCALE`, give or take the rounding of `v`
/// to the lattice.
pub open spec fn keeps_to(h: Vector, v: Vector, tangent: int) -> bool {
    &&& h.dot(v) >= 0
    &&& TANGENT_SCALE * magnitude(h.cross(v)) <= tangent * h.dot(v) + 2 * TANGENT_SCALE * (
    magnitude(h.x) + magnitude(h.y))
}

/// Whether `v` is `length` long, give or take the rounding of `v` to the
/// lattice and of `length` to a whole step.
pub open spec fn measures(v: Vector, length: int) -> bool {
    magnitude(v.norm2() - length * length) <= 6 * length + 6
}

/// Whether `v` keeps to the heading `h` and has the length asked for.
pub open spec fn heads(h: Vector, v: Vector, tangent: int, length: int) -> bool {
    keeps_to(h, v, tangent) && measures(v, length)
}

/// Whether `v` keeps to the heading `h` within the angle whose tangent is
/// `tangent` parts of `TANGENT_SCALE` and is `length` long, both give or
/// take the rounding to the lattice.
pub fn does_head(h: Point, v: Point, tangent: i128, length: i64) -> (b: bool)
    requires
        h@.bounded(2 * COORDINATE_LIMIT),
        v@.bounded(2 * COORDINATE_LIMIT),
        0 <= tangent <= TANGENT_SCALE,
        0 <= length <= 0x8000_0000,
    ensures
        b == heads(h@, v@, tangent as int, length as int),
{
    proof {
        lemma_product_bound(h.x as int, v.y as int, 0x4000_0000, 0x4000_0000);
        lemma_product_bound(h.y as int, v.x as int, 0x4000_0000, 0x4000_0000);
        lemma_product_bound(h.x as int, v.x as int, 0x4000_0000, 0x4000_0000);
        lemma_product_bound(h.y as int, v.y as int, 0x4000_0000, 0x4000_0000);
        lemma_product_bound(v.x as int, v.x as int, 0x4000_0000, 0x4000_0000);
        lemma_product_bound(v.y as int, v.y as int, 0x4000_0000, 0x4000_0000);
        lemma_product_bound(length as int, length as int, 0x8000_0000, 0x8000_0000);
    }
    let across: i128 = cross_product(h, v);
    let along: i128 = dot_product(h, v);
    let long2: i128 = length_v2(v);
    let length2: i128 = (length as i128) * (length as i128);
    let size: i128 = if across < 0 { -across } else { across };
    let off: i128 = if long2 < length2 { length2 - long2 } else { long2 - length2 };
    let wide: i128 = (if h.x < 0 { -(h.x as i128) } else { h.x as i128 }) + (if h.y < 0 {
        -(h.y as i128)
    } else {
        h.y as i128
    });
    proof {
        lemma_product_bound(
            tangent as int,
            along as int,
            1000,
            0x2000_0000_0000_0000,
        );
    }
    assert(2 * TANGENT_SCALE * wide == 2000 * wide && TANGENT_SCALE * size == 1000 * size);
    along >= 0 && 1000 * size <= tangent * along + 2000 * wide && off <= 6 * (length as i128) + 6
}

impl Survey {
    /// The survey is one of the segment `parent`: it is sound, and its
    /// ends lie where the successors of `parent` are to end, give or take
    /// their rounding to the lattice.
    ///
    /// With the direction and the length that `parent` gives when asked:
    /// the straight continuation is as long and keeps that direction;
    /// the continuation at a random turn is as long and turns by
    /// `FORWARD_ANGLE_DEV` degrees at most; the highway branches are as
    /// long and the normal branches `DEFAULT_SEGMENT_LENGTH` long, and
    /// both leave at a right angle to their side, give or take
    /// `BRANCH_ANGLE_DEV` degrees. Each draw is a fraction of `UNIT`.
    pub open spec fn suits(self, parent: SegmentView) -> bool {
        let from = parent.r.end@;
        let d = parent.heading()@;
        let left = Vector { x: -d.y, y: d.x };
        let right = Vector { x: d.y, y: -d.x };
        let length = parent.extent() as int;
        let branch = DEFAULT_SEGMENT_LENGTH as int;
        &&& self.wf()
        &&& parent.r.end.in_range()
        &&& d.bounded(2 * COORDINATE_LIMIT)
        &&& 0 <= length <= 0x8000_0000
        &&& 0 <= self.highway_left_draw < UNIT
        &&& 0 <= self.highway_right_draw < UNIT
        &&& 0 <= self.branch_left_draw < UNIT
        &&& 0 <= self.branch_right_draw < UNIT
        &&& heads(d, self.straight_end@.minus(from), 0, length)
        &&& heads(d, self.random_end@.minus(from), FORWARD_TANGENT as int, length)
        &&& heads(left, self.highway_left_end@.minus(from), BRANCH_TANGENT as int, length)
        &&& heads(right, self.highway_right_end@.minus(from), BRANCH_TANGENT as int, length)
        &&& heads(left, self.branch_left_end@.minus(from), BRANCH_TANGENT as int, branch)
        &&& heads(right, self.branch_right_end@.minus(from), BRANCH_TANGENT as int, branch)
    }

    /// Whether the survey is one of the segment `parent`.
    pub fn is_fit(&self, parent: &Segment) -> (b: bool)
        requires
            parent@.wf(),
        ensures
            b == self.suits(parent@),
    {
        if !self.is_wf() {
            return false;
        }
        if !(0 <= self.highway_left_draw && self.highway_left_draw < UNIT && 0
            <= self.highway_right_draw && self.highway_right_draw < UNIT && 0
            <= self.branch_left_draw && self.branch_left_draw < UNIT && 0
            <= self.branch_right_draw && self.branch_right_draw < UNIT) {
            return false;
        }
        let from = parent.r.end;
        let d = parent.heading();
        let length = parent.extent();
        if !(-2 * COORDINATE_LIMIT <= d.x && d.x <= 2 * COORDINATE_LIMIT && -2 * COORDINATE_LIMIT
            <= d.y && d.y <= 2 * COORDINATE_LIMIT && 0 <= length && length <= 0x8000_0000) {
            return false;
        }
        let left = Point { x: -d.y, y: d.x };
        let right = Point { x: d.y, y: -d.x };
        does_head(d, subtract_points(self.straight_end, from), 0, length) && does_head(
            d,
            subtract_points(self.random_end, from),
            FORWARD_TANGENT,
            length,
        ) && does_head(
            left,
            subtract_points(self.highway_left_end, from),
            BRANCH_TANGENT,
            length,
        ) && does_head(
            right,
            subtract_points(self.highway_right_end, from),
            BRANCH_TANGENT,
            length,
        ) && does_head(
            left,
            subtract_points(self.branch_left_end, from),
            BRANCH_TANGENT,
            DEFAULT_SEGMENT_LENGTH,
        ) && does_head(
            right,
            subtract_points(self.branch_right_end, from),
            BRANCH_TANGENT,
            DEFAULT_SEGMENT_LENGTH,
        )
    }
}

impl SegmentView {
    /// A candidate from `from` to `to` that is to be linked behind `parent`.
    /// It has no id yet, which is the id 0.
    pub open spec fn sprout(
        from: Point,
        to: Point,
        t: u64,
        q: CollisionMetaInfo,
        parent: usize,
    ) -> SegmentView {
        SegmentView { prev_segment_to_link: Some(parent), ..SegmentView::fresh(from, to, t, q, 0) }
    }

    /// The segment after its length and its direction have been asked for.
    pub open spec fn measured(self) -> SegmentView {
        SegmentView {
            length_revision: self.road_revision,
            cached_length: if self.length_revision != self.road_revision {
                Some(self.r.length() as i64)
            } else {
                self.cached_length
            },
            dir_revision: self.road_revision,
            cached_dir: if self.dir_revision != self.road_revision {
                Some(self.r.direction())
            } else {
                self.cached_dir
            },
            ..self
        }
    }

    /// The continuations of the segment, which keep its flags and are due
    /// at once.
    ///
    /// A highway goes on along the more populous of the straight and the
    /// randomly turned continuation, the straight one where they are
    /// equal; and where the population on that road exceeds the threshold
    /// a highway branches off to the left if its draw falls below the
    /// chance of a highway branch, else to the right if that draw does. A
    /// normal road goes straight on where the population on the straight
    /// continuation exceeds the threshold.
    pub open spec fn continuations(self, survey: Survey) -> Seq<SegmentView> {
        let from = self.r.end;
        let straight_pop = spec_pop_on_road(survey.origin, survey.straight);
        let random_pop = spec_pop_on_road(survey.origin, survey.random);
        if self.q.highway == Some(true) {
            let ahead = if random_pop > straight_pop {
                Self::sprout(from, survey.random_end, 0, self.q, self.id)
            } else {
                Self::sprout(from, survey.straight_end, 0, self.q, self.id)
            };
            let road_pop = if random_pop > straight_pop {
                random_pop
            } else {
                straight_pop
            };
            if road_pop > HIGHWAY_BRANCH_POPULATION_THRESHOLD && survey.highway_left_draw
                < HIGHWAY_BRANCH_PROBABILITY {
                seq![
                    ahead,
                    Self::sprout(from, survey.highway_left_end, 0, self.q, self.id),
                ]
            } else if road_pop > HIGHWAY_BRANCH_POPULATION_THRESHOLD && survey.highway_right_draw
                < HIGHWAY_BRANCH_PROBABILITY {
                seq![
                    ahead,
                    Self::sprout(from, survey.highway_right_end, 0, self.q, self.id),
                ]
            } else {
                seq![ahead]
            }
        } else if straight_pop > NORMAL_BRANCH_POPULATION_THRESHOLD {
            seq![Self::sprout(from, survey.straight_end, 0, self.q, self.id)]
        } else {
            Seq::empty()
        }
    }

    /// The normal branch of the segment, if it has one. It is a normal
    /// road, due at once or, off a highway, after the delay.
    ///
    /// Where the population on the straight continuation exceeds the
    /// threshold, a branch leaves to the left if its draw falls below the
    /// chance of a branch, else to the right if that draw does.
    pub open spec fn branches(self, survey: Survey) -> Seq<SegmentView> {
        let from = self.r.end;
        let straight_pop = spec_pop_on_road(survey.origin, survey.straight);
        let delay = if self.q.highway == Some(true) {
            NORMAL_BRANCH_TIME_DELAY_FROM_HIGHWAY
        } else {
            0
        };
        let q = CollisionMetaInfo { highway: Some(false), severed: false };
        if straight_pop > NORMAL_BRANCH_POPULATION_THRESHOLD && survey.branch_left_draw
            < DEFAULT_BRANCH_PROBABILITY {
            seq![Self::sprout(from, survey.branch_left_end, delay, q, self.id)]
        } else if straight_pop > NORMAL_BRANCH_POPULATION_THRESHOLD && survey.branch_right_draw
            < DEFAULT_BRANCH_PROBABILITY {
            seq![Self::sprout(from, survey.branch_right_end, delay, q, self.id)]
        } else {
            Seq::empty()
        }
    }

    /// The candidates that the segment brings forth once it is accepted:
    /// none where it is severed, else its continuations and then its
    /// branch.
    pub open spec fn sprouts(self, survey: Survey) -> Seq<SegmentView> {
        if self.q.severed {
            Seq::empty()
        } else {
            self.continuations(survey) + self.branches(survey)
        }
    }

    /// The candidate is a successor of `parent` as the rules of growth
    /// have it, give or take the rounding of its end to the lattice.
    ///
    /// It starts where the parent ends, is to be linked behind it and has
    /// no id and no links yet. With the direction and the length that the
    /// parent gives when asked, it is a continuation, which has the flags
    /// and the length of the parent, is due at once and keeps the
    /// parent's direction, or turns by `FORWARD_ANGLE_DEV` degrees at
    /// most where the parent is a highway; or a highway branch, which has
    /// the flags and the length of the parent, a highway, is due at once
    /// and leaves at a right angle, give or take `BRANCH_ANGLE_DEV`
    /// degrees; or a normal branch, which is a normal road of the default
    /// length, leaves at such an angle too and is due at once or, off a
    /// highway, after the delay.
    pub open spec fn follows(self, parent: SegmentView) -> bool {
        let d = parent.heading()@;
        let v = self.r.end@.minus(self.r.start@);
        let left = Vector { x: -d.y, y: d.x };
        let right = Vector { x: d.y, y: -d.x };
        let length = parent.extent() as int;
        let branch = DEFAULT_SEGMENT_LENGTH as int;
        let highway = parent.q.highway == Some(true);
        &&& self.r.start == parent.r.end
        &&& self.prev_segment_to_link == Some(parent.id)
        &&& self.id == 0
        &&& self.links.b.len() == 0
        &&& self.links.f.len() == 0
        &&& {
            ||| self.q == parent.q && self.t == 0 && heads(d, v, 0, length)
            ||| self.q == parent.q && self.t == 0 && highway && heads(
                d,
                v,
                FORWARD_TANGENT as int,
                length,
            )
            ||| self.q == parent.q && self.t == 0 && highway && (heads(
                left,
                v,
                BRANCH_TANGENT as int,
                length,
            ) || heads(right, v, BRANCH_TANGENT as int, length))
            ||| self.q == (CollisionMetaInfo { highway: Some(false), severed: false }) && self.t
                == (if highway {
                NORMAL_BRANCH_TIME_DELAY_FROM_HIGHWAY
            } else {
                0
            }) && (heads(left, v, BRANCH_TANGENT as int, branch) || heads(
                right,
                v,
                BRANCH_TANGENT as int,
                branch,
            ))
        }
    }

    /// Where the survey is one of the segment, every candidate that the
    /// segment brings forth is a successor of it as the rules of growth
    /// have it.
    pub proof fn lemma_sprouts_follow(self, survey: Survey, i: int)
        requires
            survey.suits(self),
            0 <= i < self.sprouts(survey).len(),
        ensures
            self.sprouts(survey)[i].follows(self),
    {
    }
}

impl GlobalConfig {
    /// The candidates that follow an accepted segment.
    ///
    /// A segment that is not severed has its length and its direction
    /// asked for, and its successors are made as `survey`, which is to be
    /// one of the segment, and the rules of branching have it;
    /// each is to be linked behind the segment and gets its id when its
    /// turn comes.
    pub fn generate_segments(
        &mut self,
        previous_segment: &mut Segment,
        survey: &Survey,
    ) -> (r: Vec<Segment>)
        requires
            old(previous_segment)@.wf(),
            survey.wf(),
            !old(previous_segment).q.severed ==> survey.suits(old(previous_segment)@),
        ensures
            final(self)@ == old(self)@,
            views(r@) == old(previous_segment)@.sprouts(*survey),
            forall|i: int| 0 <= i < r.len() ==> (#[trigger] r@[i])@.follows(old(previous_segment)@),
            r.len() <= 3,
            final(previous_segment)@ == if old(previous_segment).q.severed {
                old(previous_segment)@
            } else {
                old(previous_segment)@.measured()
            },
            final(previous_segment)@.wf(),
            forall|i: int|
                0 <= i < r.len() ==> {
                    &&& (#[trigger] r@[i])@.pending()
                    &&& r@[i].t <= 5
                    &&& r@[i].id == 0
                    &&& r@[i].prev_segment_to_link.is_some()
                    &&& r@[i].links@.b.len() == 0
                    &&& r@[i].links@.f.len() == 0
                },
    {
        let mut new_branches: Vec<Segment> = Vec::new();
        let ghost prev = previous_segment@;

        if !previous_segment.q.severed {
            let r_end = previous_segment.r.end;
            let _len = previous_segment.length();
            let _dir = previous_segment.dir();
            let q = previous_segment.q;
            let parent = previous_segment.id;
            let delay: u64 = if previous_segment.q.highway == Some(true) {
                NORMAL_BRANCH_TIME_DELAY_FROM_HIGHWAY
            } else {
                0
            };

            let mut continue_straight = Segment::new(r_end, survey.straight_end, &0, &q, &0);
            let straight_pop = pop_on_road(&survey.origin, &survey.straight);

            if previous_segment.q.highway == Some(true) {
                let mut random_straight = Segment::new(r_end, survey.random_end, &0, &q, &0);
                let random_pop = pop_on_road(&survey.origin, &survey.random);
                let road_pop: i64;

                if random_pop > straight_pop {
                    random_straight.prev_segment_to_link = Some(parent);
                    new_branches.push(random_straight);
                    road_pop = random_pop;
                } else {
                    continue_straight.prev_segment_to_link = Some(parent);
                    new_branches.push(continue_straight);
                    road_pop = straight_pop;
                }

                if road_pop > HIGHWAY_BRANCH_POPULATION_THRESHOLD {
                    if survey.highway_left_draw < HIGHWAY_BRANCH_PROBABILITY {
                        let mut left_highway_branch = Segment::new(
                            r_end,
                            survey.highway_left_end,
                            &0,
                            &q,
                            &0,
                        );
                        left_highway_branch.prev_segment_to_link = Some(parent);
                        new_branches.push(left_highway_branch);
                    } else if survey.highway_right_draw < HIGHWAY_BRANCH_PROBABILITY {
                        let mut right_highway_branch = Segment::new(
                            r_end,
                            survey.highway_right_end,
                            &0,
                            &q,
                            &0,
                        );
                        right_highway_branch.prev_segment_to_link = Some(parent);
                        new_branches.push(right_highway_branch);
                    }
                }
            } else if straight_pop > NORMAL_BRANCH_POPULATION_THRESHOLD {
                continue_straight.prev_segment_to_link = Some(parent);
                new_branches.push(continue_straight);
            }
            assert(views(new_branches@) =~= prev.continuations(*survey));

            if straight_pop > NORMAL_BRANCH_POPULATION_THRESHOLD {
                if survey.branch_left_draw < DEFAULT_BRANCH_PROBABILITY {
                    let mut left_branch = Segment::new(
                        r_end,
                        survey.branch_left_end,
                        &delay,
                        &CollisionMetaInfo::new(),
                        &0,
                    );
                    left_branch.prev_segment_to_link = Some(parent);
                    new_branches.push(left_branch);
                } else if survey.branch_right_draw < DEFAULT_BRANCH_PROBABILITY {
                    let mut right_branch = Segment::new(
                        r_end,
                        survey.branch_right_end,
                        &delay,
                        &CollisionMetaInfo::new(),
                        &0,
                    );
                    right_branch.prev_segment_to_link = Some(parent);
                    new_branches.push(right_branch);
                }
            }
            assert(views(new_branches@) =~= prev.sprouts(*survey));
        } else {
            assert(views(new_branches@) =~= prev.sprouts(*survey));
        }
        new_branches
    }
}

/// The times at which the candidates are due.
pub open spec fn times(queue: Seq<SegmentView>) -> Seq<i128> {
    Seq::new(queue.len(), |i: int| queue[i].t as i128)
}

/// The candidates `kids` of a segment that was due at `t`: each is due
/// one later than the segment, and its own delay later than that.
pub open spec fn scheduled(kids: Seq<SegmentView>, t: u64) -> Seq<SegmentView> {
    Seq::new(kids.len(), |i: int| SegmentView { t: (t + 1 + kids[i].t) as u64, ..kids[i] })
}

impl GrowthView {
    /// The state before the first round: nothing is accepted, and the two
    /// highways that leave the origin to the right and to the left, each
    /// linked to the other at its start, wait in that order.
    pub open spec fn initial() -> GrowthView {
        let q = CollisionMetaInfo { highway: Some(true), severed: false };
        let origin = Point { x: 0, y: 0 };
        let root = SegmentView::fresh(origin, Point { x: HIGHWAY_SEGMENT_LENGTH, y: 0 }, 0, q, 1);
        let opposite = SegmentView::fresh(
            origin,
            Point { x: HIGHWAY_SEGMENT_LENGTH, y: 0 },
            0,
            q,
            2,
        ).with_end(Point { x: (0 - HIGHWAY_SEGMENT_LENGTH) as i64, y: 0 });
        GrowthView {
            segments: Seq::empty(),
            last_id: 2,
            quad_tree: QuadtreeView::empty(
                CollisionLimits {
                    x: ROOT_CORNER,
                    y: ROOT_CORNER,
                    width: ROOT_SIZE,
                    height: ROOT_SIZE,
                    id: None,
                },
                10,
                10,
                0,
            ),
            priority_q: seq![
                SegmentView { links: LinkView { b: seq![2usize], f: Seq::empty() }, ..root },
                SegmentView { links: LinkView { b: seq![1usize], f: Seq::empty() }, ..opposite },
            ],
        }
    }

    /// There is a candidate to take up and room for it.
    pub open spec fn growing(self) -> bool {
        self.priority_q.len() > 0 && self.segments.len() < SEGMENT_COUNT_LIMIT
    }

    /// The place in the schedule of the candidate that is due first, the
    /// first of them where several are due together.
    pub open spec fn earliest(self) -> int {
        first_min(times(self.priority_q))
    }

    /// The state and the candidate `c` after the candidate has been linked
    /// behind the segment that brought it forth; nothing where that
    /// segment or one of its forward neighbours is not among the accepted
    /// segments.
    ///
    /// The candidate gets every forward neighbour of its parent and then
    /// the parent into its backward links. Each of these neighbours that
    /// has a link to the parent gets the candidate into the same link set,
    /// and the parent gets the candidate into its forward links. A
    /// candidate without a parent is left as it is.
    pub open spec fn linked_behind(self, c: SegmentView) -> Option<(GrowthView, SegmentView)> {
        match c.prev_segment_to_link {
            None => Some((self, c)),
            Some(parent) => match first_with_id(self.segments, parent) {
                None => None,
                Some(at) => {
                    let p = self.segments[at];
                    let links = p.links.f;
                    if exists|j: int|
                        0 <= j < links.len() && first_with_id(self.segments, #[trigger] links[j]).is_none() {
                        None
                    } else {
                        let told = announced(self.segments, links, links.len() as int, parent, c.id);
                        let parent_after = SegmentView {
                            links: LinkView { f: links.push(c.id), ..p.links },
                            ..p
                        };
                        Some(
                            (
                                GrowthView { segments: told.update(at, parent_after), ..self },
                                SegmentView {
                                    links: LinkView {
                                        b: (c.links.b + links).push(p.id),
                                        ..c.links
                                    },
                                    ..c
                                },
                            ),
                        )
                    }
                },
            },
        }
    }

    /// The state after the accepted candidate `c` has brought forth its
    /// successors and joined the accepted segments: the successors wait at
    /// the end of the schedule, and the candidate's bounding box is in the
    /// index.
    pub open spec fn settled_in(self, c: SegmentView, survey: Survey) -> GrowthView {
        let kids = c.sprouts(survey);
        let asked = if c.q.severed {
            c
        } else {
            c.measured()
        };
        GrowthView {
            segments: self.segments.push(
                SegmentView { collider: asked.collider.refreshed(), ..asked },
            ),
            last_id: self.last_id,
            quad_tree: self.quad_tree.inserted(asked.collider.limits()),
            priority_q: self.priority_q + scheduled(kids, c.t),
        }
    }

    /// The state and the candidate `c` once the candidate has been taken
    /// up: a candidate that has a parent gets the next id, one without
    /// keeps the id it has.
    pub open spec fn enrolled(self, c: SegmentView) -> (GrowthView, SegmentView) {
        if c.prev_segment_to_link.is_some() {
            (
                GrowthView { last_id: (self.last_id + 1) as usize, ..self },
                c.with_id((self.last_id + 1) as usize),
            )
        } else {
            (self, c)
        }
    }

    /// One round of the growth: whether the candidate that was due first
    /// was accepted, and the state after the round; nothing where a
    /// neighbour that has to be looked up is missing.
    ///
    /// The candidate leaves the schedule, is given the next id and is
    /// fitted to the accepted segments. If that turns it down, the round
    /// is over and the id is free again. Else the candidate is linked
    /// behind its parent, brings forth its successors and joins the
    /// accepted segments.
    pub open spec fn advanced(self, survey: Survey) -> Option<(bool, GrowthView)> {
        let at = self.earliest();
        let rest = GrowthView { priority_q: self.priority_q.remove(at), ..self };
        let taken = rest.enrolled(self.priority_q[at]);
        match taken.0.constrained(taken.1) {
            None => None,
            Some(verdict) => if !verdict.accepted {
                Some((false, rest))
            } else {
                match verdict.state.linked_behind(verdict.segment) {
                    None => None,
                    Some((linked, fitted)) => Some((true, linked.settled_in(fitted, survey))),
                }
            },
        }
    }
}

impl GlobalConfig {
    /// The state before the first round.
    pub fn new() -> (r: GlobalConfig)
        ensures
            r@ == GrowthView::initial(),
            r@.wf(),
            r@.well_numbered(),
            r@.knit(None),
            r@.hooked(),
    {
        let mut priority_q: Vec<Segment> = Vec::new();
        let mut last_id: usize = 0;

        last_id += 1;
        let mut root_segment = Segment::new(
            Point { x: 0, y: 0 },
            Point { x: HIGHWAY_SEGMENT_LENGTH, y: 0 },
            &0,
            &CollisionMetaInfo { highway: Some(true), severed: false },
            &last_id,
        );

        last_id += 1;
        let mut opposite_direction = Segment::from_existing(
            &root_segment,
            None,
            None,
            None,
            &last_id,
        );
        let new_end = Point {
            x: root_segment.r.start.x - HIGHWAY_SEGMENT_LENGTH,
            y: opposite_direction.r.end.y,
        };
        opposite_direction.set_end(&new_end);
        opposite_direction.links.b.push(root_segment.id);
        root_segment.links.b.push(opposite_direction.id);
        assert(opposite_direction.links.b@ =~= seq![1usize]);
        assert(root_segment.links.b@ =~= seq![2usize]);

        priority_q.push(root_segment);
        priority_q.push(opposite_direction);

        let r = GlobalConfig {
            segments: Vec::new(),
            last_id,
            quad_tree: Quadtree::from_config(),
            priority_q,
        };
        assert(r@.segments =~= Seq::empty());
        assert(r@.priority_q =~= GrowthView::initial().priority_q);
        proof {
            GrowthView::lemma_initial_knit();
        }
        assert(r@.quad_tree.tagged()) by {
            assert forall|x: CollisionLimits| #[trigger] r@.quad_tree.stores(x) implies x.id.is_some() by {
                assert(!r@.quad_tree.objects.contains(x));
            }
        }
        r
    }

    /// Whether there is a round to play: a candidate waits and the number
    /// of accepted segments is below the limit.
    pub fn growing(&self) -> (b: bool)
        ensures
            b == self@.growing(),
    {
        self.priority_q.len() > 0 && self.segments.len() < SEGMENT_COUNT_LIMIT
    }

    /// The place in the schedule of the candidate that the next round
    /// takes up.
    pub fn earliest(&self) -> (at: usize)
        requires
            self.priority_q.len() > 0,
        ensures
            at == self@.earliest(),
            at < self.priority_q.len(),
            is_first_min(times(self@.priority_q), at as int),
    {
        let mut due: Vec<i128> = Vec::new();
        let mut i: usize = 0;
        while i < self.priority_q.len()
            invariant
                i <= self.priority_q.len(),
                due.len() == i,
                forall|j: int| 0 <= j < i ==> #[trigger] due@[j] == times(self@.priority_q)[j],
            decreases self.priority_q.len() - i,
        {
            due.push(self.priority_q[i].t as i128);
            i += 1;
        }
        assert(due@ =~= times(self@.priority_q));
        let (_, at) = extended_min(&due).unwrap();
        at
    }

    /// Links an accepted candidate behind the segment that brought it
    /// forth. The state is left as it was where the link cannot be made.
    #[verifier::loop_isolation(false)]
    pub fn link_behind(&mut self, segment: &mut Segment) -> (r: Result<(), GrowthError>)
        requires
            old(self)@.wf_with(1),
            old(segment)@.fitted(),
        ensures
            match r {
                Ok(()) => old(self)@.linked_behind(old(segment)@) == Some(
                    (final(self)@, final(segment)@),
                ),
                Err(_) => {
                    &&& old(self)@.linked_behind(old(segment)@).is_none()
                    &&& final(self)@ == old(self)@
                    &&& final(segment)@ == old(segment)@
                },
            },
            final(self)@.wf_with(1),
            final(segment)@.fitted(),
            old(self)@.numbered_with(old(segment)@) ==> final(self)@.numbered_with(final(segment)@),
            final(segment).t == old(segment).t,
            final(segment).id == old(segment).id,
            final(segment)@.course() == old(segment)@.course(),
            final(segment).q == old(segment).q,
            final(self).segments.len() == old(self).segments.len(),
    {
        let ghost g0 = self@;
        if let Some(prev_segment_id) = segment.prev_segment_to_link {
            let at = match find_segment(&self.segments, prev_segment_id) {
                Some(at) => at,
                None => {
                    return Err(GrowthError::MissingNeighbour);
                },
            };
            let mut prev_segment = self.segments[at].clone();
            let links = copy_ids(&prev_segment.links.f);
            let ghost p = g0.segments[at as int];
            assert(prev_segment@ == p);

            let mut j: usize = 0;
            while j < links.len()
                invariant
                    j <= links.len(),
                    self@ == g0,
                    forall|k: int|
                        0 <= k < j ==> first_with_id(g0.segments, #[trigger] links@[k]).is_some(),
                decreases links.len() - j,
            {
                if find_segment(&self.segments, links[j]).is_none() {
                    return Err(GrowthError::MissingNeighbour);
                }
                j += 1;
            }

            let mut behind = copy_ids(&links);
            segment.links.b.append(&mut behind);
            let _heard = self.announce(&links, prev_segment_id, segment.id);
            let ghost told = self@.segments;
            proof {
                lemma_announced_keeps(
                    g0.segments,
                    links@,
                    links.len() as int,
                    prev_segment_id,
                    segment.id,
                );
            }
            prev_segment.links.f.push(segment.id);
            segment.links.b.push(prev_segment.id);
            self.segments[at] = prev_segment;
            assert(self@.segments =~= told.update(at as int, prev_segment@));
            proof {
                assert forall|i: int| 0 <= i < self@.segments.len() implies {
                    &&& (#[trigger] self@.segments[i]).settled(self@.segments.len() as int + 1)
                    &&& self@.segments[i].rested()
                    &&& housed(self@.quad_tree, self@.segments[i])
                } by {
                    if i != at {
                        assert(self@.segments[i] == told[i]);
                    }
                    assert(g0.segments[i].settled(g0.segments.len() as int + 1));
                    lemma_housed_same(g0.quad_tree, g0.segments[i], self@.segments[i]);
                }
                assert forall|i: int| 0 <= i < self@.priority_q.len() implies {
                    &&& (#[trigger] self@.priority_q[i]).pending()
                    &&& self@.priority_q[i].t <= 6 * (self@.segments.len() + 1)
                } by {
                    assert(g0.priority_q[i].pending());
                }
                if g0.numbered_with(old(segment)@) {
                    assert forall|i: int| 0 <= i < g0.segments.len() implies (
                    #[trigger] self@.segments[i]).id == g0.segments[i].id by {
                        if i != at {
                            assert(self@.segments[i] == told[i]);
                        }
                    }
                    g0.lemma_numbered_same_ids(self@, old(segment)@, segment@);
                }
            }
        }
        Ok(())
    }

    /// Takes the candidate that is due first out of the schedule.
    pub fn take_earliest(&mut self) -> (c: Segment)
        requires
            old(self)@.wf(),
            old(self).priority_q.len() > 0,
        ensures
            c@ == old(self)@.priority_q[old(self)@.earliest()],
            final(self)@ == (GrowthView {
                priority_q: old(self)@.priority_q.remove(old(self)@.earliest()),
                ..old(self)@
            }),
            final(self)@.wf(),
            final(self).priority_q.len() + 1 == old(self).priority_q.len(),
            final(self).segments.len() == old(self).segments.len(),
            c@.pending(),
            c.t <= 6 * (old(self).segments.len() + 1),
            old(self)@.well_numbered() ==> final(self)@.lined_up(c@),
    {
        let ghost g0 = self@;
        let min_t_i = self.earliest();
        let min_segment = self.priority_q.remove(min_t_i);
        assert(min_segment@ == g0.priority_q[min_t_i as int]);
        assert(self@.priority_q =~= g0.priority_q.remove(min_t_i as int));
        assert(g0.priority_q[min_t_i as int].pending());
        assert forall|i: int| 0 <= i < self@.priority_q.len() implies {
            &&& (#[trigger] self@.priority_q[i]).pending()
            &&& self@.priority_q[i].t <= 6 * (self@.segments.len() + 1)
        } by {
            if i < min_t_i {
                assert(g0.priority_q[i].pending());
            } else {
                assert(g0.priority_q[i + 1].pending());
            }
        }
        proof {
            if g0.well_numbered() {
                g0.lemma_taken_lined_up(min_t_i as int);
            }
        }
        min_segment
    }

    /// Takes a candidate up: one that has a parent gets the next id.
    pub fn enroll(&mut self, segment: &mut Segment)
        requires
            old(self)@.wf(),
            old(segment)@.pending(),
        ensures
            (final(self)@, final(segment)@) == old(self)@.enrolled(old(segment)@),
            final(self)@.wf_with(1),
            final(segment)@.pending(),
            final(segment).t == old(segment).t,
            old(self)@.lined_up(old(segment)@) ==> final(self)@.numbered_with(final(segment)@),
    {
        proof {
            if self@.lined_up(segment@) {
                self@.lemma_enrolled_numbered(segment@);
            }
        }
        if segment.prev_segment_to_link.is_some() {
            self.last_id += 1;
            segment.set_id(self.last_id);
        }
    }

    /// Puts the successors of a segment that was due at `t` at the end of
    /// the schedule.
    #[verifier::loop_isolation(false)]
    pub fn schedule(&mut self, branches: Vec<Segment>, t: u64)
        requires
            t <= u64::MAX - 6,
            forall|i: int| 0 <= i < branches.len() ==> (#[trigger] branches@[i]).t <= 5,
        ensures
            final(self)@ == (GrowthView {
                priority_q: old(self)@.priority_q + scheduled(views(branches@), t),
                ..old(self)@
            }),
    {
        let ghost kids = views(branches@);
        let ghost waiting = self@.priority_q;
        let mut branches = branches;
        let mut k: usize = 0;
        while k < branches.len()
            invariant
                k <= branches.len(),
                branches.len() == kids.len(),
                forall|i: int|
                    0 <= i < k ==> (#[trigger] views(branches@)[i]) == scheduled(kids, t)[i],
                forall|i: int| k <= i < branches.len() ==> (#[trigger] views(branches@)[i]) == kids[i],
            decreases branches.len() - k,
        {
            let ghost before = views(branches@);
            assert(before[k as int] == kids[k as int]);
            assert(branches@[k as int]@ == before[k as int]);
            let new_segment = &mut branches[k];
            new_segment.t = t + 1 + new_segment.t;
            assert(views(branches@) =~= before.update(
                k as int,
                SegmentView { t: (t + 1 + kids[k as int].t) as u64, ..kids[k as int] },
            ));
            k += 1;
        }
        assert(views(branches@) =~= scheduled(kids, t));
        self.priority_q.append(&mut branches);
        assert(self@.priority_q =~= waiting + scheduled(kids, t));
    }

    /// Lets an accepted candidate bring forth its successors and join the
    /// accepted segments.
    pub fn settle(&mut self, segment: Segment, survey: &Survey)
        requires
            old(self)@.wf_with(1),
            old(self).segments.len() <= SEGMENT_COUNT_LIMIT,
            segment@.fitted(),
            segment.t <= 6 * (old(self).segments.len() + 1),
            survey.wf(),
            !segment.q.severed ==> survey.suits(segment@),
        ensures
            final(self)@ == old(self)@.settled_in(segment@, *survey),
            final(self)@.wf(),
            old(self)@.numbered_with(segment@) ==> final(self)@.well_numbered(),
            final(self).segments.len() == old(self).segments.len() + 1,
            final(self)@.segments.last().id == segment.id,
    {
        let ghost g1 = self@;
        let ghost fitted = segment@;
        let mut min_segment = segment;
        let branches = self.generate_segments(&mut min_segment, survey);
        let ghost kids = views(branches@);
        assert forall|i: int| 0 <= i < branches.len() implies (#[trigger] branches@[i]).t <= 5 by {
            assert(branches@[i]@.pending());
        }
        self.schedule(branches, min_segment.t);
        let limits = min_segment.collider.limits();
        proof {
            g1.quad_tree.lemma_inserted_stores(limits);
        }
        self.quad_tree.insert(limits);
        let ghost joined = min_segment@;
        self.segments.push(min_segment);
        assert(self@.segments =~= g1.segments.push(joined));
        proof {
            assert forall|i: int| 0 <= i < self@.segments.len() implies {
                &&& (#[trigger] self@.segments[i]).settled(self@.segments.len() as int + 1)
                &&& self@.segments[i].rested()
                &&& housed(self@.quad_tree, self@.segments[i])
            } by {
                if i < g1.segments.len() {
                    assert(g1.segments[i].settled(g1.segments.len() as int + 1));
                    lemma_housed_inserted(g1.quad_tree, limits, g1.segments[i]);
                } else {
                    lemma_housed_own(g1.quad_tree, joined);
                }
            }
            assert forall|i: int| 0 <= i < self@.priority_q.len() implies {
                &&& (#[trigger] self@.priority_q[i]).pending()
                &&& self@.priority_q[i].t <= 6 * (self@.segments.len() + 1)
            } by {
                if i < g1.priority_q.len() {
                    assert(g1.priority_q[i].pending());
                } else {
                    let j = i - g1.priority_q.len();
                    assert(self@.priority_q[i] == scheduled(kids, fitted.t)[j]);
                    assert(kids[j] == branches@[j]@);
                    assert(kids[j].pending());
                }
            }
            if g1.numbered_with(fitted) {
                g1.lemma_settled_numbered(fitted, *survey);
            }
        }
    }

    /// Plays one round of the growth.
    ///
    /// `survey` is to be one of the candidate that is due first, the one
    /// at `earliest`. That candidate leaves the schedule,
    /// is given the next id if it has none and is fitted to the accepted
    /// segments. If it is accepted it is linked behind the segment that
    /// brought it forth, its successors are made as `survey` has it and
    /// join the schedule, each due one later than the candidate and its
    /// own delay later than that; the candidate's bounding box goes into
    /// the index and the candidate joins the accepted segments. If it is
    /// turned down its id is free again. Returns whether the candidate
    /// was accepted; an error where a segment names a neighbour that is
    /// not among the accepted segments.
    pub fn generate_main(&mut self, survey: &Survey) -> (r: Result<bool, GrowthError>)
        requires
            old(self)@.wf(),
            old(self)@.growing(),
            survey.suits(old(self)@.priority_q[old(self)@.earliest()]),
        ensures
            match r {
                Ok(accepted) => old(self)@.advanced(*survey) == Some((accepted, final(self)@)),
                Err(_) => old(self)@.advanced(*survey).is_none(),
            },
            r.is_ok() ==> final(self)@.wf(),
            r.is_ok() && old(self)@.well_numbered() && (r == Ok::<bool, GrowthError>(true) || old(
                self,
            )@.priority_q[old(self)@.earliest()].prev_segment_to_link.is_some())
                ==> final(self)@.well_numbered(),
            r.is_ok() && old(self)@.well_numbered() && old(self)@.knit(None) && (r == Ok::<
                bool,
                GrowthError,
            >(true) || old(self)@.priority_q[old(
                self,
            )@.earliest()].prev_segment_to_link.is_some()) ==> final(self)@.knit(None),
            r.is_ok() && old(self)@.well_numbered() && old(self)@.knit(None) && old(
                self,
            )@.counted() ==> final(self)@.counted(),
            r.is_ok() && old(self)@.hooked() ==> final(self)@.hooked(),
            r.is_ok() ==> old(self).segments.len() <= final(self).segments.len() <= old(
                self,
            ).segments.len() + 2,
            r == Ok::<bool, GrowthError>(false) ==> final(self).segments.len() == old(
                self,
            ).segments.len(),
            r == Ok::<bool, GrowthError>(true) ==> final(self).segments.len() >= old(
                self,
            ).segments.len() + 1,
            r == Ok::<bool, GrowthError>(false) ==> final(self).priority_q.len() + 1 == old(
                self,
            ).priority_q.len(),
            r == Ok::<bool, GrowthError>(false) ==> final(self).last_id == old(self).last_id,
            r == Ok::<bool, GrowthError>(true) ==> final(self).last_id >= old(self).last_id,
            r == Ok::<bool, GrowthError>(true) ==> final(self)@.segments.last().id == (if old(
                self,
            )@.priority_q[old(self)@.earliest()].prev_segment_to_link.is_some() {
                (old(self).last_id + 1) as usize
            } else {
                old(self)@.priority_q[old(self)@.earliest()].id
            }),
    {
        proof {
            if self@.well_numbered() && self@.knit(None) && self@.advanced(*survey).is_some() && (
            self@.advanced(*survey).unwrap().0 || self@.priority_q[self@.earliest(
            )].prev_segment_to_link.is_some()) {
                self@.lemma_round_keeps_links(*survey);
            }
            if self@.hooked() && self@.advanced(*survey).is_some() {
                self@.lemma_round_keeps_hooks(*survey);
            }
            if self@.counted() {
                crate::links::lemma_earliest_has_parent(self@);
            }
        }
        let mut min_segment = self.take_earliest();
        let ghost rest = self@;
        assert(rest.priority_q.len() == self.priority_q.len());
        let has_parent = min_segment.prev_segment_to_link.is_some();
        self.enroll(&mut min_segment);
        let accepted = match self.local_constraints(&mut min_segment) {
            Ok(accepted) => accepted,
            Err(e) => {
                return Err(e);
            },
        };
        if !accepted {
            if has_parent {
                self.last_id -= 1;
            }
            assert(self@ == rest);
            assert(self@.priority_q.len() == self.priority_q.len());
            proof {
                if rest.lined_up(min_segment@) && has_parent {
                    assert(rest.well_numbered());
                }
            }
            return Ok(false);
        }
        match self.link_behind(&mut min_segment) {
            Ok(()) => {},
            Err(e) => {
                return Err(e);
            },
        }
        self.settle(min_segment, survey);
        Ok(true)
    }
}

impl GrowthView {
    /// A search of the index for the bounding box of an accepted segment
    /// finds a box under the id of that segment.
    pub proof fn lemma_accepted_is_retrieved(self, i: int)
        requires
            self.wf(),
            0 <= i < self.segments.len(),
        ensures
            exists|x: CollisionLimits|
                #[trigger] self.quad_tree.retrieve(self.segments[i].collider.limits()).contains(x)
                    && x.id == Some(self.segments[i].id),
    {
        let s = self.segments[i];
        assert(s.settled(self.segments.len() as int + 1));
        assert(housed(self.quad_tree, s));
        let x = choose|x: CollisionLimits|
            #[trigger] self.quad_tree.stores(x) && x.id == Some(s.id) && covers(
                x,
                s.collider.limits(),
            );
        self.quad_tree.lemma_touching_is_retrieved(x, s.collider.limits());
    }

    /// Of an accepted segment, neither cache was filed under a revision
    /// that the road has yet to reach.
    pub proof fn lemma_accepted_is_rested(self, i: int)
        requires
            self.wf(),
            0 <= i < self.segments.len(),
        ensures
            self.segments[i].road_revision >= self.segments[i].dir_revision,
            self.segments[i].road_revision >= self.segments[i].length_revision,
    {
        assert(self.segments[i].rested());
    }

    /// There is never more than one accepted segment beyond the limit.
    pub proof fn lemma_count_is_bounded(self)
        requires
            self.wf(),
        ensures
            self.segments.len() <= SEGMENT_COUNT_LIMIT + 1,
    {
    }

    /// A candidate that is accepted at a crossing or on a road nearby
    /// meets that road at thirty degrees or more.
    pub proof fn lemma_split_keeps_deviation(self, c: SegmentView, choice: LocalConstraints)
        ensures
            self.crossed(c, choice) matches Some(v) ==> (v.accepted ==> !deviation_too_small(
                self.segments[choice.this_road_index as int].r,
                c.r,
            )),
            self.line_snapped(c, choice) matches Some(v) ==> (v.accepted ==> !deviation_too_small(
                self.segments[choice.this_road_index as int].r,
                v.segment.r,
            )),
    {
    }
}

/// How urgent a change the accepted road `n` calls for when the candidate
/// road `c` is held against it alone: 4 for a crossing, 3 for an end
/// nearby, 2 for the road nearby, 0 for none.
pub open spec fn urgency(c: Road, n: Road) -> int {
    if roads_cross(c, n) {
        4
    } else if ends_near(c, n) {
        3
    } else if end_near_road(c, n) {
        2
    } else {
        0
    }
}

/// The place among `segments` of the segment that the `m`-th box found
/// names, if the box names one that is there.
pub open spec fn named(segments: Seq<SegmentView>, found: Seq<CollisionLimits>, m: int) -> Option<
    int,
> {
    match found[m].id {
        Some(id) => first_with_id(segments, id),
        None => None,
    }
}

/// How urgent a change the `m`-th box found calls for: that of the
/// segment it names, or none where it names no segment that is there.
pub open spec fn call(segments: Seq<SegmentView>, c: Road, found: Seq<CollisionLimits>, m: int)
    -> int {
    match named(segments, found, m) {
        Some(at) => urgency(c, segments[at].r),
        None => 0,
    }
}

/// The `m`-th of the first `n` boxes names the chosen segment and calls
/// for a change as urgent as the one chosen, and every box after it calls
/// for a less urgent one.
pub open spec fn is_last_call(
    segments: Seq<SegmentView>,
    c: Road,
    found: Seq<CollisionLimits>,
    n: int,
    choice: LocalConstraints,
    m: int,
) -> bool {
    &&& 0 <= m < n
    &&& named(segments, found, m) == Some(choice.this_road_index as int)
    &&& call(segments, c, found, m) == choice.priority
    &&& forall|later: int| m < later < n ==> #[trigger] call(segments, c, found, later) < choice.priority
}

/// The choice is the most urgent change that any of the first `n` boxes
/// calls for, and among equally urgent ones the last: no box calls for a
/// more urgent one; a change is chosen exactly where some box calls for
/// one; and it was the last box to call for a change that urgent that
/// named the chosen segment.
pub open spec fn chosen_well(
    segments: Seq<SegmentView>,
    c: Road,
    found: Seq<CollisionLimits>,
    n: int,
    choice: LocalConstraints,
) -> bool {
    &&& 0 <= choice.priority <= 4
    &&& choice.action.is_none() <==> choice.priority == 0
    &&& forall|m: int| 0 <= m < n ==> #[trigger] call(segments, c, found, m) <= choice.priority
    &&& choice.action.is_some() ==> exists|m: int|
        #[trigger] is_last_call(segments, c, found, n, choice, m)
}

/// Holding the candidate against one more road replaces the choice
/// exactly where that road calls for a change, and one at least as urgent
/// as the choice.
pub proof fn lemma_considered(choice: LocalConstraints, c: Road, n: Road, index: int)
    requires
        0 <= choice.priority <= 4,
        0 <= index <= usize::MAX,
    ensures
        ({
            let r = considered(choice, c, n, index);
            if urgency(c, n) > 0 && urgency(c, n) >= choice.priority {
                &&& r.priority == urgency(c, n)
                &&& r.this_road_index == index
                &&& r.action.is_some()
            } else {
                r == choice
            }
        }),
{
}

/// The scan makes its choice well.
pub proof fn lemma_scan_takes_the_most_urgent(
    segments: Seq<SegmentView>,
    c: Road,
    found: Seq<CollisionLimits>,
    n: int,
)
    requires
        0 <= n <= found.len(),
        segments.len() <= usize::MAX,
    ensures
        chosen_well(segments, c, found, n, scanned(segments, c, found, n)),
    decreases n,
{
    if n > 0 {
        lemma_scan_takes_the_most_urgent(segments, c, found, n - 1);
        let before = scanned(segments, c, found, n - 1);
        let choice = scanned(segments, c, found, n);
        let u = call(segments, c, found, n - 1);
        match named(segments, found, n - 1) {
            Some(at) => {
                lemma_position_found(ids_of(segments), found[n - 1].id.unwrap());
                lemma_considered(before, c, segments[at].r, at);
            },
            None => {},
        }
        if u > 0 && u >= before.priority {
            assert(is_last_call(segments, c, found, n, choice, n - 1));
            assert forall|m: int| 0 <= m < n implies #[trigger] call(segments, c, found, m)
                <= choice.priority by {
                if m < n - 1 {
                    assert(call(segments, c, found, m) <= before.priority);
                }
            }
        } else {
            assert forall|m: int| 0 <= m < n implies #[trigger] call(segments, c, found, m)
                <= choice.priority by {
                if m < n - 1 {
                    assert(call(segments, c, found, m) <= before.priority);
                }
            }
            if before.action.is_some() {
                let m = choose|m: int| #[trigger] is_last_call(segments, c, found, n - 1, before, m);
                assert(is_last_call(segments, c, found, n, choice, m)) by {
                    assert forall|later: int| m < later < n implies #[trigger] call(
                        segments,
                        c,
                        found,
                        later,
                    ) < choice.priority by {
                        if later < n - 1 {
                            assert(call(segments, c, found, later) < before.priority);
                        }
                    }
                }
            }
        }
    }
}

/// A candidate that crosses an accepted road has a bounding box that
/// touches every box that holds the bounding box of that road.
pub proof fn lemma_crossing_touches(c: SegmentView, n: SegmentView, x: CollisionLimits)
    requires
        c.wf(),
        n.wf(),
        roads_cross(c.r, n.r),
        covers(x, n.collider.limits()),
    ensures
        !boxes_apart(x, c.collider.limits()),
{
    lemma_meeting_spans_overlap(c.r.start@, c.r.end@, n.r.start@, n.r.end@);
}

impl GrowthView {
    /// When a candidate is accepted and not severed, it crosses none of
    /// the accepted segments.
    pub proof fn lemma_unsevered_crosses_nothing(self, c: SegmentView, i: int)
        requires
            self.wf_with(1),
            self.ids_apart(),
            c.pending(),
            self.constrained(c) matches Some(v) && v.accepted && !v.segment.q.severed,
            0 <= i < self.segments.len(),
        ensures
            !roads_cross(c.r, self.segments[i].r),
    {
        let n = self.segments[i];
        if roads_cross(c.r, n.r) {
            assert(n.settled(self.segments.len() as int + 1));
            let x = choose|x: CollisionLimits|
                #[trigger] self.quad_tree.stores(x) && x.id == Some(n.id) && covers(
                    x,
                    n.collider.limits(),
                );
            lemma_crossing_touches(c, n, x);
            let limits = c.collider.limits();
            self.quad_tree.lemma_touching_is_retrieved(x, limits);
            let found = self.quad_tree.retrieve(limits);
            let m = choose|m: int| 0 <= m < found.len() && found[m] == x;
            assert forall|j: int| 0 <= j < i implies ids_of(self.segments)[j] != n.id by {
                assert(self.segments[j].id != self.segments[i].id);
            }
            lemma_position(ids_of(self.segments), n.id, i);
            assert(named(self.segments, found, m) == Some(i));
            lemma_scan_takes_the_most_urgent(self.segments, c.r, found, found.len() as int);
            let choice = scanned(self.segments, c.r, found, found.len() as int);
            assert(call(self.segments, c.r, found, m) == 4);
            assert(choice.priority >= 4);
            assert(choice.action.is_some());
        }
    }
}

} // verus!
