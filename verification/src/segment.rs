//! Road segments and the links between them.
use vstd::prelude::*;
use crate::collision::{
    ColliderView, CollisionLimits, CollisionObject, CollisionProperties, CollisionType, ShapeView,
};
use crate::config::{DEFAULT_SEGMENT_WIDTH, HIGHWAY_SEGMENT_WIDTH};
use crate::generate::{GlobalConfig, GrowthView};
use crate::quad_tree::QuadtreeView;
use crate::math::{
    between, equal_v, floor_sqrt, lemma_floor_sqrt_exists, lemma_product_bound, length,
    spec_equal_v, subtract_points, Point,
};

verus! {

/// Which of a segment's two link sets is meant.
#[derive(Clone, Copy, Debug, PartialEq, Eq, Structural)]
pub enum SegmentDirection {
    Back,
    Forward,
    Neither,
}

/// A directed stretch of road.
#[derive(Clone, Copy, Debug, PartialEq, Eq, Structural)]
pub struct Road {
    pub start: Point,
    pub end: Point,
}

impl Road {
    /// The vector from the start of the road to its end.
    pub open spec fn direction(self) -> Point {
        Point { x: (self.end.x - self.start.x) as i64, y: (self.end.y - self.start.y) as i64 }
    }

    /// The length of the road, rounded down to a whole lattice step.
    pub open spec fn length(self) -> int {
        floor_sqrt(self.end@.minus(self.start@).norm2())
    }

    /// Both ends lie where the geometry accepts them.
    pub open spec fn in_range(self) -> bool {
        self.start.in_range() && self.end.in_range()
    }

    /// The point lies between the two ends of the road, coordinate by
    /// coordinate.
    pub open spec fn inside(self, point: Point) -> bool {
        &&& between(self.start.x as int, self.end.x as int, point.x as int)
        &&& between(self.start.y as int, self.end.y as int, point.y as int)
    }
}

/// The length of a road on the lattice is not negative and fits a machine
/// word.
pub proof fn lemma_road_length(r: Road)
    requires
        r.in_range(),
    ensures
        0 <= r.length() <= i64::MAX,
        (r.length() as i64) == r.length(),
{
    let v = r.end@.minus(r.start@);
    lemma_product_bound(v.x, v.x, 0x4000_0000, 0x4000_0000);
    lemma_product_bound(v.y, v.y, 0x4000_0000, 0x4000_0000);
    assert(v.x * v.x >= 0 && v.y * v.y >= 0) by (nonlinear_arith);
    lemma_floor_sqrt_exists(v.norm2());
}

/// The ids of the segments that meet a segment: `b` at one of its ends,
/// `f` at the other.
#[derive(Debug)]
pub struct Link {
    pub b: Vec<usize>,
    pub f: Vec<usize>,
}

/// The model of a `Link`.
pub struct LinkView {
    pub b: Seq<usize>,
    pub f: Seq<usize>,
}

impl View for Link {
    type V = LinkView;

    open spec fn view(&self) -> LinkView {
        LinkView { b: self.b@, f: self.f@ }
    }
}

/// A copy of a list of ids.
pub fn copy_ids(ids: &Vec<usize>) -> (r: Vec<usize>)
    ensures
        r@ == ids@,
{
    let mut r: Vec<usize> = Vec::new();
    let mut i: usize = 0;
    while i < ids.len()
        invariant
            i <= ids.len(),
            r@ == ids@.subrange(0, i as int),
        decreases ids.len() - i,
    {
        r.push(ids[i]);
        assert(r@ =~= ids@.subrange(0, i + 1));
        i += 1;
    }
    assert(r@ =~= ids@);
    r
}

/// Whether `ids` holds `id`.
pub fn holds_id(ids: &Vec<usize>, id: usize) -> (b: bool)
    ensures
        b == ids@.contains(id),
{
    let mut i: usize = 0;
    while i < ids.len()
        invariant
            i <= ids.len(),
            forall|j: int| 0 <= j < i ==> ids@[j] != id,
        decreases ids.len() - i,
    {
        if ids[i] == id {
            return true;
        }
        i += 1;
    }
    false
}

impl Clone for Link {
    fn clone(&self) -> (r: Self)
        ensures
            r@ == self@,
    {
        Link { b: copy_ids(&self.b), f: copy_ids(&self.f) }
    }
}

/// What the growth rules need to know of a segment.
///
/// A highway is wider and branches by its own rules; a severed segment
/// had its end moved onto another road and grows no further.
#[derive(Clone, Copy, Debug, PartialEq, Eq, Structural)]
pub struct CollisionMetaInfo {
    pub highway: Option<bool>,
    pub severed: bool,
}

impl CollisionMetaInfo {
    /// A normal road that is not severed.
    pub fn new() -> (r: Self)
        ensures
            r == (CollisionMetaInfo { highway: Some(false), severed: false }),
    {
        CollisionMetaInfo { highway: Some(false), severed: false }
    }

    /// The collider width that goes with the flags: that of a highway
    /// where the highway flag is set at all.
    pub open spec fn width(self) -> i64 {
        if self.highway.is_some() {
            HIGHWAY_SEGMENT_WIDTH
        } else {
            DEFAULT_SEGMENT_WIDTH
        }
    }
}

/// A road with its place in the schedule, its collider and its links.
#[derive(Debug)]
pub struct Segment {
    pub id: usize,
    pub collider: CollisionObject,
    pub road_revision: usize,
    pub dir_revision: usize,
    pub length_revision: usize,
    pub cached_dir: Option<Point>,
    pub cached_length: Option<i64>,
    pub r: Road,
    pub t: u64,
    pub q: CollisionMetaInfo,
    pub links: Link,
    pub prev_segment_to_link: Option<usize>,
}

/// The model of a `Segment`.
pub struct SegmentView {
    pub id: usize,
    pub collider: ColliderView,
    pub road_revision: usize,
    pub dir_revision: usize,
    pub length_revision: usize,
    pub cached_dir: Option<Point>,
    pub cached_length: Option<i64>,
    pub r: Road,
    pub t: u64,
    pub q: CollisionMetaInfo,
    pub links: LinkView,
    pub prev_segment_to_link: Option<usize>,
}

impl View for Segment {
    type V = SegmentView;

    open spec fn view(&self) -> SegmentView {
        SegmentView {
            id: self.id,
            collider: self.collider@,
            road_revision: self.road_revision,
            dir_revision: self.dir_revision,
            length_revision: self.length_revision,
            cached_dir: self.cached_dir,
            cached_length: self.cached_length,
            r: self.r,
            t: self.t,
            q: self.q,
            links: self.links@,
            prev_segment_to_link: self.prev_segment_to_link,
        }
    }
}

impl Clone for Segment {
    fn clone(&self) -> (r: Self)
        ensures
            r@ == self@,
    {
        Segment {
            id: self.id,
            collider: self.collider.clone(),
            road_revision: self.road_revision,
            dir_revision: self.dir_revision,
            length_revision: self.length_revision,
            cached_dir: self.cached_dir,
            cached_length: self.cached_length,
            r: self.r,
            t: self.t,
            q: self.q,
            links: self.links.clone(),
            prev_segment_to_link: self.prev_segment_to_link,
        }
    }
}

/// The models of a list of segments.
pub open spec fn views(segments: Seq<Segment>) -> Seq<SegmentView> {
    Seq::new(segments.len(), |i: int| segments[i]@)
}

/// The ids of a list of segments.
pub open spec fn ids_of(segments: Seq<SegmentView>) -> Seq<usize> {
    Seq::new(segments.len(), |i: int| segments[i].id)
}

/// `i` is the first place of `id` in `ids`.
pub open spec fn is_position(ids: Seq<usize>, id: usize, i: int) -> bool {
    &&& 0 <= i < ids.len()
    &&& ids[i] == id
    &&& forall|j: int| 0 <= j < i ==> ids[j] != id
}

/// The first place of `id` in `ids`, if there is one.
#[verifier::opaque]
pub open spec fn position(ids: Seq<usize>, id: usize) -> Option<int> {
    if exists|i: int| is_position(ids, id, i) {
        Some(choose|i: int| is_position(ids, id, i))
    } else {
        None
    }
}

/// The first place of an id is its position.
pub proof fn lemma_position(ids: Seq<usize>, id: usize, i: int)
    requires
        is_position(ids, id, i),
    ensures
        position(ids, id) == Some(i),
{
    reveal(position);
    let k = choose|k: int| is_position(ids, id, k);
    assert(is_position(ids, id, k));
    if k < i {
        assert(ids[k] != id);
    } else if i < k {
        assert(ids[i] != id);
    }
}

/// An id that does not stand in the list has no position.
pub proof fn lemma_no_position(ids: Seq<usize>, id: usize)
    requires
        !ids.contains(id),
    ensures
        position(ids, id).is_none(),
{
    reveal(position);
    if exists|i: int| is_position(ids, id, i) {
        let i = choose|i: int| is_position(ids, id, i);
        assert(ids[i] == id);
    }
}

/// A position that is found is the first place of the id.
pub proof fn lemma_position_found(ids: Seq<usize>, id: usize)
    ensures
        position(ids, id) matches Some(i) ==> is_position(ids, id, i),
        position(ids, id).is_none() ==> !ids.contains(id),
{
    reveal(position);
    if ids.contains(id) {
        let i = choose|i: int| 0 <= i < ids.len() && ids[i] == id;
        lemma_least_position(ids, id, i);
    }
}

proof fn lemma_least_position(ids: Seq<usize>, id: usize, i: int)
    requires
        0 <= i < ids.len(),
        ids[i] == id,
    ensures
        exists|k: int| is_position(ids, id, k),
    decreases i,
{
    if forall|j: int| 0 <= j < i ==> ids[j] != id {
        assert(is_position(ids, id, i));
    } else {
        let j = choose|j: int| 0 <= j < i && ids[j] == id;
        lemma_least_position(ids, id, j);
    }
}

/// The first place in `segments` of a segment with the id, if there is one.
pub open spec fn first_with_id(segments: Seq<SegmentView>, id: usize) -> Option<int> {
    position(ids_of(segments), id)
}

/// The first place of `id` in `ids`.
pub fn position_of(ids: &Vec<usize>, id: usize) -> (r: Option<usize>)
    ensures
        match r {
            Some(i) => position(ids@, id) == Some(i as int) && is_position(ids@, id, i as int),
            None => position(ids@, id).is_none() && !ids@.contains(id),
        },
{
    let mut i: usize = 0;
    while i < ids.len()
        invariant
            i <= ids.len(),
            forall|j: int| 0 <= j < i ==> ids@[j] != id,
        decreases ids.len() - i,
    {
        if ids[i] == id {
            proof {
                lemma_position(ids@, id, i as int);
            }
            return Some(i);
        }
        i += 1;
    }
    proof {
        lemma_no_position(ids@, id);
    }
    None
}

/// The place of the first segment with the id.
pub fn find_segment(segments: &Vec<Segment>, id: usize) -> (r: Option<usize>)
    ensures
        match r {
            Some(i) => first_with_id(views(segments@), id) == Some(i as int) && is_position(
                ids_of(views(segments@)),
                id,
                i as int,
            ),
            None => first_with_id(views(segments@), id).is_none(),
        },
        r matches Some(i) ==> i < segments.len() && segments@[i as int].id == id,
        r.is_none() ==> forall|j: int| 0 <= j < segments.len() ==> segments@[j].id != id,
{
    let ghost ids = ids_of(views(segments@));
    let mut i: usize = 0;
    while i < segments.len()
        invariant
            i <= segments.len(),
            ids == ids_of(views(segments@)),
            forall|j: int| 0 <= j < i ==> segments@[j].id != id,
        decreases segments.len() - i,
    {
        if segments[i].id == id {
            proof {
                assert forall|j: int| 0 <= j < i implies ids[j] != id by {
                    assert(segments@[j].id != id);
                }
                lemma_position(ids, id, i as int);
            }
            return Some(i);
        }
        i += 1;
    }
    proof {
        assert forall|j: int| 0 <= j < ids.len() implies ids[j] != id by {
            assert(segments@[j].id != id);
        }
        lemma_no_position(ids, id);
    }
    None
}

impl SegmentView {
    /// The collider follows the road, the road lies where the geometry
    /// accepts it, and both caches are filled.
    pub open spec fn wf(self) -> bool {
        &&& self.collider.wf()
        &&& self.collider.collision_type == CollisionType::Line
        &&& self.collider.collision_properties.start == self.r.start
        &&& self.collider.collision_properties.end == self.r.end
        &&& self.collider.id == Some(self.id)
        &&& self.r.in_range()
        &&& self.cached_dir.is_some()
        &&& self.cached_length matches Some(l) && l >= 0
    }

    /// Both revisions of the road may still be advanced.
    pub open spec fn movable(self) -> bool {
        self.road_revision < usize::MAX && self.collider.collision_revision < u32::MAX
    }

    /// The segment as `Segment::new` makes it.
    pub open spec fn fresh(start: Point, end: Point, t: u64, q: CollisionMetaInfo, id: usize)
        -> SegmentView {
        let r = Road { start, end };
        SegmentView {
            id,
            collider: ColliderView {
                road: r,
                collision_type: CollisionType::Line,
                collision_properties: ShapeView {
                    corners: Seq::empty(),
                    start,
                    end,
                    center: Point { x: 0, y: 0 },
                    radius: 0,
                    width: q.width(),
                },
                collision_revision: 1,
                limits_revision: None,
                cached_limits: Some(
                    CollisionLimits { x: 0, y: 0, width: 0, height: 0, id: Some(id) },
                ),
                id: Some(id),
            },
            road_revision: 0,
            dir_revision: 1,
            length_revision: 1,
            cached_dir: Some(r.direction()),
            cached_length: Some(r.length() as i64),
            r,
            t,
            q,
            links: LinkView { b: Seq::empty(), f: Seq::empty() },
            prev_segment_to_link: None,
        }
    }

    /// The segment under another id, which its collider and the cached
    /// bounding box take too.
    pub open spec fn with_id(self, id: usize) -> SegmentView {
        SegmentView {
            id,
            collider: ColliderView {
                id: Some(id),
                cached_limits: Some(
                    CollisionLimits { id: Some(id), ..self.collider.cached_limits.unwrap() },
                ),
                ..self.collider
            },
            ..self
        }
    }

    /// The segment after its road has been given a new start.
    pub open spec fn with_start(self, start: Point) -> SegmentView {
        SegmentView {
            r: Road { start, ..self.r },
            road_revision: (self.road_revision + 1) as usize,
            collider: ColliderView {
                collision_revision: (self.collider.collision_revision + 1) as u32,
                collision_properties: ShapeView { start, ..self.collider.collision_properties },
                ..self.collider
            },
            ..self
        }
    }

    /// The segment after its road has been given a new end.
    pub open spec fn with_end(self, end: Point) -> SegmentView {
        SegmentView {
            r: Road { end, ..self.r },
            road_revision: (self.road_revision + 1) as usize,
            collider: ColliderView {
                collision_revision: (self.collider.collision_revision + 1) as u32,
                collision_properties: ShapeView { end, ..self.collider.collision_properties },
                ..self.collider
            },
            ..self
        }
    }

    /// The link set that holds `id`, `b` before `f`, and which one it is.
    pub open spec fn links_for_end_containing(self, id: usize) -> (
        Option<Seq<usize>>,
        SegmentDirection,
    ) {
        if self.links.b.contains(id) {
            (Some(self.links.b), SegmentDirection::Back)
        } else if self.links.f.contains(id) {
            (Some(self.links.f), SegmentDirection::Forward)
        } else {
            (None, SegmentDirection::Neither)
        }
    }

    /// The neighbour by which the segment is oriented: the first of `b`,
    /// or the first of `f` where `b` is empty.
    pub open spec fn reference_link(self) -> Option<usize> {
        if self.links.b.len() > 0 {
            Some(self.links.b[0])
        } else if self.links.f.len() > 0 {
            Some(self.links.f[0])
        } else {
            None
        }
    }

    /// The segment can be oriented: the reference neighbour, if it has
    /// one, is among `segments`.
    pub open spec fn oriented_in(self, segments: Seq<SegmentView>) -> bool {
        match self.reference_link() {
            Some(id) => first_with_id(segments, id).is_some(),
            None => true,
        }
    }

    /// Whether the `b` links sit at the start of the road: the reference
    /// neighbour, taken from `b`, has an end at the segment's start; or,
    /// taken from `f`, has an end at the segment's end.
    pub open spec fn start_is_backwards(self, segments: Seq<SegmentView>) -> bool {
        match self.reference_link() {
            Some(id) => {
                let link = segments[first_with_id(segments, id).unwrap()];
                let at = if self.links.b.len() > 0 {
                    self.r.start
                } else {
                    self.r.end
                };
                spec_equal_v(link.r.start@, at@) || spec_equal_v(link.r.end@, at@)
            },
            None => false,
        }
    }
}

/// `ids` with the first `from` in it, if there is one, turned into `to`.
pub open spec fn replace_first(ids: Seq<usize>, from: usize, to: usize) -> Seq<usize> {
    match position(ids, from) {
        Some(i) => ids.update(i, to),
        None => ids,
    }
}

impl SegmentView {
    /// The segment with its first link to `from` turned into a link to
    /// `to`: the first in `b`, or the first in `f` where `b` has none.
    pub open spec fn relinked(self, from: usize, to: usize) -> SegmentView {
        if self.links.b.contains(from) {
            SegmentView {
                links: LinkView { b: replace_first(self.links.b, from, to), ..self.links },
                ..self
            }
        } else {
            SegmentView {
                links: LinkView { f: replace_first(self.links.f, from, to), ..self.links },
                ..self
            }
        }
    }

    /// The link set that moves to the new half when the segment is split.
    pub open spec fn moved_links(self, segments: Seq<SegmentView>) -> Seq<usize> {
        if self.start_is_backwards(segments) {
            self.links.b
        } else {
            self.links.f
        }
    }

    /// Every neighbour that a split of the segment looks up is among
    /// `segments`.
    pub open spec fn split_ready(self, segments: Seq<SegmentView>) -> bool {
        &&& self.oriented_in(segments)
        &&& forall|j: int|
            0 <= j < self.moved_links(segments).len() ==> first_with_id(
                segments,
                #[trigger] self.moved_links(segments)[j],
            ).is_some()
    }

    /// The new half of a split: the old road up to `point` under the id
    /// `new_id`, with the links of the segment, of which one set now joins
    /// it to the inciting segment `by` and to the other half.
    pub open spec fn split_part(self, point: Point, by: usize, new_id: usize, backwards: bool)
        -> SegmentView {
        let part = SegmentView::fresh(self.r.start, self.r.end, self.t, self.q, new_id).with_end(
            point,
        );
        SegmentView {
            links: if backwards {
                LinkView { b: self.links.b, f: seq![by, self.id] }
            } else {
                LinkView { b: seq![by, self.id], f: self.links.f }
            },
            collider: part.collider.refreshed(),
            ..part
        }
    }

    /// The old half of a split: the segment from `point` on, with one link
    /// set now joining it to the inciting segment `by` and to the new half.
    pub open spec fn split_rest(self, point: Point, by: usize, new_id: usize, backwards: bool)
        -> SegmentView {
        let rest = self.with_start(point);
        SegmentView {
            links: if backwards {
                LinkView { b: seq![by, new_id], f: self.links.f }
            } else {
                LinkView { b: self.links.b, f: seq![by, new_id] }
            },
            ..rest
        }
    }

    /// The inciting segment of a split, with both halves added to its
    /// forward links: first the half that keeps the old start.
    pub open spec fn joined(self, old_id: usize, new_id: usize, backwards: bool) -> SegmentView {
        SegmentView {
            links: LinkView {
                f: if backwards {
                    self.links.f.push(new_id).push(old_id)
                } else {
                    self.links.f.push(old_id).push(new_id)
                },
                ..self.links
            },
            ..self
        }
    }
}

/// `segments` after the neighbours named by the first `n` of `ids` have
/// each had one link to `from` turned into a link to `to`.
pub open spec fn rewired(
    segments: Seq<SegmentView>,
    ids: Seq<usize>,
    n: int,
    from: usize,
    to: usize,
) -> Seq<SegmentView>
    decreases n,
{
    if n <= 0 {
        segments
    } else {
        let before = rewired(segments, ids, n - 1, from, to);
        match first_with_id(before, ids[n - 1]) {
            Some(at) => before.update(at, before[at].relinked(from, to)),
            None => before,
        }
    }
}

/// Turning links round changes no id and no road.
pub proof fn lemma_rewired_keeps(
    segments: Seq<SegmentView>,
    ids: Seq<usize>,
    n: int,
    from: usize,
    to: usize,
)
    ensures
        rewired(segments, ids, n, from, to).len() == segments.len(),
        ids_of(rewired(segments, ids, n, from, to)) == ids_of(segments),
        forall|i: int|
            0 <= i < segments.len() ==> {
                let s = #[trigger] rewired(segments, ids, n, from, to)[i];
                s == SegmentView { links: s.links, ..segments[i] }
            },
    decreases n,
{
    if n > 0 {
        lemma_rewired_keeps(segments, ids, n - 1, from, to);
        let before = rewired(segments, ids, n - 1, from, to);
        let after = rewired(segments, ids, n, from, to);
        lemma_position_found(ids_of(before), ids[n - 1]);
        assert(ids_of(after) =~= ids_of(before));
    }
}

/// The state after the segment `old` of it has been split at `point` by
/// the segment with the id `by`.
pub open spec fn split_state(g: GrowthView, old: SegmentView, point: Point, by: usize)
    -> GrowthView {
    let new_id = (g.last_id + 1) as usize;
    let backwards = old.start_is_backwards(g.segments);
    let moved = old.moved_links(g.segments);
    let part = old.split_part(point, by, new_id, backwards);
    GrowthView {
        segments: rewired(g.segments, moved, moved.len() as int, old.id, new_id).push(part),
        last_id: new_id,
        quad_tree: g.quad_tree.inserted(part.collider.limits()),
        priority_q: g.priority_q,
    }
}

impl SegmentView {
    /// The direction that the segment gives when it is asked for it: the
    /// one on file where it was filed under the revision that the road
    /// has now, else that of the road.
    pub open spec fn heading(self) -> Point {
        if self.dir_revision != self.road_revision {
            self.r.direction()
        } else {
            self.cached_dir.unwrap()
        }
    }

    /// The length that the segment gives when it is asked for it: the
    /// one on file where it was filed under the revision that the road
    /// has now, else that of the road.
    pub open spec fn extent(self) -> i64 {
        if self.length_revision != self.road_revision {
            self.r.length() as i64
        } else {
            self.cached_length.unwrap()
        }
    }

    /// What the successors of the segment go by: where it ends, and the
    /// direction and the length that it gives when asked.
    pub open spec fn course(self) -> (Point, Point, i64) {
        (self.r.end, self.heading(), self.extent())
    }
}

impl SegmentView {
    /// The segment after it was asked for its direction.
    pub open spec fn asked_dir(self) -> SegmentView {
        SegmentView {
            dir_revision: self.road_revision,
            cached_dir: Some(self.heading()),
            ..self
        }
    }

    /// The segment after it was asked for its length.
    pub open spec fn asked_length(self) -> SegmentView {
        SegmentView {
            length_revision: self.road_revision,
            cached_length: Some(self.extent()),
            ..self
        }
    }

    /// A segment that is asked twice gives the same direction and the
    /// same length twice, and the second asking changes nothing.
    /// Neither asking changes the road or its revision.
    pub proof fn lemma_asked_twice(self)
        ensures
            self.asked_dir().heading() == self.heading(),
            self.asked_dir().asked_dir() == self.asked_dir(),
            self.asked_dir().dir_revision == self.road_revision,
            self.asked_dir().road_revision == self.road_revision,
            self.asked_dir().r == self.r,
            self.asked_length().extent() == self.extent(),
            self.asked_length().asked_length() == self.asked_length(),
            self.asked_length().length_revision == self.road_revision,
            self.asked_length().road_revision == self.road_revision,
            self.asked_length().r == self.r,
    {
    }
}

impl Segment {
    /// The direction that `dir` gives, without filing it.
    pub fn heading(&self) -> (r: Point)
        requires
            self@.wf(),
        ensures
            r == self@.heading(),
    {
        if self.dir_revision != self.road_revision {
            subtract_points(self.r.end, self.r.start)
        } else {
            self.cached_dir.unwrap()
        }
    }

    /// The length that `length` gives, without filing it.
    pub fn extent(&self) -> (r: i64)
        requires
            self@.wf(),
        ensures
            r == self@.extent(),
    {
        if self.length_revision != self.road_revision {
            length(self.r.start, self.r.end)
        } else {
            self.cached_length.unwrap()
        }
    }
}

impl Segment {
    /// Moves the start of the road and advances the revisions.
    pub fn set_start(&mut self, start: &Point)
        requires
            old(self)@.wf(),
            old(self)@.movable(),
            start.in_range(),
        ensures
            final(self)@ == old(self)@.with_start(*start),
            final(self)@.wf(),
    {
        self.r.start = *start;
        self.collider.update_collision_properties(Some(*start), None);
        self.road_revision += 1;
    }

    /// Moves the end of the road and advances the revisions.
    pub fn set_end(&mut self, end: &Point)
        requires
            old(self)@.wf(),
            old(self)@.movable(),
            end.in_range(),
        ensures
            final(self)@ == old(self)@.with_end(*end),
            final(self)@.wf(),
    {
        self.r.end = *end;
        self.collider.update_collision_properties(None, Some(*end));
        self.road_revision += 1;
    }

    /// A segment without links from `start` to `end`. The road starts at
    /// revision 0; direction and length are computed and filed under
    /// revision 1.
    pub fn new(start: Point, end: Point, t: &u64, q: &CollisionMetaInfo, id: &usize) -> (r: Self)
        requires
            start.in_range(),
            end.in_range(),
        ensures
            r@ == SegmentView::fresh(start, end, *t, *q, *id),
            r@.wf(),
    {
        let width = if q.highway.is_some() {
            HIGHWAY_SEGMENT_WIDTH
        } else {
            DEFAULT_SEGMENT_WIDTH
        };
        let collision_properties = CollisionProperties {
            corners: Vec::new(),
            start,
            end,
            center: Point { x: 0, y: 0 },
            radius: 0,
            width,
        };
        let r = Road { start, end };
        let collider = CollisionObject::new(r, CollisionType::Line, collision_properties, *id);
        let links = Link { b: Vec::new(), f: Vec::new() };
        Segment {
            id: *id,
            collider,
            road_revision: 0,
            dir_revision: 1,
            length_revision: 1,
            cached_dir: Some(subtract_points(r.end, r.start)),
            cached_length: Some(length(r.start, r.end)),
            r,
            t: *t,
            q: *q,
            links,
            prev_segment_to_link: None,
        }
    }

    /// The direction of the road, as the vector from its start to its end.
    ///
    /// The direction filed in the cache is returned where it was filed
    /// under the revision that the road has now; else it is computed and
    /// filed under that revision.
    pub fn dir(&mut self) -> (r: Option<Point>)
        requires
            old(self)@.wf(),
        ensures
            r == if old(self).dir_revision != old(self).road_revision {
                Some(old(self).r.direction())
            } else {
                old(self).cached_dir
            },
            final(self)@ == old(self)@.asked_dir(),
            r == Some(old(self)@.heading()),
            final(self)@.wf(),
    {
        if self.dir_revision != self.road_revision {
            self.dir_revision = self.road_revision;
            self.cached_dir = Some(subtract_points(self.r.end, self.r.start));
        }
        self.cached_dir
    }

    /// The length of the road, rounded down to a whole lattice step.
    ///
    /// The length filed in the cache is returned where it was filed under
    /// the revision that the road has now; else it is computed and filed
    /// under that revision.
    pub fn length(&mut self) -> (r: Option<i64>)
        requires
            old(self)@.wf(),
        ensures
            r == if old(self).length_revision != old(self).road_revision {
                Some(old(self).r.length() as i64)
            } else {
                old(self).cached_length
            },
            final(self)@ == old(self)@.asked_length(),
            r == Some(old(self)@.extent()),
            r matches Some(l) && l >= 0,
            final(self)@.wf(),
    {
        if self.length_revision != self.road_revision {
            self.length_revision = self.road_revision;
            self.cached_length = Some(length(self.r.start, self.r.end));
        }
        self.cached_length
    }

    /// Whether the `b` links sit at the start of the road.
    pub fn start_is_backwards(&self, segments: &Vec<Segment>) -> (r: bool)
        requires
            self@.r.in_range(),
            self@.oriented_in(views(segments@)),
            forall|i: int| 0 <= i < segments.len() ==> (#[trigger] segments@[i]).r.in_range(),
        ensures
            r == self@.start_is_backwards(views(segments@)),
    {
        let _direction: SegmentDirection;
        let link_id: usize;
        if self.links.b.len() > 0 {
            _direction = SegmentDirection::Back;
            link_id = self.links.b[0];
        } else if self.links.f.len() > 0 {
            _direction = SegmentDirection::Forward;
            link_id = self.links.f[0];
        } else {
            // nothing to orient by
            return false;
        }
        let at = find_segment(segments, link_id);
        let found = at.unwrap();
        let link = &segments[found];
        assert(segments@[found as int].r.in_range());
        assert(views(segments@)[found as int] == link@);
        match _direction {
            SegmentDirection::Back => {
                equal_v(link.r.start, self.r.start) || equal_v(link.r.end, self.r.start)
            },
            SegmentDirection::Forward => {
                equal_v(link.r.start, self.r.end) || equal_v(link.r.end, self.r.end)
            },
            SegmentDirection::Neither => false,
        }
    }

    /// The link set that holds `id`, `b` before `f`, and which one it is.
    pub fn links_for_end_containing(self, id: &usize) -> (r: (Option<Vec<usize>>, SegmentDirection))
        ensures
            r.1 == self@.links_for_end_containing(*id).1,
            match r.0 {
                Some(ids) => self@.links_for_end_containing(*id).0 == Some(ids@),
                None => self@.links_for_end_containing(*id).0.is_none(),
            },
    {
        if holds_id(&self.links.b, *id) {
            return (Some(self.links.b), SegmentDirection::Back);
        } else if holds_id(&self.links.f, *id) {
            return (Some(self.links.f), SegmentDirection::Forward);
        } else {
            (None, SegmentDirection::Neither)
        }
    }

    /// A new segment under `id` that takes from `segment` what is not given.
    pub fn from_existing(
        segment: &Segment,
        t: Option<u64>,
        r: Option<Road>,
        q: Option<CollisionMetaInfo>,
        id: &usize,
    ) -> (s: Segment)
        requires
            match r {
                Some(road) => road.in_range(),
                None => segment.r.in_range(),
            },
        ensures
            s@ == SegmentView::fresh(
                match r {
                    Some(road) => road.start,
                    None => segment.r.start,
                },
                match r {
                    Some(road) => road.end,
                    None => segment.r.end,
                },
                match t {
                    Some(time) => time,
                    None => segment.t,
                },
                match q {
                    Some(flags) => flags,
                    None => segment.q,
                },
                *id,
            ),
            s@.wf(),
    {
        let t = t.unwrap_or(segment.t);
        let r = r.unwrap_or(segment.r);
        let q = q.unwrap_or(segment.q);
        Segment::new(r.start, r.end, &t, &q, id)
    }

    /// Gives the segment, its collider and the cached bounding box a new id.
    pub fn set_id(&mut self, id: usize)
        requires
            old(self)@.wf(),
        ensures
            final(self)@ == old(self)@.with_id(id),
            final(self)@.wf(),
    {
        self.id = id;
        self.collider.id = Some(id);
        let cached = self.collider.cached_limits.unwrap();
        self.collider.cached_limits = Some(CollisionLimits { id: Some(id), ..cached });
    }
}

impl Segment {
    /// Cuts the segment in two at `point`, where the segment `segment` has
    /// run into it.
    ///
    /// `self` is a copy of a segment of `global_config` that the caller
    /// writes back. It keeps the road from `point` on; a new segment under
    /// a new id takes the road up to `point`, one of the two link sets and
    /// its neighbours, which are made to point to it. Both halves are
    /// linked to each other and to `segment`. The new half is put into the
    /// index and added to the accepted segments.
    pub fn split(&mut self, point: Point, segment: &mut Segment, global_config: &mut GlobalConfig)
        requires
            old(self)@.wf(),
            old(self)@.movable(),
            point.in_range(),
            old(global_config).last_id < usize::MAX,
            old(global_config)@.quad_tree.wf(),
            forall|i: int|
                0 <= i < old(global_config).segments.len() ==> (#[trigger] old(
                    global_config,
                ).segments@[i]).r.in_range(),
            old(self)@.split_ready(old(global_config)@.segments),
        ensures
            final(self)@ == old(self)@.split_rest(
                point,
                old(segment).id,
                (old(global_config).last_id + 1) as usize,
                old(self)@.start_is_backwards(old(global_config)@.segments),
            ),
            final(self)@.wf(),
            final(segment)@ == old(segment)@.joined(
                old(self).id,
                (old(global_config).last_id + 1) as usize,
                old(self)@.start_is_backwards(old(global_config)@.segments),
            ),
            final(global_config)@ == split_state(
                old(global_config)@,
                old(self)@,
                point,
                old(segment).id,
            ),
            final(global_config)@.quad_tree.wf(),
            old(global_config)@.quad_tree.placed() ==> final(global_config)@.quad_tree.placed(),
            old(global_config)@.quad_tree.tagged() ==> final(global_config)@.quad_tree.tagged(),
            final(global_config)@.segments.last().wf(),
            final(global_config)@.segments.last().road_revision == 1,
            final(global_config)@.segments.last().dir_revision == 1,
            final(global_config)@.segments.last().length_revision == 1,
            final(global_config)@.segments.last().collider.collision_revision == 2,
    {
        let ghost g0 = global_config@;
        let ghost old_self = self@;
        let ghost moved = self@.moved_links(g0.segments);
        let self_id = self.id;
        let start_is_backwards = self.start_is_backwards(&global_config.segments);

        global_config.last_id += 1;
        let mut split_part = Segment::from_existing(self, None, None, None, &global_config.last_id);
        let split_part_id = split_part.id;

        split_part.set_end(&point);
        self.set_start(&point);

        // the two halves start out with the same neighbours
        split_part.links.b = copy_ids(&self.links.b);
        split_part.links.f = copy_ids(&self.links.f);

        let fix_links = if start_is_backwards {
            copy_ids(&split_part.links.b)
        } else {
            copy_ids(&split_part.links.f)
        };
        assert(fix_links@ == moved);

        let mut i: usize = 0;
        while i < fix_links.len()
            invariant
                i <= fix_links.len(),
                fix_links@ == moved,
                moved == old_self.moved_links(g0.segments),
                old_self.split_ready(g0.segments),
                self_id == old_self.id,
                views(global_config.segments@) == rewired(
                    g0.segments,
                    moved,
                    i as int,
                    self_id,
                    split_part_id,
                ),
                global_config.last_id == g0.last_id + 1,
                global_config.quad_tree == old(global_config).quad_tree,
                global_config.priority_q == old(global_config).priority_q,
            decreases fix_links.len() - i,
        {
            let ghost before = views(global_config.segments@);
            proof {
                lemma_rewired_keeps(g0.segments, moved, i as int, self_id, split_part_id);
                assert(first_with_id(g0.segments, moved[i as int]).is_some());
            }
            let at = find_segment(&global_config.segments, fix_links[i]).unwrap();
            let link = &mut global_config.segments[at];
            match position_of(&link.links.b, self_id) {
                Some(index) => {
                    link.links.b[index] = split_part_id;
                },
                None => {
                    match position_of(&link.links.f, self_id) {
                        Some(index) => {
                            link.links.f[index] = split_part_id;
                        },
                        None => {},
                    }
                },
            }
            assert(views(global_config.segments@) =~= before.update(
                at as int,
                before[at as int].relinked(self_id, split_part_id),
            ));
            i += 1;
        }

        if start_is_backwards {
            split_part.links.f.clear();
            split_part.links.f.push(segment.id);
            split_part.links.f.push(self.id);
            assert(split_part.links.f@ =~= seq![segment.id, self.id]);

            self.links.b.clear();
            self.links.b.push(segment.id);
            self.links.b.push(split_part_id);
            assert(self.links.b@ =~= seq![segment.id, split_part_id]);

            segment.links.f.push(split_part_id);
            segment.links.f.push(self.id);
        } else {
            self.links.f.clear();
            self.links.f.push(segment.id);
            self.links.f.push(split_part_id);
            assert(self.links.f@ =~= seq![segment.id, split_part_id]);

            split_part.links.b.clear();
            split_part.links.b.push(segment.id);
            split_part.links.b.push(self.id);
            assert(split_part.links.b@ =~= seq![segment.id, self.id]);

            segment.links.f.push(self.id);
            segment.links.f.push(split_part_id);
        }

        let limits = split_part.collider.limits();
        proof {
            g0.quad_tree.lemma_inserted_stores(limits);
        }
        global_config.quad_tree.insert(limits);
        let ghost part = split_part@;
        global_config.segments.push(split_part);
        assert(views(global_config.segments@) =~= rewired(
            g0.segments,
            moved,
            moved.len() as int,
            self_id,
            split_part_id,
        ).push(part));
    }
}

/// Two segments are the same segment when they have the same id.
impl PartialEq for Segment {
    fn eq(&self, other: &Segment) -> (r: bool) {
        self.id == other.id
    }
}

impl vstd::std_specs::cmp::PartialEqSpecImpl for Segment {
    open spec fn obeys_eq_spec() -> bool {
        true
    }

    open spec fn eq_spec(&self, other: &Segment) -> bool {
        self.id == other.id
    }
}

} // verus!
