//! What holds of every state that the growth reaches.
use vstd::prelude::*;
use crate::collision::CollisionLimits;
use crate::config::SEGMENT_COUNT_LIMIT;
use crate::generate::{
    announced, considered, housed, lemma_announced_keeps, lemma_housed_inserted, lemma_housed_own,
    lemma_housed_same, lemma_housed_shrunk, named, roads_cross, scanned, scheduled, times,
    GrowthView, LocalConstraints, LocalConstraintsAction, Survey,
};
use crate::links::{lemma_choice_is_accepted, lemma_reached_is_knit, lemma_reached_step, reached};
use crate::math::{lemma_crossing_inside_second, lemma_foot_inside, lemma_fraction_of, Point};
use crate::segment::{
    first_with_id, ids_of, lemma_position_found, lemma_rewired_keeps, lemma_road_length, rewired,
    CollisionMetaInfo, LinkView, Road, SegmentView,
};
use crate::utility::lemma_first_extremes_exist;

verus! {

/// A segment made anew between two points of the lattice is sound and
/// ready to wait.
pub proof fn lemma_fresh_is_sound(
    start: Point,
    end: Point,
    t: u64,
    q: CollisionMetaInfo,
    id: usize,
)
    requires
        start.in_range(),
        end.in_range(),
    ensures
        SegmentView::fresh(start, end, t, q, id).wf(),
        SegmentView::fresh(start, end, t, q, id).settled(0),
        !q.severed ==> SegmentView::fresh(start, end, t, q, id).pending(),
{
    lemma_road_length(Road { start, end });
}

/// Asking a sound segment for its length and its direction leaves it
/// sound, and rested.
pub proof fn lemma_measured_is_sound(s: SegmentView)
    requires
        s.wf(),
    ensures
        s.measured().wf(),
        s.measured().rested(),
        s.measured().collider == s.collider,
{
    lemma_road_length(s.r);
}

/// Bringing the bounding box of a sound segment up to date leaves the
/// segment sound and its bounding box as it was.
pub proof fn lemma_refreshed_is_sound(s: SegmentView)
    requires
        s.wf(),
    ensures
        (SegmentView { collider: s.collider.refreshed(), ..s }).wf(),
        s.collider.refreshed().limits() == s.collider.limits(),
        s.collider.limits().id == Some(s.id),
{
}

/// Moving an end of a sound segment to a point of the lattice leaves it
/// sound, rested, and one revision on.
pub proof fn lemma_moved_is_sound(s: SegmentView, point: Point, revision: int)
    requires
        s.settled(revision),
        revision < 1000,
        point.in_range(),
    ensures
        s.with_end(point).settled(revision + 1),
        s.with_start(point).settled(revision + 1),
        s.dir_revision <= 1 && s.length_revision <= 1 ==> s.with_end(point).rested(),
        s.rested() ==> s.with_start(point).rested() && s.with_end(point).rested(),
{
}

/// The change that a road calls for is made at a point of the lattice
/// that lies between the ends of that road.
pub proof fn lemma_considered_point(choice: LocalConstraints, c: Road, n: Road, index: int)
    requires
        c.in_range(),
        n.in_range(),
        0 <= index <= usize::MAX,
    ensures
        ({
            let r = considered(choice, c, n, index);
            r != choice ==> r.action.is_some() && r.this_road_index == index
                && r.point.in_range() && n.inside(r.point)
        }),
{
    let r = considered(choice, c, n, index);
    if choice.priority <= 4 && roads_cross(c, n) {
        let den = c.end@.minus(c.start@).cross(n.end@.minus(n.start@));
        let num = n.start@.minus(c.start@).cross(n.end@.minus(n.start@));
        lemma_crossing_inside_second(c.start@, c.end@, n.start@, n.end@);
        lemma_fraction_of(num, den, c.end@.minus(c.start@).x);
        lemma_fraction_of(num, den, c.end@.minus(c.start@).y);
    } else if choice.priority <= 3 && crate::generate::ends_near(c, n) {
    } else if choice.priority <= 2 && crate::generate::end_near_road(c, n) {
        assert(n.end@.minus(n.start@).norm2() != 0) by (nonlinear_arith)
            requires n.end@.minus(n.start@).x != 0 || n.end@.minus(n.start@).y != 0;
        lemma_foot_inside(c.end@, n.start@, n.end@);
    }
}

/// The change that the scan chooses is a change to one of the accepted
/// segments, at a point of the lattice between the ends of its road.
pub proof fn lemma_scanned_point(
    segments: Seq<SegmentView>,
    c: Road,
    found: Seq<CollisionLimits>,
    n: int,
)
    requires
        0 <= n <= found.len(),
        segments.len() <= usize::MAX,
        c.in_range(),
        forall|i: int| 0 <= i < segments.len() ==> (#[trigger] segments[i]).r.in_range(),
    ensures
        ({
            let choice = scanned(segments, c, found, n);
            choice.action.is_some() ==> choice.this_road_index < segments.len()
                && choice.point.in_range() && segments[choice.this_road_index as int].r.inside(
                choice.point,
            )
        }),
    decreases n,
{
    if n > 0 {
        lemma_scanned_point(segments, c, found, n - 1);
        match named(segments, found, n - 1) {
            Some(at) => {
                lemma_position_found(ids_of(segments), found[n - 1].id.unwrap());
                lemma_considered_point(
                    scanned(segments, c, found, n - 1),
                    c,
                    segments[at].r,
                    at,
                );
            },
            None => {},
        }
    }
}

impl GrowthView {
    /// Taking the candidate at `at` out of the schedule leaves the state
    /// sound; the candidate is as it waited.
    pub proof fn lemma_taken_is_sound(self, at: int)
        requires
            self.wf(),
            0 <= at < self.priority_q.len(),
        ensures
            (GrowthView { priority_q: self.priority_q.remove(at), ..self }).wf(),
            self.priority_q[at].pending(),
            self.priority_q[at].t <= 6 * (self.segments.len() + 1),
    {
        let rest = GrowthView { priority_q: self.priority_q.remove(at), ..self };
        assert forall|i: int| 0 <= i < rest.priority_q.len() implies {
            &&& (#[trigger] rest.priority_q[i]).pending()
            &&& rest.priority_q[i].t <= 6 * (rest.segments.len() + 1)
        } by {
            if i < at {
                assert(self.priority_q[i].pending());
            } else {
                assert(self.priority_q[i + 1].pending());
            }
        }
    }

    /// Splitting an accepted segment at a point between the ends of its
    /// road leaves the state sound.
    pub proof fn lemma_split_is_sound(self, index: int, point: Point, by: usize)
        requires
            self.wf_with(1),
            self.segments.len() < SEGMENT_COUNT_LIMIT,
            0 <= index < self.segments.len(),
            point.in_range(),
            self.segments[index].r.inside(point),
        ensures
            self.with_split(index, point, by).wf_with(1),
            self.with_split(index, point, by).segments.len() == self.segments.len() + 1,
            self.with_split(index, point, by).priority_q == self.priority_q,
    {
        let n = self.segments[index];
        let new_id = (self.last_id + 1) as usize;
        let backwards = n.start_is_backwards(self.segments);
        let moved = n.moved_links(self.segments);
        let wired = rewired(self.segments, moved, moved.len() as int, n.id, new_id);
        let after = self.with_split(index, point, by);
        let count = self.segments.len() as int;
        let part = after.segments[count];
        let made = SegmentView::fresh(n.r.start, n.r.end, n.t, n.q, new_id);
        lemma_rewired_keeps(self.segments, moved, moved.len() as int, n.id, new_id);
        assert(n.settled(count + 1) && n.rested() && housed(self.quad_tree, n));
        lemma_fresh_is_sound(n.r.start, n.r.end, n.t, n.q, new_id);
        lemma_moved_is_sound(made, point, 0);
        lemma_moved_is_sound(n, point, count + 1);
        lemma_refreshed_is_sound(made.with_end(point));
        assert(part.wf() && part.settled(1) && part.rested());
        let limits = part.collider.limits();
        assert(limits == made.with_end(point).collider.limits());
        self.quad_tree.lemma_inserted_wf(limits);
        self.quad_tree.lemma_inserted_placed(limits);
        self.quad_tree.lemma_inserted_stores(limits);
        assert(after.quad_tree == self.quad_tree.inserted(limits));
        assert forall|i: int| 0 <= i < after.segments.len() implies {
            &&& (#[trigger] after.segments[i]).settled(after.segments.len() as int + 1)
            &&& after.segments[i].rested()
            &&& housed(after.quad_tree, after.segments[i])
        } by {
            if i == index {
                lemma_housed_shrunk(self.quad_tree, n, point);
                lemma_housed_inserted(self.quad_tree, limits, n.with_start(point));
                lemma_housed_same(after.quad_tree, n.with_start(point), after.segments[i]);
            } else if i < count {
                assert(after.segments[i] == wired[i]);
                assert(self.segments[i].settled(count + 1));
                lemma_housed_inserted(self.quad_tree, limits, self.segments[i]);
                lemma_housed_same(after.quad_tree, self.segments[i], after.segments[i]);
            } else {
                lemma_housed_own(self.quad_tree, made.with_end(point));
                lemma_housed_same(after.quad_tree, made.with_end(point), part);
            }
        }
        assert forall|i: int| 0 <= i < after.priority_q.len() implies {
            &&& (#[trigger] after.priority_q[i]).pending()
            &&& after.priority_q[i].t <= 6 * (after.segments.len() + 1)
        } by {
            assert(self.priority_q[i].pending());
        }
    }

    /// Telling neighbours of a candidate, and putting one accepted segment
    /// back with other links, leaves the state sound.
    pub proof fn lemma_relinked_is_sound(
        self,
        ids: Seq<usize>,
        anchor: usize,
        new_id: usize,
        at: int,
        put: SegmentView,
    )
        requires
            self.wf_with(1),
            0 <= at < self.segments.len(),
            put == (SegmentView { links: put.links, ..self.segments[at] }),
        ensures
            (GrowthView {
                segments: announced(self.segments, ids, ids.len() as int, anchor, new_id).update(
                    at,
                    put,
                ),
                ..self
            }).wf_with(1),
    {
        let told = announced(self.segments, ids, ids.len() as int, anchor, new_id);
        let after = GrowthView { segments: told.update(at, put), ..self };
        lemma_announced_keeps(self.segments, ids, ids.len() as int, anchor, new_id);
        assert forall|i: int| 0 <= i < after.segments.len() implies {
            &&& (#[trigger] after.segments[i]).settled(after.segments.len() as int + 1)
            &&& after.segments[i].rested()
            &&& housed(after.quad_tree, after.segments[i])
        } by {
            if i != at {
                assert(after.segments[i] == told[i]);
            }
            assert(self.segments[i].settled(self.segments.len() as int + 1));
            lemma_housed_same(self.quad_tree, self.segments[i], after.segments[i]);
        }
        assert forall|i: int| 0 <= i < after.priority_q.len() implies {
            &&& (#[trigger] after.priority_q[i]).pending()
            &&& after.priority_q[i].t <= 6 * (after.segments.len() + 1)
        } by {
            assert(self.priority_q[i].pending());
        }
    }

    /// Fitting a candidate to the accepted segments leaves the state
    /// sound and the candidate fitted, where it is accepted.
    pub proof fn lemma_constrained_is_sound(self, c: SegmentView)
        requires
            self.wf_with(1),
            self.segments.len() < SEGMENT_COUNT_LIMIT,
            c.pending(),
            self.constrained(c) matches Some(v) && v.accepted,
        ensures
            self.constrained(c).unwrap().state.wf_with(1),
            self.constrained(c).unwrap().segment.fitted(),
            self.constrained(c).unwrap().segment.t == c.t,
            self.constrained(c).unwrap().segment.id == c.id,
            self.constrained(c).unwrap().segment.prev_segment_to_link == c.prev_segment_to_link,
            self.segments.len() <= self.constrained(c).unwrap().state.segments.len()
                <= self.segments.len() + 1,
            self.constrained(c).unwrap().state.priority_q == self.priority_q,
            !self.constrained(c).unwrap().segment.q.severed ==> self.constrained(
                c,
            ).unwrap().segment.r == c.r,
    {
        let v = self.constrained(c).unwrap();
        let measured = SegmentView { collider: c.collider.refreshed(), ..c };
        let found = self.quad_tree.retrieve(c.collider.limits());
        let choice = scanned(self.segments, c.r, found, found.len() as int);
        let index = choice.this_road_index as int;
        assert forall|i: int| 0 <= i < self.segments.len() implies (#[trigger] self.segments[
            i
        ]).r.in_range() by {
            assert(self.segments[i].settled(self.segments.len() as int + 1));
        }
        lemma_scanned_point(self.segments, c.r, found, found.len() as int);
        lemma_refreshed_is_sound(c);
        match choice.action {
            None => {},
            Some(LocalConstraintsAction::IntersectionAction) => {
                let n = self.segments[index];
                self.lemma_split_is_sound(index, choice.point, c.id);
                let joined = measured.joined(
                    n.id,
                    (self.last_id + 1) as usize,
                    n.start_is_backwards(self.segments),
                );
                lemma_moved_is_sound(joined, choice.point, 1);
            },
            Some(LocalConstraintsAction::SnapAction) => {
                self.lemma_split_is_sound(index, choice.point, c.id);
                lemma_moved_is_sound(measured, choice.point, 1);
            },
            Some(LocalConstraintsAction::RadiusAction) => {
                let n = self.segments[index];
                assert(n.settled(self.segments.len() as int + 1));
                lemma_moved_is_sound(measured, n.r.end, 1);
                let backwards = n.start_is_backwards(self.segments);
                let links = if backwards {
                    n.links.f
                } else {
                    n.links.b
                };
                lemma_announced_keeps(self.segments, links, links.len() as int, n.id, c.id);
                let shared = SegmentView {
                    links: if backwards {
                        LinkView { f: links.push(c.id), ..n.links }
                    } else {
                        LinkView { b: links.push(c.id), ..n.links }
                    },
                    ..n
                };
                self.lemma_relinked_is_sound(links, n.id, c.id, index, shared);
            },
        }
    }

    /// Linking a candidate behind its parent leaves the state sound and
    /// the candidate fitted.
    pub proof fn lemma_linked_behind_is_sound(self, c: SegmentView)
        requires
            self.wf_with(1),
            c.fitted(),
            self.linked_behind(c).is_some(),
        ensures
            self.linked_behind(c).unwrap().0.wf_with(1),
            self.linked_behind(c).unwrap().1.fitted(),
            self.linked_behind(c).unwrap().1.t == c.t,
            self.linked_behind(c).unwrap().1.r == c.r,
            self.linked_behind(c).unwrap().1.q == c.q,
            self.linked_behind(c).unwrap().0.segments.len() == self.segments.len(),
            self.linked_behind(c).unwrap().0.priority_q == self.priority_q,
    {
        match c.prev_segment_to_link {
            None => {},
            Some(parent) => {
                let at = crate::segment::first_with_id(self.segments, parent).unwrap();
                lemma_position_found(ids_of(self.segments), parent);
                let p = self.segments[at];
                lemma_announced_keeps(
                    self.segments,
                    p.links.f,
                    p.links.f.len() as int,
                    parent,
                    c.id,
                );
                let put = SegmentView {
                    links: LinkView { f: p.links.f.push(c.id), ..p.links },
                    ..p
                };
                self.lemma_relinked_is_sound(p.links.f, parent, c.id, at, put);
            },
        }
    }

    /// Letting a fitted candidate bring forth its successors and join the
    /// accepted segments leaves the state sound.
    pub proof fn lemma_settled_is_sound(self, c: SegmentView, survey: Survey)
        requires
            self.wf_with(1),
            self.segments.len() <= SEGMENT_COUNT_LIMIT,
            c.fitted(),
            c.t <= 6 * (self.segments.len() + 1),
            survey.wf(),
        ensures
            self.settled_in(c, survey).wf(),
            self.settled_in(c, survey).segments.len() == self.segments.len() + 1,
    {
        let after = self.settled_in(c, survey);
        let kids = c.sprouts(survey);
        let queued = scheduled(kids, c.t);
        let asked = if c.q.severed {
            c
        } else {
            c.measured()
        };
        let count = self.segments.len() as int;
        let waiting = self.priority_q.len() as int;
        let joined = after.segments[count];
        lemma_measured_is_sound(c);
        lemma_refreshed_is_sound(asked);
        let limits = asked.collider.limits();
        self.quad_tree.lemma_inserted_wf(limits);
        self.quad_tree.lemma_inserted_placed(limits);
        self.quad_tree.lemma_inserted_stores(limits);
        assert(kids.len() <= 3);
        assert forall|i: int| 0 <= i < after.segments.len() implies {
            &&& (#[trigger] after.segments[i]).settled(after.segments.len() as int + 1)
            &&& after.segments[i].rested()
            &&& housed(after.quad_tree, after.segments[i])
        } by {
            if i < count {
                assert(self.segments[i].settled(count + 1));
                lemma_housed_inserted(self.quad_tree, limits, self.segments[i]);
            } else {
                lemma_housed_own(self.quad_tree, asked);
                lemma_housed_same(after.quad_tree, asked, joined);
            }
        }
        assert forall|j: int| 0 <= j < kids.len() implies (#[trigger] kids[j]).pending()
            && kids[j].t <= 5 by {
            let q = CollisionMetaInfo { highway: Some(false), severed: false };
            lemma_fresh_is_sound(c.r.end, survey.straight_end, 0, c.q, kids[j].id);
            lemma_fresh_is_sound(c.r.end, survey.random_end, 0, c.q, kids[j].id);
            lemma_fresh_is_sound(c.r.end, survey.highway_left_end, 0, c.q, kids[j].id);
            lemma_fresh_is_sound(c.r.end, survey.highway_right_end, 0, c.q, kids[j].id);
            lemma_fresh_is_sound(c.r.end, survey.branch_left_end, kids[j].t, q, kids[j].id);
            lemma_fresh_is_sound(c.r.end, survey.branch_right_end, kids[j].t, q, kids[j].id);
        }
        assert forall|i: int| 0 <= i < after.priority_q.len() implies {
            &&& (#[trigger] after.priority_q[i]).pending()
            &&& after.priority_q[i].t <= 6 * (after.segments.len() + 1)
        } by {
            if i < waiting {
                assert(self.priority_q[i].pending());
            } else {
                let j = i - waiting;
                assert(after.priority_q[i] == queued[j]);
                assert(kids[j].pending());
            }
        }
    }
}

impl GrowthView {
    /// The state before the first round is sound.
    pub proof fn lemma_initial_is_sound()
        ensures
            GrowthView::initial().wf(),
    {
        let g = GrowthView::initial();
        let q = CollisionMetaInfo { highway: Some(true), severed: false };
        let origin = Point { x: 0, y: 0 };
        let east = Point { x: crate::config::HIGHWAY_SEGMENT_LENGTH, y: 0 };
        let west = Point { x: (0 - crate::config::HIGHWAY_SEGMENT_LENGTH) as i64, y: 0 };
        lemma_fresh_is_sound(origin, east, 0, q, 1);
        lemma_fresh_is_sound(origin, east, 0, q, 2);
        lemma_moved_is_sound(SegmentView::fresh(origin, east, 0, q, 2), west, 0);
        assert forall|x: CollisionLimits| #[trigger] g.quad_tree.stores(x) implies x.id.is_some() by {
            assert(!g.quad_tree.objects.contains(x));
        }
        assert forall|i: int| 0 <= i < g.priority_q.len() implies {
            &&& (#[trigger] g.priority_q[i]).pending()
            &&& g.priority_q[i].t <= 6 * (g.segments.len() + 1)
        } by {
            assert(i == 0 || i == 1);
        }
    }

    /// Taking a candidate up leaves the state sound and the candidate as
    /// it waited, but for its id.
    pub proof fn lemma_enrolled_is_sound(self, c: SegmentView)
        requires
            self.wf(),
            c.pending(),
        ensures
            self.enrolled(c).0.wf_with(1),
            self.enrolled(c).1.pending(),
            self.enrolled(c).1.t == c.t,
            self.enrolled(c).1.r == c.r,
    {
    }

    /// A round leaves a sound state sound.
    pub proof fn lemma_round_is_sound(self, survey: Survey)
        requires
            self.wf(),
            self.growing(),
            survey.wf(),
            self.advanced(survey).is_some(),
        ensures
            self.advanced(survey).unwrap().1.wf(),
    {
        lemma_first_extremes_exist(times(self.priority_q));
        let at = self.earliest();
        let c = self.priority_q[at];
        let rest = GrowthView { priority_q: self.priority_q.remove(at), ..self };
        self.lemma_taken_is_sound(at);
        rest.lemma_enrolled_is_sound(c);
        let g = rest.enrolled(c).0;
        let d = rest.enrolled(c).1;
        let v = g.constrained(d).unwrap();
        if v.accepted {
            g.lemma_constrained_is_sound(d);
            v.state.lemma_linked_behind_is_sound(v.segment);
            let linked = v.state.linked_behind(v.segment).unwrap();
            linked.0.lemma_settled_is_sound(linked.1, survey);
        }
    }
}

/// Every state that rounds with sound surveys lead to is sound.
pub proof fn lemma_reached_is_sound(surveys: Seq<Survey>)
    requires
        reached(surveys).is_some(),
        forall|k: int| 0 <= k < surveys.len() ==> (#[trigger] surveys[k]).wf(),
    ensures
        reached(surveys).unwrap().wf(),
    decreases surveys.len(),
{
    if surveys.len() == 0 {
        GrowthView::lemma_initial_is_sound();
    } else {
        lemma_reached_step(surveys);
        let earlier = surveys.drop_last();
        assert forall|k: int| 0 <= k < earlier.len() implies (#[trigger] earlier[k]).wf() by {
            assert(earlier[k] == surveys[k]);
        }
        lemma_reached_is_sound(earlier);
        assert(surveys.last() == surveys[surveys.len() - 1]);
        reached(earlier).unwrap().lemma_round_is_sound(surveys.last());
    }
}

/// In every state that rounds with sound surveys lead to, neither cache
/// of an accepted segment was filed under a revision that its road has
/// yet to reach.
pub proof fn lemma_reached_is_rested(surveys: Seq<Survey>, i: int)
    requires
        reached(surveys).is_some(),
        forall|k: int| 0 <= k < surveys.len() ==> (#[trigger] surveys[k]).wf(),
        0 <= i < reached(surveys).unwrap().segments.len(),
    ensures
        reached(surveys).unwrap().segments[i].road_revision >= reached(
            surveys,
        ).unwrap().segments[i].dir_revision,
        reached(surveys).unwrap().segments[i].road_revision >= reached(
            surveys,
        ).unwrap().segments[i].length_revision,
{
    lemma_reached_is_sound(surveys);
    reached(surveys).unwrap().lemma_accepted_is_rested(i);
}

/// In every state that rounds with sound surveys lead to, a search of
/// the index for the bounding box of an accepted segment finds a box
/// under the id of that segment.
pub proof fn lemma_reached_is_retrieved(surveys: Seq<Survey>, i: int)
    requires
        reached(surveys).is_some(),
        forall|k: int| 0 <= k < surveys.len() ==> (#[trigger] surveys[k]).wf(),
        0 <= i < reached(surveys).unwrap().segments.len(),
    ensures
        exists|x: CollisionLimits|
            #[trigger] reached(surveys).unwrap().quad_tree.retrieve(
                reached(surveys).unwrap().segments[i].collider.limits(),
            ).contains(x) && x.id == Some(reached(surveys).unwrap().segments[i].id),
{
    lemma_reached_is_sound(surveys);
    reached(surveys).unwrap().lemma_accepted_is_retrieved(i);
}

/// In every state that rounds lead to, no two segments share an id.
pub proof fn lemma_reached_is_numbered(surveys: Seq<Survey>)
    requires
        reached(surveys).is_some(),
    ensures
        reached(surveys).unwrap().well_numbered(),
{
    if surveys.len() >= 2 {
        lemma_reached_is_knit(surveys);
    } else if surveys.len() == 1 {
        lemma_reached_step(surveys);
        assert(surveys.drop_last().len() == 0);
        assert(reached(surveys.drop_last()) == Some(GrowthView::initial()));
        GrowthView::lemma_first_round(surveys.last());
    } else {
        GrowthView::lemma_initial_knit();
    }
}

impl GrowthView {
    /// The candidate that the next round takes up.
    pub open spec fn due(self) -> SegmentView {
        self.priority_q[self.earliest()]
    }

    /// The state without the candidate that the next round takes up.
    pub open spec fn without_due(self) -> GrowthView {
        GrowthView { priority_q: self.priority_q.remove(self.earliest()), ..self }
    }

    /// The state that the next round fits its candidate to, and that
    /// candidate with the id that the round gives it.
    pub open spec fn taken(self) -> (GrowthView, SegmentView) {
        self.without_due().enrolled(self.due())
    }

    /// A candidate that a round accepts and does not sever crosses none of
    /// the segments that were accepted before it.
    pub proof fn lemma_round_crosses_nothing(self, i: int)
        requires
            self.wf(),
            self.well_numbered(),
            self.growing(),
            self.taken().0.constrained(self.taken().1) matches Some(v) && v.accepted
                && !v.segment.q.severed,
            0 <= i < self.segments.len(),
        ensures
            !roads_cross(self.due().r, self.segments[i].r),
    {
        lemma_first_extremes_exist(times(self.priority_q));
        let at = self.earliest();
        self.lemma_taken_is_sound(at);
        self.lemma_taken_lined_up(at);
        let rest = self.without_due();
        rest.lemma_enrolled_is_sound(self.due());
        rest.lemma_enrolled_numbered(self.due());
        self.taken().0.lemma_unsevered_crosses_nothing(self.taken().1, i);
    }
}

/// In a round played from a state that rounds with sound surveys have
/// led to, a candidate that is accepted and not severed crosses none of
/// the accepted segments.
pub proof fn lemma_reached_crosses_nothing(surveys: Seq<Survey>, i: int)
    requires
        reached(surveys).is_some(),
        forall|k: int| 0 <= k < surveys.len() ==> (#[trigger] surveys[k]).wf(),
        reached(surveys).unwrap().growing(),
        reached(surveys).unwrap().taken().0.constrained(
            reached(surveys).unwrap().taken().1,
        ) matches Some(v) && v.accepted && !v.segment.q.severed,
        0 <= i < reached(surveys).unwrap().segments.len(),
    ensures
        !roads_cross(reached(surveys).unwrap().due().r, reached(surveys).unwrap().segments[i].r),
{
    lemma_reached_is_sound(surveys);
    lemma_reached_is_numbered(surveys);
    reached(surveys).unwrap().lemma_round_crosses_nothing(i);
}

impl GrowthView {
    /// An accepted segment with the id `x` ends at `point`.
    pub open spec fn ends_at(self, x: usize, point: Point) -> bool {
        exists|i: int|
            0 <= i < self.segments.len() && (#[trigger] self.segments[i]).id == x
                && self.segments[i].r.end == point
    }

    /// Every candidate that waits for its parent starts where an accepted
    /// segment with the parent's id ends.
    pub open spec fn hooked(self) -> bool {
        forall|j: int|
            0 <= j < self.priority_q.len() && (
            #[trigger] self.priority_q[j]).prev_segment_to_link.is_some() ==> self.ends_at(
                self.priority_q[j].prev_segment_to_link.unwrap(),
                self.priority_q[j].r.start,
            )
    }

    /// `later` has the accepted segments of the state, each in its place
    /// with its id and the end of its road, and maybe more.
    pub open spec fn keeps_ends_in(self, later: GrowthView) -> bool {
        &&& self.segments.len() <= later.segments.len()
        &&& forall|i: int|
            0 <= i < self.segments.len() ==> (#[trigger] later.segments[i]).id
                == self.segments[i].id && later.segments[i].r.end == self.segments[i].r.end
    }

    /// A split leaves every accepted segment its id and the end of its
    /// road.
    pub proof fn lemma_split_keeps_ends(self, index: int, point: Point, by: usize)
        requires
            0 <= index < self.segments.len(),
        ensures
            self.keeps_ends_in(self.with_split(index, point, by)),
    {
        let n = self.segments[index];
        let moved = n.moved_links(self.segments);
        lemma_rewired_keeps(
            self.segments,
            moved,
            moved.len() as int,
            n.id,
            (self.last_id + 1) as usize,
        );
    }

    /// Fitting a candidate to the accepted segments leaves each of them
    /// its id and the end of its road.
    pub proof fn lemma_constrained_keeps_ends(self, c: SegmentView)
        requires
            self.segments.len() <= usize::MAX,
            self.constrained(c).is_some(),
        ensures
            self.keeps_ends_in(self.constrained(c).unwrap().state),
    {
        let v = self.constrained(c).unwrap();
        let found = self.quad_tree.retrieve(c.collider.limits());
        let choice = scanned(self.segments, c.r, found, found.len() as int);
        let index = choice.this_road_index as int;
        lemma_choice_is_accepted(self.segments, c.r, found);
        match choice.action {
            None => {},
            Some(LocalConstraintsAction::IntersectionAction) => {
                self.lemma_split_keeps_ends(index, choice.point, c.id);
            },
            Some(LocalConstraintsAction::SnapAction) => {
                self.lemma_split_keeps_ends(index, choice.point, c.id);
            },
            Some(LocalConstraintsAction::RadiusAction) => {
                let n = self.segments[index];
                let links = if n.start_is_backwards(self.segments) {
                    n.links.f
                } else {
                    n.links.b
                };
                lemma_announced_keeps(self.segments, links, links.len() as int, n.id, c.id);
            },
        }
    }

    /// Linking a candidate behind its parent leaves every accepted
    /// segment its id and the end of its road.
    pub proof fn lemma_linked_behind_keeps_ends(self, c: SegmentView)
        requires
            self.linked_behind(c).is_some(),
        ensures
            self.keeps_ends_in(self.linked_behind(c).unwrap().0),
            self.linked_behind(c).unwrap().1.id == c.id,
            self.linked_behind(c).unwrap().1.r == c.r,
            self.linked_behind(c).unwrap().1.q == c.q,
            self.linked_behind(c).unwrap().1.t == c.t,
    {
        match c.prev_segment_to_link {
            None => {},
            Some(parent) => {
                let at = first_with_id(self.segments, parent).unwrap();
                lemma_position_found(ids_of(self.segments), parent);
                let p = self.segments[at];
                lemma_announced_keeps(
                    self.segments,
                    p.links.f,
                    p.links.f.len() as int,
                    parent,
                    c.id,
                );
            },
        }
    }

    /// A round leaves every candidate that waits for its parent where
    /// the parent ends.
    pub proof fn lemma_round_keeps_hooks(self, survey: Survey)
        requires
            self.segments.len() <= SEGMENT_COUNT_LIMIT + 1,
            self.hooked(),
            self.growing(),
            self.advanced(survey).is_some(),
        ensures
            self.advanced(survey).unwrap().1.hooked(),
    {
        lemma_first_extremes_exist(times(self.priority_q));
        let at = self.earliest();
        let c = self.priority_q[at];
        let rest = GrowthView { priority_q: self.priority_q.remove(at), ..self };
        let g = rest.enrolled(c).0;
        let d = rest.enrolled(c).1;
        let v = g.constrained(d).unwrap();
        let after = self.advanced(survey).unwrap().1;
        let shift = |j: int| if j < at { j } else { j + 1 };
        assert forall|j: int| 0 <= j < rest.priority_q.len() implies #[trigger] rest.priority_q[j]
            == self.priority_q[shift(j)] by {}
        assert(rest.hooked()) by {
            assert forall|j: int|
                0 <= j < rest.priority_q.len() && (
                #[trigger] rest.priority_q[j]).prev_segment_to_link.is_some() implies rest.ends_at(
                rest.priority_q[j].prev_segment_to_link.unwrap(),
                rest.priority_q[j].r.start,
            ) by {
                let q = self.priority_q[shift(j)];
                assert(self.ends_at(q.prev_segment_to_link.unwrap(), q.r.start));
            }
        }
        if v.accepted {
            g.lemma_constrained_keeps_ends(d);
            v.state.lemma_linked_behind_keeps_ends(v.segment);
            let linked = v.state.linked_behind(v.segment).unwrap();
            let kids = linked.1.sprouts(survey);
            let waiting = rest.priority_q.len() as int;
            let count = linked.0.segments.len() as int;
            assert(after.segments.len() == count + 1);
            assert(after.segments[count].id == linked.1.id && after.segments[count].r.end
                == linked.1.r.end);
            assert forall|j: int|
                0 <= j < after.priority_q.len() && (
                #[trigger] after.priority_q[j]).prev_segment_to_link.is_some() implies after.ends_at(
                after.priority_q[j].prev_segment_to_link.unwrap(),
                after.priority_q[j].r.start,
            ) by {
                let q = after.priority_q[j];
                if j < waiting {
                    assert(q == rest.priority_q[j]);
                    let x = q.prev_segment_to_link.unwrap();
                    assert(rest.ends_at(x, q.r.start));
                    let i = choose|i: int|
                        0 <= i < rest.segments.len() && (#[trigger] rest.segments[i]).id == x
                            && rest.segments[i].r.end == q.r.start;
                    assert(v.state.segments[i].id == x && v.state.segments[i].r.end == q.r.start);
                    assert(linked.0.segments[i].id == x && linked.0.segments[i].r.end
                        == q.r.start);
                    assert(after.segments[i].id == x && after.segments[i].r.end == q.r.start);
                } else {
                    assert(q == scheduled(kids, linked.1.t)[j - waiting]);
                    assert(q.prev_segment_to_link == kids[j - waiting].prev_segment_to_link);
                    assert(after.segments[count].id == q.prev_segment_to_link.unwrap());
                }
            }
        }
    }
}

impl GrowthView {
    /// Where a candidate starts at the end of its parent, linking it
    /// behind the parent puts the link to the parent with the links at
    /// the candidate's start, and the link to the candidate with the
    /// links at the parent's end; and the two still meet there.
    pub proof fn lemma_linked_at_the_joint(self, c: SegmentView)
        requires
            self.ids_apart(),
            c.prev_segment_to_link.is_some(),
            self.ends_at(c.prev_segment_to_link.unwrap(), c.r.start),
            self.linked_behind(c).is_some(),
        ensures
            ({
                let x = c.prev_segment_to_link.unwrap();
                let at = first_with_id(self.segments, x).unwrap();
                let parent = self.linked_behind(c).unwrap().0.segments[at];
                let child = self.linked_behind(c).unwrap().1;
                &&& 0 <= at < self.segments.len()
                &&& parent.id == x
                &&& parent.r.end == child.r.start
                &&& parent.links.f.last() == child.id
                &&& child.links.b.last() == x
            }),
    {
        let x = c.prev_segment_to_link.unwrap();
        let at = first_with_id(self.segments, x).unwrap();
        lemma_position_found(ids_of(self.segments), x);
        let i = choose|i: int|
            0 <= i < self.segments.len() && (#[trigger] self.segments[i]).id == x
                && self.segments[i].r.end == c.r.start;
        if i < at {
            assert(self.segments[i].id != self.segments[at as int].id);
        } else if at < i {
            assert(self.segments[at as int].id != self.segments[i].id);
        }
        let p = self.segments[at as int];
        lemma_announced_keeps(self.segments, p.links.f, p.links.f.len() as int, x, c.id);
    }
}

impl GrowthView {
    /// When the accepted segment at `index` is split at `point` for the
    /// candidate `c`, the three meet at `point`: the half that keeps the
    /// id starts there, the new half and the candidate end there. Each
    /// half has its links to the candidate and to the other half in one
    /// link set, that of its start or of its end at `point` where the
    /// `b` links of the segment sat at its start, and the candidate has
    /// its links to both halves in its `f` links.
    pub proof fn lemma_split_meets(self, index: int, point: Point, c: SegmentView)
        requires
            0 <= index < self.segments.len(),
        ensures
            ({
                let n = self.segments[index];
                let new_id = (self.last_id + 1) as usize;
                let backwards = n.start_is_backwards(self.segments);
                let after = self.with_split(index, point, c.id);
                let kept = after.segments[index];
                let made = after.segments.last();
                let joined = c.joined(n.id, new_id, backwards).severed_at(point);
                &&& after.segments.len() == self.segments.len() + 1
                &&& kept.id == n.id
                &&& made.id == new_id
                &&& kept.r == (Road { start: point, end: n.r.end })
                &&& made.r == (Road { start: n.r.start, end: point })
                &&& joined.r == (Road { start: c.r.start, end: point })
                &&& joined.links.f.contains(n.id)
                &&& joined.links.f.contains(new_id)
                &&& backwards ==> kept.links.b == seq![c.id, new_id] && made.links.f == seq![
                    c.id,
                    n.id,
                ]
                &&& !backwards ==> kept.links.f == seq![c.id, new_id] && made.links.b == seq![
                    c.id,
                    n.id,
                ]
            }),
    {
        let n = self.segments[index];
        let new_id = (self.last_id + 1) as usize;
        let backwards = n.start_is_backwards(self.segments);
        let moved = n.moved_links(self.segments);
        lemma_rewired_keeps(self.segments, moved, moved.len() as int, n.id, new_id);
        let joined = c.joined(n.id, new_id, backwards);
        let last = joined.links.f.len() - 1;
        assert(joined.links.f[last] == n.id || joined.links.f[last] == new_id);
        assert(joined.links.f[last - 1] == n.id || joined.links.f[last - 1] == new_id);
    }

    /// When a candidate is made to end where the accepted segment at
    /// `index` ends, the two meet there, the candidate has a link to the
    /// segment in its `f` links, and the segment has a link to the
    /// candidate with its links at that end.
    pub proof fn lemma_end_snap_meets(self, c: SegmentView, choice: LocalConstraints)
        requires
            0 <= choice.this_road_index < self.segments.len(),
            self.end_snapped(c, choice) matches Some(v) && v.accepted,
        ensures
            ({
                let index = choice.this_road_index as int;
                let n = self.segments[index];
                let v = self.end_snapped(c, choice).unwrap();
                let shared = v.state.segments[index];
                &&& shared.id == n.id
                &&& shared.r == n.r
                &&& v.segment.r == (Road { start: c.r.start, end: n.r.end })
                &&& v.segment.links.f.last() == n.id
                &&& n.start_is_backwards(self.segments) ==> shared.links.f.last() == c.id
                &&& !n.start_is_backwards(self.segments) ==> shared.links.b.last() == c.id
            }),
    {
        let index = choice.this_road_index as int;
        let n = self.segments[index];
        let links = if n.start_is_backwards(self.segments) {
            n.links.f
        } else {
            n.links.b
        };
        lemma_announced_keeps(self.segments, links, links.len() as int, n.id, c.id);
    }
}

/// In every state that rounds lead to, every candidate that waits for
/// its parent starts where the parent ends.
pub proof fn lemma_reached_is_hooked(surveys: Seq<Survey>)
    requires
        reached(surveys).is_some(),
    ensures
        reached(surveys).unwrap().hooked(),
    decreases surveys.len(),
{
    if surveys.len() > 0 {
        lemma_reached_step(surveys);
        lemma_reached_is_hooked(surveys.drop_last());
        crate::links::lemma_reached_is_bounded(surveys.drop_last());
        reached(surveys.drop_last()).unwrap().lemma_round_keeps_hooks(surveys.last());
    }
}

} // verus!
