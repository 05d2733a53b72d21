//! The links between segments, counted: that every link is answered.
use vstd::prelude::*;
use crate::collision::CollisionLimits;
use crate::config::{HIGHWAY_SEGMENT_LENGTH, SEGMENT_COUNT_LIMIT};
use crate::generate::{
    announced, blocks, duplicated, hearers, is_last_call, lemma_announced_keeps, lemma_considered,
    lemma_scan_takes_the_most_urgent, named, scanned, scheduled, times, urgency, GrowthView,
    LocalConstraints, LocalConstraintsAction, Survey,
};
use crate::math::{floor_sqrt, is_floor_sqrt, lemma_floor_sqrt_unique, Point};
use crate::segment::{
    first_with_id, ids_of, lemma_position, lemma_position_found, lemma_rewired_keeps, position,
    rewired, LinkView, Road, SegmentView,
};
use crate::utility::{is_first_min, lemma_first_extremes_exist, lemma_first_min_unique};

verus! {

/// How often `id` stands in `ids`.
pub open spec fn occurrences(ids: Seq<usize>, id: usize) -> nat
    decreases ids.len(),
{
    if ids.len() == 0 {
        0
    } else {
        occurrences(ids.drop_last(), id) + if ids.last() == id {
            1nat
        } else {
            0nat
        }
    }
}

/// How many links the segment has to `id`, in both of its sets together.
pub open spec fn degree(s: SegmentView, id: usize) -> nat {
    occurrences(s.links.b, id) + occurrences(s.links.f, id)
}

/// An id that is added at the end counts once more.
pub proof fn lemma_occurrences_push(ids: Seq<usize>, v: usize, id: usize)
    ensures
        occurrences(ids.push(v), id) == occurrences(ids, id) + if v == id {
            1nat
        } else {
            0nat
        },
{
    assert(ids.push(v).drop_last() =~= ids);
}

/// An id stands in a list exactly when it occurs there.
pub proof fn lemma_occurrences_contains(ids: Seq<usize>, id: usize)
    ensures
        occurrences(ids, id) > 0 <==> ids.contains(id),
    decreases ids.len(),
{
    if ids.len() > 0 {
        lemma_occurrences_contains(ids.drop_last(), id);
        if ids.contains(id) {
            let j = choose|j: int| 0 <= j < ids.len() && ids[j] == id;
            if j < ids.len() - 1 {
                assert(ids.drop_last()[j] == id);
            }
        }
        if ids.drop_last().contains(id) {
            let j = choose|j: int| 0 <= j < ids.drop_last().len() && ids.drop_last()[j] == id;
            assert(ids[j] == id);
        }
        if ids.last() == id {
            assert(ids[ids.len() - 1] == id);
        }
    }
}

/// The occurrences in two lists put together add up.
pub proof fn lemma_occurrences_concat(a: Seq<usize>, b: Seq<usize>, id: usize)
    ensures
        occurrences(a + b, id) == occurrences(a, id) + occurrences(b, id),
    decreases b.len(),
{
    if b.len() == 0 {
        assert(a + b =~= a);
    } else {
        lemma_occurrences_concat(a, b.drop_last(), id);
        assert((a + b).drop_last() =~= a + b.drop_last());
    }
}

/// Replacing one entry takes one occurrence of the old id away and adds
/// one of the new.
pub proof fn lemma_occurrences_update(ids: Seq<usize>, i: int, to: usize, id: usize)
    requires
        0 <= i < ids.len(),
    ensures
        occurrences(ids.update(i, to), id) + (if ids[i] == id {
            1nat
        } else {
            0nat
        }) == occurrences(ids, id) + (if to == id {
            1nat
        } else {
            0nat
        }),
    decreases ids.len(),
{
    if i == ids.len() - 1 {
        assert(ids.update(i, to).drop_last() =~= ids.drop_last());
    } else {
        lemma_occurrences_update(ids.drop_last(), i, to, id);
        assert(ids.update(i, to).drop_last() =~= ids.drop_last().update(i, to));
    }
}

/// The occurrences in a list of two.
pub proof fn lemma_occurrences_pair(a: usize, b: usize, id: usize)
    ensures
        occurrences(seq![a, b], id) == (if a == id {
            1nat
        } else {
            0nat
        }) + (if b == id {
            1nat
        } else {
            0nat
        }),
{
    let none = Seq::<usize>::empty();
    assert(seq![a, b] =~= none.push(a).push(b));
    lemma_occurrences_push(none, a, id);
    lemma_occurrences_push(none.push(a), b, id);
}

/// One entry more of a list counts once more if it is the id.
pub proof fn lemma_occurrences_take(ids: Seq<usize>, n: int, id: usize)
    requires
        0 <= n < ids.len(),
    ensures
        occurrences(ids.take(n + 1), id) == occurrences(ids.take(n), id) + if ids[n] == id {
            1nat
        } else {
            0nat
        },
{
    assert(ids.take(n + 1).drop_last() =~= ids.take(n));
}

/// No two of the segments share an id.
pub open spec fn distinct(segments: Seq<SegmentView>) -> bool {
    forall|i: int, j: int|
        0 <= i < j < segments.len() ==> (#[trigger] segments[i]).id != (#[trigger] segments[j]).id
}

/// Among segments with ids of their own, an id is found where it is.
pub proof fn lemma_found_where_it_is(segments: Seq<SegmentView>, k: int)
    requires
        distinct(segments),
        0 <= k < segments.len(),
    ensures
        first_with_id(segments, segments[k].id) == Some(k),
{
    assert forall|j: int| 0 <= j < k implies ids_of(segments)[j] != segments[k].id by {
        assert(segments[j].id != segments[k].id);
    }
    lemma_position(ids_of(segments), segments[k].id, k);
}

/// What being told does to the links of a segment: one more link to
/// `new_id` where it has a link to `anchor`.
pub proof fn lemma_told_degree(s: SegmentView, anchor: usize, new_id: usize, x: usize)
    ensures
        degree(s.told(anchor, new_id), x) == degree(s, x) + if x == new_id && s.holds(anchor) {
            1nat
        } else {
            0nat
        },
        s.holds(anchor) ==> s.told(anchor, new_id).holds(anchor),
        new_id != anchor ==> (s.told(anchor, new_id).holds(anchor) ==> s.holds(anchor)),
{
    lemma_occurrences_push(s.links.b, new_id, x);
    lemma_occurrences_push(s.links.f, new_id, x);
    lemma_occurrences_push(s.links.b, new_id, anchor);
    lemma_occurrences_push(s.links.f, new_id, anchor);
    lemma_occurrences_contains(s.links.b, anchor);
    lemma_occurrences_contains(s.links.f, anchor);
    lemma_occurrences_contains(s.links.b.push(new_id), anchor);
    lemma_occurrences_contains(s.links.f.push(new_id), anchor);
}

/// What telling the neighbours does to the links of each segment: as many
/// more links to `new_id` as there are names of the segment among those
/// gone through, where the segment has a link to `anchor`.
pub proof fn lemma_announced_degree(
    segments: Seq<SegmentView>,
    ids: Seq<usize>,
    n: int,
    anchor: usize,
    new_id: usize,
    k: int,
    x: usize,
)
    requires
        distinct(segments),
        0 <= k < segments.len(),
        0 <= n <= ids.len(),
        new_id != anchor,
    ensures
        degree(announced(segments, ids, n, anchor, new_id)[k], x) == degree(segments[k], x) + if x
            == new_id && segments[k].holds(anchor) {
            occurrences(ids.take(n), segments[k].id)
        } else {
            0nat
        },
        announced(segments, ids, n, anchor, new_id)[k].holds(anchor) == segments[k].holds(anchor),
    decreases n,
{
    if n == 0 {
        assert(ids.take(0) =~= Seq::<usize>::empty());
    } else {
        lemma_announced_degree(segments, ids, n - 1, anchor, new_id, k, x);
        lemma_announced_keeps(segments, ids, n - 1, anchor, new_id);
        lemma_occurrences_take(ids, n - 1, segments[k].id);
        let before = announced(segments, ids, n - 1, anchor, new_id);
        lemma_position_found(ids_of(before), ids[n - 1]);
        lemma_found_where_it_is(segments, k);
        lemma_told_degree(before[k], anchor, new_id, x);
        match first_with_id(before, ids[n - 1]) {
            Some(at) => {
                assert(ids_of(segments)[at] == segments[at].id);
                if at == k {
                    assert(ids[n - 1] == segments[k].id);
                } else {
                    assert(ids[n - 1] == segments[at].id);
                    if at < k {
                        assert(segments[at].id != segments[k].id);
                    } else {
                        assert(segments[k].id != segments[at].id);
                    }
                }
            },
            None => {
                assert(ids_of(segments)[k] == segments[k].id);
                assert(ids_of(before).contains(segments[k].id));
            },
        }
    }
}

/// What turning a link does to the links of a segment.
pub proof fn lemma_relinked_degree(s: SegmentView, from: usize, to: usize, x: usize)
    requires
        from != to,
    ensures
        degree(s.relinked(from, to), x) + (if x == from && s.holds(from) {
            1nat
        } else {
            0nat
        }) == degree(s, x) + (if x == to && s.holds(from) {
            1nat
        } else {
            0nat
        }),
{
    lemma_position_found(s.links.b, from);
    lemma_position_found(s.links.f, from);
    lemma_occurrences_contains(s.links.b, from);
    lemma_occurrences_contains(s.links.f, from);
    if s.links.b.contains(from) {
        lemma_occurrences_update(s.links.b, position(s.links.b, from).unwrap(), to, x);
    } else if s.links.f.contains(from) {
        lemma_occurrences_update(s.links.f, position(s.links.f, from).unwrap(), to, x);
    }
}

/// What turning the links round does to the links of each segment: as
/// many links to `from` become links to `to` as there are names of the
/// segment among those gone through, where the segment has that many.
pub proof fn lemma_rewired_degree(
    segments: Seq<SegmentView>,
    ids: Seq<usize>,
    n: int,
    from: usize,
    to: usize,
    k: int,
    x: usize,
)
    requires
        distinct(segments),
        0 <= k < segments.len(),
        0 <= n <= ids.len(),
        from != to,
        occurrences(ids.take(n), segments[k].id) <= degree(segments[k], from),
    ensures
        degree(rewired(segments, ids, n, from, to)[k], x) + (if x == from {
            occurrences(ids.take(n), segments[k].id)
        } else {
            0nat
        }) == degree(segments[k], x) + (if x == to {
            occurrences(ids.take(n), segments[k].id)
        } else {
            0nat
        }),
    decreases n,
{
    if n == 0 {
        assert(ids.take(0) =~= Seq::<usize>::empty());
    } else {
        lemma_occurrences_take(ids, n - 1, segments[k].id);
        lemma_rewired_degree(segments, ids, n - 1, from, to, k, x);
        lemma_rewired_degree(segments, ids, n - 1, from, to, k, from);
        lemma_rewired_keeps(segments, ids, n - 1, from, to);
        let before = rewired(segments, ids, n - 1, from, to);
        lemma_position_found(ids_of(before), ids[n - 1]);
        lemma_found_where_it_is(segments, k);
        lemma_relinked_degree(before[k], from, to, x);
        lemma_occurrences_contains(before[k].links.b, from);
        lemma_occurrences_contains(before[k].links.f, from);
        match first_with_id(before, ids[n - 1]) {
            Some(at) => {
                assert(ids_of(segments)[at] == segments[at].id);
                if at == k {
                    assert(ids[n - 1] == segments[k].id);
                } else {
                    assert(ids[n - 1] == segments[at].id);
                    if at < k {
                        assert(segments[at].id != segments[k].id);
                    } else {
                        assert(segments[k].id != segments[at].id);
                    }
                }
            },
            None => {
                assert(ids_of(segments)[k] == segments[k].id);
                assert(ids_of(before).contains(segments[k].id));
            },
        }
    }
}

/// Where every neighbour named is found and has a link to `anchor`, every
/// name is heard.
pub proof fn lemma_all_hear(
    segments: Seq<SegmentView>,
    ids: Seq<usize>,
    n: int,
    anchor: usize,
    new_id: usize,
)
    requires
        distinct(segments),
        0 <= n <= ids.len(),
        new_id != anchor,
        forall|j: int|
            0 <= j < n ==> (#[trigger] first_with_id(segments, ids[j])).is_some()
                && segments[first_with_id(segments, ids[j]).unwrap()].holds(anchor),
    ensures
        hearers(segments, ids, n, anchor, new_id) == ids.take(n),
    decreases n,
{
    if n == 0 {
        assert(ids.take(0) =~= Seq::<usize>::empty());
    } else {
        lemma_all_hear(segments, ids, n - 1, anchor, new_id);
        lemma_announced_keeps(segments, ids, n - 1, anchor, new_id);
        let before = announced(segments, ids, n - 1, anchor, new_id);
        let k = first_with_id(segments, ids[n - 1]).unwrap();
        lemma_position_found(ids_of(segments), ids[n - 1]);
        lemma_announced_degree(segments, ids, n - 1, anchor, new_id, k, anchor);
        assert(ids.take(n) =~= ids.take(n - 1).push(ids[n - 1]));
    }
}

impl GrowthView {
    /// `a` is one of the segments in play, which are those that have an
    /// id: accepted, waiting without a parent, or the candidate `c` in
    /// hand.
    pub open spec fn among(self, c: Option<SegmentView>, a: SegmentView) -> bool {
        self.segments.contains(a) || (self.priority_q.contains(a)
            && a.prev_segment_to_link.is_none()) || c == Some(a)
    }

    /// One of the segments in play has the id `x`.
    pub open spec fn names(self, c: Option<SegmentView>, x: usize) -> bool {
        exists|b: SegmentView| #[trigger] self.among(c, b) && b.id == x
    }

    /// The segment in play that has the id `x`.
    pub open spec fn named(self, c: Option<SegmentView>, x: usize) -> SegmentView {
        choose|b: SegmentView| #[trigger] self.among(c, b) && b.id == x
    }

    /// Every link is answered.
    ///
    /// Of any two segments in play each has as many links to the other as
    /// the other has to it. Every link leads to a segment in play, and
    /// none to the segment that has it. A candidate that waits to be
    /// linked behind its parent has no links yet.
    pub open spec fn knit(self, c: Option<SegmentView>) -> bool {
        &&& forall|a: SegmentView, b: SegmentView|
            #[trigger] self.among(c, a) && #[trigger] self.among(c, b) ==> degree(a, b.id)
                == degree(b, a.id)
        &&& forall|a: SegmentView, x: usize|
            #[trigger] self.among(c, a) && #[trigger] degree(a, x) > 0 ==> self.names(c, x)
        &&& forall|a: SegmentView| #[trigger] self.among(c, a) ==> degree(a, a.id) == 0
        &&& forall|q: SegmentView| #[trigger]
            self.priority_q.contains(q) && q.prev_segment_to_link.is_some() ==> q.links.b.len()
                == 0 && q.links.f.len() == 0
    }

    /// The state is numbered well, with the candidate in hand if there is
    /// one.
    pub open spec fn numbered(self, c: Option<SegmentView>) -> bool {
        match c {
            Some(candidate) => self.numbered_with(candidate),
            None => self.well_numbered(),
        }
    }

    /// Two segments in play with the same id are the same segment, and no
    /// id is beyond the last one given out.
    pub proof fn lemma_one_per_id(self, c: Option<SegmentView>, a: SegmentView, b: SegmentView)
        requires
            self.numbered(c),
            self.among(c, a),
            self.among(c, b),
        ensures
            a.id == b.id ==> a == b,
            a.id <= self.last_id,
    {
        if self.segments.contains(a) {
            let i = choose|i: int| 0 <= i < self.segments.len() && self.segments[i] == a;
            assert(self.segments[i].id <= self.last_id);
            if self.segments.contains(b) {
                let j = choose|j: int| 0 <= j < self.segments.len() && self.segments[j] == b;
                if i < j {
                    assert(self.segments[i].id != self.segments[j].id);
                } else if j < i {
                    assert(self.segments[j].id != self.segments[i].id);
                }
            } else if self.priority_q.contains(b) {
                let j = choose|j: int| 0 <= j < self.priority_q.len() && self.priority_q[j] == b;
                assert(self.segments[i].id != self.priority_q[j].id);
            }
        } else if self.priority_q.contains(a) {
            let i = choose|i: int| 0 <= i < self.priority_q.len() && self.priority_q[i] == a;
            assert(self.priority_q[i].id <= self.last_id);
            if self.segments.contains(b) {
                let j = choose|j: int| 0 <= j < self.segments.len() && self.segments[j] == b;
                assert(self.segments[j].id != self.priority_q[i].id);
            } else if self.priority_q.contains(b) {
                let j = choose|j: int| 0 <= j < self.priority_q.len() && self.priority_q[j] == b;
                if i < j {
                    assert(self.priority_q[i].id != self.priority_q[j].id);
                } else if j < i {
                    assert(self.priority_q[j].id != self.priority_q[i].id);
                }
            }
        } else {
            if self.segments.contains(b) {
                let j = choose|j: int| 0 <= j < self.segments.len() && self.segments[j] == b;
                assert(self.segments[j].id != c.unwrap().id);
            } else if self.priority_q.contains(b) {
                let j = choose|j: int| 0 <= j < self.priority_q.len() && self.priority_q[j] == b;
                assert(self.priority_q[j].id != c.unwrap().id);
            }
        }
    }

    /// A segment in play is the one that its id names.
    pub proof fn lemma_named(self, c: Option<SegmentView>, a: SegmentView)
        requires
            self.numbered(c),
            self.among(c, a),
        ensures
            self.named(c, a.id) == a,
            self.names(c, a.id),
    {
        let b = self.named(c, a.id);
        self.lemma_one_per_id(c, a, b);
    }

    /// No segment in play has a link to an id that has not been given out.
    pub proof fn lemma_no_link_ahead(self, c: Option<SegmentView>, a: SegmentView, x: usize)
        requires
            self.numbered(c),
            self.knit(c),
            self.among(c, a),
            x > self.last_id,
        ensures
            degree(a, x) == 0,
    {
        if degree(a, x) > 0 {
            assert(self.names(c, x));
            let b = self.named(c, x);
            self.lemma_one_per_id(c, b, b);
        }
    }
}

/// The ids in `ids` all belong to accepted segments.
pub open spec fn all_found(segments: Seq<SegmentView>, ids: Seq<usize>) -> bool {
    forall|j: int| 0 <= j < ids.len() ==> (#[trigger] first_with_id(segments, ids[j])).is_some()
}

/// An id that stands in a list of ids that are all found belongs to an
/// accepted segment.
pub proof fn lemma_found_if_listed(segments: Seq<SegmentView>, ids: Seq<usize>, x: usize)
    requires
        all_found(segments, ids),
        occurrences(ids, x) > 0,
    ensures
        first_with_id(segments, x) matches Some(k) && 0 <= k < segments.len() && segments[k].id == x,
{
    lemma_occurrences_contains(ids, x);
    let j = choose|j: int| 0 <= j < ids.len() && ids[j] == x;
    assert(first_with_id(segments, ids[j]).is_some());
    lemma_position_found(ids_of(segments), x);
}

/// One if the two ids are the same, zero if not.
pub open spec fn one_if(a: usize, b: usize) -> nat {
    if a == b {
        1
    } else {
        0
    }
}

/// How many links to `x` the segment `id` gains when the candidate `c`
/// is made known to the neighbours `links` of the segment `p`.
pub open spec fn gain(links: Seq<usize>, p: usize, c: usize, id: usize, x: usize) -> nat {
    (if x == c {
        occurrences(links, id)
    } else {
        0
    }) + (if id == p && x == c {
        1nat
    } else {
        0
    }) + (if id == c {
        occurrences(links, x) + one_if(x, p)
    } else {
        0
    })
}

/// What making a candidate known to the neighbours of a segment changes.
///
/// `after` is the state `before` once the neighbours `links` of the
/// accepted segment at `at` have been told of the candidate `c`, and that
/// segment, with one more link to the candidate, has been put back; `c2`
/// is the candidate with a link for each of `links` and one to that
/// segment.
pub open spec fn made_known(
    before: GrowthView,
    c: SegmentView,
    at: int,
    links: Seq<usize>,
    after: GrowthView,
    c2: SegmentView,
) -> bool {
    let p = before.segments[at];
    &&& 0 <= at < before.segments.len()
    &&& all_found(before.segments, links)
    &&& forall|x: usize| occurrences(links, x) <= #[trigger] degree(p, x)
    &&& after.segments.len() == before.segments.len()
    &&& forall|i: int|
        0 <= i < before.segments.len() && i != at ==> #[trigger] after.segments[i] == announced(
            before.segments,
            links,
            links.len() as int,
            p.id,
            c.id,
        )[i]
    &&& after.segments[at].id == p.id
    &&& forall|x: usize| #[trigger]
        degree(after.segments[at], x) == degree(p, x) + one_if(x, c.id)
    &&& after.priority_q == before.priority_q
    &&& after.last_id == before.last_id
    &&& c2.id == c.id
    &&& forall|x: usize| #[trigger]
        degree(c2, x) == degree(c, x) + occurrences(links, x) + one_if(x, p.id)
}

/// Each segment in play after the candidate has been made known was in
/// play before, under the same id, and has gained the links that `gain`
/// says.
pub proof fn lemma_made_known_member(
    before: GrowthView,
    c: SegmentView,
    at: int,
    links: Seq<usize>,
    after: GrowthView,
    c2: SegmentView,
    a2: SegmentView,
    x: usize,
)
    requires
        before.numbered(Some(c)),
        before.knit(Some(c)),
        made_known(before, c, at, links, after, c2),
        after.among(Some(c2), a2),
    ensures
        before.names(Some(c), a2.id),
        before.among(Some(c), before.named(Some(c), a2.id)),
        before.named(Some(c), a2.id).id == a2.id,
        degree(a2, x) == degree(before.named(Some(c), a2.id), x) + gain(
            links,
            before.segments[at].id,
            c.id,
            a2.id,
            x,
        ),
        after.priority_q.contains(a2) ==> before.named(Some(c), a2.id) == a2,
{
    let p = before.segments[at];
    let told = announced(before.segments, links, links.len() as int, p.id, c.id);
    lemma_announced_keeps(before.segments, links, links.len() as int, p.id, c.id);
    assert(links.take(links.len() as int) =~= links);
    assert(before.segments.contains(p));
    assert(before.among(Some(c), p));
    before.lemma_one_per_id(Some(c), p, c);
    assert(degree(p, p.id) == 0);
    assert(occurrences(links, p.id) <= degree(p, p.id));
    if occurrences(links, c.id) > 0 {
        lemma_found_if_listed(before.segments, links, c.id);
        let k = first_with_id(before.segments, c.id).unwrap();
        assert(before.segments[k].id != c.id);
    }
    if after.segments.contains(a2) {
        let i = choose|i: int| 0 <= i < after.segments.len() && after.segments[i] == a2;
        let a = before.segments[i];
        assert(before.segments.contains(a));
        assert(before.among(Some(c), a));
        before.lemma_named(Some(c), a);
        before.lemma_one_per_id(Some(c), a, c);
        before.lemma_one_per_id(Some(c), a, p);
        if i == at {
            assert(degree(a2, x) == degree(p, x) + one_if(x, c.id));
        } else {
            assert(a2 == told[i]);
            lemma_announced_degree(
                before.segments,
                links,
                links.len() as int,
                p.id,
                c.id,
                i,
                x,
            );
            assert(degree(a, p.id) == degree(p, a.id));
            assert(occurrences(links, a.id) <= degree(p, a.id));
            lemma_occurrences_contains(a.links.b, p.id);
            lemma_occurrences_contains(a.links.f, p.id);
        }
    } else if after.priority_q.contains(a2) {
        assert(before.among(Some(c), a2));
        before.lemma_named(Some(c), a2);
        before.lemma_one_per_id(Some(c), a2, c);
        before.lemma_one_per_id(Some(c), a2, p);
        if occurrences(links, a2.id) > 0 {
            lemma_found_if_listed(before.segments, links, a2.id);
            let k = first_with_id(before.segments, a2.id).unwrap();
            assert(before.segments.contains(before.segments[k]));
            before.lemma_one_per_id(Some(c), a2, before.segments[k]);
            let j = choose|j: int| 0 <= j < before.priority_q.len() && before.priority_q[j] == a2;
            assert(before.segments[k].id != before.priority_q[j].id);
        }
    } else {
        assert(a2 == c2);
        assert(before.among(Some(c), c));
        before.lemma_named(Some(c), c);
    }
}

/// Making a candidate known to the neighbours of a segment keeps every
/// link answered.
pub proof fn lemma_made_known_knit(
    before: GrowthView,
    c: SegmentView,
    at: int,
    links: Seq<usize>,
    after: GrowthView,
    c2: SegmentView,
)
    requires
        before.numbered(Some(c)),
        before.knit(Some(c)),
        made_known(before, c, at, links, after, c2),
    ensures
        after.knit(Some(c2)),
        after.numbered(Some(c2)),
{
    let p = before.segments[at];
    let old_c = Some(c);
    let new_c = Some(c2);
    lemma_announced_keeps(before.segments, links, links.len() as int, p.id, c.id);
    assert forall|i: int| 0 <= i < before.segments.len() implies (#[trigger] after.segments[
        i
    ]).id == before.segments[i].id by {}
    before.lemma_numbered_same_ids(after, c, c2);
    assert(before.segments.contains(p));

    // every id that was named is still named
    assert forall|x: usize| before.names(old_c, x) implies after.names(new_c, x) by {
        let b = before.named(old_c, x);
        if before.segments.contains(b) {
            let i = choose|i: int| 0 <= i < before.segments.len() && before.segments[i] == b;
            assert(after.segments.contains(after.segments[i]));
            assert(after.among(new_c, after.segments[i]));
        } else if before.priority_q.contains(b) {
            assert(after.among(new_c, b));
        } else {
            assert(after.among(new_c, c2));
        }
    }
    assert(after.segments.contains(after.segments[at]));
    assert(after.among(new_c, after.segments[at]));
    assert(after.among(new_c, c2));

    assert forall|a2: SegmentView, b2: SegmentView|
        #[trigger] after.among(new_c, a2) && #[trigger] after.among(new_c, b2) implies degree(
        a2,
        b2.id,
    ) == degree(b2, a2.id) by {
        lemma_made_known_member(before, c, at, links, after, c2, a2, b2.id);
        lemma_made_known_member(before, c, at, links, after, c2, b2, a2.id);
        let a = before.named(old_c, a2.id);
        let b = before.named(old_c, b2.id);
        assert(degree(a, b.id) == degree(b, a.id));
        assert(gain(links, p.id, c.id, a2.id, b2.id) == gain(links, p.id, c.id, b2.id, a2.id));
    }
    assert forall|a2: SegmentView, x: usize|
        #[trigger] after.among(new_c, a2) && #[trigger] degree(a2, x) > 0 implies after.names(
        new_c,
        x,
    ) by {
        lemma_made_known_member(before, c, at, links, after, c2, a2, x);
        let a = before.named(old_c, a2.id);
        if degree(a, x) > 0 {
            assert(before.names(old_c, x));
        } else {
            assert(gain(links, p.id, c.id, a2.id, x) > 0);
            if x == c.id || x == p.id {
            } else {
                assert(occurrences(links, x) > 0);
                lemma_found_if_listed(before.segments, links, x);
                let k = first_with_id(before.segments, x).unwrap();
                assert(before.segments.contains(before.segments[k]));
                assert(before.among(old_c, before.segments[k]));
            }
        }
    }
    assert forall|a2: SegmentView| #[trigger] after.among(new_c, a2) implies degree(a2, a2.id)
        == 0 by {
        lemma_made_known_member(before, c, at, links, after, c2, a2, a2.id);
        let a = before.named(old_c, a2.id);
        before.lemma_one_per_id(old_c, p, c);
        assert(degree(a, a.id) == 0);
        if a2.id == c.id {
            if occurrences(links, c.id) > 0 {
                lemma_found_if_listed(before.segments, links, c.id);
                let k = first_with_id(before.segments, c.id).unwrap();
                assert(before.segments[k].id != c.id);
            }
        }
        assert(gain(links, p.id, c.id, a2.id, a2.id) == 0);
    }
}

/// The links of the segment that a split does not move to the new half.
pub open spec fn kept_links(t: SegmentView, segments: Seq<SegmentView>) -> Seq<usize> {
    if t.start_is_backwards(segments) {
        t.links.f
    } else {
        t.links.b
    }
}

/// What a split changes.
///
/// `after` is the state `before` once the accepted segment at `index` has
/// been split by the candidate `c`, and `c2` is the candidate with a link
/// to each half.
pub open spec fn made_split(
    before: GrowthView,
    c: SegmentView,
    index: int,
    point: Point,
    after: GrowthView,
    c2: SegmentView,
) -> bool {
    let t = before.segments[index];
    &&& 0 <= index < before.segments.len()
    &&& before.last_id < usize::MAX
    &&& t.split_ready(before.segments)
    &&& after == before.with_split(index, point, c.id)
    &&& c2.id == c.id
    &&& forall|x: usize| #[trigger]
        degree(c2, x) == degree(c, x) + one_if(x, (before.last_id + 1) as usize) + one_if(x, t.id)
}

/// Each segment in play after a split, but for the new half, was in play
/// before, under the same id; and its links have changed as the split
/// has it.
pub proof fn lemma_made_split_member(
    before: GrowthView,
    c: SegmentView,
    index: int,
    point: Point,
    after: GrowthView,
    c2: SegmentView,
    a2: SegmentView,
    x: usize,
)
    requires
        before.numbered(Some(c)),
        before.knit(Some(c)),
        made_split(before, c, index, point, after, c2),
        after.among(Some(c2), a2),
        a2.id != before.last_id + 1,
    ensures
        ({
            let t = before.segments[index];
            let to = (before.last_id + 1) as usize;
            let moved = t.moved_links(before.segments);
            let a = before.named(Some(c), a2.id);
            &&& before.names(Some(c), a2.id)
            &&& before.among(Some(c), a)
            &&& a.id == a2.id
            &&& after.priority_q.contains(a2) ==> a == a2
            &&& degree(a2, x) + (if x == t.id {
                occurrences(moved, a2.id)
            } else {
                0
            }) + (if a2.id == t.id {
                occurrences(moved, x)
            } else {
                0
            }) == degree(a, x) + (if x == to {
                occurrences(moved, a2.id)
            } else {
                0
            }) + (if a2.id == t.id {
                one_if(x, c.id) + one_if(x, to)
            } else {
                0
            }) + (if a2.id == c.id {
                one_if(x, to) + one_if(x, t.id)
            } else {
                0
            })
        }),
{
    let t = before.segments[index];
    let from = t.id;
    let to = (before.last_id + 1) as usize;
    let moved = t.moved_links(before.segments);
    let kept = kept_links(t, before.segments);
    let wired = rewired(before.segments, moved, moved.len() as int, from, to);
    lemma_rewired_keeps(before.segments, moved, moved.len() as int, from, to);
    assert(moved.take(moved.len() as int) =~= moved);
    assert(before.segments.contains(t));
    assert(before.among(Some(c), t));
    before.lemma_one_per_id(Some(c), t, c);
    assert(degree(t, from) == 0);
    assert(degree(t, x) == occurrences(moved, x) + occurrences(kept, x));
    assert(degree(t, from) == occurrences(moved, from) + occurrences(kept, from));
    assert(all_found(before.segments, moved));
    if occurrences(moved, c.id) > 0 {
        lemma_found_if_listed(before.segments, moved, c.id);
        let k = first_with_id(before.segments, c.id).unwrap();
        assert(before.segments[k].id != c.id);
    }
    lemma_occurrences_pair(c.id, to, x);
    if after.segments.contains(a2) {
        let i = choose|i: int| 0 <= i < after.segments.len() && after.segments[i] == a2;
        if i == before.segments.len() {
            // the new half has the new id
            assert(a2.id == to);
        } else {
            let a = before.segments[i];
            assert(before.segments.contains(a));
            assert(before.among(Some(c), a));
            before.lemma_named(Some(c), a);
            before.lemma_one_per_id(Some(c), a, c);
            before.lemma_one_per_id(Some(c), a, t);
            if i == index {
            } else {
                assert(a2 == wired[i]);
                assert(degree(a, from) == degree(t, a.id));
                assert(degree(t, a.id) == occurrences(moved, a.id) + occurrences(kept, a.id));
                lemma_rewired_degree(
                    before.segments,
                    moved,
                    moved.len() as int,
                    from,
                    to,
                    i,
                    x,
                );
            }
        }
    } else if after.priority_q.contains(a2) {
        assert(before.among(Some(c), a2));
        before.lemma_named(Some(c), a2);
        before.lemma_one_per_id(Some(c), a2, c);
        before.lemma_one_per_id(Some(c), a2, t);
        if occurrences(moved, a2.id) > 0 {
            lemma_found_if_listed(before.segments, moved, a2.id);
            let k = first_with_id(before.segments, a2.id).unwrap();
            assert(before.segments.contains(before.segments[k]));
            before.lemma_one_per_id(Some(c), a2, before.segments[k]);
            let j = choose|j: int| 0 <= j < before.priority_q.len() && before.priority_q[j] == a2;
            assert(before.segments[k].id != before.priority_q[j].id);
        }
    } else {
        assert(a2 == c2);
        assert(before.among(Some(c), c));
        before.lemma_named(Some(c), c);
    }
}

/// The links of the new half of a split.
pub proof fn lemma_made_split_part(
    before: GrowthView,
    c: SegmentView,
    index: int,
    point: Point,
    after: GrowthView,
    c2: SegmentView,
    x: usize,
)
    requires
        made_split(before, c, index, point, after, c2),
    ensures
        ({
            let t = before.segments[index];
            let part = after.segments[before.segments.len() as int];
            &&& after.segments.len() == before.segments.len() + 1
            &&& part.id == before.last_id + 1
            &&& degree(part, x) == occurrences(t.moved_links(before.segments), x) + one_if(
                x,
                c.id,
            ) + one_if(x, t.id)
        }),
{
    let t = before.segments[index];
    let to = (before.last_id + 1) as usize;
    let moved = t.moved_links(before.segments);
    lemma_rewired_keeps(before.segments, moved, moved.len() as int, t.id, to);
    lemma_occurrences_pair(c.id, t.id, x);
}

/// After a split the numbering holds, the new half and the candidate
/// are in play, and every id that was named is still named.
pub proof fn lemma_made_split_names(
    before: GrowthView,
    c: SegmentView,
    index: int,
    point: Point,
    after: GrowthView,
    c2: SegmentView,
)
    requires
        before.numbered(Some(c)),
        before.knit(Some(c)),
        made_split(before, c, index, point, after, c2),
    ensures
        after.numbered(Some(c2)),
        after.segments.len() == before.segments.len() + 1,
        after.priority_q == before.priority_q,
        after.among(Some(c2), after.segments[before.segments.len() as int]),
        after.among(Some(c2), after.segments[index]),
        after.segments[index].id == before.segments[index].id,
        after.among(Some(c2), c2),
        forall|x: usize| before.names(Some(c), x) ==> after.names(Some(c2), x),
{
    let t = before.segments[index];
    let to = (before.last_id + 1) as usize;
    let moved = t.moved_links(before.segments);
    let old_c = Some(c);
    let new_c = Some(c2);
    let count = before.segments.len() as int;
    lemma_rewired_keeps(before.segments, moved, moved.len() as int, t.id, to);
    assert forall|i: int| 0 <= i < before.segments.len() implies (#[trigger] after.segments[
        i
    ]).id == before.segments[i].id by {}
    before.lemma_numbered_grown(after, c, c2);
    assert(after.segments.contains(after.segments[count]));
    assert(after.segments.contains(after.segments[index]));
    assert forall|x: usize| before.names(old_c, x) implies after.names(new_c, x) by {
        let b = before.named(old_c, x);
        if before.segments.contains(b) {
            let i = choose|i: int| 0 <= i < before.segments.len() && before.segments[i] == b;
            assert(after.segments.contains(after.segments[i]));
            assert(after.among(new_c, after.segments[i]));
        } else if before.priority_q.contains(b) {
            assert(after.among(new_c, b));
        } else {
            assert(after.among(new_c, c2));
        }
    }
}

/// After a split, of any two segments in play each has as many links to
/// the other as the other has to it.
pub proof fn lemma_made_split_symmetric(
    before: GrowthView,
    c: SegmentView,
    index: int,
    point: Point,
    after: GrowthView,
    c2: SegmentView,
    a2: SegmentView,
    b2: SegmentView,
)
    requires
        before.numbered(Some(c)),
        before.knit(Some(c)),
        made_split(before, c, index, point, after, c2),
        after.among(Some(c2), a2),
        after.among(Some(c2), b2),
    ensures
        degree(a2, b2.id) == degree(b2, a2.id),
{
    let t = before.segments[index];
    let to = (before.last_id + 1) as usize;
    let old_c = Some(c);
    let new_c = Some(c2);
    let part = after.segments[before.segments.len() as int];
    lemma_made_split_names(before, c, index, point, after, c2);
    after.lemma_one_per_id(new_c, a2, part);
    after.lemma_one_per_id(new_c, b2, part);
    lemma_made_split_part(before, c, index, point, after, c2, a2.id);
    lemma_made_split_part(before, c, index, point, after, c2, b2.id);
    if a2.id == to && b2.id == to {
    } else if a2.id == to {
        lemma_made_split_member(before, c, index, point, after, c2, b2, to);
        before.lemma_no_link_ahead(old_c, before.named(old_c, b2.id), to);
    } else if b2.id == to {
        lemma_made_split_member(before, c, index, point, after, c2, a2, to);
        before.lemma_no_link_ahead(old_c, before.named(old_c, a2.id), to);
    } else {
        lemma_made_split_member(before, c, index, point, after, c2, a2, b2.id);
        lemma_made_split_member(before, c, index, point, after, c2, b2, a2.id);
        let a = before.named(old_c, a2.id);
        let b = before.named(old_c, b2.id);
        assert(degree(a, b.id) == degree(b, a.id));
    }
}

/// After a split every link leads to a segment in play.
pub proof fn lemma_made_split_closed(
    before: GrowthView,
    c: SegmentView,
    index: int,
    point: Point,
    after: GrowthView,
    c2: SegmentView,
    a2: SegmentView,
    x: usize,
)
    requires
        before.numbered(Some(c)),
        before.knit(Some(c)),
        made_split(before, c, index, point, after, c2),
        after.among(Some(c2), a2),
        degree(a2, x) > 0,
    ensures
        after.names(Some(c2), x),
{
    let t = before.segments[index];
    let to = (before.last_id + 1) as usize;
    let moved = t.moved_links(before.segments);
    let kept = kept_links(t, before.segments);
    let old_c = Some(c);
    let new_c = Some(c2);
    let part = after.segments[before.segments.len() as int];
    lemma_made_split_names(before, c, index, point, after, c2);
    assert(before.segments.contains(t));
    assert(before.among(old_c, t));
    assert(before.among(old_c, c));
    after.lemma_one_per_id(new_c, a2, part);
    lemma_made_split_part(before, c, index, point, after, c2, x);
    if x == to {
    } else if x == t.id {
        before.lemma_named(old_c, t);
    } else if x == c.id {
        before.lemma_named(old_c, c);
    } else if a2.id == to {
        assert(occurrences(moved, x) > 0);
        assert(degree(t, x) == occurrences(moved, x) + occurrences(kept, x));
        assert(before.names(old_c, x));
    } else {
        lemma_made_split_member(before, c, index, point, after, c2, a2, x);
        let a = before.named(old_c, a2.id);
        assert(degree(a, x) > 0);
        assert(before.names(old_c, x));
    }
}

/// After a split no segment in play has a link to itself.
pub proof fn lemma_made_split_loopless(
    before: GrowthView,
    c: SegmentView,
    index: int,
    point: Point,
    after: GrowthView,
    c2: SegmentView,
    a2: SegmentView,
)
    requires
        before.numbered(Some(c)),
        before.knit(Some(c)),
        made_split(before, c, index, point, after, c2),
        after.among(Some(c2), a2),
    ensures
        degree(a2, a2.id) == 0,
{
    let t = before.segments[index];
    let from = t.id;
    let to = (before.last_id + 1) as usize;
    let moved = t.moved_links(before.segments);
    let kept = kept_links(t, before.segments);
    let old_c = Some(c);
    let new_c = Some(c2);
    let part = after.segments[before.segments.len() as int];
    lemma_made_split_names(before, c, index, point, after, c2);
    assert(before.segments.contains(t));
    assert(before.among(old_c, t));
    before.lemma_one_per_id(old_c, t, c);
    after.lemma_one_per_id(new_c, a2, part);
    lemma_made_split_part(before, c, index, point, after, c2, a2.id);
    assert(degree(t, to) == occurrences(moved, to) + occurrences(kept, to));
    assert(degree(t, from) == occurrences(moved, from) + occurrences(kept, from));
    before.lemma_no_link_ahead(old_c, t, to);
    if a2.id == to {
    } else {
        lemma_made_split_member(before, c, index, point, after, c2, a2, a2.id);
        let a = before.named(old_c, a2.id);
        assert(degree(a, a.id) == 0);
        before.lemma_no_link_ahead(old_c, a, to);
        if a2.id == c.id {
            if occurrences(moved, c.id) > 0 {
                lemma_found_if_listed(before.segments, moved, c.id);
                let k = first_with_id(before.segments, c.id).unwrap();
                assert(before.segments[k].id != c.id);
            }
        }
    }
}

/// A split keeps every link answered.
pub proof fn lemma_made_split_knit(
    before: GrowthView,
    c: SegmentView,
    index: int,
    point: Point,
    after: GrowthView,
    c2: SegmentView,
)
    requires
        before.numbered(Some(c)),
        before.knit(Some(c)),
        made_split(before, c, index, point, after, c2),
    ensures
        after.knit(Some(c2)),
        after.numbered(Some(c2)),
{
    let new_c = Some(c2);
    lemma_made_split_names(before, c, index, point, after, c2);
    assert forall|a2: SegmentView, b2: SegmentView|
        #[trigger] after.among(new_c, a2) && #[trigger] after.among(new_c, b2) implies degree(
        a2,
        b2.id,
    ) == degree(b2, a2.id) by {
        lemma_made_split_symmetric(before, c, index, point, after, c2, a2, b2);
    }
    assert forall|a2: SegmentView, x: usize|
        #[trigger] after.among(new_c, a2) && #[trigger] degree(a2, x) > 0 implies after.names(
        new_c,
        x,
    ) by {
        lemma_made_split_closed(before, c, index, point, after, c2, a2, x);
    }
    assert forall|a2: SegmentView| #[trigger] after.among(new_c, a2) implies degree(a2, a2.id)
        == 0 by {
        lemma_made_split_loopless(before, c, index, point, after, c2, a2);
    }
}

/// A segment without links has no link to any id.
pub proof fn lemma_no_links(s: SegmentView, x: usize)
    requires
        s.links.b.len() == 0,
        s.links.f.len() == 0,
    ensures
        degree(s, x) == 0,
{
}

impl GrowthView {
    /// Taking a candidate out of the schedule and up keeps every link
    /// answered and every id in its place.
    pub proof fn lemma_taken_knit(self, at: int)
        requires
            self.well_numbered(),
            self.knit(None),
            self.last_id < usize::MAX,
            0 <= at < self.priority_q.len(),
        ensures
            ({
                let rest = GrowthView { priority_q: self.priority_q.remove(at), ..self };
                let taken = rest.enrolled(self.priority_q[at]);
                taken.0.knit(Some(taken.1)) && taken.0.numbered(Some(taken.1))
            }),
    {
        let rest = GrowthView { priority_q: self.priority_q.remove(at), ..self };
        let c = self.priority_q[at];
        let g = rest.enrolled(c).0;
        let d = rest.enrolled(c).1;
        self.lemma_taken_lined_up(at);
        rest.lemma_enrolled_numbered(c);
        let shift = |i: int| if i < at { i } else { i + 1 };
        assert forall|i: int| 0 <= i < rest.priority_q.len() implies #[trigger] rest.priority_q[i]
            == self.priority_q[shift(i)] by {}
        assert(self.priority_q.contains(c));
        assert forall|a: SegmentView| #[trigger] g.among(Some(d), a) && a != d implies self.among(
            None,
            a,
        ) by {
            if g.priority_q.contains(a) && !g.segments.contains(a) {
                let i = choose|i: int| 0 <= i < rest.priority_q.len() && rest.priority_q[i] == a;
                assert(self.priority_q[shift(i)] == a);
            }
        }
        assert forall|a: SegmentView| #[trigger] self.among(None, a) && a != c implies g.among(
            Some(d),
            a,
        ) by {
            if self.priority_q.contains(a) && !self.segments.contains(a) {
                let i = choose|i: int| 0 <= i < self.priority_q.len() && self.priority_q[i] == a;
                if i < at {
                    assert(rest.priority_q[i] == a);
                } else if i > at {
                    assert(rest.priority_q[i - 1] == a);
                }
            }
        }
        assert(g.among(Some(d), d));
        if c.prev_segment_to_link.is_some() {
            assert(d.links == c.links);
            assert(d.id > self.last_id);
            assert forall|a: SegmentView, x: usize|
                #[trigger] g.among(Some(d), a) && #[trigger] degree(a, x) > 0 implies g.names(
                Some(d),
                x,
            ) by {
                if a == d {
                    lemma_no_links(d, x);
                } else {
                    assert(self.names(None, x));
                    let b = self.named(None, x);
                    assert(g.among(Some(d), b));
                }
            }
            assert forall|a: SegmentView, b: SegmentView|
                #[trigger] g.among(Some(d), a) && #[trigger] g.among(Some(d), b) implies degree(
                a,
                b.id,
            ) == degree(b, a.id) by {
                if a == d {
                    lemma_no_links(d, b.id);
                    if b == d {
                        lemma_no_links(d, a.id);
                    } else {
                        self.lemma_no_link_ahead(None, b, d.id);
                    }
                } else if b == d {
                    lemma_no_links(d, a.id);
                    self.lemma_no_link_ahead(None, a, d.id);
                } else {
                    assert(self.among(None, a) && self.among(None, b));
                }
            }
            assert forall|a: SegmentView| #[trigger] g.among(Some(d), a) implies degree(a, a.id)
                == 0 by {
                if a == d {
                    lemma_no_links(d, d.id);
                } else {
                    assert(self.among(None, a));
                }
            }
        } else {
            assert(self.among(None, c));
            assert forall|a: SegmentView, x: usize|
                #[trigger] g.among(Some(d), a) && #[trigger] degree(a, x) > 0 implies g.names(
                Some(d),
                x,
            ) by {
                assert(self.among(None, a));
                assert(self.names(None, x));
                let b = self.named(None, x);
                assert(g.among(Some(d), b));
            }
            assert forall|a: SegmentView, b: SegmentView|
                #[trigger] g.among(Some(d), a) && #[trigger] g.among(Some(d), b) implies degree(
                a,
                b.id,
            ) == degree(b, a.id) by {
                assert(self.among(None, a) && self.among(None, b));
            }
            assert forall|a: SegmentView| #[trigger] g.among(Some(d), a) implies degree(a, a.id)
                == 0 by {
                assert(self.among(None, a));
            }
        }
        assert forall|q: SegmentView| #[trigger]
            g.priority_q.contains(q) && q.prev_segment_to_link.is_some() implies q.links.b.len()
            == 0 && q.links.f.len() == 0 by {
            assert(self.priority_q.contains(q)) by {
                let i = choose|i: int| 0 <= i < rest.priority_q.len() && rest.priority_q[i] == q;
                assert(self.priority_q[shift(i)] == q);
            }
        }
    }

    /// Dropping a candidate that has no links keeps every link answered.
    pub proof fn lemma_dropped_knit(self, c: SegmentView)
        requires
            self.knit(Some(c)),
            c.links.b.len() == 0,
            c.links.f.len() == 0,
        ensures
            self.knit(None),
    {
        assert forall|a: SegmentView, x: usize|
            #[trigger] self.among(None, a) && #[trigger] degree(a, x) > 0 implies self.names(
            None,
            x,
        ) by {
            assert(self.among(Some(c), a));
            assert(self.names(Some(c), x));
            let b = self.named(Some(c), x);
            if self.segments.contains(b) || (self.priority_q.contains(b)
                && b.prev_segment_to_link.is_none()) {
                assert(self.among(None, b));
            } else {
                assert(b == c);
                assert(self.among(Some(c), c));
                assert(degree(a, c.id) == degree(c, a.id));
                lemma_no_links(c, a.id);
            }
        }
        assert forall|a: SegmentView, b: SegmentView|
            #[trigger] self.among(None, a) && #[trigger] self.among(None, b) implies degree(
            a,
            b.id,
        ) == degree(b, a.id) by {
            assert(self.among(Some(c), a) && self.among(Some(c), b));
        }
        assert forall|a: SegmentView| #[trigger] self.among(None, a) implies degree(a, a.id)
            == 0 by {
            assert(self.among(Some(c), a));
        }
    }

    /// The links of the candidate in hand are all that counts of it: a
    /// candidate with the same id and the same links does as well.
    pub proof fn lemma_same_links_knit(self, c: SegmentView, d: SegmentView)
        requires
            self.numbered(Some(c)),
            self.knit(Some(c)),
            d.id == c.id,
            d.links == c.links,
        ensures
            self.knit(Some(d)),
            self.numbered(Some(d)),
    {
        let swap = |a: SegmentView| if a == d { c } else { a };
        assert forall|a: SegmentView| #[trigger] self.among(Some(d), a) implies self.among(
            Some(c),
            swap(a),
        ) && swap(a).id == a.id && swap(a).links == a.links by {
            if self.segments.contains(a) || self.priority_q.contains(a) {
                assert(self.among(Some(c), a));
                if a == d {
                    self.lemma_one_per_id(Some(c), a, c);
                }
            }
        }
        assert forall|a: SegmentView, b: SegmentView|
            #[trigger] self.among(Some(d), a) && #[trigger] self.among(Some(d), b) implies degree(
            a,
            b.id,
        ) == degree(b, a.id) by {
            assert(self.among(Some(c), swap(a)) && self.among(Some(c), swap(b)));
            assert(degree(swap(a), swap(b).id) == degree(swap(b), swap(a).id));
        }
        assert forall|a: SegmentView, x: usize|
            #[trigger] self.among(Some(d), a) && #[trigger] degree(a, x) > 0 implies self.names(
            Some(d),
            x,
        ) by {
            assert(self.among(Some(c), swap(a)));
            assert(degree(swap(a), x) > 0);
            assert(self.names(Some(c), x));
            let b = self.named(Some(c), x);
            if Some(c) == Some(b) {
                assert(self.among(Some(d), d));
            } else {
                assert(self.among(Some(d), b));
            }
        }
        assert forall|a: SegmentView| #[trigger] self.among(Some(d), a) implies degree(a, a.id)
            == 0 by {
            assert(self.among(Some(c), swap(a)));
            assert(degree(swap(a), swap(a).id) == 0);
        }
    }

    /// When the candidate in hand joins the accepted segments and its
    /// successors, which have no links yet, join the schedule, every link
    /// is still answered.
    pub proof fn lemma_settled_knit(self, c: SegmentView, survey: Survey)
        requires
            self.numbered(Some(c)),
            self.knit(Some(c)),
        ensures
            self.settled_in(c, survey).knit(None),
            self.settled_in(c, survey).numbered(None),
    {
        self.lemma_settled_numbered(c, survey);
        let after = self.settled_in(c, survey);
        let kids = c.sprouts(survey);
        let queued = scheduled(kids, c.t);
        let joined = after.segments[self.segments.len() as int];
        let accepted = self.segments.len() as int;
        let waiting = self.priority_q.len() as int;
        assert(joined.id == c.id && joined.links == c.links);
        assert forall|j: int| 0 <= j < queued.len() implies {
            &&& (#[trigger] queued[j]).links.b.len() == 0
            &&& queued[j].links.f.len() == 0
            &&& queued[j].prev_segment_to_link.is_some()
        } by {
            assert(queued[j].id == kids[j].id);
        }
        let origin = |a: SegmentView|
            if a.id == c.id && a.links == c.links {
                c
            } else {
                a
            };
        assert(self.among(Some(c), c));
        // each segment in play afterwards is an old one or the candidate
        assert forall|a: SegmentView| #[trigger] after.among(None, a) implies self.among(
            Some(c),
            origin(a),
        ) && origin(a).id == a.id && origin(a).links == a.links by {
            if after.segments.contains(a) {
                let i = choose|i: int| 0 <= i < after.segments.len() && after.segments[i] == a;
                if i < accepted {
                    assert(self.segments.contains(self.segments[i]));
                }
            } else {
                let i = choose|i: int| 0 <= i < after.priority_q.len() && after.priority_q[i] == a;
                if i < waiting {
                    assert(self.priority_q.contains(self.priority_q[i]));
                } else {
                    assert(a == queued[i - waiting]);
                }
            }
        }
        assert(after.segments.contains(joined));
        assert forall|x: usize| self.names(Some(c), x) implies after.names(None, x) by {
            let b = self.named(Some(c), x);
            if self.segments.contains(b) {
                let i = choose|i: int| 0 <= i < self.segments.len() && self.segments[i] == b;
                assert(after.segments[i] == b);
                assert(after.segments.contains(b));
                assert(after.among(None, b));
            } else if self.priority_q.contains(b) && b.prev_segment_to_link.is_none() {
                let i = choose|i: int| 0 <= i < self.priority_q.len() && self.priority_q[i] == b;
                assert(after.priority_q[i] == b);
                assert(after.priority_q.contains(b));
                assert(after.among(None, b));
            } else {
                assert(after.among(None, joined));
            }
        }
        assert forall|a: SegmentView, b: SegmentView|
            #[trigger] after.among(None, a) && #[trigger] after.among(None, b) implies degree(
            a,
            b.id,
        ) == degree(b, a.id) by {
            assert(self.among(Some(c), origin(a)) && self.among(Some(c), origin(b)));
            assert(degree(origin(a), origin(b).id) == degree(origin(b), origin(a).id));
        }
        assert forall|a: SegmentView, x: usize|
            #[trigger] after.among(None, a) && #[trigger] degree(a, x) > 0 implies after.names(
            None,
            x,
        ) by {
            assert(self.among(Some(c), origin(a)));
            assert(degree(origin(a), x) == degree(a, x));
            assert(self.names(Some(c), x));
        }
        assert forall|a: SegmentView| #[trigger] after.among(None, a) implies degree(a, a.id)
            == 0 by {
            assert(self.among(Some(c), origin(a)));
            assert(degree(origin(a), origin(a).id) == 0);
        }
        assert forall|q: SegmentView| #[trigger]
            after.priority_q.contains(q) && q.prev_segment_to_link.is_some() implies q.links.b.len()
            == 0 && q.links.f.len() == 0 by {
            let i = choose|i: int| 0 <= i < after.priority_q.len() && after.priority_q[i] == q;
            if i < waiting {
                assert(self.priority_q.contains(self.priority_q[i]));
            } else {
                assert(q == queued[i - waiting]);
            }
        }
    }
}

/// A change that the scan chooses is a change to one of the accepted
/// segments.
pub proof fn lemma_choice_is_accepted(
    segments: Seq<SegmentView>,
    c: crate::segment::Road,
    found: Seq<CollisionLimits>,
)
    requires
        segments.len() <= usize::MAX,
    ensures
        scanned(segments, c, found, found.len() as int).action.is_some() ==> scanned(
            segments,
            c,
            found,
            found.len() as int,
        ).this_road_index < segments.len(),
{
    let choice = scanned(segments, c, found, found.len() as int);
    lemma_scan_takes_the_most_urgent(segments, c, found, found.len() as int);
    if choice.action.is_some() {
        let m = choose|m: int|
            #[trigger] is_last_call(segments, c, found, found.len() as int, choice, m);
        lemma_position_found(ids_of(segments), found[m].id.unwrap());
    }
}

impl GrowthView {
    /// The state is no larger than the growth lets it become.
    pub open spec fn small(self) -> bool {
        self.small_with(0)
    }

    /// As `small`, with room for `extra` ids that a round has given out
    /// before the candidate in hand is accepted.
    pub open spec fn small_with(self, extra: int) -> bool {
        &&& self.segments.len() <= SEGMENT_COUNT_LIMIT + 1
        &&& self.last_id <= 3 + extra + 4 * self.segments.len()
    }

    /// Splitting the accepted segment at `index` for the candidate in
    /// hand keeps every link answered.
    pub proof fn lemma_with_split_knit(self, c: SegmentView, index: int, point: Point)
        requires
            self.small_with(1),
            self.numbered(Some(c)),
            self.knit(Some(c)),
            0 <= index < self.segments.len(),
            self.segments[index].split_ready(self.segments),
        ensures
            ({
                let n = self.segments[index];
                let joined = c.joined(
                    n.id,
                    (self.last_id + 1) as usize,
                    n.start_is_backwards(self.segments),
                );
                &&& self.with_split(index, point, c.id).knit(Some(joined))
                &&& self.with_split(index, point, c.id).numbered(Some(joined))
            }),
    {
        let n = self.segments[index];
        let to = (self.last_id + 1) as usize;
        let joined = c.joined(n.id, to, n.start_is_backwards(self.segments));
        assert forall|x: usize| #[trigger]
            degree(joined, x) == degree(c, x) + one_if(x, to) + one_if(x, n.id) by {
            lemma_occurrences_push(c.links.f, to, x);
            lemma_occurrences_push(c.links.f, n.id, x);
            lemma_occurrences_push(c.links.f.push(to), n.id, x);
            lemma_occurrences_push(c.links.f.push(n.id), to, x);
        }
        lemma_made_split_knit(self, c, index, point, self.with_split(index, point, c.id), joined);
    }

    /// Fitting the candidate in hand to the accepted segments keeps every
    /// link answered, where it is accepted.
    pub proof fn lemma_constrained_knit(self, c: SegmentView)
        requires
            self.small_with(1),
            self.numbered(Some(c)),
            self.knit(Some(c)),
            self.constrained(c) matches Some(v) && v.accepted,
        ensures
            self.constrained(c).unwrap().state.knit(Some(self.constrained(c).unwrap().segment)),
            self.constrained(c).unwrap().state.numbered(
                Some(self.constrained(c).unwrap().segment),
            ),
            self.constrained(c).unwrap().state.last_id + self.segments.len() == self.last_id
                + self.constrained(c).unwrap().state.segments.len(),
            self.constrained(c).unwrap().state.segments.len() <= self.segments.len() + 1,
            self.constrained(c).unwrap().state.priority_q == self.priority_q,
    {
        let v = self.constrained(c).unwrap();
        let measured = SegmentView { collider: c.collider.refreshed(), ..c };
        let found = self.quad_tree.retrieve(c.collider.limits());
        let choice = scanned(self.segments, c.r, found, found.len() as int);
        let index = choice.this_road_index as int;
        let n = self.segments[index];
        lemma_choice_is_accepted(self.segments, c.r, found);
        self.lemma_same_links_knit(c, measured);
        match choice.action {
            None => {},
            Some(LocalConstraintsAction::IntersectionAction) => {
                self.lemma_with_split_knit(measured, index, choice.point);
                let joined = measured.joined(
                    n.id,
                    (self.last_id + 1) as usize,
                    n.start_is_backwards(self.segments),
                );
                self.with_split(index, choice.point, c.id).lemma_same_links_knit(
                    joined,
                    v.segment,
                );
                lemma_rewired_keeps(
                    self.segments,
                    n.moved_links(self.segments),
                    n.moved_links(self.segments).len() as int,
                    n.id,
                    (self.last_id + 1) as usize,
                );
            },
            Some(LocalConstraintsAction::SnapAction) => {
                let moved = measured.severed_at(choice.point);
                self.lemma_same_links_knit(measured, moved);
                self.lemma_with_split_knit(moved, index, choice.point);
                lemma_rewired_keeps(
                    self.segments,
                    n.moved_links(self.segments),
                    n.moved_links(self.segments).len() as int,
                    n.id,
                    (self.last_id + 1) as usize,
                );
            },
            Some(LocalConstraintsAction::RadiusAction) => {
                let moved = measured.severed_at(n.r.end);
                self.lemma_same_links_knit(measured, moved);
                self.lemma_end_snapped_knit(moved, index);
            },
        }
    }

    /// Snapping the candidate in hand to the end of the accepted segment
    /// at `index` keeps every link answered.
    pub proof fn lemma_end_snapped_knit(self, moved: SegmentView, index: int)
        requires
            self.small_with(1),
            self.numbered(Some(moved)),
            self.knit(Some(moved)),
            0 <= index < self.segments.len(),
            self.segments[index].oriented_in(self.segments),
            !duplicated(
                self.segments,
                if self.segments[index].start_is_backwards(self.segments) {
                    self.segments[index].links.f
                } else {
                    self.segments[index].links.b
                },
                moved.r,
            ),
        ensures
            ({
                let n = self.segments[index];
                let backwards = n.start_is_backwards(self.segments);
                let links = if backwards {
                    n.links.f
                } else {
                    n.links.b
                };
                let told = announced(self.segments, links, links.len() as int, n.id, moved.id);
                let heard = hearers(self.segments, links, links.len() as int, n.id, moved.id);
                let shared = SegmentView {
                    links: if backwards {
                        LinkView { f: links.push(moved.id), ..n.links }
                    } else {
                        LinkView { b: links.push(moved.id), ..n.links }
                    },
                    ..n
                };
                let after = GrowthView { segments: told.update(index, shared), ..self };
                let c2 = SegmentView {
                    links: LinkView { f: (moved.links.f + heard).push(n.id), ..moved.links },
                    ..moved
                };
                after.knit(Some(c2)) && after.numbered(Some(c2)) && after.segments.len()
                    == self.segments.len()
            }),
    {
        let n = self.segments[index];
        let backwards = n.start_is_backwards(self.segments);
        let links = if backwards {
            n.links.f
        } else {
            n.links.b
        };
        let told = announced(self.segments, links, links.len() as int, n.id, moved.id);
        let heard = hearers(self.segments, links, links.len() as int, n.id, moved.id);
        let shared = SegmentView {
            links: if backwards {
                LinkView { f: links.push(moved.id), ..n.links }
            } else {
                LinkView { b: links.push(moved.id), ..n.links }
            },
            ..n
        };
        let after = GrowthView { segments: told.update(index, shared), ..self };
        let c2 = SegmentView {
            links: LinkView { f: (moved.links.f + heard).push(n.id), ..moved.links },
            ..moved
        };
        lemma_announced_keeps(self.segments, links, links.len() as int, n.id, moved.id);
        assert(self.segments.contains(n));
        assert(self.among(Some(moved), n));
        self.lemma_one_per_id(Some(moved), n, moved);
        assert(all_found(self.segments, links)) by {
            assert forall|j: int| 0 <= j < links.len() implies (#[trigger] first_with_id(
                self.segments,
                links[j],
            )).is_some() by {
                assert(!blocks(self.segments, links[j], moved.r));
            }
        }
        assert forall|j: int| 0 <= j < links.len() implies (#[trigger] first_with_id(
            self.segments,
            links[j],
        )).is_some() && self.segments[first_with_id(self.segments, links[j]).unwrap()].holds(
            n.id,
        ) by {
            let k = first_with_id(self.segments, links[j]).unwrap();
            lemma_position_found(ids_of(self.segments), links[j]);
            let other = self.segments[k];
            assert(self.segments.contains(other));
            assert(self.among(Some(moved), other));
            assert(degree(other, n.id) == degree(n, other.id));
            assert(links.contains(links[j]));
            lemma_occurrences_contains(links, other.id);
            lemma_occurrences_contains(other.links.b, n.id);
            lemma_occurrences_contains(other.links.f, n.id);
        }
        lemma_all_hear(self.segments, links, links.len() as int, n.id, moved.id);
        assert(links.take(links.len() as int) =~= links);
        assert forall|x: usize| #[trigger]
            degree(c2, x) == degree(moved, x) + occurrences(links, x) + one_if(x, n.id) by {
            lemma_occurrences_concat(moved.links.f, links, x);
            lemma_occurrences_push(moved.links.f + links, n.id, x);
        }
        assert forall|x: usize| #[trigger]
            degree(shared, x) == degree(n, x) + one_if(x, moved.id) by {
            lemma_occurrences_push(links, moved.id, x);
        }
        lemma_made_known_knit(self, moved, index, links, after, c2);
    }

    /// Linking the candidate in hand behind its parent keeps every link
    /// answered.
    pub proof fn lemma_linked_behind_knit(self, c: SegmentView)
        requires
            self.numbered(Some(c)),
            self.knit(Some(c)),
            self.linked_behind(c).is_some(),
        ensures
            self.linked_behind(c).unwrap().0.knit(Some(self.linked_behind(c).unwrap().1)),
            self.linked_behind(c).unwrap().0.numbered(Some(self.linked_behind(c).unwrap().1)),
            self.linked_behind(c).unwrap().0.segments.len() == self.segments.len(),
            self.linked_behind(c).unwrap().0.last_id == self.last_id,
    {
        match c.prev_segment_to_link {
            None => {},
            Some(parent) => {
                let at = first_with_id(self.segments, parent).unwrap();
                lemma_position_found(ids_of(self.segments), parent);
                let p = self.segments[at];
                let links = p.links.f;
                let after = self.linked_behind(c).unwrap().0;
                let c2 = self.linked_behind(c).unwrap().1;
                lemma_announced_keeps(self.segments, links, links.len() as int, parent, c.id);
                assert forall|x: usize| #[trigger]
                    degree(c2, x) == degree(c, x) + occurrences(links, x) + one_if(x, p.id) by {
                    lemma_occurrences_concat(c.links.b, links, x);
                    lemma_occurrences_push(c.links.b + links, p.id, x);
                }
                assert forall|x: usize| #[trigger]
                    degree(after.segments[at], x) == degree(p, x) + one_if(x, c.id) by {
                    lemma_occurrences_push(links, c.id, x);
                }
                lemma_made_known_knit(self, c, at, links, after, c2);
            },
        }
    }
}

impl GrowthView {
    /// Before the first round every link is answered: the two highways
    /// that wait have a link to each other.
    pub proof fn lemma_initial_knit()
        ensures
            GrowthView::initial().knit(None),
            GrowthView::initial().well_numbered(),
    {
        let g = GrowthView::initial();
        let root = g.priority_q[0];
        let opposite = g.priority_q[1];
        let none = Seq::<usize>::empty();
        assert(root.links.b =~= none.push(2usize) && root.links.f =~= none);
        assert(opposite.links.b =~= none.push(1usize) && opposite.links.f =~= none);
        assert forall|x: usize|
            degree(root, x) == one_if(x, 2) && degree(opposite, x) == one_if(x, 1) by {
            lemma_occurrences_push(none, 2usize, x);
            lemma_occurrences_push(none, 1usize, x);
        }
        assert forall|a: SegmentView| #[trigger] g.among(None, a) implies a == root || a
            == opposite by {
            if g.priority_q.contains(a) {
                let i = choose|i: int| 0 <= i < g.priority_q.len() && g.priority_q[i] == a;
                assert(i == 0 || i == 1);
            }
        }
        assert(g.priority_q.contains(root) && g.priority_q.contains(opposite));
        assert(g.among(None, root) && g.among(None, opposite));
        assert forall|a: SegmentView, x: usize|
            #[trigger] g.among(None, a) && #[trigger] degree(a, x) > 0 implies g.names(
            None,
            x,
        ) by {
            assert(degree(root, x) == one_if(x, 2) && degree(opposite, x) == one_if(x, 1));
        }
        assert forall|a: SegmentView, b: SegmentView|
            #[trigger] g.among(None, a) && #[trigger] g.among(None, b) implies degree(a, b.id)
            == degree(b, a.id) by {
            assert(degree(root, b.id) == one_if(b.id, 2) && degree(opposite, b.id) == one_if(
                b.id,
                1,
            ));
            assert(degree(root, a.id) == one_if(a.id, 2) && degree(opposite, a.id) == one_if(
                a.id,
                1,
            ));
        }
        assert forall|a: SegmentView| #[trigger] g.among(None, a) implies degree(a, a.id)
            == 0 by {
            assert(degree(root, a.id) == one_if(a.id, 2) && degree(opposite, a.id) == one_if(
                a.id,
                1,
            ));
        }
    }

    /// A round that turns the candidate down leaves the state as it was,
    /// and every link answered if the candidate had no links.
    pub proof fn lemma_round_turned_down(self, c: SegmentView)
        requires
            self.knit(Some(c)),
            c.links.b.len() == 0,
            c.links.f.len() == 0,
            self.constrained(c) matches Some(v) && !v.accepted,
        ensures
            self.constrained(c).unwrap().state == self,
            self.knit(None),
    {
        self.lemma_dropped_knit(c);
    }

    /// A round that accepts the candidate keeps every link answered.
    pub proof fn lemma_round_accepted(self, c: SegmentView, survey: Survey)
        requires
            self.small_with(1),
            self.segments.len() < SEGMENT_COUNT_LIMIT,
            self.numbered(Some(c)),
            self.knit(Some(c)),
            self.constrained(c) matches Some(v) && v.accepted && v.state.linked_behind(
                v.segment,
            ).is_some(),
        ensures
            ({
                let v = self.constrained(c).unwrap();
                let linked = v.state.linked_behind(v.segment).unwrap();
                let after = linked.0.settled_in(linked.1, survey);
                &&& after.knit(None)
                &&& after.well_numbered()
                &&& after.small()
                &&& after.priority_q == self.priority_q + scheduled(
                    linked.1.sprouts(survey),
                    linked.1.t,
                )
                &&& after.last_id + self.segments.len() + 1 == self.last_id
                    + after.segments.len()
            }),
    {
        let v = self.constrained(c).unwrap();
        self.lemma_constrained_knit(c);
        v.state.lemma_linked_behind_knit(v.segment);
        let linked = v.state.linked_behind(v.segment).unwrap();
        assert(linked.0.priority_q == v.state.priority_q) by {
            match v.segment.prev_segment_to_link {
                None => {},
                Some(parent) => {},
            }
        }
        linked.0.lemma_settled_knit(linked.1, survey);
        let kids = linked.1.sprouts(survey);
        assert(kids.len() <= 3);
    }

    /// A round keeps every link answered, unless it turns down a candidate
    /// that has no parent: such a candidate may have links that would be
    /// left without an answer.
    pub proof fn lemma_round_keeps_links(self, survey: Survey)
        requires
            self.small(),
            self.well_numbered(),
            self.knit(None),
            self.growing(),
            self.advanced(survey).is_some(),
            self.advanced(survey).unwrap().0 || self.priority_q[self.earliest(
            )].prev_segment_to_link.is_some(),
        ensures
            self.advanced(survey).unwrap().1.knit(None),
            self.advanced(survey).unwrap().1.well_numbered(),
            self.advanced(survey).unwrap().1.small(),
            self.parented() ==> self.advanced(survey).unwrap().1.parented(),
            self.counted() ==> self.advanced(survey).unwrap().1.counted(),
    {
        lemma_first_extremes_exist(times(self.priority_q));
        let at = self.earliest();
        let c = self.priority_q[at];
        let rest = GrowthView { priority_q: self.priority_q.remove(at), ..self };
        let g = rest.enrolled(c).0;
        let d = rest.enrolled(c).1;
        self.lemma_taken_knit(at);
        self.lemma_taken_lined_up(at);
        let v = g.constrained(d).unwrap();
        let after = self.advanced(survey).unwrap().1;
        let shift = |i: int| if i < at { i } else { i + 1 };
        assert forall|i: int| 0 <= i < rest.priority_q.len() implies #[trigger] rest.priority_q[i]
            == self.priority_q[shift(i)] by {}
        assert(g.priority_q == rest.priority_q);
        if !v.accepted {
            assert(self.priority_q.contains(c));
            assert(d.links == c.links);
            g.lemma_round_turned_down(d);
            assert(after == rest);
            g.lemma_same_play(rest);
            if self.parented() {
                assert forall|j: int| 0 <= j < rest.priority_q.len() implies (
                #[trigger] rest.priority_q[j]).prev_segment_to_link.is_some() by {
                    assert(self.priority_q[shift(j)].prev_segment_to_link.is_some());
                }
            }
        } else {
            g.lemma_round_accepted(d, survey);
            let linked = v.state.linked_behind(v.segment).unwrap();
            let kids = linked.1.sprouts(survey);
            if self.parented() {
                assert forall|j: int| 0 <= j < after.priority_q.len() implies (
                #[trigger] after.priority_q[j]).prev_segment_to_link.is_some() by {
                    if j < rest.priority_q.len() {
                        assert(self.priority_q[shift(j)].prev_segment_to_link.is_some());
                    } else {
                        let i = j - rest.priority_q.len();
                        assert(after.priority_q[j] == scheduled(kids, linked.1.t)[i]);
                    }
                }
            }
        }
    }

    /// Whether every link is answered is a matter of the segments in play
    /// alone.
    pub proof fn lemma_same_play(self, other: GrowthView)
        requires
            self.knit(None),
            other.segments == self.segments,
            other.priority_q == self.priority_q,
        ensures
            other.knit(None),
    {
        assert forall|a: SegmentView| #[trigger] other.among(None, a) implies self.among(
            None,
            a,
        ) by {}
        assert forall|a: SegmentView, x: usize|
            #[trigger] other.among(None, a) && #[trigger] degree(a, x) > 0 implies other.names(
            None,
            x,
        ) by {
            assert(self.among(None, a));
            assert(self.names(None, x));
            let b = self.named(None, x);
            assert(other.among(None, b));
        }
        assert forall|a: SegmentView, b: SegmentView|
            #[trigger] other.among(None, a) && #[trigger] other.among(None, b) implies degree(
            a,
            b.id,
        ) == degree(b, a.id) by {
            assert(self.among(None, a) && self.among(None, b));
        }
    }

    /// No candidate without a parent waits, and the ids that have been
    /// given out are as many as the accepted segments.
    pub open spec fn counted(self) -> bool {
        self.parented() && self.last_id == self.segments.len()
    }

    /// An accepted segment has the id `k`.
    pub open spec fn accepts(self, k: usize) -> bool {
        exists|i: int| 0 <= i < self.segments.len() && (#[trigger] self.segments[i]).id == k
    }

    /// Where the ids that have been given out are as many as the accepted
    /// segments, each of them is the id of an accepted segment.
    pub proof fn lemma_counted_is_dense(self, k: usize)
        requires
            self.well_numbered(),
            self.counted(),
            1 <= k <= self.segments.len(),
        ensures
            self.accepts(k),
    {
        assert(self.given(k));
        if exists|j: int| 0 <= j < self.priority_q.len() && (#[trigger] self.priority_q[j]).id == k {
            let j = choose|j: int|
                0 <= j < self.priority_q.len() && (#[trigger] self.priority_q[j]).id == k;
            assert(self.priority_q[j].prev_segment_to_link.is_some());
        }
    }

    /// Every candidate that waits has a parent.
    pub open spec fn parented(self) -> bool {
        forall|j: int|
            0 <= j < self.priority_q.len() ==> (
            #[trigger] self.priority_q[j]).prev_segment_to_link.is_some()
    }

    /// Once no candidate without a parent waits, every link of an accepted
    /// segment leads to an accepted segment that has a link back.
    pub proof fn lemma_links_are_mutual(self, i: int, x: usize)
        requires
            self.well_numbered(),
            self.knit(None),
            self.parented(),
            0 <= i < self.segments.len(),
            self.segments[i].holds(x),
        ensures
            exists|j: int|
                0 <= j < self.segments.len() && (#[trigger] self.segments[j]).id == x
                    && self.segments[j].holds(self.segments[i].id),
    {
        let s = self.segments[i];
        assert(self.segments.contains(s));
        assert(self.among(None, s));
        lemma_occurrences_contains(s.links.b, x);
        lemma_occurrences_contains(s.links.f, x);
        assert(degree(s, x) > 0);
        assert(self.names(None, x));
        let b = self.named(None, x);
        assert(degree(b, s.id) == degree(s, b.id));
        lemma_occurrences_contains(b.links.b, s.id);
        lemma_occurrences_contains(b.links.f, s.id);
        if self.priority_q.contains(b) {
            let j = choose|j: int| 0 <= j < self.priority_q.len() && self.priority_q[j] == b;
            assert(self.priority_q[j].prev_segment_to_link.is_some());
            lemma_no_links(b, s.id);
        }
        let j = choose|j: int| 0 <= j < self.segments.len() && self.segments[j] == b;
        assert(self.segments[j].id == x);
    }
}

/// Where no accepted road calls for a change, the scan chooses none.
pub proof fn lemma_quiet_scan(
    segments: Seq<SegmentView>,
    c: Road,
    found: Seq<CollisionLimits>,
    n: int,
)
    requires
        0 <= n <= found.len(),
        segments.len() <= usize::MAX,
        forall|at: int| 0 <= at < segments.len() ==> urgency(c, (#[trigger] segments[at]).r) == 0,
    ensures
        scanned(segments, c, found, n) == LocalConstraints::nothing(),
    decreases n,
{
    if n > 0 {
        lemma_quiet_scan(segments, c, found, n - 1);
        match named(segments, found, n - 1) {
            Some(at) => {
                lemma_position_found(ids_of(segments), found[n - 1].id.unwrap());
                lemma_considered(LocalConstraints::nothing(), c, segments[at].r, at);
            },
            None => {},
        }
    }
}

/// The road of the first highway and the road of the second.
pub open spec fn root_road() -> Road {
    Road { start: Point { x: 0, y: 0 }, end: Point { x: HIGHWAY_SEGMENT_LENGTH, y: 0 } }
}

/// The road of the second highway.
pub open spec fn opposite_road() -> Road {
    Road {
        start: Point { x: 0, y: 0 },
        end: Point { x: (0 - HIGHWAY_SEGMENT_LENGTH) as i64, y: 0 },
    }
}

/// The second highway calls for no change to the first: the two leave
/// the origin in opposite directions.
pub proof fn lemma_roots_keep_apart()
    ensures
        urgency(opposite_road(), root_road()) == 0,
{
    let c = opposite_road();
    let n = root_road();
    assert(HIGHWAY_SEGMENT_LENGTH == 4000000);
    let gap = n.end@.minus(c.end@);
    assert(gap.x == 8000000 && gap.y == 0);
    assert(gap.norm2() == 64000000000000) by (nonlinear_arith)
        requires gap.x == 8000000, gap.y == 0;
    assert(is_floor_sqrt(64000000000000, 8000000)) by (nonlinear_arith);
    lemma_floor_sqrt_unique(64000000000000, 8000000, floor_sqrt(64000000000000));
    let r = c.end@.minus(c.start@);
    let s = n.end@.minus(n.start@);
    assert(r.cross(s) == 0) by (nonlinear_arith)
        requires r.x == -4000000, r.y == 0, s.x == 4000000, s.y == 0;
    let from_start = c.end@.minus(n.start@);
    let along = n.end@.minus(n.start@);
    assert(from_start.dot(along) == -16000000000000) by (nonlinear_arith)
        requires from_start.x == -4000000, from_start.y == 0, along.x == 4000000, along.y == 0;
    assert(along.norm2() == 16000000000000) by (nonlinear_arith)
        requires along.x == 4000000, along.y == 0;
    assert(along.x * from_start.dot(along) == -64000000000000000000) by (nonlinear_arith)
        requires along.x == 4000000, from_start.dot(along) == -16000000000000;
    assert(64000000000000000000int / 16000000000000 == 4000000) by (nonlinear_arith);
    let foot = crate::math::spec_project(from_start, along);
    assert(foot.x == -4000000);
    assert(foot.norm2() > 0) by (nonlinear_arith)
        requires foot.x == -4000000, foot.norm2() == foot.x * foot.x + foot.y * foot.y;
}

/// The state that the rounds played for `surveys`, one after the other,
/// lead to from the state before the first round; none where one of the
/// rounds cannot be played or fails.
pub open spec fn reached(surveys: Seq<Survey>) -> Option<GrowthView>
    decreases surveys.len(),
{
    if surveys.len() == 0 {
        Some(GrowthView::initial())
    } else {
        match reached(surveys.drop_last()) {
            Some(g) => if g.growing() {
                match g.advanced(surveys.last()) {
                    Some(round) => Some(round.1),
                    None => None,
                }
            } else {
                None
            },
            None => None,
        }
    }
}

impl GrowthView {
    /// The state after the first round: the first highway is accepted as
    /// it was made, the second is next in the schedule, and whatever
    /// waits behind it has a parent and is due later.
    pub open spec fn hatched(self) -> bool {
        &&& self.segments.len() == 1
        &&& self.segments[0].r == root_road()
        &&& self.priority_q.len() >= 1
        &&& self.priority_q[0] == GrowthView::initial().priority_q[1]
        &&& forall|j: int|
            1 <= j < self.priority_q.len() ==> (#[trigger] self.priority_q[j]).t >= 1
                && self.priority_q[j].prev_segment_to_link.is_some()
        &&& self.knit(None)
        &&& self.well_numbered()
        &&& self.small()
        &&& self.last_id == 2
    }

    /// The first round accepts the first highway.
    pub proof fn lemma_first_round(survey: Survey)
        requires
            GrowthView::initial().advanced(survey).is_some(),
        ensures
            GrowthView::initial().advanced(survey).unwrap().0,
            GrowthView::initial().advanced(survey).unwrap().1.hatched(),
    {
        let g = GrowthView::initial();
        GrowthView::lemma_initial_knit();
        assert(times(g.priority_q)[0] == 0 && times(g.priority_q)[1] == 0);
        assert(is_first_min(times(g.priority_q), 0));
        lemma_first_min_unique(times(g.priority_q), 0);
        let c = g.priority_q[0];
        let rest = GrowthView { priority_q: g.priority_q.remove(0), ..g };
        assert(rest.priority_q.len() == 1 && rest.priority_q[0] == g.priority_q[1]);
        let found = rest.quad_tree.retrieve(c.collider.limits());
        lemma_quiet_scan(rest.segments, c.r, found, found.len() as int);
        let v = rest.constrained(c).unwrap();
        assert(v.accepted && v.state == rest);
        assert(v.segment.prev_segment_to_link.is_none());
        assert(v.state.linked_behind(v.segment) == Some((v.state, v.segment)));
        let after = rest.settled_in(v.segment, survey);
        assert(g.advanced(survey) == Some((true, after)));
        g.lemma_round_keeps_links(survey);
        let kids = v.segment.sprouts(survey);
        assert forall|j: int| 1 <= j < after.priority_q.len() implies (#[trigger] after.priority_q[
            j
        ]).t >= 1 && after.priority_q[j].prev_segment_to_link.is_some() by {
            assert(after.priority_q[j] == scheduled(kids, v.segment.t)[j - 1]);
        }
        assert(after.priority_q[0] == rest.priority_q[0]);
    }

    /// The second round accepts the second highway; after it every
    /// candidate that waits has a parent.
    pub proof fn lemma_second_round(self, survey: Survey)
        requires
            self.hatched(),
            self.advanced(survey).is_some(),
        ensures
            self.advanced(survey).unwrap().0,
            self.advanced(survey).unwrap().1.knit(None),
            self.advanced(survey).unwrap().1.well_numbered(),
            self.advanced(survey).unwrap().1.small(),
            self.advanced(survey).unwrap().1.parented(),
            self.advanced(survey).unwrap().1.counted(),
    {
        let opposite = GrowthView::initial().priority_q[1];
        assert(times(self.priority_q)[0] == 0);
        assert(is_first_min(times(self.priority_q), 0)) by {
            assert forall|j: int| 0 <= j < times(self.priority_q).len() implies times(
                self.priority_q,
            )[0] <= #[trigger] times(self.priority_q)[j] by {
                if j >= 1 {
                    assert(self.priority_q[j].t >= 1);
                }
            }
        }
        lemma_first_min_unique(times(self.priority_q), 0);
        let c = self.priority_q[0];
        let rest = GrowthView { priority_q: self.priority_q.remove(0), ..self };
        let found = rest.quad_tree.retrieve(c.collider.limits());
        lemma_roots_keep_apart();
        assert(c.r == opposite_road());
        lemma_quiet_scan(rest.segments, c.r, found, found.len() as int);
        let v = rest.constrained(c).unwrap();
        assert(v.accepted && v.state == rest);
        self.lemma_round_keeps_links(survey);
        let after = self.advanced(survey).unwrap().1;
        assert(v.segment.prev_segment_to_link.is_none());
        assert(v.state.linked_behind(v.segment) == Some((v.state, v.segment)));
        let kids = v.segment.sprouts(survey);
        assert(after.priority_q == rest.priority_q + scheduled(kids, v.segment.t));
        assert forall|j: int| 0 <= j < after.priority_q.len() implies (#[trigger] after.priority_q[
            j
        ]).prev_segment_to_link.is_some() by {
            if j < rest.priority_q.len() {
                assert(rest.priority_q[j] == self.priority_q[j + 1]);
            } else {
                assert(after.priority_q[j] == scheduled(kids, v.segment.t)[j - rest.priority_q.len()]);
            }
        }
    }
}

/// In every state that two rounds or more lead to, every link of an
/// accepted segment leads to an accepted segment that has a link back.
pub proof fn lemma_reached_is_mutual(surveys: Seq<Survey>, i: int, x: usize)
    requires
        surveys.len() >= 2,
        reached(surveys).is_some(),
        0 <= i < reached(surveys).unwrap().segments.len(),
        reached(surveys).unwrap().segments[i].holds(x),
    ensures
        exists|j: int|
            0 <= j < reached(surveys).unwrap().segments.len() && (#[trigger] reached(
                surveys,
            ).unwrap().segments[j]).id == x && reached(surveys).unwrap().segments[j].holds(
                reached(surveys).unwrap().segments[i].id,
            ),
{
    lemma_reached_is_knit(surveys);
    reached(surveys).unwrap().lemma_links_are_mutual(i, x);
}

/// A state that rounds have led to is the outcome of the last round,
/// played from the state that the rounds before it led to.
pub proof fn lemma_reached_step(surveys: Seq<Survey>)
    requires
        surveys.len() > 0,
        reached(surveys).is_some(),
    ensures
        reached(surveys.drop_last()).is_some(),
        reached(surveys.drop_last()).unwrap().growing(),
        reached(surveys.drop_last()).unwrap().advanced(surveys.last()).is_some(),
        reached(surveys) == Some(
            reached(surveys.drop_last()).unwrap().advanced(surveys.last()).unwrap().1,
        ),
{
}

/// The candidate that is due first in a state in which every candidate
/// has a parent has a parent.
pub proof fn lemma_earliest_has_parent(g: GrowthView)
    requires
        g.parented(),
        g.growing(),
    ensures
        g.priority_q[g.earliest()].prev_segment_to_link.is_some(),
{
    lemma_first_extremes_exist(times(g.priority_q));
}

/// In every state that two rounds or more lead to, every link is
/// answered and every candidate that waits has a parent.
pub proof fn lemma_reached_is_knit(surveys: Seq<Survey>)
    requires
        surveys.len() >= 2,
        reached(surveys).is_some(),
    ensures
        reached(surveys).unwrap().knit(None),
        reached(surveys).unwrap().well_numbered(),
        reached(surveys).unwrap().small(),
        reached(surveys).unwrap().parented(),
        reached(surveys).unwrap().counted(),
    decreases surveys.len(),
{
    let earlier = surveys.drop_last();
    lemma_reached_step(surveys);
    let g = reached(earlier).unwrap();
    if surveys.len() == 2 {
        lemma_reached_step(earlier);
        let first = earlier.drop_last();
        assert(first.len() == 0);
        assert(reached(first) == Some(GrowthView::initial()));
        GrowthView::lemma_first_round(earlier.last());
        g.lemma_second_round(surveys.last());
    } else {
        lemma_reached_is_knit(earlier);
        lemma_earliest_has_parent(g);
        g.lemma_round_keeps_links(surveys.last());
    }
}

/// In every state that two rounds or more lead to, the ids are dense:
/// the accepted segments have the ids from 1 to their number, each id
/// once, and the last id given out is that number.
pub proof fn lemma_reached_is_dense(surveys: Seq<Survey>)
    requires
        surveys.len() >= 2,
        reached(surveys).is_some(),
    ensures
        reached(surveys).unwrap().last_id == reached(surveys).unwrap().segments.len(),
        forall|i: int|
            0 <= i < reached(surveys).unwrap().segments.len() ==> 1 <= (#[trigger] reached(
                surveys,
            ).unwrap().segments[i]).id <= reached(surveys).unwrap().segments.len(),
        forall|i: int, j: int|
            0 <= i < j < reached(surveys).unwrap().segments.len() ==> (#[trigger] reached(
                surveys,
            ).unwrap().segments[i]).id != (#[trigger] reached(surveys).unwrap().segments[j]).id,
        forall|k: usize|
            1 <= k <= reached(surveys).unwrap().segments.len() ==> #[trigger] reached(
                surveys,
            ).unwrap().accepts(k),
{
    lemma_reached_is_knit(surveys);
    let g = reached(surveys).unwrap();
    assert forall|k: usize| 1 <= k <= g.segments.len() implies #[trigger] g.accepts(k) by {
        g.lemma_counted_is_dense(k);
    }
}

/// In every state that rounds lead to there is at most one accepted
/// segment beyond the limit.
pub proof fn lemma_reached_is_bounded(surveys: Seq<Survey>)
    requires
        reached(surveys).is_some(),
    ensures
        reached(surveys).unwrap().segments.len() <= SEGMENT_COUNT_LIMIT + 1,
{
    if surveys.len() >= 2 {
        lemma_reached_is_knit(surveys);
    } else if surveys.len() == 1 {
        lemma_reached_step(surveys);
        assert(surveys.drop_last().len() == 0);
        assert(reached(surveys.drop_last()) == Some(GrowthView::initial()));
        GrowthView::lemma_first_round(surveys.last());
    }
}

} // verus!
