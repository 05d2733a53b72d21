use noise::{NoiseFn, Simplex};
use roadgen::collision::CollisionLimits;
use roadgen::config::{random_angle, AngleDirection, SEGMENT_COUNT_LIMIT, UNIT};
use roadgen::generate::{
    pop_on_road, population_at, roads_too_aligned, GlobalConfig, GrowthError, LocalConstraints,
    LocalConstraintsAction, NoiseSamples, Survey,
};
use roadgen::math::{do_line_segments_intersect, Point};
use roadgen::quad_tree::Quadtree;
use roadgen::segment::{CollisionMetaInfo, Road, Segment};

fn p(x: i64, y: i64) -> Point {
    Point::new(x, y)
}

fn normal() -> CollisionMetaInfo {
    CollisionMetaInfo::new()
}

fn highway() -> CollisionMetaInfo {
    CollisionMetaInfo { highway: Some(true), severed: false }
}

fn empty_state() -> GlobalConfig {
    GlobalConfig { segments: Vec::new(), last_id: 0, quad_tree: Quadtree::from_config(), priority_q: Vec::new() }
}

fn accept(state: &mut GlobalConfig, mut s: Segment) {
    // an accepted segment has been asked for its direction and its length
    s.dir();
    s.length();
    state.quad_tree.insert(s.collider.limits());
    if s.id > state.last_id {
        state.last_id = s.id;
    }
    state.segments.push(s);
}

fn road(from: (i64, i64), to: (i64, i64), id: usize, b: Vec<usize>, f: Vec<usize>) -> Segment {
    let mut s = Segment::new(p(from.0, from.1), p(to.0, to.1), &0, &normal(), &id);
    s.links.b = b;
    s.links.f = f;
    s
}

fn samples(value: i64) -> NoiseSamples {
    NoiseSamples { near: value, middle: value, far: value }
}

/// The survey of the road from (0, 0) to (100, 0): straight on to
/// (200, 0), ten degrees to the right to (198, -17), the highway
/// branches to (100, 100) and (100, -100), the normal branches three
/// hundred units to the left and to the right.
fn plain_survey(population: i64, draw: i64) -> Survey {
    Survey {
        origin: samples(population),
        straight_end: p(200, 0),
        straight: samples(population),
        random_end: p(198, -17),
        random: samples(population),
        highway_left_end: p(100, 100),
        highway_right_end: p(100, -100),
        branch_left_end: p(100, 300 * UNIT),
        branch_right_end: p(100, -300 * UNIT),
        highway_left_draw: draw,
        highway_right_draw: draw,
        branch_left_draw: draw,
        branch_right_draw: draw,
    }
}

fn plain_parent(q: &CollisionMetaInfo) -> Segment {
    Segment::new(p(0, 0), p(100, 0), &3, q, &10)
}

/// The survey of a segment with the same population everywhere and every
/// draw the same; the continuation turns ten degrees to the right.
fn survey_of(parent: &Segment, population: i64, draw: i64) -> Survey {
    let heading = parent.heading();
    let dir = (heading.x as f64).atan2(heading.y as f64).to_degrees();
    let length = parent.extent() as f64;
    let branch = 300.0 * UNIT as f64;
    let from = parent.r.end;
    Survey {
        origin: samples(population),
        straight_end: end_at(from, dir, length),
        straight: samples(population),
        random_end: end_at(from, dir + 10.0, length),
        random: samples(population),
        highway_left_end: end_at(from, dir - 90.0, length),
        highway_right_end: end_at(from, dir + 90.0, length),
        branch_left_end: end_at(from, dir - 90.0, branch),
        branch_right_end: end_at(from, dir + 90.0, branch),
        highway_left_draw: draw,
        highway_right_draw: draw,
        branch_left_draw: draw,
        branch_right_draw: draw,
    }
}

/// A vertical road of three segments at x = 150, from y = -200 to y = 200.
fn state_with_a_road() -> GlobalConfig {
    let mut state = empty_state();
    accept(&mut state, road((150, -200), (150, -100), 1, vec![], vec![2]));
    accept(&mut state, road((150, -100), (150, 100), 2, vec![1], vec![3]));
    accept(&mut state, road((150, 100), (150, 200), 3, vec![2], vec![]));
    state
}

#[test]
fn population_is_the_square_of_the_mixed_samples() {
    // every sample at its highest: ((1 * 1 + 1) / 2) squared
    assert_eq!(population_at(&samples(UNIT)), UNIT);
    // every sample at its lowest
    assert_eq!(population_at(&samples(-UNIT)), 0);
    // every sample in the middle: ((0.5 * 0.5 + 0.5) / 2) squared = 0.140625
    assert_eq!(population_at(&samples(0)), 1406);
    let mixed = NoiseSamples { near: 6000, middle: -2000, far: 4000 };
    // (0.8 * 0.4 + 0.7) / 2 = 0.51, squared 0.2601
    assert_eq!(population_at(&mixed), 2601);
}

#[test]
fn population_on_a_road_is_the_mean_of_its_ends() {
    assert_eq!(pop_on_road(&samples(UNIT), &samples(-UNIT)), UNIT / 2);
    assert_eq!(pop_on_road(&samples(0), &samples(0)), 1406);
    assert_eq!(pop_on_road(&samples(0), &samples(UNIT)), 5703);
}

#[test]
fn survey_checks_its_own_soundness() {
    assert!(plain_survey(UNIT, 0).is_wf());
    assert!(!plain_survey(UNIT + 1, 0).is_wf());
    let mut far = plain_survey(0, 0);
    far.branch_left_end = p(1 << 40, 0);
    assert!(!far.is_wf());
}

#[test]
fn survey_suits_the_segment_it_was_made_for() {
    let parent = plain_parent(&normal());
    assert!(plain_survey(UNIT, 0).is_fit(&parent));
    assert_eq!(survey_of(&parent, UNIT, 0), plain_survey(UNIT, 0));
    // not the segment the other way round, nor a longer one
    assert!(!plain_survey(UNIT, 0).is_fit(&Segment::new(p(100, 0), p(0, 0), &0, &normal(), &1)));
    assert!(!plain_survey(UNIT, 0).is_fit(&Segment::new(p(-100, 0), p(100, 0), &0, &normal(), &1)));
    // an unsound survey suits no segment
    assert!(!plain_survey(UNIT + 1, 0).is_fit(&parent));
    // a draw is a fraction of the unit
    assert!(plain_survey(UNIT, UNIT - 1).is_fit(&parent));
    assert!(!plain_survey(UNIT, UNIT).is_fit(&parent));
    assert!(!plain_survey(UNIT, -1).is_fit(&parent));
}

#[test]
fn survey_allows_for_the_rounding_of_an_end_and_no_more() {
    let parent = plain_parent(&normal());
    let mut near = plain_survey(UNIT, 0);
    near.straight_end = p(201, 1);
    assert!(near.is_fit(&parent));
    near.straight_end = p(200, 3);
    assert!(!near.is_fit(&parent));
    near.straight_end = p(210, 0);
    assert!(!near.is_fit(&parent));
    near.straight_end = p(0, 0);
    assert!(!near.is_fit(&parent));
}

#[test]
fn survey_holds_the_turns_to_their_limits() {
    let parent = Segment::new(p(0, 0), p(100 * UNIT, 0), &0, &highway(), &1);
    let fine = survey_of(&parent, UNIT, 0);
    assert!(fine.is_fit(&parent));
    let from = parent.r.end;
    let length = 100.0 * UNIT as f64;
    // a continuation turns by fifteen degrees at most
    let mut turned = fine;
    turned.random_end = end_at(from, 90.0 + 15.0, length);
    assert!(turned.is_fit(&parent));
    turned.random_end = end_at(from, 90.0 - 15.0, length);
    assert!(turned.is_fit(&parent));
    turned.random_end = end_at(from, 90.0 + 16.0, length);
    assert!(!turned.is_fit(&parent));
    turned.random_end = end_at(from, 90.0 + 10.0, 0.9 * length);
    assert!(!turned.is_fit(&parent));
    // a branch leaves at a right angle to its side, give or take three degrees
    let mut branched = fine;
    branched.highway_left_end = end_at(from, 3.0, length);
    assert!(branched.is_fit(&parent));
    branched.highway_left_end = end_at(from, 4.0, length);
    assert!(!branched.is_fit(&parent));
    branched.highway_left_end = fine.highway_right_end;
    assert!(!branched.is_fit(&parent));
    let mut short = fine;
    short.branch_right_end = end_at(from, 180.0, length);
    assert!(!short.is_fit(&parent));
    short.branch_right_end = end_at(from, 183.0, 300.0 * UNIT as f64);
    assert!(short.is_fit(&parent));
}

#[test]
fn survey_goes_by_the_direction_that_the_segment_gives() {
    // a segment whose end was moved once gives the direction filed when it was made
    let mut moved = Segment::new(p(0, 0), p(100, 0), &0, &highway(), &1);
    moved.set_end(&p(-100, 0));
    assert_eq!(moved.heading(), p(100, 0));
    assert_eq!(moved.extent(), 100);
    assert_eq!(moved.dir(), Some(p(100, 0)));
    let east = survey_of(&moved, UNIT, 0);
    assert_eq!(east.straight_end, p(0, 0));
    assert!(east.is_fit(&moved));
    // after a second move the direction is that of the road
    moved.set_end(&p(0, 100));
    assert_eq!(moved.heading(), p(0, 100));
    assert!(!east.is_fit(&moved));
    assert!(survey_of(&moved, UNIT, 0).is_fit(&moved));
}

#[test]
fn growth_starts_with_two_highways_in_the_schedule() {
    let state = GlobalConfig::new();
    assert!(state.segments.is_empty());
    assert_eq!(state.last_id, 2);
    assert_eq!(state.priority_q.len(), 2);
    let root = &state.priority_q[0];
    let opposite = &state.priority_q[1];
    assert_eq!(root.id, 1);
    assert_eq!(opposite.id, 2);
    assert_eq!(root.r, Road { start: p(0, 0), end: p(400 * UNIT, 0) });
    assert_eq!(opposite.r, Road { start: p(0, 0), end: p(-400 * UNIT, 0) });
    assert_eq!(root.q, highway());
    assert_eq!(opposite.q, highway());
    assert_eq!(root.links.b, vec![2]);
    assert_eq!(opposite.links.b, vec![1]);
    assert_eq!(root.t, 0);
    assert_eq!(opposite.t, 0);
    assert_eq!(opposite.road_revision, 1);
    assert_eq!(opposite.collider.collision_properties.end, p(-400 * UNIT, 0));
    assert!(state.growing());
    assert_eq!(state.earliest(), 0);
}

#[test]
fn earliest_is_the_first_of_the_least_times() {
    let mut state = empty_state();
    for (id, t) in [(1usize, 5u64), (2, 3), (3, 7), (4, 3)] {
        state.priority_q.push(Segment::new(p(0, 0), p(10, 0), &t, &normal(), &id));
    }
    assert_eq!(state.earliest(), 1);
    let taken = state.take_earliest();
    assert_eq!(taken.id, 2);
    assert_eq!(state.earliest(), 2);
    assert_eq!(state.take_earliest().id, 4);
    assert_eq!(state.take_earliest().id, 1);
    assert_eq!(state.take_earliest().id, 3);
    assert!(!state.growing());
}

#[test]
fn angles_under_thirty_degrees_are_too_small() {
    let east = Road { start: p(0, 0), end: p(1000, 0) };
    let north = Road { start: p(5, 5), end: p(5, 905) };
    assert!(!roads_too_aligned(&east, &north));
    assert!(roads_too_aligned(&east, &east));
    // opposite directions are the same line
    assert!(roads_too_aligned(&east, &Road { start: p(1000, 7), end: p(0, 7) }));
    // the tangent of thirty degrees is 0.57735...
    assert!(roads_too_aligned(&east, &Road { start: p(0, 0), end: p(100000, 57735) }));
    assert!(!roads_too_aligned(&east, &Road { start: p(0, 0), end: p(100000, 57736) }));
    assert!(!roads_too_aligned(&east, &Road { start: p(0, 0), end: p(1000, 1000) }));
    assert!(roads_too_aligned(&east, &Road { start: p(0, 0), end: p(-100000, 57735) }));
}

#[test]
fn candidate_that_crosses_a_road_ends_at_the_crossing_and_splits_the_road() {
    let mut state = state_with_a_road();
    let mut c = Segment::new(p(0, 0), p(300, 0), &0, &normal(), &4);
    state.last_id = 4;
    assert_eq!(state.local_constraints(&mut c), Ok(true));

    assert_eq!(c.r.end, p(150, 0));
    assert!(c.q.severed);
    assert_eq!(state.segments.len(), 4);
    let rest = &state.segments[1];
    let part = &state.segments[3];
    assert_eq!(part.id, 5);
    assert_eq!(part.r, Road { start: p(150, -100), end: p(150, 0) });
    assert_eq!(rest.r, Road { start: p(150, 0), end: p(150, 100) });
    assert_eq!(c.links.f, vec![5, 2]);
    assert_eq!(part.links.f, vec![4, 2]);
    assert_eq!(part.links.b, vec![1]);
    assert_eq!(rest.links.b, vec![4, 5]);
    assert_eq!(rest.links.f, vec![3]);
    assert_eq!(state.segments[0].links.f, vec![5]);
    assert_eq!(c.road_revision, 1);
    assert_eq!(c.collider.collision_properties.end, p(150, 0));
}

#[test]
fn candidate_that_crosses_at_a_small_angle_is_turned_down() {
    let mut state = state_with_a_road();
    let before: Vec<Road> = state.segments.iter().map(|s| s.r).collect();
    let mut c = Segment::new(p(140, -90), p(160, 90), &0, &normal(), &4);
    state.last_id = 4;
    assert_eq!(state.local_constraints(&mut c), Ok(false));
    assert_eq!(state.segments.len(), 3);
    assert_eq!(state.last_id, 4);
    let after: Vec<Road> = state.segments.iter().map(|s| s.r).collect();
    assert_eq!(before, after);
}

#[test]
fn candidate_far_from_every_road_is_accepted_as_it_is() {
    let mut state = state_with_a_road();
    let snap = 50 * UNIT;
    let mut c = Segment::new(p(-10 * snap, 0), p(-5 * snap, 300), &0, &normal(), &4);
    assert_eq!(state.local_constraints(&mut c), Ok(true));
    assert_eq!(c.r.end, p(-5 * snap, 300));
    assert!(!c.q.severed);
    assert!(c.links.f.is_empty());
    assert_eq!(state.segments.len(), 3);
    assert_eq!(c.collider.limits_revision, Some(1));
}

#[test]
fn candidate_that_ends_near_a_road_end_snaps_to_it() {
    let mut state = empty_state();
    let snap = 50 * UNIT;
    accept(&mut state, road((0, 0), (0, 10 * snap), 1, vec![], vec![2, 3]));
    accept(&mut state, road((0, 10 * snap), (0, 20 * snap), 2, vec![1, 3], vec![]));
    accept(&mut state, road((0, 10 * snap), (-10 * snap, 10 * snap), 3, vec![1, 2], vec![]));
    // the road with the id 2 is oriented by the road 1, which ends where it starts
    let mut c = Segment::new(p(10 * snap, 20 * snap), p(snap / 2, 20 * snap - 3), &0, &normal(), &4);
    state.last_id = 4;
    assert_eq!(state.local_constraints(&mut c), Ok(true));
    assert_eq!(c.r.end, p(0, 20 * snap));
    assert!(c.q.severed);
    assert_eq!(c.links.f, vec![2]);
    assert_eq!(state.segments[1].links.f, vec![4]);
    assert_eq!(state.segments[1].links.b, vec![1, 3]);
    assert_eq!(state.segments.len(), 3);
}

#[test]
fn end_snap_shares_the_links_at_that_end() {
    let mut state = empty_state();
    let snap = 50 * UNIT;
    accept(&mut state, road((0, 0), (0, 10 * snap), 1, vec![7], vec![2, 3]));
    accept(&mut state, road((0, 10 * snap), (0, 20 * snap), 2, vec![1, 3], vec![]));
    accept(&mut state, road((0, 10 * snap), (-10 * snap, 10 * snap), 3, vec![1, 2], vec![]));
    accept(&mut state, road((0, -10 * snap), (0, 0), 7, vec![], vec![1]));
    // the candidate ends near the end of road 1, where the roads 2 and 3 start
    let mut c = Segment::new(p(10 * snap, 10 * snap + 5), p(snap / 2, 10 * snap + 5), &0, &normal(), &4);
    state.last_id = 7;
    // the candidate crosses nothing and ends nearer than the snap distance to three ends;
    // the last of them that the index hands back decides
    assert_eq!(state.local_constraints(&mut c), Ok(true));
    assert!(c.q.severed);
    assert_eq!(c.r.end.x, 0);
    assert!(c.links.f.len() >= 1);
    let target = *c.links.f.last().unwrap();
    let chosen = state.segments.iter().find(|s| s.id == target).unwrap();
    assert!(chosen.links.b.contains(&4) || chosen.links.f.contains(&4));
    for id in c.links.f.iter() {
        let other = state.segments.iter().find(|s| s.id == *id).unwrap();
        assert!(other.links.b.contains(&4) || other.links.f.contains(&4));
    }
}

#[test]
fn end_snap_onto_the_same_road_is_turned_down() {
    let mut state = empty_state();
    let snap = 50 * UNIT;
    accept(&mut state, road((0, 0), (0, 10 * snap), 1, vec![], vec![2]));
    accept(&mut state, road((0, 10 * snap), (10 * snap, 10 * snap), 2, vec![1], vec![]));
    // from the start of road 2 to a point near the end of road 1, where road 2 is linked
    let mut c = Segment::new(p(10 * snap, 10 * snap), p(snap / 2, 10 * snap), &0, &normal(), &3);
    state.last_id = 3;
    assert_eq!(state.local_constraints(&mut c), Ok(false));
    assert_eq!(state.segments[0].links.f, vec![2]);
    assert_eq!(state.segments[1].links.b, vec![1]);
}

#[test]
fn candidate_that_ends_near_a_road_snaps_onto_it() {
    let snap = 50 * UNIT;
    let mut state = empty_state();
    accept(&mut state, road((0, -20 * snap), (0, -10 * snap), 1, vec![], vec![2]));
    accept(&mut state, road((0, -10 * snap), (0, 10 * snap), 2, vec![1], vec![3]));
    accept(&mut state, road((0, 10 * snap), (0, 20 * snap), 3, vec![2], vec![]));
    state.last_id = 4;
    let mut c = Segment::new(p(-10 * snap, 7), p(-snap / 2, 7), &0, &normal(), &4);
    assert_eq!(state.local_constraints(&mut c), Ok(true));
    assert_eq!(c.r.end, p(0, 7));
    assert!(c.q.severed);
    assert_eq!(state.segments.len(), 4);
    assert_eq!(state.segments[3].r, Road { start: p(0, -10 * snap), end: p(0, 7) });
    assert_eq!(state.segments[1].r, Road { start: p(0, 7), end: p(0, 10 * snap) });
    assert_eq!(c.links.f, vec![5, 2]);
    assert_eq!(state.segments[3].links.f, vec![4, 2]);
    assert_eq!(state.segments[1].links.b, vec![4, 5]);
}

#[test]
fn split_of_a_road_with_a_missing_neighbour_is_an_error() {
    let mut state = empty_state();
    accept(&mut state, road((150, -100), (150, 100), 2, vec![1], vec![]));
    let mut c = Segment::new(p(0, 0), p(300, 0), &0, &normal(), &4);
    state.last_id = 4;
    assert_eq!(state.local_constraints(&mut c), Err(GrowthError::MissingNeighbour));
    assert_eq!(state.segments.len(), 1);
    assert_eq!(state.last_id, 4);
    let mut other = empty_state();
    accept(&mut other, road((150, -100), (150, 100), 2, vec![], vec![9]));
    let mut d = Segment::new(p(0, 0), p(300, 0), &0, &normal(), &4);
    other.last_id = 4;
    assert_eq!(other.local_constraints(&mut d), Err(GrowthError::MissingNeighbour));
}

#[test]
fn candidate_that_crosses_a_road_without_links_splits_it() {
    let mut state = empty_state();
    accept(&mut state, road((150 * UNIT, -100 * UNIT), (150 * UNIT, 100 * UNIT), 1, vec![], vec![]));
    let mut c = Segment::new(p(0, 0), p(300 * UNIT, 0), &0, &normal(), &2);
    state.last_id = 2;
    assert_eq!(state.local_constraints(&mut c), Ok(true));
    assert_eq!(c.r, Road { start: p(0, 0), end: p(150 * UNIT, 0) });
    assert!(c.q.severed);
    assert_eq!(state.segments.len(), 2);
    assert_eq!(state.last_id, 3);
    let kept = &state.segments[0];
    let made = &state.segments[1];
    assert_eq!(kept.id, 1);
    assert_eq!(made.id, 3);
    assert_eq!(made.r, Road { start: p(150 * UNIT, -100 * UNIT), end: p(150 * UNIT, 0) });
    assert_eq!(kept.r, Road { start: p(150 * UNIT, 0), end: p(150 * UNIT, 100 * UNIT) });
    // with nothing to orient by, the half that keeps the id comes first
    assert_eq!(kept.links.f, vec![2, 3]);
    assert_eq!(made.links.b, vec![2, 1]);
    assert!(kept.links.b.is_empty());
    assert!(made.links.f.is_empty());
    assert_eq!(c.links.f, vec![1, 3]);
    let mut half = state.segments[1].clone();
    let found = state.quad_tree.retrieve(&half.collider.limits());
    assert!(found.iter().any(|b| b.id == Some(3)));
}

#[test]
fn candidate_that_ends_near_a_road_without_links_snaps_onto_it_and_splits_it() {
    let mut state = empty_state();
    accept(&mut state, road((150 * UNIT, -100 * UNIT), (150 * UNIT, 100 * UNIT), 1, vec![], vec![]));
    let mut c = Segment::new(p(0, 0), p(120 * UNIT, 0), &0, &normal(), &2);
    state.last_id = 2;
    assert_eq!(state.local_constraints(&mut c), Ok(true));
    assert_eq!(c.r.end, p(150 * UNIT, 0));
    assert!(c.q.severed);
    assert_eq!(state.segments.len(), 2);
    assert_eq!(state.segments[1].r, Road { start: p(150 * UNIT, -100 * UNIT), end: p(150 * UNIT, 0) });
    assert_eq!(state.segments[0].r, Road { start: p(150 * UNIT, 0), end: p(150 * UNIT, 100 * UNIT) });
    assert_eq!(c.links.f, vec![1, 3]);
    assert_eq!(state.segments[0].links.f, vec![2, 3]);
    assert_eq!(state.segments[1].links.b, vec![2, 1]);
}

#[test]
fn candidate_that_ends_near_the_end_of_a_road_without_links_is_linked_to_it() {
    let mut state = empty_state();
    let snap = 50 * UNIT;
    accept(&mut state, road((0, 0), (0, 10 * snap), 1, vec![], vec![]));
    let mut c = Segment::new(p(10 * snap, 10 * snap + 5), p(snap / 2, 10 * snap + 5), &0, &normal(), &2);
    state.last_id = 2;
    assert_eq!(state.local_constraints(&mut c), Ok(true));
    assert_eq!(c.r.end, p(0, 10 * snap));
    assert!(c.q.severed);
    assert_eq!(c.links.f, vec![1]);
    assert_eq!(state.segments[0].links.b, vec![2]);
    assert!(state.segments[0].links.f.is_empty());
    assert_eq!(state.segments.len(), 1);
    assert_eq!(state.last_id, 2);
}

#[test]
fn scan_prefers_a_crossing_to_a_snap_and_the_last_of_equals() {
    let mut state = empty_state();
    accept(&mut state, road((100, -100), (100, 100), 1, vec![], vec![]));
    accept(&mut state, road((200, -100), (200, 100), 2, vec![], vec![]));
    accept(&mut state, road((310, -5), (310, 5), 3, vec![], vec![]));
    let candidate = Road { start: p(0, 0), end: p(300, 0) };
    let boxes = vec![
        CollisionLimits { x: 100, y: -100, width: 0, height: 200, id: Some(1) },
        CollisionLimits { x: 310, y: -5, width: 0, height: 10, id: Some(3) },
        CollisionLimits { x: 200, y: -100, width: 0, height: 200, id: Some(2) },
        CollisionLimits { x: 0, y: 0, width: 0, height: 0, id: Some(99) },
    ];
    let choice = state.scan(&candidate, &boxes);
    assert_eq!(
        choice,
        LocalConstraints {
            priority: 4,
            action: Some(LocalConstraintsAction::IntersectionAction),
            point: p(200, 0),
            this_road_index: 1,
        }
    );
    let only_near = vec![boxes[1]];
    let near = state.scan(&candidate, &only_near);
    assert_eq!(near.priority, 3);
    assert_eq!(near.action, Some(LocalConstraintsAction::RadiusAction));
    assert_eq!(near.point, p(310, 5));
    assert_eq!(near.this_road_index, 2);
    assert_eq!(state.scan(&candidate, &Vec::new()).action, None);
    assert_eq!(
        do_line_segments_intersect(p(0, 0), p(300, 0), p(310, -5), p(310, 5), true),
        None
    );
}

#[test]
fn consider_takes_the_road_nearby_only_when_nothing_else_fits() {
    let nothing = LocalConstraints { priority: 0, action: None, point: p(0, 0), this_road_index: 0 };
    let snap = 50 * UNIT;
    let candidate = Road { start: p(-10 * snap, 0), end: p(-snap / 2, 0) };
    let long = Road { start: p(0, -10 * snap), end: p(0, 10 * snap) };
    let r = GlobalConfig::consider(nothing, &candidate, &long, 7);
    assert_eq!(r.priority, 2);
    assert_eq!(r.action, Some(LocalConstraintsAction::SnapAction));
    assert_eq!(r.point, p(0, 0));
    assert_eq!(r.this_road_index, 7);
    // too far from the road
    let far = Road { start: p(-10 * snap, 0), end: p(-snap, 0) };
    assert_eq!(GlobalConfig::consider(nothing, &far, &long, 7), nothing);
    // the foot of the perpendicular misses the road
    let beyond = Road { start: p(-10 * snap, 11 * snap), end: p(-5, 11 * snap) };
    assert_eq!(GlobalConfig::consider(nothing, &beyond, &long, 7).action, None);
    // an end snap is not replaced by a road nearby
    let snapped = LocalConstraints {
        priority: 3,
        action: Some(LocalConstraintsAction::RadiusAction),
        point: p(1, 1),
        this_road_index: 2,
    };
    assert_eq!(GlobalConfig::consider(snapped, &candidate, &long, 7), snapped);
}

#[test]
fn accepted_candidate_is_linked_behind_its_parent() {
    let mut state = empty_state();
    accept(&mut state, road((0, 0), (100, 0), 1, vec![], vec![2, 3]));
    accept(&mut state, road((100, 0), (200, 0), 2, vec![1, 3], vec![]));
    accept(&mut state, road((100, 0), (100, 100), 3, vec![], vec![1, 2]));
    let mut c = Segment::new(p(100, 0), p(100, -100), &0, &normal(), &4);
    c.prev_segment_to_link = Some(1);
    assert_eq!(state.link_behind(&mut c), Ok(()));
    assert_eq!(c.links.b, vec![2, 3, 1]);
    assert_eq!(state.segments[0].links.f, vec![2, 3, 4]);
    assert_eq!(state.segments[1].links.b, vec![1, 3, 4]);
    assert_eq!(state.segments[2].links.f, vec![1, 2, 4]);
    assert!(state.segments[2].links.b.is_empty());
}

#[test]
fn candidate_without_a_parent_is_linked_to_nothing() {
    let mut state = state_with_a_road();
    let mut c = Segment::new(p(0, 0), p(10, 0), &0, &normal(), &9);
    assert_eq!(state.link_behind(&mut c), Ok(()));
    assert!(c.links.b.is_empty());
    assert_eq!(state.segments[1].links.f, vec![3]);
}

#[test]
fn link_behind_a_missing_parent_is_an_error_and_changes_nothing() {
    let mut state = state_with_a_road();
    let mut c = Segment::new(p(0, 0), p(10, 0), &0, &normal(), &9);
    c.prev_segment_to_link = Some(77);
    assert_eq!(state.link_behind(&mut c), Err(GrowthError::MissingNeighbour));
    assert!(c.links.b.is_empty());
    let mut d = Segment::new(p(0, 0), p(10, 0), &0, &normal(), &9);
    d.prev_segment_to_link = Some(2);
    state.segments[1].links.f = vec![3, 55];
    assert_eq!(state.link_behind(&mut d), Err(GrowthError::MissingNeighbour));
    assert!(d.links.b.is_empty());
    assert_eq!(state.segments[2].links.b, vec![2]);
}

#[test]
fn announce_tells_the_neighbours_that_hold_the_anchor() {
    let mut state = state_with_a_road();
    let heard = state.announce(&vec![1, 3, 42, 2], 2, 9);
    assert_eq!(heard, vec![1, 3]);
    assert_eq!(state.segments[0].links.f, vec![2, 9]);
    assert_eq!(state.segments[2].links.b, vec![2, 9]);
    assert_eq!(state.segments[1].links.b, vec![1]);
}

#[test]
fn severed_segment_has_no_successors() {
    let mut state = empty_state();
    state.last_id = 10;
    let q = CollisionMetaInfo { highway: Some(true), severed: true };
    let mut prev = Segment::new(p(0, 0), p(100, 0), &3, &q, &10);
    let kids = state.generate_segments(&mut prev, &plain_survey(UNIT, 0));
    assert!(kids.is_empty());
    assert_eq!(state.last_id, 10);
    assert_eq!(prev.dir_revision, 1);
}

#[test]
fn normal_road_continues_and_branches_left_where_people_live() {
    let mut state = empty_state();
    state.last_id = 10;
    let mut prev = Segment::new(p(0, 0), p(100, 0), &3, &normal(), &10);
    let kids = state.generate_segments(&mut prev, &plain_survey(UNIT, 3999));
    assert_eq!(kids.len(), 2);
    // a successor has no id until a round takes it up
    assert_eq!(state.last_id, 10);
    assert_eq!(kids[0].id, 0);
    assert_eq!(kids[0].r, Road { start: p(100, 0), end: p(200, 0) });
    assert_eq!(kids[0].q, normal());
    assert_eq!(kids[0].t, 0);
    assert_eq!(kids[0].prev_segment_to_link, Some(10));
    assert_eq!(kids[0].collider.id, Some(0));
    assert_eq!(kids[1].id, 0);
    assert_eq!(kids[1].r, Road { start: p(100, 0), end: p(100, 300 * UNIT) });
    assert_eq!(kids[1].t, 0);
    assert_eq!(kids[1].prev_segment_to_link, Some(10));
    assert_eq!(prev.dir_revision, 0);
    assert_eq!(prev.length_revision, 0);
    assert_eq!(prev.cached_length, Some(100));
}

#[test]
fn branch_goes_right_when_only_the_right_draw_is_low() {
    let mut state = empty_state();
    state.last_id = 10;
    let mut prev = Segment::new(p(0, 0), p(100, 0), &3, &normal(), &10);
    let mut survey = plain_survey(UNIT, 4000);
    survey.branch_right_draw = 0;
    let kids = state.generate_segments(&mut prev, &survey);
    assert_eq!(kids.len(), 2);
    assert_eq!(kids[1].r.end, p(100, -300 * UNIT));
    let none = state.generate_segments(&mut prev, &plain_survey(UNIT, 4000));
    assert_eq!(none.len(), 1);
}

#[test]
fn nothing_grows_where_nobody_lives() {
    let mut state = empty_state();
    state.last_id = 10;
    let mut prev = Segment::new(p(0, 0), p(100, 0), &3, &normal(), &10);
    // the population 0.1 is not above the threshold
    let thin = NoiseSamples { near: -UNIT, middle: -UNIT, far: 2652 };
    assert_eq!(population_at(&thin), 1000);
    let mut survey = plain_survey(0, 0);
    survey.origin = thin;
    survey.straight = thin;
    survey.random = thin;
    assert!(state.generate_segments(&mut prev, &survey).is_empty());
    let mut above = survey;
    above.straight = NoiseSamples { near: -UNIT, middle: -UNIT, far: 2664 };
    assert_eq!(population_at(&above.straight), 1002);
    assert_eq!(pop_on_road(&above.origin, &above.straight), 1001);
    assert_eq!(state.generate_segments(&mut prev, &above).len(), 2);
}

#[test]
fn highway_goes_on_and_branches_by_its_own_rules() {
    let mut state = empty_state();
    state.last_id = 10;
    let mut prev = Segment::new(p(0, 0), p(100, 0), &3, &highway(), &10);
    let kids = state.generate_segments(&mut prev, &plain_survey(UNIT, 499));
    assert_eq!(kids.len(), 3);
    assert_eq!(state.last_id, 10);
    // equal populations: the straight continuation is taken
    assert_eq!(kids[0].r.end, p(200, 0));
    assert_eq!(kids[0].q, highway());
    assert_eq!(kids[0].t, 0);
    assert_eq!(kids[1].r.end, p(100, 100));
    assert_eq!(kids[1].q, highway());
    assert_eq!(kids[1].t, 0);
    assert_eq!(kids[2].r.end, p(100, 300 * UNIT));
    assert_eq!(kids[2].q, normal());
    assert_eq!(kids[2].t, 5);
    assert_eq!((kids[0].id, kids[1].id, kids[2].id), (0, 0, 0));
    for kid in kids.iter() {
        assert_eq!(kid.prev_segment_to_link, Some(10));
        assert_eq!(kid.r.start, p(100, 0));
    }
}

#[test]
fn highway_takes_the_more_populous_way_forward() {
    let mut state = empty_state();
    state.last_id = 10;
    let mut prev = Segment::new(p(0, 0), p(100, 0), &3, &highway(), &10);
    let mut survey = plain_survey(0, 500);
    survey.random = samples(UNIT);
    survey.highway_right_draw = 499;
    survey.branch_left_draw = 4000;
    survey.branch_right_draw = 4000;
    let kids = state.generate_segments(&mut prev, &survey);
    // the random continuation, a highway branch to the right, a normal branch is not drawn
    assert_eq!(kids.len(), 2);
    assert_eq!(kids[0].r.end, p(198, -17));
    assert_eq!(kids[1].r.end, p(100, -100));
    assert_eq!(kids[1].q, highway());
}

#[test]
fn successors_are_due_after_their_parent() {
    let mut state = empty_state();
    let kids = vec![
        Segment::new(p(0, 0), p(10, 0), &0, &normal(), &1),
        Segment::new(p(0, 0), p(10, 0), &5, &normal(), &2),
    ];
    state.schedule(kids, 7);
    assert_eq!(state.priority_q.len(), 2);
    assert_eq!(state.priority_q[0].t, 8);
    assert_eq!(state.priority_q[1].t, 13);
}

#[test]
fn first_round_accepts_the_first_highway() {
    let mut state = GlobalConfig::new();
    let survey = survey_of(&state.priority_q[state.earliest()], UNIT, 9999);
    assert!(survey.is_fit(&state.priority_q[state.earliest()]));
    assert_eq!(state.generate_main(&survey), Ok(true));
    assert_eq!(state.segments.len(), 1);
    assert_eq!(state.segments[0].id, 1);
    assert_eq!(state.segments[0].links.b, vec![2]);
    // the other highway and the continuation of the first
    assert_eq!(state.priority_q.len(), 2);
    assert_eq!(state.priority_q[0].id, 2);
    assert_eq!(state.priority_q[1].id, 0);
    assert_eq!(state.priority_q[1].r, Road { start: p(400 * UNIT, 0), end: p(800 * UNIT, 0) });
    assert_eq!(state.priority_q[1].t, 1);
    assert_eq!(state.priority_q[1].prev_segment_to_link, Some(1));
    assert_eq!(state.last_id, 2);
    let found = state.quad_tree.retrieve(&CollisionLimits { x: 0, y: 0, width: 1, height: 1, id: None });
    assert_eq!(found, vec![CollisionLimits { x: 0, y: 0, width: 400 * UNIT, height: 0, id: Some(1) }]);
    assert_eq!(state.earliest(), 0);
}

struct Dice {
    state: u64,
}

impl Dice {
    fn next(&mut self) -> u64 {
        self.state = self.state.wrapping_mul(6364136223846793005).wrapping_add(1442695040888963407);
        self.state >> 33
    }

    fn draw(&mut self) -> i64 {
        (self.next() % (UNIT as u64)) as i64
    }

    fn angle(&mut self, direction: AngleDirection) -> f64 {
        let limit: i64 = match direction {
            AngleDirection::Branch => 3 * UNIT,
            AngleDirection::Forward => 15 * UNIT,
        };
        loop {
            let val = (self.next() % (2 * limit as u64)) as i64 - limit;
            let draw = self.draw();
            if let Some(kept) = random_angle(direction, val, draw) {
                return kept as f64 / UNIT as f64;
            }
        }
    }
}

fn end_at(from: Point, degrees: f64, length: f64) -> Point {
    let radians = degrees.to_radians();
    p(
        from.x + (length * radians.sin()).round() as i64,
        from.y + (length * radians.cos()).round() as i64,
    )
}

fn look_around(c: &Segment, dice: &mut Dice, population: i64) -> Survey {
    let heading = c.heading();
    let dir = (heading.x as f64).atan2(heading.y as f64).to_degrees();
    let length = c.extent() as f64;
    let branch = 300.0 * UNIT as f64;
    Survey {
        origin: samples(population),
        straight_end: end_at(c.r.end, dir, length),
        straight: samples(population),
        random_end: end_at(c.r.end, dir + dice.angle(AngleDirection::Forward), length),
        random: samples(population),
        highway_left_end: end_at(c.r.end, dir - 90.0 + dice.angle(AngleDirection::Branch), length),
        highway_right_end: end_at(c.r.end, dir + 90.0 + dice.angle(AngleDirection::Branch), length),
        branch_left_end: end_at(c.r.end, dir - 90.0 + dice.angle(AngleDirection::Branch), branch),
        branch_right_end: end_at(c.r.end, dir + 90.0 + dice.angle(AngleDirection::Branch), branch),
        highway_left_draw: dice.draw(),
        highway_right_draw: dice.draw(),
        branch_left_draw: dice.draw(),
        branch_right_draw: dice.draw(),
    }
}

fn grow(seed: u64, population: i64) -> GlobalConfig {
    let mut dice = Dice { state: seed };
    let mut state = GlobalConfig::new();
    let mut rounds = 0;
    while state.growing() {
        if rounds == 2 {
            // the two highways are taken up first, as they were made
            assert_eq!(state.segments.len(), 2);
            assert_eq!(state.segments[0].id, 1);
            assert_eq!(state.segments[1].id, 2);
            assert_eq!(state.segments[0].r, Road { start: p(0, 0), end: p(400 * UNIT, 0) });
            assert_eq!(state.segments[1].r, Road { start: p(0, 0), end: p(-400 * UNIT, 0) });
            assert_eq!(state.segments[0].q, highway());
            assert_eq!(state.segments[1].q, highway());
            assert_eq!(state.segments[0].links.b, vec![2]);
            assert_eq!(state.segments[1].links.b, vec![1]);
        }
        let next = state.earliest();
        let survey = look_around(&state.priority_q[next], &mut dice, population);
        assert!(survey.is_fit(&state.priority_q[next]));
        let before = state.segments.len();
        let waiting = state.priority_q.len();
        let given = state.last_id;
        let outcome = state.generate_main(&survey);
        assert!(outcome.is_ok());
        assert!(state.segments.len() <= before + 2);
        if outcome == Ok(true) {
            assert!(state.segments.len() > before);
        } else {
            assert_eq!(state.segments.len(), before);
            assert_eq!(state.priority_q.len() + 1, waiting);
            assert_eq!(state.last_id, given);
        }
        rounds += 1;
        if rounds >= 2 {
            // every id that was given out is that of an accepted segment
            assert_eq!(state.last_id, state.segments.len());
        }
        assert!(rounds < 100000);
    }
    state
}

#[test]
fn growth_fills_the_budget_where_people_live() {
    for seed in [1u64, 42, 2024] {
        let state = grow(seed, UNIT);
        assert!(state.segments.len() >= SEGMENT_COUNT_LIMIT);
        assert!(state.segments.len() <= SEGMENT_COUNT_LIMIT + 1);
        let first = state.segments.iter().find(|s| s.id == 1).unwrap();
        let second = state.segments.iter().find(|s| s.id == 2).unwrap();
        assert_eq!(first.q.highway, Some(true));
        assert_eq!(second.q.highway, Some(true));
        assert_eq!(state.segments[0].id, 1);
        assert_eq!(state.segments[1].id, 2);
    }
}

#[test]
fn only_the_first_highway_goes_on_where_nobody_lives() {
    let mut dice = Dice { state: 7 };
    let mut state = GlobalConfig::new();
    let mut turned_down = 0;
    while state.growing() {
        let next = state.earliest();
        let survey = look_around(&state.priority_q[next], &mut dice, -UNIT);
        if !survey.is_fit(&state.priority_q[next]) {
            // the highway has reached the edge of the lattice
            assert!(!survey.is_wf());
            break;
        }
        if state.generate_main(&survey) == Ok(false) {
            turned_down += 1;
        }
    }
    // nothing branches off, and the second highway, which gives the
    // direction of the first, is not continued back over itself
    assert!(state.segments.len() > 100);
    assert!(state.segments.iter().all(|s| s.q.highway == Some(true)));
    assert_eq!(turned_down, 1);
    assert_eq!(state.segments.iter().filter(|s| s.r.end.x < 0).count(), 1);
    assert_eq!(state.last_id, state.segments.len());
}

#[test]
fn accepted_segments_have_distinct_ids_in_the_range_given_out() {
    let state = grow(3, UNIT);
    let mut ids: Vec<usize> = state.segments.iter().map(|s| s.id).collect();
    ids.sort();
    let count = ids.len();
    ids.dedup();
    assert_eq!(ids.len(), count);
    assert!(ids.iter().all(|id| 1 <= *id && *id <= state.last_id));
}

#[test]
fn ids_of_accepted_segments_are_dense() {
    for seed in [3u64, 42] {
        let state = grow(seed, UNIT);
        let mut ids: Vec<usize> = state.segments.iter().map(|s| s.id).collect();
        ids.sort();
        let all: Vec<usize> = (1..=state.segments.len()).collect();
        assert_eq!(ids, all);
        assert_eq!(state.last_id, state.segments.len());
        // candidates that wait have no id yet
        assert!(state.priority_q.iter().all(|c| c.id == 0));
    }
}

#[test]
fn candidate_gets_the_next_id_when_it_is_taken_up() {
    let mut dice = Dice { state: 5 };
    let mut state = GlobalConfig::new();
    for _ in 0..2 {
        let next = state.earliest();
        let survey = look_around(&state.priority_q[next], &mut dice, UNIT);
        assert!(survey.is_fit(&state.priority_q[next]));
        assert_eq!(state.generate_main(&survey), Ok(true));
    }
    assert_eq!(state.last_id, 2);
    let next = state.earliest();
    let due = state.priority_q[next].clone();
    assert_eq!(due.id, 0);
    assert_eq!(due.r, Road { start: p(400 * UNIT, 0), end: p(800 * UNIT, 0) });
    let survey = look_around(&due, &mut dice, UNIT);
    let outcome = state.generate_main(&survey);
    assert_eq!(outcome, Ok(true));
    assert_eq!(state.last_id, 3);
    let accepted = state.segments.last().unwrap();
    assert_eq!(accepted.id, 3);
    assert_eq!(accepted.collider.id, Some(3));
    assert_eq!(accepted.r, due.r);
    let parent = state.segments.iter().find(|s| Some(s.id) == due.prev_segment_to_link).unwrap();
    assert!(parent.links.f.contains(&3));
}

#[test]
fn enrolling_gives_the_next_id_to_a_candidate_with_a_parent_only() {
    let mut state = state_with_a_road();
    let given = state.last_id;
    let mut child = Segment::new(p(0, 0), p(100, 0), &0, &normal(), &0);
    child.prev_segment_to_link = Some(1);
    state.enroll(&mut child);
    assert_eq!(state.last_id, given + 1);
    assert_eq!(child.id, given + 1);
    assert_eq!(child.collider.id, Some(given + 1));
    let mut root = Segment::new(p(0, 0), p(100, 0), &0, &normal(), &7);
    state.enroll(&mut root);
    assert_eq!(state.last_id, given + 1);
    assert_eq!(root.id, 7);
}

#[test]
fn backward_links_of_accepted_segments_are_mutual() {
    for seed in [5u64, 6, 7, 8] {
        let state = grow(seed, UNIT);
        for s in state.segments.iter() {
            for j in s.links.b.iter() {
                let other = state.segments.iter().find(|o| o.id == *j);
                assert!(other.is_some());
                let other = other.unwrap();
                assert!(other.links.b.contains(&s.id) || other.links.f.contains(&s.id));
            }
        }
    }
}

#[test]
fn accepted_segments_are_rested() {
    let state = grow(11, UNIT);
    for s in state.segments.iter() {
        assert!(s.road_revision >= s.dir_revision);
        assert!(s.road_revision >= s.length_revision);
    }
}

#[test]
fn index_finds_every_accepted_segment_by_its_box() {
    let mut state = grow(13, UNIT);
    let count = state.segments.len();
    for i in 0..count {
        let id = state.segments[i].id;
        let limits = state.segments[i].collider.limits();
        let found = state.quad_tree.retrieve(&limits);
        assert!(found.iter().any(|b| b.id == Some(id)));
    }
}

#[test]
fn unsevered_segments_cross_no_accepted_segment() {
    let state = grow(17, UNIT);
    for a in state.segments.iter() {
        for b in state.segments.iter() {
            if a.id == b.id {
                continue;
            }
            let crossing = do_line_segments_intersect(a.r.start, a.r.end, b.r.start, b.r.end, true);
            if crossing.is_some() {
                assert!(a.q.severed || b.q.severed);
            }
        }
    }
}

fn field_at(simplex: &Simplex, at: Point) -> NoiseSamples {
    let x = at.x as f64 / UNIT as f64;
    let y = at.y as f64 / UNIT as f64;
    let sample = |value: f64| (value.clamp(-1.0, 1.0) * UNIT as f64).round() as i64;
    NoiseSamples {
        near: sample(simplex.get([x / 10000.0, y / 10000.0])),
        middle: sample(simplex.get([x / 20000.0 + 500.0, y / 20000.0 + 500.0])),
        far: sample(simplex.get([x / 20000.0 + 1000.0, y / 20000.0 + 1000.0])),
    }
}

fn grow_over_the_field(seed: u64) -> GlobalConfig {
    let simplex = Simplex::new(42);
    let mut dice = Dice { state: seed };
    let mut state = GlobalConfig::new();
    let mut rounds = 0;
    while state.growing() {
        let next = state.earliest();
        let candidate = &state.priority_q[next];
        let mut survey = look_around(candidate, &mut dice, 0);
        survey.origin = field_at(&simplex, candidate.r.end);
        survey.straight = field_at(&simplex, survey.straight_end);
        survey.random = field_at(&simplex, survey.random_end);
        assert!(survey.is_fit(candidate));
        assert!(state.generate_main(&survey).is_ok());
        rounds += 1;
        assert!(rounds < 100000);
    }
    state
}

#[test]
fn population_of_the_noise_field_is_a_fraction_and_always_the_same() {
    let simplex = Simplex::new(42);
    let again = Simplex::new(42);
    for at in [p(0, 0), p(400 * UNIT, 0), p(-12345 * UNIT, 6789 * UNIT)] {
        let here = population_at(&field_at(&simplex, at));
        assert!(0 <= here && here <= UNIT);
        assert_eq!(here, population_at(&field_at(&again, at)));
    }
}

#[test]
fn growth_over_the_noise_field_fills_the_budget() {
    let state = grow_over_the_field(42);
    assert!(state.segments.len() >= SEGMENT_COUNT_LIMIT);
    assert!(state.segments.len() <= SEGMENT_COUNT_LIMIT + 1);
    assert_eq!(state.segments[0].id, 1);
    assert_eq!(state.segments[1].id, 2);
}

#[test]
fn first_accepted_segments_include_highways_heading_east_and_west() {
    let state = grow_over_the_field(42);
    let mut east = false;
    let mut west = false;
    for s in state.segments[0..10].iter() {
        let dx = (s.r.end.x - s.r.start.x) as f64;
        let dy = (s.r.end.y - s.r.start.y) as f64;
        let dir = dx.atan2(dy).to_degrees();
        if s.q.highway == Some(true) && (dir - 90.0).abs() <= 3.0 {
            east = true;
        }
        if s.q.highway == Some(true) && (dir + 90.0).abs() <= 3.0 {
            west = true;
        }
    }
    assert!(east && west);
}

#[test]
fn every_link_of_an_accepted_segment_is_answered() {
    for seed in [21u64, 22, 23] {
        let state = grow(seed, UNIT);
        for s in state.segments.iter() {
            for j in s.links.b.iter().chain(s.links.f.iter()) {
                let other = state.segments.iter().find(|o| o.id == *j);
                assert!(other.is_some());
                let other = other.unwrap();
                let back = other.links.b.iter().chain(other.links.f.iter()).filter(|id| **id == s.id);
                let forth = s.links.b.iter().chain(s.links.f.iter()).filter(|id| **id == other.id);
                assert_eq!(back.count(), forth.count());
            }
        }
    }
}

#[test]
fn candidates_that_wait_start_where_their_parents_end() {
    for seed in [3u64, 42] {
        let state = grow(seed, UNIT);
        assert!(!state.priority_q.is_empty());
        for c in state.priority_q.iter() {
            let parent = c.prev_segment_to_link.unwrap();
            let parent = state.segments.iter().find(|s| s.id == parent).unwrap();
            assert_eq!(parent.r.end, c.r.start);
        }
    }
}

#[test]
fn links_lead_to_segments_that_meet_the_road_at_that_end() {
    for seed in [1u64, 3, 17, 42, 2024] {
        let state = grow(seed, UNIT);
        for s in state.segments.iter() {
            for j in s.links.b.iter() {
                let n = state.segments.iter().find(|n| n.id == *j).unwrap();
                assert!(n.r.start == s.r.start || n.r.end == s.r.start);
            }
            for j in s.links.f.iter() {
                let n = state.segments.iter().find(|n| n.id == *j).unwrap();
                assert!(n.r.start == s.r.end || n.r.end == s.r.end);
            }
        }
    }
}
