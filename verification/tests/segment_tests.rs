use roadgen::collision::{CollisionLimits, CollisionType};
use roadgen::config::{DEFAULT_SEGMENT_WIDTH, HIGHWAY_SEGMENT_WIDTH, UNIT};
use roadgen::generate::GlobalConfig;
use roadgen::math::Point;
use roadgen::quad_tree::Quadtree;
use roadgen::segment::{
    copy_ids, find_segment, holds_id, position_of, CollisionMetaInfo, Road, Segment,
    SegmentDirection,
};

fn p(x: i64, y: i64) -> Point {
    Point::new(x, y)
}

fn normal() -> CollisionMetaInfo {
    CollisionMetaInfo::new()
}

fn empty_state() -> GlobalConfig {
    GlobalConfig { segments: Vec::new(), last_id: 0, quad_tree: Quadtree::from_config(), priority_q: Vec::new() }
}

fn accept(state: &mut GlobalConfig, mut s: Segment) {
    // an accepted segment has been asked for its direction and its length
    s.dir();
    s.length();
    state.quad_tree.insert(s.collider.limits());
    if s.id > state.last_id {
        state.last_id = s.id;
    }
    state.segments.push(s);
}

#[test]
fn meta_info_starts_as_a_normal_road() {
    let q = CollisionMetaInfo::new();
    assert_eq!(q.highway, Some(false));
    assert!(!q.severed);
}

#[test]
fn new_segment_has_fresh_caches_under_revision_one() {
    let s = Segment::new(p(0, 0), p(300, 400), &7, &normal(), &5);
    assert_eq!(s.id, 5);
    assert_eq!(s.t, 7);
    assert_eq!(s.road_revision, 0);
    assert_eq!(s.dir_revision, 1);
    assert_eq!(s.length_revision, 1);
    assert_eq!(s.cached_dir, Some(p(300, 400)));
    assert_eq!(s.cached_length, Some(500));
    assert_eq!(s.r, Road { start: p(0, 0), end: p(300, 400) });
    assert!(s.links.b.is_empty());
    assert!(s.links.f.is_empty());
    assert_eq!(s.prev_segment_to_link, None);
    assert_eq!(s.collider.id, Some(5));
    assert_eq!(s.collider.collision_type, CollisionType::Line);
    assert_eq!(s.collider.collision_properties.start, p(0, 0));
    assert_eq!(s.collider.collision_properties.end, p(300, 400));
}

#[test]
fn collider_is_wide_where_the_highway_flag_is_set() {
    let road = Segment::new(p(0, 0), p(10, 0), &0, &normal(), &1);
    assert_eq!(road.collider.collision_properties.width, HIGHWAY_SEGMENT_WIDTH);
    let highway = CollisionMetaInfo { highway: Some(true), severed: false };
    assert_eq!(Segment::new(p(0, 0), p(10, 0), &0, &highway, &1).collider.collision_properties.width, 16 * UNIT);
    let unset = CollisionMetaInfo { highway: None, severed: false };
    assert_eq!(
        Segment::new(p(0, 0), p(10, 0), &0, &unset, &1).collider.collision_properties.width,
        DEFAULT_SEGMENT_WIDTH
    );
    assert_eq!(DEFAULT_SEGMENT_WIDTH, 6 * UNIT);
}

#[test]
fn moving_an_end_advances_both_revisions() {
    let mut s = Segment::new(p(0, 0), p(10, 0), &0, &normal(), &1);
    s.set_end(&p(5, 5));
    assert_eq!(s.r.end, p(5, 5));
    assert_eq!(s.road_revision, 1);
    assert_eq!(s.collider.collision_revision, 2);
    assert_eq!(s.collider.collision_properties.end, p(5, 5));
    s.set_start(&p(1, 1));
    assert_eq!(s.r.start, p(1, 1));
    assert_eq!(s.road_revision, 2);
    assert_eq!(s.collider.collision_revision, 3);
    assert_eq!(s.collider.collision_properties.start, p(1, 1));
    assert_eq!(s.collider.limits(), CollisionLimits { x: 1, y: 1, width: 4, height: 4, id: Some(1) });
}

#[test]
fn asking_brings_the_cache_revisions_up_to_the_road() {
    let mut s = Segment::new(p(0, 0), p(3, 4), &0, &normal(), &1);
    assert_eq!(s.dir(), Some(p(3, 4)));
    assert_eq!(s.dir_revision, s.road_revision);
    assert_eq!(s.length(), Some(5));
    assert_eq!(s.length_revision, s.road_revision);
    s.set_end(&p(6, 8));
    assert!(s.road_revision >= s.dir_revision && s.road_revision >= s.length_revision);
    assert_eq!(s.dir(), Some(p(6, 8)));
    assert_eq!(s.length(), Some(10));
    assert_eq!(s.dir_revision, 1);
    assert_eq!(s.length_revision, 1);
    assert_eq!(s.road_revision, 1);
}

#[test]
fn cache_filed_under_the_roads_revision_is_returned_as_it_is() {
    // a new segment files its caches under revision 1; one move brings the road there
    let mut s = Segment::new(p(0, 0), p(3, 4), &0, &normal(), &1);
    s.set_end(&p(6, 8));
    assert_eq!(s.dir(), Some(p(3, 4)));
    assert_eq!(s.length(), Some(5));
    s.set_end(&p(0, 7));
    assert_eq!(s.dir(), Some(p(0, 7)));
    assert_eq!(s.length(), Some(7));
    assert_eq!(s.dir_revision, 2);
}

#[test]
fn links_for_end_containing_looks_in_b_first() {
    let mut s = Segment::new(p(0, 0), p(10, 0), &0, &normal(), &1);
    s.links.b = vec![4, 5];
    s.links.f = vec![5, 6];
    let (ids, side) = s.clone().links_for_end_containing(&5);
    assert_eq!(ids, Some(vec![4, 5]));
    assert_eq!(side, SegmentDirection::Back);
    let (ids, side) = s.clone().links_for_end_containing(&6);
    assert_eq!(ids, Some(vec![5, 6]));
    assert_eq!(side, SegmentDirection::Forward);
    let (ids, side) = s.links_for_end_containing(&7);
    assert_eq!(ids, None);
    assert_eq!(side, SegmentDirection::Neither);
}

#[test]
fn from_existing_takes_what_is_not_given() {
    let highway = CollisionMetaInfo { highway: Some(true), severed: false };
    let mut s = Segment::new(p(0, 0), p(10, 0), &3, &highway, &1);
    s.links.b = vec![9];
    let copy = Segment::from_existing(&s, None, None, None, &2);
    assert_eq!(copy.id, 2);
    assert_eq!(copy.t, 3);
    assert_eq!(copy.q, highway);
    assert_eq!(copy.r, s.r);
    assert!(copy.links.b.is_empty());
    let other = Segment::from_existing(
        &s,
        Some(8),
        Some(Road { start: p(1, 1), end: p(2, 2) }),
        Some(normal()),
        &3,
    );
    assert_eq!(other.t, 8);
    assert_eq!(other.r, Road { start: p(1, 1), end: p(2, 2) });
    assert_eq!(other.q, normal());
    assert_eq!(other.collider.collision_properties.start, p(1, 1));
}

#[test]
fn set_id_reaches_the_collider_and_its_cached_box() {
    let mut s = Segment::new(p(0, 0), p(10, 0), &0, &normal(), &1);
    s.set_id(42);
    assert_eq!(s.id, 42);
    assert_eq!(s.collider.id, Some(42));
    assert_eq!(s.collider.cached_limits.unwrap().id, Some(42));
    assert_eq!(s.collider.limits().id, Some(42));
}

#[test]
fn id_lists_are_searched_from_the_front() {
    let ids = vec![7, 3, 7, 9];
    assert_eq!(position_of(&ids, 7), Some(0));
    assert_eq!(position_of(&ids, 9), Some(3));
    assert_eq!(position_of(&ids, 1), None);
    assert!(holds_id(&ids, 3));
    assert!(!holds_id(&ids, 4));
    assert_eq!(copy_ids(&ids), ids);
}

#[test]
fn segments_are_found_by_id() {
    let segments = vec![
        Segment::new(p(0, 0), p(10, 0), &0, &normal(), &4),
        Segment::new(p(0, 0), p(0, 10), &0, &normal(), &2),
    ];
    assert_eq!(find_segment(&segments, 2), Some(1));
    assert_eq!(find_segment(&segments, 4), Some(0));
    assert_eq!(find_segment(&segments, 3), None);
}

#[test]
fn start_is_backwards_when_the_first_back_link_meets_the_start() {
    let before = Segment::new(p(-10, 0), p(0, 0), &0, &normal(), &1);
    let after = Segment::new(p(10, 0), p(20, 0), &0, &normal(), &3);
    let mut s = Segment::new(p(0, 0), p(10, 0), &0, &normal(), &2);
    let others = vec![before, after];
    s.links.b = vec![1];
    assert!(s.start_is_backwards(&others));
    s.links.b = vec![3];
    assert!(!s.start_is_backwards(&others));
    s.links.b = Vec::new();
    s.links.f = vec![3];
    assert!(s.start_is_backwards(&others));
    s.links.f = vec![1];
    assert!(!s.start_is_backwards(&others));
}

#[test]
fn split_cuts_a_segment_and_rewires_its_neighbours() {
    let mut state = empty_state();
    let mut south = Segment::new(p(150, -200), p(150, -100), &0, &normal(), &1);
    let mut road = Segment::new(p(150, -100), p(150, 100), &0, &normal(), &2);
    let mut north = Segment::new(p(150, 100), p(150, 200), &0, &normal(), &3);
    south.links.f = vec![2];
    road.links.b = vec![1];
    road.links.f = vec![3];
    north.links.b = vec![2];
    accept(&mut state, south);
    accept(&mut state, road);
    accept(&mut state, north);
    let mut inciting = Segment::new(p(0, 0), p(300, 0), &0, &normal(), &4);
    state.last_id = 4;

    let mut copy = state.segments[1].clone();
    copy.split(p(150, 0), &mut inciting, &mut state);
    state.segments[1] = copy;

    assert_eq!(state.last_id, 5);
    assert_eq!(state.segments.len(), 4);
    let rest = &state.segments[1];
    let part = &state.segments[3];
    assert_eq!(part.id, 5);
    assert_eq!(part.r, Road { start: p(150, -100), end: p(150, 0) });
    assert_eq!(rest.r, Road { start: p(150, 0), end: p(150, 100) });
    assert_eq!(part.links.b, vec![1]);
    assert_eq!(part.links.f, vec![4, 2]);
    assert_eq!(rest.links.b, vec![4, 5]);
    assert_eq!(rest.links.f, vec![3]);
    assert_eq!(inciting.links.f, vec![5, 2]);
    assert_eq!(state.segments[0].links.f, vec![5]);
    assert_eq!(state.segments[2].links.b, vec![2]);
    assert_eq!(rest.road_revision, 1);
    assert_eq!(part.road_revision, 1);
    let found = state.quad_tree.retrieve(&CollisionLimits { x: 150, y: -50, width: 0, height: 1, id: None });
    assert!(found.iter().any(|b| b.id == Some(5) && b.y == -100 && b.height == 100));
}

#[test]
fn split_moves_the_forward_links_when_the_start_is_not_backwards() {
    let mut state = empty_state();
    // the road's back links sit at its end
    let mut road = Segment::new(p(0, 0), p(100, 0), &0, &normal(), &1);
    let mut at_end = Segment::new(p(100, 0), p(200, 0), &0, &normal(), &2);
    let mut at_start = Segment::new(p(-100, 0), p(0, 0), &0, &normal(), &3);
    road.links.b = vec![2];
    road.links.f = vec![3];
    at_end.links.b = vec![1];
    at_start.links.f = vec![1];
    accept(&mut state, road);
    accept(&mut state, at_end);
    accept(&mut state, at_start);
    let mut inciting = Segment::new(p(50, -50), p(50, 50), &0, &normal(), &4);
    state.last_id = 4;

    let mut copy = state.segments[0].clone();
    copy.split(p(50, 0), &mut inciting, &mut state);
    state.segments[0] = copy;

    let rest = &state.segments[0];
    let part = &state.segments[3];
    assert_eq!(part.r, Road { start: p(0, 0), end: p(50, 0) });
    assert_eq!(rest.r, Road { start: p(50, 0), end: p(100, 0) });
    assert_eq!(rest.links.b, vec![2]);
    assert_eq!(rest.links.f, vec![4, 5]);
    assert_eq!(part.links.b, vec![4, 1]);
    assert_eq!(part.links.f, vec![3]);
    assert_eq!(inciting.links.f, vec![1, 5]);
    assert_eq!(state.segments[2].links.f, vec![5]);
    assert_eq!(state.segments[1].links.b, vec![1]);
}

#[test]
fn segments_are_equal_when_their_ids_are() {
    let a = Segment::new(p(0, 0), p(10, 0), &0, &normal(), &7);
    let b = Segment::new(p(5, 5), p(6, 6), &3, &normal(), &7);
    let c = Segment::new(p(0, 0), p(10, 0), &0, &normal(), &8);
    assert!(a == b);
    assert!(a != c);
}

#[test]
fn segment_without_links_is_not_backwards() {
    let s = Segment::new(p(0, 0), p(10, 0), &0, &normal(), &2);
    assert!(!s.start_is_backwards(&Vec::new()));
}

#[test]
fn asking_always_gives_a_direction_and_a_length() {
    let mut s = Segment::new(p(0, 0), p(3, 4), &0, &normal(), &1);
    s.set_end(&p(0, 0));
    s.set_start(&p(0, 0));
    assert_eq!(s.dir(), Some(p(0, 0)));
    assert_eq!(s.length(), Some(0));
    assert_eq!(s.dir(), Some(p(0, 0)));
    assert_eq!(s.length(), Some(0));
    assert_eq!(s.road_revision, 2);
    assert_eq!(s.dir_revision, 2);
    assert_eq!(s.length_revision, 2);
}
