use roadgen::collision::CollisionLimits;
use roadgen::config::UNIT;
use roadgen::quad_tree::Quadtree;

fn boxed(x: i64, y: i64, width: i64, height: i64, id: usize) -> CollisionLimits {
    CollisionLimits { x: x * UNIT, y: y * UNIT, width: width * UNIT, height: height * UNIT, id: Some(id) }
}

fn ids(found: &Vec<CollisionLimits>) -> Vec<usize> {
    found.iter().map(|b| b.id.unwrap()).collect()
}

#[test]
fn root_covers_the_map() {
    let tree = Quadtree::from_config();
    assert_eq!(tree.max_objects, 10);
    assert_eq!(tree.max_levels, 10);
    assert_eq!(tree.level, 0);
    assert_eq!(
        tree.bounds,
        CollisionLimits { x: -20000 * UNIT, y: -20000 * UNIT, width: 40000 * UNIT, height: 40000 * UNIT, id: None }
    );
    assert!(tree.objects.is_empty());
    assert!(tree.nodes.is_empty());
}

#[test]
fn get_index_names_the_quadrant() {
    let tree = Quadtree::from_config();
    assert_eq!(tree.get_index(&boxed(10000, -10000, 1, 1, 1)), 0);
    assert_eq!(tree.get_index(&boxed(-10000, -10000, 1, 1, 1)), 1);
    assert_eq!(tree.get_index(&boxed(-10000, 10000, 1, 1, 1)), 2);
    assert_eq!(tree.get_index(&boxed(10000, 10000, 1, 1, 1)), 3);
}

#[test]
fn get_index_is_minus_one_on_a_midline() {
    let tree = Quadtree::from_config();
    assert_eq!(tree.get_index(&boxed(-1, -1, 2, 2, 1)), -1);
    assert_eq!(tree.get_index(&boxed(-5, 100, 10, 1, 1)), -1);
    assert_eq!(tree.get_index(&boxed(100, -5, 1, 10, 1)), -1);
    // a box that ends or begins exactly on a midline belongs to no child
    assert_eq!(tree.get_index(&boxed(-10, -10, 10, 5, 1)), -1);
    assert_eq!(tree.get_index(&boxed(0, 5, 10, 5, 1)), -1);
    assert_eq!(tree.get_index(&boxed(5, 0, 10, 5, 1)), -1);
}

#[test]
fn four_boxes_stay_in_the_root_and_are_all_found() {
    let mut tree = Quadtree::from_config();
    tree.insert(boxed(-10000, -10000, 1, 1, 1));
    tree.insert(boxed(10000, -10000, 1, 1, 2));
    tree.insert(boxed(-10000, 10000, 1, 1, 3));
    tree.insert(boxed(10000, 10000, 1, 1, 4));
    assert!(tree.nodes.is_empty());
    assert_eq!(ids(&tree.retrieve(&boxed(-1, -1, 2, 2, 0))), vec![1, 2, 3, 4]);
    assert_eq!(ids(&tree.retrieve(&boxed(-10000, -10000, 1, 1, 0))), vec![1, 2, 3, 4]);
}

#[test]
fn after_a_split_a_search_looks_into_one_quadrant() {
    let mut tree = Quadtree::from_config();
    let corners = [(-10000, -10000), (10000, -10000), (-10000, 10000), (10000, 10000)];
    let mut id = 0;
    for round in 0..3 {
        for (x, y) in corners.iter() {
            id += 1;
            tree.insert(boxed(x + round * 10, y + round * 10, 1, 1, id));
        }
    }
    assert_eq!(tree.nodes.len(), 4);
    assert!(tree.objects.is_empty());
    assert_eq!(ids(&tree.retrieve(&boxed(-10000, -10000, 1, 1, 0))), vec![1, 5, 9]);
    assert_eq!(ids(&tree.retrieve(&boxed(10000, -10000, 1, 1, 0))), vec![2, 6, 10]);
    assert_eq!(ids(&tree.retrieve(&boxed(-10000, 10000, 1, 1, 0))), vec![3, 7, 11]);
    assert_eq!(ids(&tree.retrieve(&boxed(10000, 10000, 1, 1, 0))), vec![4, 8, 12]);
    // children are searched in their order: top right, top left, bottom left, bottom right
    assert_eq!(ids(&tree.retrieve(&boxed(-1, -1, 2, 2, 0))), vec![2, 6, 10, 1, 5, 9, 3, 7, 11, 4, 8, 12]);
}

#[test]
fn children_take_the_four_quarters() {
    let mut tree = Quadtree::from_config();
    for id in 1..=11 {
        tree.insert(boxed(100 + id as i64, 100, 1, 1, id));
    }
    assert_eq!(tree.nodes.len(), 4);
    let half = 20000 * UNIT;
    assert_eq!(tree.nodes[0].bounds, CollisionLimits { x: 0, y: -half, width: half, height: half, id: None });
    assert_eq!(tree.nodes[1].bounds, CollisionLimits { x: -half, y: -half, width: half, height: half, id: None });
    assert_eq!(tree.nodes[2].bounds, CollisionLimits { x: -half, y: 0, width: half, height: half, id: None });
    assert_eq!(tree.nodes[3].bounds, CollisionLimits { x: 0, y: 0, width: half, height: half, id: None });
    assert_eq!(tree.nodes[3].level, 1);
    // eleven boxes are one too many for any node above the last level
    assert!(tree.nodes[3].objects.is_empty());
    assert_eq!(tree.nodes[3].nodes.len(), 4);
    assert_eq!(tree.nodes[3].nodes[1].level, 2);
    assert_eq!(tree.retrieve(&boxed(105, 100, 1, 1, 0)).len(), 11);
}

#[test]
fn halves_are_rounded_to_whole_units() {
    let odd = CollisionLimits { x: 0, y: 0, width: 625 * UNIT, height: 313 * UNIT, id: None };
    let mut tree = Quadtree::new(odd, 1, 3, 0);
    tree.insert(boxed(1, 1, 1, 1, 1));
    tree.insert(boxed(2, 2, 1, 1, 2));
    assert_eq!(tree.nodes.len(), 4);
    assert_eq!(tree.nodes[1].bounds.width, 313 * UNIT);
    assert_eq!(tree.nodes[1].bounds.height, 157 * UNIT);
    assert_eq!(tree.nodes[3].bounds.x, 313 * UNIT);
    assert_eq!(tree.nodes[3].bounds.y, 157 * UNIT);
}

#[test]
fn straddling_boxes_stay_in_the_parent() {
    let mut tree = Quadtree::from_config();
    tree.insert(boxed(-1, -1, 2, 2, 100));
    for id in 1..=11 {
        tree.insert(boxed(100 + id as i64, 100, 1, 1, id));
    }
    assert_eq!(ids(&tree.objects), vec![100]);
    assert!(ids(&tree.retrieve(&boxed(-10000, -10000, 1, 1, 0))).contains(&100));
    assert_eq!(ids(&tree.retrieve(&boxed(-10000, -10000, 1, 1, 0))), vec![100]);
}

#[test]
fn last_level_never_splits() {
    let small = CollisionLimits { x: 0, y: 0, width: 100 * UNIT, height: 100 * UNIT, id: None };
    let mut tree = Quadtree::new(small, 2, 1, 0);
    for id in 1..=9 {
        tree.insert(boxed(60 + id as i64, 60, 1, 1, id));
    }
    assert_eq!(tree.nodes.len(), 4);
    assert_eq!(tree.nodes[3].objects.len(), 9);
    assert!(tree.nodes[3].nodes.is_empty());
    assert_eq!(tree.retrieve(&boxed(70, 70, 1, 1, 0)).len(), 9);
}

#[test]
fn an_inserted_box_is_found_by_a_search_for_it() {
    let mut tree = Quadtree::from_config();
    let mut all = Vec::new();
    let mut seed: i64 = 12345;
    for id in 1..=200 {
        seed = (seed * 1103515245 + 12345) % 2147483648;
        let x = seed % 30000 - 15000;
        seed = (seed * 1103515245 + 12345) % 2147483648;
        let y = seed % 30000 - 15000;
        seed = (seed * 1103515245 + 12345) % 2147483648;
        let w = seed % 500;
        seed = (seed * 1103515245 + 12345) % 2147483648;
        let h = seed % 500;
        let b = boxed(x, y, w, h, id);
        tree.insert(b);
        assert!(tree.retrieve(&b).contains(&b));
        all.push(b);
    }
    for b in all.iter() {
        assert!(tree.retrieve(b).contains(b));
    }
}

#[test]
fn a_search_finds_every_box_that_touches_it() {
    let mut tree = Quadtree::from_config();
    let mut all = Vec::new();
    let mut seed: i64 = 99;
    for id in 1..=150 {
        seed = (seed * 1103515245 + 12345) % 2147483648;
        let x = seed % 4000 - 2000;
        seed = (seed * 1103515245 + 12345) % 2147483648;
        let y = seed % 4000 - 2000;
        let b = boxed(x, y, 300, 200, id);
        tree.insert(b);
        all.push(b);
    }
    let query = boxed(-100, -100, 400, 400, 0);
    let found = tree.retrieve(&query);
    for b in all.iter() {
        let apart = b.x + b.width < query.x
            || query.x + query.width < b.x
            || b.y + b.height < query.y
            || query.y + query.height < b.y;
        if !apart {
            assert!(found.contains(b));
        }
    }
}

#[test]
fn clear_empties_the_tree_and_keeps_its_nodes() {
    let mut tree = Quadtree::from_config();
    tree.insert(boxed(-1, -1, 2, 2, 100));
    for id in 1..=11 {
        tree.insert(boxed(100 + id as i64, 100, 1, 1, id));
    }
    tree.clear();
    assert_eq!(tree.nodes.len(), 4);
    assert_eq!(tree.nodes[3].nodes.len(), 4);
    assert!(tree.retrieve(&boxed(-1, -1, 2, 2, 0)).is_empty());
}
