use barnes_hut::force_system::ForceSystem;
use barnes_hut::quad::{QuadTree, AABB};
use barnes_hut::spring_system::mut_two;
use barnes_hut::structs::{Position, Vector2d, ID};

const SIDE: i64 = 65536;

fn root() -> QuadTree {
    QuadTree::new(AABB::new((0, 0), (SIDE, SIDE)), 0)
}

fn v(x: i64, y: i64) -> Vector2d {
    Vector2d { x, y }
}

fn sorted_nums(ids: Vec<ID>) -> Vec<i32> {
    let mut out: Vec<i32> = ids
        .into_iter()
        .map(|i| match i {
            ID::Num(n) => n,
            ID::Str(_) => panic!("unexpected string id"),
        })
        .collect();
    out.sort();
    out
}

#[test]
fn id_equality_and_clone() {
    assert!(ID::Num(3) == ID::Num(3));
    assert!(ID::Num(3) != ID::Num(4));
    assert!(ID::Str("a".to_string()) == ID::Str("a".to_string()));
    assert!(ID::Str("3".to_string()) != ID::Num(3));
    let s = ID::Str("node".to_string());
    assert!(s.clone() == s);
}

#[test]
fn vector_add_and_sub() {
    let a = v(3, -4);
    let b = v(10, 20);
    let s = a.add_vec(&b);
    assert_eq!((s.x, s.y), (13, 16));
    let d = a.sub_vec(&b);
    assert_eq!((d.x, d.y), (-7, -24));
    let p = Position { x: 5, y: 6 }.to_vec2d();
    assert_eq!((p.x, p.y), (5, 6));
}

#[test]
fn aabb_new_and_measures() {
    let b = AABB::new((10, 20), (100, 40));
    assert_eq!(b.position().x, 10);
    assert_eq!(b.position().y, 20);
    assert_eq!(b.size().x, 40);
    assert_eq!(b.size().y, 100);
    assert_eq!(b.half_width(), 20);
    assert_eq!(b.half_height(), 50);
    assert_eq!(b.horizontal_midpoint(), 30);
    assert_eq!(b.vertical_midpoint(), 70);
}

#[test]
fn aabb_point_overlap_uses_size_on_both_sides() {
    let b = AABB::new((0, 0), (10, 10));
    assert!(b.overlaps_vec2d(&v(10, 10)));
    assert!(b.overlaps_vec2d(&v(-10, -10)));
    assert!(!b.overlaps_vec2d(&v(11, 0)));
    assert!(!b.overlaps_vec2d(&v(0, -11)));
}

#[test]
fn aabb_rectangle_overlap() {
    let a = AABB::new((0, 0), (10, 10));
    assert!(a.overlaps_aabb(&AABB::new((20, 0), (10, 10))));
    assert!(!a.overlaps_aabb(&AABB::new((21, 0), (10, 10))));
    assert!(!a.overlaps_aabb(&AABB::new((0, -25), (10, 10))));
}

#[test]
fn mut_two_borrows_both_slots() {
    let mut items = vec![Some(1), None, Some(3)];
    if let Some((a, b)) = mut_two(2, 0, &mut items) {
        *a += 10;
        *b += 20;
    } else {
        panic!("both slots hold a value");
    }
    assert_eq!(items, vec![Some(21), None, Some(13)]);
    assert!(mut_two(0, 1, &mut items).is_none());
    assert!(mut_two(1, 2, &mut items).is_none());
}

#[test]
fn insert_inside_bounds_is_found_by_query() {
    let mut t = root();
    let points = [(1, 1), (SIDE - 1, 1), (1, SIDE - 1), (SIDE - 1, SIDE - 1), (SIDE / 2, SIDE / 3)];
    for (k, (x, y)) in points.iter().enumerate() {
        assert!(t.insert(&ID::Num(k as i32), &v(*x, *y)));
    }
    for (k, (x, y)) in points.iter().enumerate() {
        let area = AABB::new((*x, *y), (0, 0));
        let found = t.query(&area);
        assert!(found.iter().any(|i| *i == ID::Num(k as i32)));
    }
}

#[test]
fn insert_outside_bounds_is_rejected() {
    let mut t = root();
    assert!(t.insert(&ID::Num(1), &v(100, 100)));
    let (mass, sx, sy) = (t.mass, t.sum_x, t.sum_y);
    assert!(!t.insert(&ID::Num(2), &v(SIDE + 1, 0)));
    assert!(!t.insert(&ID::Num(3), &v(0, -SIDE - 1)));
    assert_eq!((t.mass, t.sum_x, t.sum_y), (mass, sx, sy));
}

#[test]
fn mass_counts_inserted_entities() {
    let mut t = root();
    for k in 0..7 {
        assert!(t.insert(&ID::Num(k), &v(100 * k as i64 + 5, 300)));
    }
    assert_eq!(t.mass, 7);
}

#[test]
fn center_of_mass_is_mean_position() {
    let mut t = root();
    let points = [(0, 0), (100, 0), (0, 100), (400, 400)];
    for (k, (x, y)) in points.iter().enumerate() {
        assert!(t.insert(&ID::Num(k as i32), &v(*x, *y)));
    }
    assert_eq!(t.mass, 4);
    assert_eq!(t.sum_x, 500);
    assert_eq!(t.sum_y, 500);
    let cx = t.sum_x as f64 / t.mass as f64;
    let cy = t.sum_y as f64 / t.mass as f64;
    assert!((cx - 125.0).abs() < 1e-9);
    assert!((cy - 125.0).abs() < 1e-9);
}

#[test]
fn many_entities_in_one_quadrant_subdivide() {
    let mut t = root();
    assert!(!t.divided);
    for k in 0..5 {
        assert!(t.insert(&ID::Num(k), &v(1000 + 10 * k as i64, 2000)));
    }
    assert!(t.divided);
    assert!(t.tl.is_some() && t.tr.is_some() && t.bl.is_some() && t.br.is_some());
}

#[test]
fn single_entity_stays_in_root_leaf() {
    let mut t = root();
    assert!(t.insert(&ID::Num(9), &v(5, 5)));
    assert!(!t.divided);
    assert!(t.holds_id(&ID::Num(9)));
    assert!(!t.holds_id(&ID::Num(8)));
}

#[test]
fn same_id_at_maximum_depth_replaces_position() {
    let mut t = QuadTree::new(AABB::new((0, 0), (8, 8)), 16);
    assert!(t.insert(&ID::Num(1), &v(1, 1)));
    assert!(t.insert(&ID::Num(1), &v(2, 2)));
    assert!(t.insert(&ID::Num(2), &v(3, 3)));
    assert_eq!(t.elements.len(), 2);
    assert_eq!(t.mass, 3);
    assert!(!t.divided);
}

#[test]
fn query_of_full_bounds_returns_every_id_once() {
    let bounds = AABB::new((0, 0), (SIDE, SIDE));
    let mut fs = ForceSystem::new(bounds);
    let mut positions = Vec::new();
    for k in 0..12 {
        positions.push(Some((ID::Num(k), Position { x: (k as i64 * 5003) % SIDE, y: (k as i64 * 7919) % SIDE })));
    }
    positions.push(None);
    fs.construct_tree(bounds, &positions);
    assert_eq!(fs.barnes_hut_tree.mass, 12);
    let found = fs.barnes_hut_tree.query(&bounds);
    assert_eq!(sorted_nums(found), (0..12).collect::<Vec<i32>>());
}

#[test]
fn query_of_small_area_selects_inside_points() {
    let mut t = root();
    assert!(t.insert(&ID::Num(1), &v(100, 100)));
    assert!(t.insert(&ID::Num(2), &v(60000, 60000)));
    assert!(t.insert(&ID::Num(3), &v(120, 90)));
    let found = t.query(&AABB::new((100, 100), (50, 50)));
    assert_eq!(sorted_nums(found), vec![1, 3]);
}

#[test]
fn construct_tree_skips_absent_slots_and_sums_positions() {
    let bounds = AABB::new((0, 0), (SIDE, SIDE));
    let mut fs = ForceSystem::new(bounds);
    assert_eq!(fs.options.gravitational_constant, -2000);
    assert_eq!((fs.options.theta_num, fs.options.theta_den), (7, 10));
    let positions = vec![
        Some((ID::Num(0), Position { x: 0, y: 0 })),
        None,
        Some((ID::Str("b".to_string()), Position { x: 10, y: 0 })),
        Some((ID::Num(2), Position { x: 0, y: 10 })),
    ];
    fs.construct_tree(bounds, &positions);
    assert_eq!(fs.barnes_hut_tree.mass, 3);
    assert_eq!((fs.barnes_hut_tree.sum_x, fs.barnes_hut_tree.sum_y), (10, 10));
}

#[test]
fn first_insert_keeps_root_a_leaf() {
    let mut t = QuadTree::new(AABB::new((0, 0), (100, 100)), 0);
    assert!(t.insert(&ID::Num(1), &v(10, 20)));
    assert_eq!((t.mass, t.sum_x, t.sum_y), (1, 10, 20));
    assert!(!t.divided);
    assert!(t.tl.is_none() && t.tr.is_none() && t.bl.is_none() && t.br.is_none());
    assert_eq!(t.elements.len(), 1);
    assert!(t.elements[0].0 == ID::Num(1));
    assert_eq!((t.elements[0].1.x, t.elements[0].1.y), (10, 20));
}

#[test]
fn two_inserts_query_in_child_order() {
    let mut t = QuadTree::new(AABB::new((0, 0), (100, 100)), 0);
    assert!(t.insert(&ID::Num(1), &v(10, 10)));
    assert!(t.insert(&ID::Num(2), &v(80, 80)));
    let found = t.query(&AABB::new((0, 0), (100, 100)));
    assert_eq!(found.len(), 2);
    assert!(found[0] == ID::Num(1));
    assert!(found[1] == ID::Num(2));
    assert_eq!(t.mass, 2);
    assert_eq!(t.tl.as_ref().map(|c| c.mass), Some(1));
    assert_eq!(t.br.as_ref().map(|c| c.mass), Some(1));
}

#[test]
fn odd_sized_bounds_keep_every_entity() {
    let bounds = AABB::new((0, 0), (3, 3));
    let mut t = QuadTree::new(bounds, 0);
    assert!(t.insert(&ID::Num(1), &v(1, 1)));
    assert!(t.insert(&ID::Num(2), &v(2, 2)));
    assert!(t.insert(&ID::Num(3), &v(2, 2)));
    assert_eq!(t.mass, 3);
    assert_eq!(sorted_nums(t.query(&bounds)), vec![1, 2, 3]);
}

#[test]
fn quadrants_tile_odd_sides() {
    let mut t = QuadTree::new(AABB::new((0, 0), (7, 5)), 0);
    assert!(t.insert(&ID::Num(1), &v(0, 0)));
    assert!(t.insert(&ID::Num(2), &v(5, 7)));
    let tl = t.tl.as_ref().unwrap();
    let br = t.br.as_ref().unwrap();
    assert_eq!((tl.bounds.size.x, tl.bounds.size.y), (2, 3));
    assert_eq!((br.bounds.position.x, br.bounds.position.y), (2, 3));
    assert_eq!((br.bounds.size.x, br.bounds.size.y), (3, 4));
}

#[test]
fn narrow_node_splits_like_any_other() {
    let bounds = AABB::new((0, 0), (1, 100));
    let mut t = QuadTree::new(bounds, 0);
    assert!(t.insert(&ID::Num(1), &v(10, 0)));
    assert!(t.insert(&ID::Num(2), &v(20, 1)));
    assert!(t.divided);
    assert!(t.tl.is_some() && t.tr.is_some() && t.bl.is_some() && t.br.is_some());
    assert_eq!(t.mass, 2);
    assert_eq!(t.tl.as_ref().unwrap().bounds.size.y, 0);
    assert_eq!(t.bl.as_ref().unwrap().bounds.size.y, 1);
    assert_eq!(sorted_nums(t.query(&bounds)), vec![1, 2]);
}

#[test]
fn unit_node_splits_below_maximum_depth() {
    let bounds = AABB::new((0, 0), (1, 1));
    let mut t = QuadTree::new(bounds, 15);
    assert!(t.insert(&ID::Num(1), &v(0, 0)));
    assert!(t.insert(&ID::Num(2), &v(1, 1)));
    assert!(t.divided);
    assert!(t.insert(&ID::Num(3), &v(1, 1)));
    assert_eq!(t.mass, 3);
    assert_eq!(sorted_nums(t.query(&bounds)), vec![1, 2, 3]);
}

#[test]
fn rebuilding_gives_the_same_tree() {
    let bounds = AABB::new((0, 0), (100, 100));
    let positions = vec![
        Some((ID::Num(0), Position { x: 5, y: 5 })),
        Some((ID::Num(1), Position { x: 70, y: 20 })),
        Some((ID::Num(2), Position { x: 40, y: 90 })),
    ];
    let mut fs = ForceSystem::new(bounds);
    fs.construct_tree(bounds, &positions);
    let first = (fs.barnes_hut_tree.mass, fs.barnes_hut_tree.sum_x, fs.barnes_hut_tree.sum_y);
    let first_ids = sorted_nums(fs.barnes_hut_tree.query(&bounds));
    fs.construct_tree(bounds, &positions);
    assert_eq!((fs.barnes_hut_tree.mass, fs.barnes_hut_tree.sum_x, fs.barnes_hut_tree.sum_y), first);
    assert_eq!(sorted_nums(fs.barnes_hut_tree.query(&bounds)), first_ids);
    assert_eq!(first, (3, 115, 115));
}
