use barnes_hut::force_system::{ForceSystem, Interaction};
use barnes_hut::quad::{QuadTree, AABB};
use barnes_hut::structs::{Position, Vector2d, ID};

fn v(x: i64, y: i64) -> Vector2d {
    Vector2d { x, y }
}

fn build(side: i64, points: &[(i64, i64)]) -> ForceSystem {
    let bounds = AABB::new((0, 0), (side, side));
    let mut fs = ForceSystem::new(bounds);
    let positions: Vec<Option<(ID, Position)>> = points
        .iter()
        .enumerate()
        .map(|(k, (x, y))| Some((ID::Num(k as i32), Position { x: *x, y: *y })))
        .collect();
    fs.construct_tree(bounds, &positions);
    fs
}

/// `G * m / d^3 * (dx, dy)` towards the body, with the distance floored at 1.
fn pull(g: f64, x: f64, y: f64, bx: f64, by: f64, m: f64) -> (f64, f64) {
    let mut dx = bx - x;
    let dy = by - y;
    let mut d = (dx * dx + dy * dy).sqrt();
    if d < 1.0 {
        d = 1.0;
        dx = 1.0;
    }
    let f = g * m / (d * d * d);
    (dx * f, dy * f)
}

fn approximate_force(fs: &ForceSystem, k: usize, x: i64, y: i64) -> (f64, f64) {
    let g = fs.options.gravitational_constant as f64;
    let bodies: Vec<Interaction> = fs.get_force_contributions(&ID::Num(k as i32), &v(x, y), &fs.barnes_hut_tree);
    bodies.iter().fold((0.0, 0.0), |(fx, fy), b| {
        let m = b.mass as f64;
        let (px, py) = pull(g, x as f64, y as f64, b.sum_x as f64 / m, b.sum_y as f64 / m, m);
        (fx + px, fy + py)
    })
}

fn exact_force(g: f64, points: &[(i64, i64)], k: usize) -> (f64, f64) {
    let (x, y) = (points[k].0 as f64, points[k].1 as f64);
    points.iter().enumerate().filter(|(j, _)| *j != k).fold((0.0, 0.0), |(fx, fy), (_, (bx, by))| {
        let (px, py) = pull(g, x, y, *bx as f64, *by as f64, 1.0);
        (fx + px, fy + py)
    })
}

fn close(a: (f64, f64), b: (f64, f64), rel: f64) -> bool {
    let scale = (b.0 * b.0 + b.1 * b.1).sqrt().max(1e-300);
    ((a.0 - b.0).powi(2) + (a.1 - b.1).powi(2)).sqrt() / scale <= rel
}

#[test]
fn gate_approximates_far_branch_only() {
    let fs = ForceSystem::new(AABB::new((0, 0), (65536, 65536)));
    let mut leaf = QuadTree::new(AABB::new((0, 0), (10, 10)), 0);
    assert!(leaf.insert(&ID::Num(1), &v(0, 0)));
    // s = 10: at distance 100 the ratio is 0.1, at distance 10 it is 1, against theta 0.7.
    assert!(fs.approximates(&leaf, &v(100, 0)));
    assert!(!fs.approximates(&leaf, &v(10, 0)));
    // At distance 15 the ratio is 0.67, below theta; at distance 14 it is 0.71.
    assert!(fs.approximates(&leaf, &v(0, 15)));
    assert!(!fs.approximates(&leaf, &v(0, 14)));
    // At distance zero the branch is never approximated.
    assert!(!fs.approximates(&leaf, &v(0, 0)));
}

#[test]
fn three_entities_match_pairwise_forces() {
    let points = [(0, 0), (10, 0), (0, 10)];
    let fs = build(100, &points);
    assert_eq!(fs.barnes_hut_tree.mass, 3);
    let approx = approximate_force(&fs, 0, 0, 0);
    let exact = exact_force(-2000.0, &points, 0);
    assert!(close(approx, exact, 1e-6), "{:?} vs {:?}", approx, exact);
    assert!(exact.0 < 0.0 && exact.1 < 0.0);
}

#[test]
fn small_theta_converges_to_pairwise_sum() {
    let points = [(100, 200), (5000, 300), (40000, 40000), (1200, 60000), (30000, 7000)];
    let mut fs = build(65536, &points);
    for k in 0..points.len() {
        fs.options.theta_num = 0;
        fs.options.theta_den = 1;
        let exact = exact_force(-2000.0, &points, k);
        let at_zero = approximate_force(&fs, k, points[k].0, points[k].1);
        assert!(close(at_zero, exact, 1e-9), "{:?} vs {:?}", at_zero, exact);
        fs.options.theta_num = 1;
        fs.options.theta_den = 1000;
        let tiny = approximate_force(&fs, k, points[k].0, points[k].1);
        assert!(close(tiny, exact, 1e-9));
    }
}

#[test]
fn zero_theta_lists_every_other_entity() {
    let points = [(100, 200), (5000, 300), (40000, 40000), (1200, 60000), (30000, 7000)];
    let mut fs = build(65536, &points);
    fs.options.theta_num = 0;
    let bodies = fs.get_force_contributions(&ID::Num(2), &v(40000, 40000), &fs.barnes_hut_tree);
    assert_eq!(bodies.len(), 4);
    let mut found: Vec<(i128, i128)> = bodies.iter().map(|b| (b.sum_x, b.sum_y)).collect();
    found.sort();
    assert_eq!(found, vec![(100, 200), (1200, 60000), (5000, 300), (30000, 7000)]);
    assert!(bodies.iter().all(|b| b.mass == 1));
}

#[test]
fn lone_entity_exerts_no_force_on_itself() {
    let fs = build(65536, &[(300, 400)]);
    let bodies = fs.get_force_contributions(&ID::Num(0), &v(300, 400), &fs.barnes_hut_tree);
    assert!(bodies.is_empty());
    // Another entity at the same spot is repelled by it.
    let other = fs.get_force_contributions(&ID::Num(7), &v(300, 400), &fs.barnes_hut_tree);
    assert_eq!(other.len(), 1);
    assert_eq!((other[0].mass, other[0].sum_x, other[0].sum_y), (1, 300, 400));
}

#[test]
fn far_cluster_acts_as_one_body() {
    let points = [(60000, 60000), (60010, 60000), (60000, 60010), (60010, 60010), (10, 10)];
    let fs = build(65536, &points);
    let bodies = fs.get_force_contributions(&ID::Num(4), &v(10, 10), &fs.barnes_hut_tree);
    let total: u64 = bodies.iter().map(|b| b.mass).sum();
    assert_eq!(total, 4);
    assert!(bodies.len() < 4);
    let sx: i128 = bodies.iter().map(|b| b.sum_x).sum();
    assert_eq!(sx, 4 * 60000 + 20);
}

#[test]
fn empty_tree_gives_no_bodies() {
    let fs = build(65536, &[]);
    assert!(fs.get_force_contributions(&ID::Num(0), &v(1, 1), &fs.barnes_hut_tree).is_empty());
}

#[test]
fn single_entity_in_small_tree_feels_nothing() {
    let fs = build(100, &[(30, 40)]);
    assert!(!fs.barnes_hut_tree.divided);
    assert!(fs.get_force_contributions(&ID::Num(0), &v(30, 40), &fs.barnes_hut_tree).is_empty());
}
