use rand::{Rng, SeedableRng};
use rand_hc::Hc128Rng;
use rstar::{
    drain_take, Aabb, Line, Point, RTree, Rectangle, SelectAllFunc,
    SelectInEnvelopeFuncIntersecting,
};

const SEED_1: &[u8; 32] = b"wPYxAkIiHcEmSBAxQFoXFrpYToCe1B71";
const SEED_2: &[u8; 32] = b"4KbTVjPT4DXSwWAsQM5dkWWywPKZRfCX";

/// Coordinates in the unit square are stored as multiples of one billionth.
fn fixed(v: f64) -> i64 {
    (v * 1_000_000_000.0).round() as i64
}

fn create_random_coords(num_points: usize, seed: &[u8; 32]) -> Vec<[f64; 2]> {
    let mut rng = Hc128Rng::from_seed(*seed);
    let mut result = Vec::with_capacity(num_points);
    for _ in 0..num_points {
        let x: f64 = rng.gen();
        let y: f64 = rng.gen();
        result.push([x, y]);
    }
    result
}

fn create_random_points(num_points: usize, seed: &[u8; 32]) -> Vec<Point> {
    create_random_coords(num_points, seed)
        .iter()
        .map(|c| Point::new(fixed(c[0]), fixed(c[1])))
        .collect()
}

fn create_random_rectangles(num_rectangles: usize, seed: &[u8; 32]) -> Vec<Rectangle> {
    let corners = create_random_coords(num_rectangles, seed);
    let extents = create_random_coords(num_rectangles, SEED_2);
    corners
        .iter()
        .zip(extents.iter())
        .map(|(c, e)| {
            Rectangle::from_corners(
                fixed(c[0]),
                fixed(c[1]),
                fixed(c[0] + e[0] * 0.1),
                fixed(c[1] + e[1] * 0.1),
            )
        })
        .collect()
}

#[test]
fn test_remove_and_insert() {
    const SIZE: usize = 1000;
    let points = create_random_points(SIZE, SEED_1);
    let later_insertions = create_random_points(SIZE, SEED_2);
    let mut tree = RTree::bulk_load(points.clone());
    for (point_to_remove, point_to_add) in points.iter().zip(later_insertions.iter()) {
        assert!(tree
            .remove_at_point(point_to_remove.x, point_to_remove.y)
            .is_some());
        tree.insert(*point_to_add);
    }
    assert_eq!(tree.size(), SIZE);
    assert!(points.iter().all(|p| !tree.contains(p)));
    assert!(later_insertions.iter().all(|p| tree.contains(p)));
    for point in &later_insertions {
        assert!(tree.remove_at_point(point.x, point.y).is_some());
    }
    assert_eq!(tree.size(), 0);
}

#[test]
fn test_remove_and_insert_rectangles() {
    const SIZE: usize = 1000;
    let initial_rectangles = create_random_rectangles(SIZE, SEED_1);
    let new_rectangles = create_random_rectangles(SIZE, SEED_2);
    let mut tree = RTree::bulk_load(initial_rectangles.clone());

    for (rectangle_to_remove, rectangle_to_add) in
        initial_rectangles.iter().zip(new_rectangles.iter())
    {
        assert!(tree.remove(rectangle_to_remove).is_some());
        tree.insert(*rectangle_to_add);
    }
    assert_eq!(tree.size(), SIZE);
    assert!(initial_rectangles.iter().all(|p| !tree.contains(p)));
    assert!(new_rectangles.iter().all(|p| tree.contains(p)));
    for rectangle in &new_rectangles {
        assert!(tree.contains(rectangle));
    }
    for rectangle in &initial_rectangles {
        assert!(!tree.contains(rectangle));
    }
    for rectangle in &new_rectangles {
        assert!(tree.remove(rectangle).is_some());
    }
    assert_eq!(tree.size(), 0);
}

#[test]
fn test_remove_at_point() {
    let points = create_random_points(1000, SEED_1);
    let mut tree = RTree::bulk_load(points.clone());
    for point in &points {
        let size_before_removal = tree.size();
        assert!(tree.remove_at_point(point.x, point.y).is_some());
        assert!(tree
            .remove_at_point(fixed(1000.0), fixed(1000.0))
            .is_none());
        assert_eq!(size_before_removal - 1, tree.size());
    }
}

#[test]
fn test_remove() {
    let points = create_random_coords(1000, SEED_1);
    let offsets = create_random_coords(1000, SEED_2);
    let edges: Vec<Line> = points
        .iter()
        .zip(offsets.iter())
        .map(|(from, offset)| {
            let to = [from[0] + offset[0] * 0.05, from[1] + offset[1] * 0.05];
            Line::new(
                Point::new(fixed(from[0]), fixed(from[1])),
                Point::new(fixed(to[0]), fixed(to[1])),
            )
        })
        .collect();
    let mut tree = RTree::bulk_load(edges.clone());
    for edge in &edges {
        let size_before_removal = tree.size();
        assert!(tree.remove(edge).is_some());
        assert!(tree.remove(edge).is_none());
        assert_eq!(size_before_removal - 1, tree.size());
    }
}

#[test]
fn test_drain_iterator() {
    const SIZE: usize = 1000;
    let points = create_random_points(SIZE, SEED_1);
    let mut tree = RTree::bulk_load(points.clone());

    let drain_count = drain_take(&mut tree, SelectAllFunc, 250).len();
    assert_eq!(drain_count, 250);
    assert_eq!(tree.size(), 750);

    let drain_count = drain_take(&mut tree, SelectAllFunc, usize::MAX).len();
    assert_eq!(drain_count, 750);
    assert_eq!(tree.size(), 0);

    let points = create_random_points(1000, SEED_1);
    let mut tree = RTree::bulk_load(points.clone());

    // 406 of the points lie in this box.
    let env = Aabb::from_corners(fixed(-2.), fixed(-0.6), fixed(0.5), fixed(0.85));

    let sel = SelectInEnvelopeFuncIntersecting::new(env);
    let drain_count = drain_take(&mut tree, sel, 80).len();
    assert_eq!(drain_count, 80);

    let sel = SelectInEnvelopeFuncIntersecting::new(env);
    let drain_count = drain_take(&mut tree, sel, usize::MAX).len();
    assert_eq!(drain_count, 326);

    let sel = SelectInEnvelopeFuncIntersecting::new(env);
    let sel_count = tree.count_with_selection_function(&sel);
    assert_eq!(sel_count, 0);
    assert_eq!(tree.size(), 1000 - 80 - 326);
}
