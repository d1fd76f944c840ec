use rstar::{
    drain_take, remove, remove_all, Aabb, DrainIterator, Line, ParentNode, Point, RTree,
    RTreeNode, RTreeObject, SelectAllFunc, SelectAtPointFunc, SelectEqualsFunc,
    SelectInEnvelopeFuncIntersecting, SelectionFunction,
};

fn grid(n: i64) -> Vec<Point> {
    let mut v = Vec::new();
    for x in 0..n {
        for y in 0..n {
            v.push(Point::new(x, y));
        }
    }
    v
}

fn lower_left() -> SelectInEnvelopeFuncIntersecting {
    SelectInEnvelopeFuncIntersecting::new(Aabb::from_corners(0, 0, 4, 4))
}

#[test]
fn remove_all_twice_finds_nothing_the_second_time() {
    let mut tree = RTree::bulk_load(grid(10));
    let first = tree.remove_all_with_selection_function(&lower_left());
    assert_eq!(first.len(), 25);
    assert_eq!(tree.size(), 75);
    let second = tree.remove_all_with_selection_function(&lower_left());
    assert!(second.is_empty());
    assert_eq!(tree.size(), 75);
}

#[test]
fn remove_all_returns_values_in_depth_first_order() {
    let points = grid(10);
    let mut tree = RTree::bulk_load(points.clone());
    let removed = tree.remove_all_with_selection_function(&lower_left());
    let expected: Vec<Point> = points
        .iter()
        .filter(|p| p.x <= 4 && p.y <= 4)
        .copied()
        .collect();
    assert_eq!(removed, expected);
}

#[test]
fn remove_without_match_leaves_tree_alone() {
    let mut tree = RTree::bulk_load(grid(8));
    assert!(tree.remove(&Point::new(100, 100)).is_none());
    assert!(tree.remove_at_point(-1, -1).is_none());
    assert_eq!(tree.size(), 64);
    for p in grid(8) {
        assert!(tree.contains(&p));
    }
}

#[test]
fn remove_counts_one_per_value() {
    let mut tree = RTree::bulk_load(grid(6));
    assert_eq!(tree.remove(&Point::new(2, 3)), Some(Point::new(2, 3)));
    assert_eq!(tree.size(), 35);
    assert!(!tree.contains(&Point::new(2, 3)));
    assert!(tree.remove(&Point::new(2, 3)).is_none());
    assert_eq!(tree.size(), 35);
    let all = tree.remove_all_with_selection_function(&SelectAllFunc);
    assert_eq!(all.len(), 35);
    assert_eq!(tree.size(), 0);
}

#[test]
fn remove_takes_one_of_two_equal_values() {
    let mut tree = RTree::bulk_load(vec![Point::new(1, 1), Point::new(1, 1), Point::new(2, 2)]);
    assert_eq!(tree.remove(&Point::new(1, 1)), Some(Point::new(1, 1)));
    assert_eq!(tree.size(), 2);
    assert!(tree.contains(&Point::new(1, 1)));
}

#[test]
fn remaining_values_stay_reachable_after_removals() {
    let points = grid(12);
    let mut tree = RTree::bulk_load(points.clone());
    for p in points.iter().filter(|p| (p.x + p.y) % 3 == 0) {
        assert!(tree.remove(p).is_some());
    }
    for p in &points {
        assert_eq!(tree.contains(p), (p.x + p.y) % 3 != 0);
    }
    let rest = tree.remove_all_with_selection_function(&SelectAllFunc);
    assert_eq!(rest.len(), tree_size_check(&points));
    assert_eq!(tree.size(), 0);
}

fn tree_size_check(points: &[Point]) -> usize {
    points.iter().filter(|p| (p.x + p.y) % 3 != 0).count()
}

#[test]
fn draining_a_prefix_removes_exactly_that_prefix() {
    let points = grid(10);
    let mut tree = RTree::bulk_load(points.clone());
    let drained = drain_take(&mut tree, lower_left(), 7);
    assert_eq!(drained.len(), 7);
    assert_eq!(tree.size(), 93);
    for p in &points {
        assert_eq!(tree.contains(p), !drained.contains(p));
    }
    for p in &drained {
        assert!(p.x <= 4 && p.y <= 4);
    }
    assert_eq!(tree.count_with_selection_function(&lower_left()), 18);
}

#[test]
fn drain_iterator_by_hand() {
    let mut tree = RTree::bulk_load(grid(5));
    let mut it = DrainIterator::new(&mut tree, SelectAllFunc);
    assert_eq!(tree.size(), 0);
    let mut n = 0;
    while n < 10 {
        assert!(it.next().is_some());
        n += 1;
    }
    it.finish(&mut tree);
    assert_eq!(tree.size(), 15);
    let mut it = DrainIterator::new(&mut tree, SelectAllFunc);
    let mut m = 0;
    while it.next().is_some() {
        m += 1;
    }
    assert!(it.next().is_none());
    it.finish(&mut tree);
    assert_eq!(m, 15);
    assert_eq!(tree.size(), 0);
}

#[test]
fn empty_tree_edge_cases() {
    let mut tree: RTree<Point> = RTree::bulk_load(Vec::new());
    assert_eq!(tree.size(), 0);
    assert!(tree.remove(&Point::new(0, 0)).is_none());
    assert!(drain_take(&mut tree, SelectAllFunc, 5).is_empty());
    assert!(tree
        .remove_all_with_selection_function(&SelectAllFunc)
        .is_empty());
    tree.insert(Point::new(3, 4));
    assert_eq!(tree.size(), 1);
    assert!(tree.contains(&Point::new(3, 4)));
    let mut fresh: RTree<Point> = RTree::new();
    assert_eq!(fresh.size(), 0);
    fresh.insert(Point::new(1, 2));
    assert_eq!(fresh.remove_at_point(1, 2), Some(Point::new(1, 2)));
    assert_eq!(fresh.size(), 0);
}

#[test]
fn node_level_remove_prunes_empty_children() {
    let leaf_a = RTreeNode::Leaf(Point::new(1, 1));
    let leaf_b = RTreeNode::Leaf(Point::new(5, 5));
    let inner = ParentNode {
        children: vec![leaf_a],
        envelope: Aabb::from_point(1, 1),
    };
    let mut root = ParentNode {
        children: vec![RTreeNode::Parent(inner), leaf_b],
        envelope: Aabb::from_corners(1, 1, 5, 5),
    };
    assert_eq!(
        remove(&mut root, &SelectEqualsFunc::new(Point::new(1, 1))),
        Some(Point::new(1, 1))
    );
    assert_eq!(root.children.len(), 1);
    assert_eq!(root.envelope, Aabb::from_point(5, 5));
    let rest = remove_all(&mut root, &SelectAllFunc);
    assert_eq!(rest, vec![Point::new(5, 5)]);
    assert!(root.children.is_empty());
    assert_eq!(root.envelope, Aabb::new_empty());
}

#[test]
fn rejected_subtree_is_skipped() {
    let mut tree = RTree::bulk_load(grid(10));
    let far = SelectInEnvelopeFuncIntersecting::new(Aabb::from_corners(50, 50, 60, 60));
    assert!(tree.remove_with_selection_function(&far).is_none());
    assert!(drain_take(&mut tree, far, 100).is_empty());
    assert_eq!(tree.size(), 100);
}

#[test]
fn envelope_arithmetic() {
    let a = Aabb::from_corners(3, 7, -1, 2);
    assert_eq!(a, Aabb { lower_x: -1, lower_y: 2, upper_x: 3, upper_y: 7 });
    let b = Aabb::from_point(10, 0);
    assert_eq!(a.merge(&b), Aabb { lower_x: -1, lower_y: 0, upper_x: 10, upper_y: 7 });
    assert_eq!(Aabb::new_empty().merge(&a), a);
    assert!(a.intersects(&Aabb::from_corners(3, 7, 9, 9)));
    assert!(!a.intersects(&Aabb::from_corners(4, 0, 9, 9)));
    assert!(a.contains_envelope(&Aabb::from_point(0, 5)));
    assert!(!a.contains_envelope(&b));
}

#[test]
fn object_envelopes_and_selections() {
    let l = Line::new(Point::new(4, -2), Point::new(1, 6));
    assert_eq!(l.envelope(), Aabb { lower_x: 1, lower_y: -2, upper_x: 4, upper_y: 6 });
    let r = rstar::Rectangle::from_corners(5, 5, 0, 0);
    assert_eq!(r.envelope(), Aabb { lower_x: 0, lower_y: 0, upper_x: 5, upper_y: 5 });
    let at = SelectAtPointFunc::new(2, 3);
    assert!(SelectionFunction::<Line>::should_unpack_leaf(&at, &l));
    assert!(!SelectionFunction::<Line>::should_unpack_leaf(&SelectAtPointFunc::new(5, 3), &l));
    let eq = SelectEqualsFunc::new(Point::new(2, 2));
    assert!(eq.should_unpack_leaf(&Point::new(2, 2)));
    assert!(!eq.should_unpack_leaf(&Point::new(2, 3)));
    assert!(eq.should_unpack_parent(&Aabb::from_corners(0, 0, 2, 2)));
    assert!(!eq.should_unpack_parent(&Aabb::from_corners(0, 0, 1, 2)));
}

#[test]
fn drain_yields_a_prefix_of_what_remove_all_finds() {
    let points = grid(10);
    let mut drained_tree = RTree::bulk_load(points.clone());
    let mut removed_tree = RTree::bulk_load(points.clone());
    let all = removed_tree.remove_all_with_selection_function(&lower_left());
    let first = drain_take(&mut drained_tree, lower_left(), 7);
    assert_eq!(first[..], all[..7]);
    let rest = drain_take(&mut drained_tree, lower_left(), usize::MAX);
    assert_eq!(rest.len(), all.len() - 7);
    assert_eq!(drained_tree.count_with_selection_function(&lower_left()), 0);
}

#[test]
fn drain_started_and_finished_at_once_keeps_the_tree() {
    let points = grid(7);
    let mut tree = RTree::bulk_load(points.clone());
    let it = DrainIterator::new(&mut tree, SelectAllFunc);
    it.finish(&mut tree);
    assert_eq!(tree.size(), 49);
    let all = tree.remove_all_with_selection_function(&SelectAllFunc);
    assert_eq!(all, points);
}

#[test]
fn remove_at_point_finds_a_covering_rectangle() {
    let mut tree = RTree::bulk_load(vec![
        rstar::Rectangle::from_corners(0, 0, 10, 10),
        rstar::Rectangle::from_corners(20, 20, 30, 30),
    ]);
    assert_eq!(
        tree.remove_at_point(25, 21),
        Some(rstar::Rectangle::from_corners(20, 20, 30, 30))
    );
    assert!(tree.remove_at_point(15, 15).is_none());
    assert_eq!(tree.size(), 1);
}
