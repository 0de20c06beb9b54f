use voronoi::kdtree::KdTree;
use voronoi::point::Point;

fn brute_force(points: &[(Point, u32)], q: Point) -> u128 {
    points.iter().map(|(p, _)| p.squared_distance(&q)).min().unwrap()
}

#[test]
fn nearest_matches_linear_scan() {
    let mut entries = Vec::new();
    let mut seed: u64 = 12345;
    for i in 0..200u32 {
        seed = seed.wrapping_mul(6364136223846793005).wrapping_add(1442695040888963407);
        let x = ((seed >> 33) % 100) as u32;
        let y = ((seed >> 13) % 100) as u32;
        entries.push((Point::new(x, y), i));
    }
    let tree = KdTree::from_vector(entries.clone());
    for qx in (0..110u32).step_by(7) {
        for qy in (0..110u32).step_by(5) {
            let q = Point::new(qx, qy);
            let (p, payload) = tree.nearest_neighbor(q).unwrap();
            assert_eq!(p.squared_distance(&q), brute_force(&entries, q));
            assert!(entries.contains(&(p, *payload)));
        }
    }
}

#[test]
fn empty_tree_finds_nothing() {
    let tree: KdTree<u8> = KdTree::from_vector(Vec::new());
    assert!(tree.nearest_neighbor(Point::new(0, 0)).is_none());
    assert!(tree.nearest_neighbor(Point::new(u32::MAX, 7)).is_none());
}

#[test]
fn nearest_with_equal_coordinates() {
    let entries = vec![
        (Point::new(5, 5), 'a'),
        (Point::new(5, 9), 'b'),
        (Point::new(5, 1), 'c'),
        (Point::new(5, 5), 'd'),
    ];
    let tree = KdTree::from_vector(entries);
    let (p, c) = tree.nearest_neighbor(Point::new(6, 10)).unwrap();
    assert_eq!(p, Point::new(5, 9));
    assert_eq!(*c, 'b');
    let (p, c) = tree.nearest_neighbor(Point::new(5, 5)).unwrap();
    assert_eq!(p, Point::new(5, 5));
    assert!(*c == 'a' || *c == 'd');
}

#[test]
fn single_entry_is_always_nearest() {
    let tree = KdTree::from_vector(vec![(Point::new(3, 4), 42u8)]);
    let (p, v) = tree.nearest_neighbor(Point::new(1000, 0)).unwrap();
    assert_eq!(p, Point::new(3, 4));
    assert_eq!(*v, 42);
}
