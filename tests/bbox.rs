use voronoi::bbox::BoundingBox;
use voronoi::point::{Point, PointU32};

#[test]
fn test_contains() {
    let rec = BoundingBox::from_dimensions_and_origin(&PointU32::new(3, 5), 7, 5);

    assert_eq!(rec.contains(&PointU32::new(0, 0)), false);
    assert_eq!(rec.contains(&PointU32::new(4, 0)), false);
    assert_eq!(rec.contains(&PointU32::new(0, 8)), false);
    assert_eq!(rec.contains(&PointU32::new(40, 40)), false);

    assert_eq!(rec.contains(&PointU32::new(3, 5)), true);
    assert_eq!(rec.contains(&PointU32::new(5, 7)), true);
    assert_eq!(rec.contains(&PointU32::new(10, 10)), true);
}

#[test]
fn test_points() {
    let rec = BoundingBox::from_dimensions_and_origin(&PointU32::new(3, 5), 7, 5);

    assert_eq!(
        rec.points(),
        [
            PointU32::new(3, 5),
            PointU32::new(10, 5),
            PointU32::new(10, 10),
            PointU32::new(3, 10),
        ]
    )
}

#[test]
fn test_center() {
    let rec = BoundingBox::from_dimensions_and_origin(&PointU32::new(2, 4), 8, 6);

    assert_eq!(rec.center(), PointU32::new(6, 7));
}

#[test]
fn empty_box_is_inverted_and_contains_nothing() {
    let b = BoundingBox::new();
    assert_eq!(*b.min(), Point::new(u32::MAX, u32::MAX));
    assert_eq!(*b.max(), Point::new(0, 0));
    assert!(!b.contains(&Point::new(0, 0)));
    assert_eq!(BoundingBox::default(), b);
}

#[test]
fn expand_grows_and_is_idempotent_inside() {
    let mut b = BoundingBox::new();
    b.expand_by_point(&Point::new(4, 9));
    assert_eq!(*b.min(), Point::new(4, 9));
    assert_eq!(*b.max(), Point::new(4, 9));
    b.expand_by_point(&Point::new(1, 12));
    assert_eq!(*b.min(), Point::new(1, 9));
    assert_eq!(*b.max(), Point::new(4, 12));
    let before = b;
    b.expand_by_point(&Point::new(2, 10));
    assert_eq!(b, before);
}

#[test]
fn fold_is_order_independent() {
    let a = [Point::new(5, 1), Point::new(0, 7), Point::new(9, 3), Point::new(2, 2)];
    let c = [Point::new(2, 2), Point::new(9, 3), Point::new(5, 1), Point::new(0, 7)];
    let ba = BoundingBox::from_points(&a);
    let bc = BoundingBox::from_points(&c);
    assert_eq!(ba, bc);
    assert_eq!(*ba.min(), Point::new(0, 1));
    assert_eq!(*ba.max(), Point::new(9, 7));
    assert_eq!(BoundingBox::from_points(&[]), BoundingBox::new());
}

#[test]
fn corners_of_box_are_contained() {
    let rec = BoundingBox::from_dimensions_and_origin(&Point::new(3, 5), 7, 5);
    for p in rec.points().iter() {
        assert!(rec.contains(p));
    }
}

#[test]
fn from_dimensions_starts_at_origin() {
    let b = BoundingBox::from_dimensions(8, 6);
    assert_eq!(*b.min(), Point::new(0, 0));
    assert_eq!(*b.max(), Point::new(8, 6));
    assert_eq!(b.center(), Point::new(4, 3));
}

#[test]
fn center_of_wide_box_does_not_overflow() {
    let b = BoundingBox::from_dimensions_and_origin(&Point::new(u32::MAX - 1, 0), 1, 0);
    assert_eq!(b.center(), Point::new(u32::MAX - 1, 0));
}

#[test]
fn checked_construction_reports_overflow() {
    assert_eq!(BoundingBox::checked_from_dimensions_and_origin(&Point::new(u32::MAX, 0), 1, 0), None);
    assert_eq!(BoundingBox::checked_from_dimensions_and_origin(&Point::new(0, 5), 0, u32::MAX), None);
    let b = BoundingBox::checked_from_dimensions_and_origin(&Point::new(3, 5), 7, 5).unwrap();
    assert_eq!(*b.max(), Point::new(10, 10));
}

#[test]
fn squared_distance_is_exact() {
    assert_eq!(Point::new(1, 2).squared_distance(&Point::new(4, 6)), 25);
    let far = Point::new(u32::MAX, u32::MAX).squared_distance(&Point::new(0, 0));
    assert_eq!(far, 2 * (u32::MAX as u128) * (u32::MAX as u128));
}
