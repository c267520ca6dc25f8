use minesweeper::geom::{Point2D, Size2D};

#[test]
fn contains_point() {
    let size = Size2D(3, 4);
    let point = Point2D(2, 3);
    assert!(size.contains(&point));
}

#[test]
fn not_contains_width() {
    let size = Size2D(3, 4);
    let point = Point2D(3, 3);
    assert!(!size.contains(&point));
}

#[test]
fn not_contains_height() {
    let size = Size2D(3, 4);
    let point = Point2D(2, 4);
    assert!(!size.contains(&point));
}

#[test]
fn add_points() {
    let p1 = Point2D(1, 2);
    let p2 = Point2D(3, 4);
    assert_eq!(Point2D(4, 6), p1 + &p2);
}

#[test]
fn clip() {
    let mut point = Point2D(10, 10);
    let size = Size2D(6, 8);
    point.clip_excl(&size);
    assert_eq!(Point2D(5, 7), point);
}

#[test]
fn clip_inside_is_identity() {
    let mut point = Point2D(2, 3);
    point.clip_excl(&Size2D(6, 8));
    assert_eq!(Point2D(2, 3), point);
}

#[test]
fn clip_to_empty_extent() {
    let mut point = Point2D(4, 4);
    point.clip_excl(&Size2D(0, 0));
    assert_eq!(Point2D(0, 0), point);
}

#[test]
fn all_neighbours() {
    let point = Point2D(1, 1);
    assert_eq!(8, point.neighbours().len());
}

#[test]
fn neighbours_for_origin() {
    let point = Point2D::default();
    assert_eq!(3, point.neighbours().len());
}

#[test]
fn neighbours_for_edge() {
    assert_eq!(5, Point2D(0, 3).neighbours().len());
    assert_eq!(5, Point2D(3, 0).neighbours().len());
}

#[test]
fn neighbours_exact_for_interior() {
    let got = Point2D(2, 2).neighbours();
    let expected = vec![
        Point2D(1, 1),
        Point2D(1, 2),
        Point2D(1, 3),
        Point2D(2, 1),
        Point2D(2, 3),
        Point2D(3, 1),
        Point2D(3, 2),
        Point2D(3, 3),
    ];
    assert_eq!(expected, got);
}

#[test]
fn neighbours_exact_for_origin() {
    let got = Point2D(0, 0).neighbours();
    assert_eq!(vec![Point2D(0, 1), Point2D(1, 0), Point2D(1, 1)], got);
}
