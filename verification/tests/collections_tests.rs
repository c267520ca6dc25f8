use minesweeper::collections::Vec2D;
use minesweeper::geom::{Point2D, Size2D};

#[test]
fn get_value_in_single_cell_vec2d() {
    let v = Vec2D::sized(&Size2D(1, 1), 5);
    assert_eq!(&5, v.get(&Point2D(0, 0)).unwrap());
}

#[test]
fn get_outside_extent_is_absent() {
    let v = Vec2D::sized(&Size2D(3, 2), 1);
    assert!(v.get(&Point2D(3, 0)).is_none());
    assert!(v.get(&Point2D(0, 2)).is_none());
    assert!(v.get(&Point2D(7, 9)).is_none());
}

#[test]
fn get_mut_outside_extent_is_absent() {
    let mut v = Vec2D::sized(&Size2D(3, 2), 1);
    assert!(v.get_mut(&Point2D(3, 0)).is_none());
    assert!(v.get_mut(&Point2D(0, 2)).is_none());
}

#[test]
fn get_mut_writes_through() {
    let mut v = Vec2D::sized(&Size2D(2, 2), 0);
    *v.get_mut(&Point2D(1, 0)).unwrap() = 9;
    assert_eq!(&9, v.get(&Point2D(1, 0)).unwrap());
    assert_eq!(&0, v.get(&Point2D(0, 0)).unwrap());
}

#[test]
fn all_locations_cover_extent_once() {
    let v = Vec2D::sized(&Size2D(3, 4), 0u8);
    let locations = v.all_locations();
    assert_eq!(12, locations.len());
    for (i, a) in locations.iter().enumerate() {
        assert!(v.size().contains(a));
        for b in locations.iter().skip(i + 1) {
            assert_ne!(a, b);
        }
    }
}

#[test]
fn all_locations_order_is_row_major() {
    let v = Vec2D::sized(&Size2D(2, 2), 0u8);
    let expected = vec![Point2D(0, 0), Point2D(0, 1), Point2D(1, 0), Point2D(1, 1)];
    assert_eq!(expected, v.all_locations());
}
