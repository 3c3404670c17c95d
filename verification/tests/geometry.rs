use embedded_graphics_readback::{Point, Rectangle, Size};

fn rect(x: i32, y: i32, w: u32, h: u32) -> Rectangle {
    Rectangle::new(Point::new(x, y), Size::new(w, h))
}

#[test]
fn rectangle_contains_its_corners_and_nothing_past_them() {
    let r = rect(2, 3, 4, 5);
    assert!(r.contains(Point::new(2, 3)));
    assert!(r.contains(Point::new(5, 7)));
    assert!(!r.contains(Point::new(6, 3)));
    assert!(!r.contains(Point::new(2, 8)));
    assert!(!r.contains(Point::new(1, 3)));
    assert!(!r.contains(Point::new(2, 2)));
}

#[test]
fn zero_sized_rectangle_contains_nothing() {
    let r = rect(2, 3, 0, 5);
    assert!(!r.contains(Point::new(2, 3)));
    assert!(!Rectangle::zero().contains(Point::zero()));
}

#[test]
fn rectangle_intersection_of_overlapping_rectangles() {
    let a = rect(10, 10, 20, 30);
    let b = rect(25, 25, 30, 40);
    assert_eq!(a.intersection(&b), rect(25, 25, 5, 15));
    assert_eq!(b.intersection(&a), rect(25, 25, 5, 15));
}

#[test]
fn rectangle_intersection_of_crossing_bands() {
    let a = rect(50, 0, 75, 200);
    let b = rect(0, 75, 200, 50);
    assert_eq!(a.intersection(&b), rect(50, 75, 75, 50));
}

#[test]
fn rectangle_intersection_of_disjoint_rectangles_is_zero() {
    let a = rect(10, 10, 20, 30);
    let b = rect(35, 35, 30, 40);
    assert_eq!(a.intersection(&b), Rectangle::zero());
}

#[test]
fn rectangle_intersection_keeps_a_zero_sized_rectangle_inside_the_other() {
    let inside = rect(1, 2, 0, 0);
    let big = rect(-10, -10, 20, 20);
    assert_eq!(inside.intersection(&big), inside);
    assert_eq!(big.intersection(&inside), inside);
    let outside = rect(11, 2, 0, 0);
    assert_eq!(outside.intersection(&big), Rectangle::zero());
}

#[test]
fn rectangle_intersection_with_itself() {
    let a = rect(-3, 4, 7, 2);
    assert_eq!(a.intersection(&a), a);
}

#[test]
fn points_and_sizes_hold_their_coordinates() {
    let p = Point::new(-7, 9);
    assert_eq!((p.x, p.y), (-7, 9));
    assert_eq!(Point::zero(), Point::new(0, 0));
    let s = Size::new(3, 4);
    assert_eq!((s.width, s.height), (3, 4));
    assert_eq!(Size::zero(), Size::new(0, 0));
    assert_eq!(Rectangle::zero(), rect(0, 0, 0, 0));
}
