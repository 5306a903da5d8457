use bounds_tree::{Bounds, Point};

fn rect(min_x: i32, min_y: i32, max_x: i32, max_y: i32) -> Bounds {
    Bounds {
        min: Point { x: min_x, y: min_y },
        max: Point { x: max_x, y: max_y },
    }
}

#[test]
fn merge_is_the_bounding_box_of_both() {
    let merged = rect(0, 5, 10, 20).merge(rect(-3, 7, 4, 30));
    assert_eq!(merged, rect(-3, 5, 10, 30));
}

#[test]
fn merge_with_itself_changes_nothing() {
    let b = rect(-7, -8, 9, 10);
    assert_eq!(b.merge(b), b);
}

#[test]
fn merge_does_not_depend_on_the_side() {
    let a = rect(1, 2, 3, 4);
    let b = rect(-10, 3, 2, 50);
    assert_eq!(a.merge(b), b.merge(a));
}

#[test]
fn overlapping_rectangles_intersect() {
    assert!(rect(0, 0, 10, 10).intersects(rect(5, 5, 15, 15)));
    assert!(rect(5, 5, 15, 15).intersects(rect(0, 0, 10, 10)));
    assert!(rect(0, 0, 10, 10).intersects(rect(2, 2, 3, 3)));
}

#[test]
fn shared_edge_is_no_intersection() {
    assert!(!rect(0, 0, 10, 10).intersects(rect(10, 0, 20, 10)));
    assert!(!rect(10, 0, 20, 10).intersects(rect(0, 0, 10, 10)));
    assert!(!rect(0, 0, 10, 10).intersects(rect(0, 10, 10, 20)));
    assert!(!rect(0, 0, 10, 10).intersects(rect(0, -10, 10, 0)));
}

#[test]
fn separated_rectangles_do_not_intersect() {
    assert!(!rect(0, 0, 10, 10).intersects(rect(11, 0, 20, 10)));
    assert!(!rect(0, 0, 10, 10).intersects(rect(0, 11, 10, 20)));
    // Overlap along one axis alone is not enough.
    assert!(!rect(0, 0, 10, 10).intersects(rect(5, 20, 15, 30)));
}

#[test]
fn half_perimeter_is_width_plus_height() {
    assert_eq!(rect(0, 0, 10, 10).half_perimeter(), 20);
    assert_eq!(rect(-5, 2, 7, 3).half_perimeter(), 13);
    assert_eq!(rect(4, 4, 4, 4).half_perimeter(), 0);
}

#[test]
fn half_perimeter_of_the_widest_rectangle_fits() {
    let widest = rect(i32::MIN, i32::MIN, i32::MAX, i32::MAX);
    assert_eq!(widest.half_perimeter(), 2 * (u32::MAX as i64));
    let inverted = rect(i32::MAX, i32::MAX, i32::MIN, i32::MIN);
    assert_eq!(inverted.half_perimeter(), -2 * (u32::MAX as i64));
}

#[test]
fn default_is_the_empty_rectangle_at_the_origin() {
    assert_eq!(Bounds::default(), rect(0, 0, 0, 0));
    assert_eq!(Point::default(), Point { x: 0, y: 0 });
}
