use bounds_tree::{Bounds, BoundsTree, Point, Primitive};

fn rect(min_x: i32, min_y: i32, max_x: i32, max_y: i32) -> Bounds {
    Bounds {
        min: Point { x: min_x, y: min_y },
        max: Point { x: max_x, y: max_y },
    }
}

/// A small linear congruential generator, so that runs repeat.
struct Lcg(u64);

impl Lcg {
    fn next(&mut self) -> u64 {
        self.0 = self
            .0
            .wrapping_mul(6364136223846793005)
            .wrapping_add(1442695040888963407);
        self.0 >> 33
    }

    /// A value in `low..high`.
    fn range(&mut self, low: i32, high: i32) -> i32 {
        low + (self.next() % ((high - low) as u64)) as i32
    }
}

#[test]
fn test_bounds_insertion_with_two_bounds() {
    let mut tree = BoundsTree::new();
    let bounds1 = Bounds {
        min: Point { x: 0, y: 0 },
        max: Point { x: 10, y: 10 },
    };
    let bounds2 = Bounds {
        min: Point { x: 5, y: 5 },
        max: Point { x: 15, y: 15 },
    };

    // Insert the first rectangle.
    assert_eq!(tree.insert(bounds1, "bounds1".to_string()), 1);

    // Insert the second rectangle, which overlaps with the first.
    assert_eq!(tree.insert(bounds2, "bounds2".to_string()), 2);
}

#[test]
fn test_adjacent_bounds() {
    let mut tree = BoundsTree::new();
    let bounds1 = Bounds {
        min: Point { x: 0, y: 0 },
        max: Point { x: 10, y: 10 },
    };
    let bounds2 = Bounds {
        min: Point { x: 10, y: 0 },
        max: Point { x: 20, y: 10 },
    };

    // Insert the first bounds.
    assert_eq!(tree.insert(bounds1, "bounds1"), 1);

    // Insert the second bounds, which is adjacent to the first but not overlapping.
    assert_eq!(tree.insert(bounds2, "bounds2"), 1);
}

#[test]
fn bounds_tree_test_random_iterations() {
    let max_bounds = 100;

    for seed in 1..=200u64 {
        let mut tree = BoundsTree::new();
        let mut rng = Lcg(seed);
        let mut expected_quads: Vec<Primitive<usize>> = Vec::new();

        // Insert a random number of random rectangles into the tree.
        let num_bounds = rng.range(1, max_bounds + 1) as usize;
        for quad_id in 0..num_bounds {
            let min_x = rng.range(-100, 100);
            let min_y = rng.range(-100, 100);
            let max_x = min_x + rng.range(0, 50);
            let max_y = min_y + rng.range(0, 50);
            let bounds = rect(min_x, min_y, max_x, max_y);

            let expected_ordering = expected_quads
                .iter()
                .filter(|quad| quad.bounds.intersects(bounds))
                .map(|quad| quad.order)
                .max()
                .unwrap_or(0)
                + 1;
            expected_quads.push(Primitive {
                bounds,
                data: quad_id,
                order: expected_ordering,
            });

            let actual_ordering = tree.insert(bounds, quad_id);
            assert_eq!(actual_ordering, expected_ordering);
            assert!(tree.is_tight());

            // Verify the tree contains all the rectangles.
            let mut actual_quads = tree
                .iter()
                .into_iter()
                .map(|quad| Primitive {
                    bounds: quad.bounds,
                    data: *quad.data,
                    order: quad.order,
                })
                .collect::<Vec<_>>();
            actual_quads.sort_by_key(|quad| quad.data);
            expected_quads.sort_by_key(|quad| quad.data);
            assert_eq!(actual_quads, expected_quads);
        }
    }
}

#[test]
fn empty_tree_yields_nothing() {
    let tree: BoundsTree<u8> = BoundsTree::new();
    assert!(tree.iter().is_empty());
}

#[test]
fn first_shape_gets_order_one() {
    let mut tree = BoundsTree::new();
    assert_eq!(tree.insert(rect(-3, -3, 4, 4), 'a'), 1);
    let found = tree.iter();
    assert_eq!(found.len(), 1);
    assert_eq!(found[0].bounds, rect(-3, -3, 4, 4));
    assert_eq!(*found[0].data, 'a');
    assert_eq!(found[0].order, 1);
}

#[test]
fn chain_of_three_orders_one_two_three() {
    let mut tree = BoundsTree::new();
    let a = rect(0, 0, 10, 10);
    let b = rect(5, 5, 15, 15);
    let c = rect(12, 12, 20, 20);
    assert!(a.intersects(b));
    assert!(b.intersects(c));
    assert!(!a.intersects(c));
    assert_eq!(tree.insert(a, "A"), 1);
    assert_eq!(tree.insert(b, "B"), 2);
    assert_eq!(tree.insert(c, "C"), 3);
}

#[test]
fn disjoint_shapes_share_an_order() {
    let mut tree = BoundsTree::new();
    assert_eq!(tree.insert(rect(0, 0, 10, 10), 0), 1);
    assert_eq!(tree.insert(rect(100, 100, 110, 110), 1), 1);
    assert_eq!(tree.insert(rect(-50, -50, -40, -40), 2), 1);
    // One that covers the first two comes after both, and after nothing else.
    assert_eq!(tree.insert(rect(5, 5, 105, 105), 3), 2);
    // One that only meets the third stays low.
    assert_eq!(tree.insert(rect(-45, -45, -1, -1), 4), 2);
}

#[test]
fn corner_contact_is_no_overlap() {
    let mut tree = BoundsTree::new();
    assert_eq!(tree.insert(rect(0, 0, 10, 10), ()), 1);
    assert_eq!(tree.insert(rect(10, 10, 20, 20), ()), 1);
    assert_eq!(tree.insert(rect(0, 10, 10, 20), ()), 1);
    assert_eq!(tree.insert(rect(9, 9, 11, 11), ()), 2);
}

#[test]
fn later_overlapping_shape_is_always_above() {
    let mut rng = Lcg(7);
    let mut tree = BoundsTree::new();
    let mut inserted: Vec<(Bounds, u32)> = Vec::new();
    for id in 0..300usize {
        let min_x = rng.range(-40, 40);
        let min_y = rng.range(-40, 40);
        let bounds = rect(min_x, min_y, min_x + rng.range(1, 30), min_y + rng.range(1, 30));
        let order = tree.insert(bounds, id);
        assert!(order >= 1);
        for (earlier, earlier_order) in &inserted {
            if earlier.intersects(bounds) {
                assert!(order > *earlier_order);
            }
        }
        inserted.push((bounds, order));
    }
}

#[test]
fn iteration_returns_every_inserted_shape_once() {
    let mut rng = Lcg(99);
    let mut tree = BoundsTree::new();
    let mut expected: Vec<(usize, Bounds, u32)> = Vec::new();
    for id in 0..64usize {
        let min_x = rng.range(-1000, 1000);
        let min_y = rng.range(-1000, 1000);
        let bounds = rect(min_x, min_y, min_x + rng.range(0, 400), min_y + rng.range(0, 400));
        let order = tree.insert(bounds, id);
        expected.push((id, bounds, order));
        let mut found: Vec<(usize, Bounds, u32)> = tree
            .iter()
            .into_iter()
            .map(|p| (*p.data, p.bounds, p.order))
            .collect();
        assert_eq!(found.len(), id + 1);
        found.sort_by_key(|entry| entry.0);
        assert_eq!(found, expected);
    }
}

#[test]
fn payload_is_handed_back_by_reference() {
    let mut tree = BoundsTree::new();
    tree.insert(rect(0, 0, 1, 1), String::from("first"));
    tree.insert(rect(0, 0, 2, 2), String::from("second"));
    let mut names: Vec<&str> = tree.iter().into_iter().map(|p| p.data.as_str()).collect();
    names.sort();
    assert_eq!(names, vec!["first", "second"]);
}

#[test]
fn all_mutually_overlapping_shapes_count_up() {
    let mut tree = BoundsTree::new();
    for step in 0..50 {
        let order = tree.insert(rect(-step, -step, 1 + step, 1 + step), step);
        assert_eq!(order, step as u32 + 1);
    }
}

#[test]
fn degenerate_rectangles_follow_the_same_rule() {
    let mut tree = BoundsTree::new();
    assert_eq!(tree.insert(rect(0, 0, 10, 10), 0), 1);
    // A segment strictly inside the first is separated from it on no axis.
    assert_eq!(tree.insert(rect(5, 0, 5, 10), 1), 2);
    // A segment that crosses both comes after both.
    assert_eq!(tree.insert(rect(-5, 5, 15, 5), 2), 3);
    // A segment that lies on an edge of the first is separated from it.
    assert_eq!(tree.insert(rect(10, 6, 10, 10), 3), 1);
    // Corners the wrong way round: separated from everything here.
    assert_eq!(tree.insert(rect(10, 10, 0, 0), 4), 1);
}

#[test]
fn boxes_stay_tight_after_every_insert() {
    let mut rng = Lcg(2024);
    let mut tree = BoundsTree::new();
    assert!(tree.is_tight());
    for id in 0..200usize {
        let min_x = rng.range(-500, 500);
        let min_y = rng.range(-500, 500);
        let bounds = rect(min_x, min_y, min_x + rng.range(0, 120), min_y + rng.range(0, 120));
        tree.insert(bounds, id);
        assert!(tree.is_tight());
    }
}
