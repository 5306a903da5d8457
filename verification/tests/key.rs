use bounds_tree::key::{key_bits, ordered_key, SIGN};
use bounds_tree::{Bounds, BoundsTree, Point};

fn key(value: f32) -> i32 {
    ordered_key(value.to_bits())
}

fn rect(min_x: f32, min_y: f32, max_x: f32, max_y: f32) -> Bounds {
    Bounds {
        min: Point { x: key(min_x), y: key(min_y) },
        max: Point { x: key(max_x), y: key(max_y) },
    }
}

fn intersects(a: [f32; 4], b: [f32; 4]) -> bool {
    !(a[0] >= b[2] || a[2] <= b[0] || a[1] >= b[3] || a[3] <= b[1])
}

/// A small linear congruential generator, so that runs repeat.
struct Lcg(u64);

impl Lcg {
    fn next(&mut self) -> u64 {
        self.0 = self
            .0
            .wrapping_mul(6364136223846793005)
            .wrapping_add(1442695040888963407);
        self.0 >> 33
    }

    /// A number in `low..low + span`, on a grid of sixteenths.
    fn range(&mut self, low: f32, span: f32) -> f32 {
        let steps = (span * 16.0) as u64;
        low + (self.next() % steps) as f32 / 16.0
    }
}

#[test]
fn key_of_exact_patterns() {
    assert_eq!(ordered_key(0), 0);
    assert_eq!(ordered_key(1), 1);
    assert_eq!(ordered_key(SIGN), 0);
    assert_eq!(ordered_key(SIGN + 1), -1);
    assert_eq!(ordered_key(0x7fff_ffff), i32::MAX);
    assert_eq!(ordered_key(0xffff_ffff), -i32::MAX);
    assert_eq!(ordered_key(0x3f80_0000), 0x3f80_0000);
    assert_eq!(ordered_key(0xbf80_0000), -0x3f80_0000);
}

#[test]
fn bits_of_exact_keys() {
    assert_eq!(key_bits(0), 0);
    assert_eq!(key_bits(1), 1);
    assert_eq!(key_bits(-1), SIGN + 1);
    assert_eq!(key_bits(i32::MAX), 0x7fff_ffff);
    assert_eq!(key_bits(-i32::MAX), 0xffff_ffff);
}

#[test]
fn both_zeros_share_a_key() {
    assert_eq!(key(0.0), 0);
    assert_eq!(key(-0.0), 0);
    assert_eq!(f32::from_bits(key_bits(key(-0.0))), 0.0);
}

#[test]
fn keys_compare_as_the_numbers_do() {
    let samples = [
        f32::NEG_INFINITY,
        f32::MIN,
        -1.0e10,
        -100.5,
        -2.0,
        -1.0,
        -f32::MIN_POSITIVE,
        -1.0e-45,
        -0.0,
        0.0,
        1.0e-45,
        f32::MIN_POSITIVE,
        0.5,
        1.0,
        1.000_000_1,
        2.0,
        100.5,
        1.0e10,
        f32::MAX,
        f32::INFINITY,
    ];
    for a in samples {
        for b in samples {
            assert_eq!(a < b, key(a) < key(b), "{a} < {b}");
            assert_eq!(a == b, key(a) == key(b), "{a} == {b}");
        }
    }
}

#[test]
fn numbers_come_back_from_their_keys() {
    for value in [-123.456f32, -1.0, 1.0e-30, 0.0, 3.25, 7.0e20, f32::INFINITY] {
        assert_eq!(f32::from_bits(key_bits(key(value))), value);
    }
}

#[test]
fn two_overlapping_rectangles_given_in_numbers() {
    let mut tree = BoundsTree::new();
    assert_eq!(tree.insert(rect(0.0, 0.0, 10.0, 10.0), "bounds1".to_string()), 1);
    assert_eq!(tree.insert(rect(5.0, 5.0, 15.0, 15.0), "bounds2".to_string()), 2);
}

#[test]
fn two_adjacent_rectangles_given_in_numbers() {
    let mut tree = BoundsTree::new();
    assert_eq!(tree.insert(rect(0.0, 0.0, 10.0, 10.0), "bounds1"), 1);
    assert_eq!(tree.insert(rect(10.0, 0.0, 20.0, 10.0), "bounds2"), 1);
}

#[test]
fn rectangles_across_zero_given_in_numbers() {
    let mut tree = BoundsTree::new();
    assert_eq!(tree.insert(rect(-1.5, -1.5, -0.0, 0.0), 0), 1);
    // Touches the first along both axes at zero, whichever zero is written.
    assert_eq!(tree.insert(rect(0.0, -0.0, 2.5, 2.5), 1), 1);
    assert_eq!(tree.insert(rect(-0.25, -0.25, 0.25, 0.25), 2), 2);
}

#[test]
fn random_rectangles_given_in_numbers() {
    for seed in 1..=100u64 {
        let mut rng = Lcg(seed);
        let mut tree = BoundsTree::new();
        let mut history: Vec<([f32; 4], u32)> = Vec::new();
        let count = 1 + (rng.next() % 60) as usize;
        for id in 0..count {
            let min_x = rng.range(-100.0, 200.0);
            let min_y = rng.range(-100.0, 200.0);
            let max_x = min_x + rng.range(0.0, 50.0);
            let max_y = min_y + rng.range(0.0, 50.0);
            let corners = [min_x, min_y, max_x, max_y];
            let expected = history
                .iter()
                .filter(|(earlier, _)| intersects(*earlier, corners))
                .map(|(_, order)| *order)
                .max()
                .unwrap_or(0)
                + 1;
            let order = tree.insert(rect(min_x, min_y, max_x, max_y), id);
            assert_eq!(order, expected);
            history.push((corners, order));
        }
        assert_eq!(tree.iter().len(), count);
    }
}
