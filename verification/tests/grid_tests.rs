use lib::grid::{in_bounds, number_to_coordinate, Vec2Integer, SCREEN_HEIGHT, SCREEN_WIDTH, SIZE};

#[test]
fn screen_constants() {
    assert_eq!(SCREEN_WIDTH, 5);
    assert_eq!(SCREEN_HEIGHT, 3);
    assert_eq!(SIZE, 15);
}

#[test]
fn to_one_combines_row_and_column() {
    assert_eq!(Vec2Integer { x: 2, y: 3 }.to_one(), 13);
    assert_eq!(Vec2Integer { x: 0, y: 0 }.to_one(), 0);
    assert_eq!(Vec2Integer { x: -1, y: 2 }.to_one(), -3);
}

#[test]
fn number_to_coordinate_small_numbers() {
    let p = Vec2Integer::number_to_coordinate(7);
    assert!(p.equals(Vec2Integer { x: 1, y: 2 }));
    let q = Vec2Integer::number_to_coordinate(4);
    assert!(q == Vec2Integer { x: 0, y: 4 });
    let z = Vec2Integer::number_to_coordinate(0);
    assert!(z == Vec2Integer { x: 0, y: 0 });
}

#[test]
fn index_round_trip_below_ten() {
    for n in 0..10usize {
        assert_eq!(Vec2Integer::number_to_coordinate(n).to_one(), n as i64);
    }
}

#[test]
fn index_round_trip_fails_at_ten() {
    let p = Vec2Integer::number_to_coordinate(10);
    assert!(p == Vec2Integer { x: 3, y: 0 });
    assert_eq!(p.to_one(), 15);
}

#[test]
fn number_to_coordinate_wraps_huge_numbers() {
    let p = Vec2Integer::number_to_coordinate(usize::MAX);
    assert!(p == Vec2Integer { x: 0, y: -1 });
    let q = number_to_coordinate(usize::MAX - 6);
    assert!(q == Vec2Integer { x: -1, y: -2 });
}

#[test]
fn free_and_method_coordinates_agree() {
    for n in [0usize, 3, 9, 14, 15, 1000] {
        assert!(number_to_coordinate(n) == Vec2Integer::number_to_coordinate(n));
    }
}

#[test]
fn equals_compares_both_coordinates() {
    let a = Vec2Integer { x: 1, y: 2 };
    assert!(a.equals(Vec2Integer { x: 1, y: 2 }));
    assert!(!a.equals(Vec2Integer { x: 2, y: 2 }));
    assert!(!a.equals(Vec2Integer { x: 1, y: 1 }));
}

#[test]
fn in_bounds_includes_both_ends() {
    assert!(!in_bounds(-1));
    assert!(in_bounds(0));
    assert!(in_bounds(7));
    assert!(in_bounds(15));
    assert!(!in_bounds(16));
    assert!(!in_bounds(i64::MIN));
}
