use paddle_server::geometry::{distance, isqrt, squared_distance, Vec3, COORD_LIMIT, UNIT};

#[test]
fn distance_three_four_five() {
    let paddle = Vec3::new(0, 0, 0);
    let ball = Vec3::new(3 * UNIT, 4 * UNIT, 0);
    assert_eq!(distance(&paddle, &ball), 5 * UNIT as u64);
}

#[test]
fn distance_is_symmetric_and_zero_on_itself() {
    let a = Vec3::new(-2 * UNIT, 7, 11);
    let b = Vec3::new(UNIT, -3, 5 * UNIT);
    assert_eq!(distance(&a, &b), distance(&b, &a));
    assert_eq!(distance(&a, &a), 0);
}

#[test]
fn squared_distance_exact() {
    let a = Vec3::new(1, 2, 3);
    let b = Vec3::new(4, 6, 3);
    assert_eq!(squared_distance(&a, &b), 25);
}

#[test]
fn distance_rounds_down() {
    let a = Vec3::new(0, 0, 0);
    let b = Vec3::new(1, 1, 0);
    assert_eq!(distance(&a, &b), 1);
}

#[test]
fn distance_across_the_whole_range() {
    let a = Vec3::new(-COORD_LIMIT, 0, 0);
    let b = Vec3::new(COORD_LIMIT, 0, 0);
    assert_eq!(distance(&a, &b), 2 * COORD_LIMIT as u64);
}

#[test]
fn isqrt_values() {
    assert_eq!(isqrt(0), 0);
    assert_eq!(isqrt(1), 1);
    assert_eq!(isqrt(15), 3);
    assert_eq!(isqrt(16), 4);
    assert_eq!(isqrt(17), 4);
    assert_eq!(isqrt(1_000_000_000_000), 1_000_000);
}

#[test]
fn range_check() {
    assert!(Vec3::new(COORD_LIMIT, -COORD_LIMIT, 0).is_in_range());
    assert!(!Vec3::new(COORD_LIMIT + 1, 0, 0).is_in_range());
    assert!(!Vec3::new(0, 0, i64::MIN).is_in_range());
}
