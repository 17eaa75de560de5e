use boids::geometry::{Rectangle, Vec2, UNIT};
use boids::vector::{ceil_sqrt_u128, clamp_length_max, with_length};

#[test]
fn contains_is_closed_left_open_right() {
    let r = Rectangle::new(0, 0, 10, 20);
    assert!(r.point_inside_rect(Vec2::new(0, 0)));
    assert!(r.point_inside_rect(Vec2::new(9, 19)));
    assert!(!r.point_inside_rect(Vec2::new(10, 5)));
    assert!(!r.point_inside_rect(Vec2::new(5, 20)));
    assert!(!r.point_inside_rect(Vec2::new(-1, 5)));
}

#[test]
fn zero_area_rectangle_contains_nothing() {
    let r = Rectangle::new(3, 3, 0, 5);
    assert!(!r.point_inside_rect(Vec2::new(3, 3)));
}

#[test]
fn intersects_touching_and_disjoint() {
    let a = Rectangle::new(0, 0, 10, 10);
    let touching = Rectangle::new(10, 0, 5, 5);
    let apart = Rectangle::new(11, 0, 5, 5);
    let below = Rectangle::new(0, 20, 5, 5);
    assert!(a.intersects(&touching));
    assert!(touching.intersects(&a));
    assert!(!a.intersects(&apart));
    assert!(!apart.intersects(&a));
    assert!(!a.intersects(&below));
    assert!(a.intersects(&Rectangle::new(2, 2, 1, 1)));
}

#[test]
fn intersects_at_extreme_coordinates() {
    let a = Rectangle::new(i64::MAX - 5, i64::MAX - 5, 5, 5);
    let b = Rectangle::new(i64::MIN, i64::MIN, 10, 10);
    assert!(!a.intersects(&b));
    assert!(a.intersects(&a));
}

#[test]
fn ceil_sqrt_values() {
    assert_eq!(ceil_sqrt_u128(0), 0);
    assert_eq!(ceil_sqrt_u128(1), 1);
    assert_eq!(ceil_sqrt_u128(2), 2);
    assert_eq!(ceil_sqrt_u128(16), 4);
    assert_eq!(ceil_sqrt_u128(17), 5);
    assert_eq!(ceil_sqrt_u128(25_000_000), 5000);
    assert_eq!(ceil_sqrt_u128(1u128 << 126), 1u128 << 63);
}

#[test]
fn clamp_long_vector() {
    let v = clamp_length_max(Vec2::new(3000, 4000), 1000);
    assert_eq!(v, Vec2::new(600, 800));
}

#[test]
fn clamp_short_vector_unchanged() {
    let v = Vec2::new(30, -40);
    assert_eq!(clamp_length_max(v, 50), v);
    assert_eq!(clamp_length_max(v, 100), v);
}

#[test]
fn clamp_to_zero() {
    assert_eq!(clamp_length_max(Vec2::new(7, 7), 0), Vec2::new(0, 0));
}

#[test]
fn with_length_rounds_toward_zero() {
    // |(1, 1)| rounds up to 2, so each component is 1000 * 1 / 2
    assert_eq!(with_length(Vec2::new(1, 1), 1000), Vec2::new(500, 500));
    assert_eq!(with_length(Vec2::new(0, -7), UNIT), Vec2::new(0, -1000));
    assert_eq!(with_length(Vec2::new(-3, 4), -10), Vec2::new(6, -8));
}

#[test]
fn vector_arithmetic() {
    let a = Vec2::new(5, -3);
    let b = Vec2::new(2, 7);
    assert_eq!(a.add(b), Vec2::new(7, 4));
    assert_eq!(a.sub(b), Vec2::new(3, -10));
    assert!(Vec2::zero().is_zero());
    assert!(!a.is_zero());
}
