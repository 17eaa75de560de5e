use boids::geometry::{Rectangle, Vec2, UNIT};
use boids::quadtree::HasLocation;
use boids::vehicle::Vehicle;

fn vehicle() -> Vehicle {
    Vehicle {
        position: Vec2::new(0, 0),
        velocity: Vec2::zero(),
        acceleration: Vec2::zero(),
        max_speed: 3 * UNIT,
        max_force: UNIT,
        radius: 3 * UNIT,
        index: 1,
    }
}

#[test]
fn vehicle_forces_add_unclamped() {
    let mut v = vehicle();
    v.apply_force(Vec2::new(5000, 0));
    v.apply_force(Vec2::new(5000, -1));
    assert_eq!(v.acceleration, Vec2::new(10000, -1));
    assert_eq!(v.get_location(), Vec2::new(0, 0));
}

#[test]
fn vehicle_steers_toward_point() {
    let mut v = vehicle();
    v.steer(Vec2::new(5 * UNIT, 0));
    assert_eq!(v.acceleration, Vec2::new(1000, 0));
}

#[test]
fn vehicle_avoids_nearest_obstacle() {
    let mut v = vehicle();
    let others = vec![
        Vec2::new(0, 0),
        Vec2::new(20 * UNIT, 0),
        Vec2::new(5 * UNIT, 0),
        Vec2::new(-5 * UNIT, 0),
        Vec2::new(100 * UNIT, 0),
    ];
    v.avoid(&others);
    assert_eq!(v.acceleration, Vec2::new(-3000, 0));
}

#[test]
fn vehicle_ignores_far_obstacles() {
    let mut v = vehicle();
    v.velocity = Vec2::new(100, 0);
    let others = vec![Vec2::new(0, 0), Vec2::new(30 * UNIT, 0), Vec2::new(0, -40 * UNIT)];
    v.avoid(&others);
    assert_eq!(v.acceleration, Vec2::zero());
    v.avoid(&Vec::new());
    assert_eq!(v.acceleration, Vec2::zero());
}

#[test]
fn vehicle_update_clamps_and_wraps() {
    let bounds = Rectangle::new(-50 * UNIT, -50 * UNIT, 100 * UNIT, 100 * UNIT);
    let mut v = vehicle();
    v.position = Vec2::new(-53 * UNIT, 0);
    v.acceleration = Vec2::new(-40 * UNIT, 0);
    v.update(bounds);
    assert_eq!(v.velocity, Vec2::new(-3 * UNIT, 0));
    assert_eq!(v.position, Vec2::new(53 * UNIT, 0));
    assert_eq!(v.acceleration, Vec2::zero());
}
