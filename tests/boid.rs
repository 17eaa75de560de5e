use boids::boid::{Boid, BOID_MAX_FORCE, BOID_MAX_VELOCITY, BOID_RADIUS};
use boids::geometry::{Rectangle, Vec2, UNIT};
use boids::quadtree::HasLocation;

fn boid_at(x: i64, y: i64, vx: i64, vy: i64) -> Boid {
    Boid {
        position: Vec2::new(x, y),
        velocity: Vec2::new(vx, vy),
        acceleration: Vec2::zero(),
        max_speed: BOID_MAX_VELOCITY,
        max_force: BOID_MAX_FORCE,
        radius: BOID_RADIUS,
        index: 0,
    }
}

fn arena() -> Rectangle {
    Rectangle::new(-100 * UNIT, -100 * UNIT, 200 * UNIT, 200 * UNIT)
}

fn len_sq(v: Vec2) -> i128 {
    (v.x as i128) * (v.x as i128) + (v.y as i128) * (v.y as i128)
}

#[test]
fn location_is_position() {
    let b = boid_at(7, -8, 0, 0);
    assert_eq!(b.get_location(), Vec2::new(7, -8));
}

#[test]
fn apply_force_accumulates_and_clamps() {
    let mut b = boid_at(0, 0, 0, 0);
    b.apply_force(Vec2::new(300, 400));
    assert_eq!(b.acceleration, Vec2::new(300, 400));
    b.apply_force(Vec2::new(300, 400));
    assert_eq!(b.acceleration, Vec2::new(600, 800));
    b.apply_force(Vec2::new(3000, 4000));
    assert_eq!(b.acceleration, Vec2::new(600, 800));
    assert!(len_sq(b.acceleration) <= (BOID_MAX_FORCE as i128) * (BOID_MAX_FORCE as i128));
}

#[test]
fn update_integrates_and_resets_acceleration() {
    let mut b = boid_at(0, 0, 1000, 0);
    b.apply_force(Vec2::new(0, 500));
    b.update(arena());
    assert_eq!(b.velocity, Vec2::new(1000, 500));
    assert_eq!(b.position, Vec2::new(1000, 500));
    assert_eq!(b.acceleration, Vec2::zero());
}

#[test]
fn update_clamps_speed() {
    let mut b = boid_at(0, 0, 4_000_000_000, -3_000_000_000);
    b.acceleration = Vec2::new(1_000_000_000, 0);
    b.update(arena());
    // (5e9, -3e9) has length rounding up to 5830951895; scaled to 3000
    assert!(len_sq(b.velocity) <= (BOID_MAX_VELOCITY as i128) * (BOID_MAX_VELOCITY as i128));
    assert_eq!(b.velocity, Vec2::new(2572, -1543));
    assert_eq!(b.position, Vec2::new(2572, -1543));
}

#[test]
fn wrap_past_left_edge() {
    let bounds = Rectangle::new(0, 0, 100 * UNIT, 100 * UNIT);
    let mut b = boid_at(-BOID_RADIUS - 1, 50 * UNIT, 0, 0);
    b.loop_bounds(bounds);
    assert_eq!(b.position, Vec2::new(100 * UNIT + BOID_RADIUS, 50 * UNIT));
    // a second wrap with no movement changes nothing
    b.loop_bounds(bounds);
    assert_eq!(b.position, Vec2::new(100 * UNIT + BOID_RADIUS, 50 * UNIT));
}

#[test]
fn wrap_past_bottom_edge() {
    let bounds = Rectangle::new(0, 0, 100 * UNIT, 100 * UNIT);
    let mut b = boid_at(10, 100 * UNIT + BOID_RADIUS + 1, 0, 0);
    b.loop_bounds(bounds);
    assert_eq!(b.position, Vec2::new(10, -BOID_RADIUS));
    b.loop_bounds(bounds);
    assert_eq!(b.position, Vec2::new(10, -BOID_RADIUS));
}

#[test]
fn no_wrap_while_body_overlaps() {
    let bounds = Rectangle::new(0, 0, 100 * UNIT, 100 * UNIT);
    let mut b = boid_at(-BOID_RADIUS, 100 * UNIT + BOID_RADIUS, 0, 0);
    b.loop_bounds(bounds);
    assert_eq!(b.position, Vec2::new(-BOID_RADIUS, 100 * UNIT + BOID_RADIUS));
}

#[test]
fn update_wraps_round_arena() {
    let bounds = Rectangle::new(0, 0, 100 * UNIT, 100 * UNIT);
    let mut b = boid_at(-BOID_RADIUS, 10 * UNIT, -2000, 0);
    b.update(bounds);
    assert_eq!(b.position, Vec2::new(100 * UNIT + BOID_RADIUS, 10 * UNIT));
    assert_eq!(b.velocity, Vec2::new(-2000, 0));
}

#[test]
fn reflect_turns_velocity() {
    let bounds = Rectangle::new(0, 0, 100 * UNIT, 100 * UNIT);
    let mut b = boid_at(-BOID_RADIUS - 1, 50 * UNIT, -500, 700);
    b.reflect_bounds(bounds);
    assert_eq!(b.velocity, Vec2::new(500, 700));
    assert_eq!(b.position, Vec2::new(-BOID_RADIUS - 1, 50 * UNIT));
    let mut c = boid_at(50 * UNIT, 100 * UNIT + BOID_RADIUS + 1, -500, 700);
    c.reflect_bounds(bounds);
    assert_eq!(c.velocity, Vec2::new(-500, -700));
    let mut d = boid_at(50 * UNIT, 50 * UNIT, -500, 700);
    d.reflect_bounds(bounds);
    assert_eq!(d.velocity, Vec2::new(-500, 700));
}
