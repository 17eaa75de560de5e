use boids::boid::{BOID_AVOID_RADIUS, BOID_FOLLOW_RADIUS, BOID_MAX_VELOCITY, BOID_RADIUS};
use boids::geometry::{Rectangle, Vec2, UNIT};
use boids::simulation::{
    handle_key_press, Simulation, BOID_ALIGNMENT_FACTOR, BOID_COHESION_FACTOR,
    BOID_SEPERATION_FACTOR,
};

fn arena() -> Rectangle {
    Rectangle::new(-500 * UNIT, -500 * UNIT, 1000 * UNIT, 1000 * UNIT)
}

fn three_agents() -> Simulation {
    let starts = vec![
        (Vec2::new(0, 0), Vec2::zero()),
        (Vec2::new(UNIT, 0), Vec2::zero()),
        (Vec2::new(100 * UNIT, 100 * UNIT), Vec2::zero()),
    ];
    let mut sim = Simulation::new(arena(), &starts);
    sim.avoid_radius = 5 * UNIT;
    sim.follow_radius = 20 * UNIT;
    sim
}

#[test]
fn new_places_boids() {
    let starts = vec![(Vec2::new(1, 2), Vec2::new(3, 4)), (Vec2::new(-5, 6), Vec2::new(0, -7))];
    let sim = Simulation::new(arena(), &starts);
    assert_eq!(sim.boids.len(), 2);
    assert_eq!(sim.boids[1].position, Vec2::new(-5, 6));
    assert_eq!(sim.boids[1].velocity, Vec2::new(0, -7));
    assert_eq!(sim.boids[1].index, 1);
    assert_eq!(sim.boids[0].radius, BOID_RADIUS);
    assert_eq!(sim.boid_seperation_factor, BOID_SEPERATION_FACTOR);
    assert_eq!(sim.boid_cohesion_factor, BOID_COHESION_FACTOR);
    assert_eq!(sim.boid_alignment_factor, BOID_ALIGNMENT_FACTOR);
    assert_eq!(sim.avoid_radius, BOID_AVOID_RADIUS);
    assert_eq!(sim.follow_radius, BOID_FOLLOW_RADIUS);
    assert_eq!(sim.positions(), vec![Vec2::new(1, 2), Vec2::new(-5, 6)]);
}

#[test]
fn three_agent_scenario() {
    let mut sim = three_agents();
    sim.navigate();
    // separation pushes 1.5 units apart, cohesion pulls 1 unit together
    assert_eq!(sim.boids[0].acceleration, Vec2::new(-500, 0));
    assert_eq!(sim.boids[1].acceleration, Vec2::new(500, 0));
    assert_eq!(sim.boids[2].acceleration, Vec2::zero());
}

#[test]
fn three_agent_terms_separately() {
    let mut sim = three_agents();
    sim.boid_cohesion_factor = 0;
    sim.navigate();
    assert_eq!(sim.boids[0].acceleration, Vec2::new(-1000, 0));
    assert_eq!(sim.boids[1].acceleration, Vec2::new(1000, 0));
    let mut sim = three_agents();
    sim.boid_seperation_factor = 0;
    sim.navigate();
    assert_eq!(sim.boids[0].acceleration, Vec2::new(1000, 0));
    assert_eq!(sim.boids[1].acceleration, Vec2::new(-1000, 0));
    assert_eq!(sim.boids[2].acceleration, Vec2::zero());
}

#[test]
fn three_agent_frame() {
    let mut sim = three_agents();
    sim.update(Vec2::new(7, 8));
    assert_eq!(sim.mouse_position, Vec2::new(7, 8));
    assert_eq!(sim.boids[0].velocity, Vec2::new(-500, 0));
    assert_eq!(sim.boids[0].position, Vec2::new(-500, 0));
    assert_eq!(sim.boids[1].position, Vec2::new(1500, 0));
    assert_eq!(sim.boids[2].position, Vec2::new(100 * UNIT, 100 * UNIT));
    for b in &sim.boids {
        assert_eq!(b.acceleration, Vec2::zero());
    }
}

#[test]
fn alignment_steers_toward_neighbour_heading() {
    let starts = vec![
        (Vec2::new(0, 0), Vec2::new(0, 1000)),
        (Vec2::new(8 * UNIT, 0), Vec2::new(2000, 0)),
    ];
    let mut sim = Simulation::new(arena(), &starts);
    sim.boid_cohesion_factor = 0;
    sim.boid_seperation_factor = 0;
    sim.navigate();
    // target (3000, 0) less own velocity (0, 1000), weight one
    assert_eq!(sim.boids[0].acceleration, Vec2::new(948, -316));
}

#[test]
fn isolated_agent_moves_by_velocity() {
    let starts = vec![
        (Vec2::new(0, 0), Vec2::new(1000, -2000)),
        (Vec2::new(200 * UNIT, 0), Vec2::zero()),
    ];
    let mut sim = Simulation::new(arena(), &starts);
    sim.update(Vec2::zero());
    assert_eq!(sim.boids[0].velocity, Vec2::new(1000, -2000));
    assert_eq!(sim.boids[0].position, Vec2::new(1000, -2000));
    assert_eq!(sim.boids[1].position, Vec2::new(200 * UNIT, 0));
}

#[test]
fn agents_on_one_spot_push_nothing() {
    let starts = vec![(Vec2::new(0, 0), Vec2::zero()), (Vec2::new(0, 0), Vec2::zero())];
    let mut sim = Simulation::new(arena(), &starts);
    sim.navigate();
    assert_eq!(sim.boids[0].acceleration, Vec2::zero());
    assert_eq!(sim.boids[1].acceleration, Vec2::zero());
}

#[test]
fn speed_stays_clamped_over_many_frames() {
    let mut starts = Vec::new();
    for i in 0..60i64 {
        starts.push((
            Vec2::new((i * 7919) % (40 * UNIT) - 20 * UNIT, (i * 104729) % (40 * UNIT) - 20 * UNIT),
            Vec2::new((i % 5) * 1000 - 2000, (i % 3) * 1000 - 1000),
        ));
    }
    let mut sim = Simulation::new(Rectangle::new(-20 * UNIT, -20 * UNIT, 40 * UNIT, 40 * UNIT), &starts);
    for _ in 0..30 {
        sim.update(Vec2::zero());
        for b in &sim.boids {
            let s = (b.velocity.x as i128).pow(2) + (b.velocity.y as i128).pow(2);
            assert!(s <= (BOID_MAX_VELOCITY as i128).pow(2));
        }
    }
}

#[test]
fn steer_pulls_toward_point() {
    let starts = vec![(Vec2::new(0, 0), Vec2::zero())];
    let mut sim = Simulation::new(arena(), &starts);
    sim.steer(Vec2::new(5 * UNIT, 0));
    assert_eq!(sim.boids[0].acceleration, Vec2::new(1000, 0));
}

#[test]
fn key_presses_tune_weights() {
    let mut sim = three_agents();
    handle_key_press('w', &mut sim);
    assert_eq!(sim.boid_seperation_factor, BOID_SEPERATION_FACTOR + 100);
    handle_key_press('q', &mut sim);
    handle_key_press('q', &mut sim);
    assert_eq!(sim.boid_seperation_factor, BOID_SEPERATION_FACTOR - 100);
    handle_key_press('s', &mut sim);
    assert_eq!(sim.boid_cohesion_factor, BOID_COHESION_FACTOR + 100);
    handle_key_press('a', &mut sim);
    assert_eq!(sim.boid_cohesion_factor, BOID_COHESION_FACTOR);
    handle_key_press('x', &mut sim);
    assert_eq!(sim.boid_alignment_factor, BOID_ALIGNMENT_FACTOR + 50);
    handle_key_press('z', &mut sim);
    handle_key_press('z', &mut sim);
    assert_eq!(sim.boid_alignment_factor, BOID_ALIGNMENT_FACTOR - 50);
    handle_key_press('k', &mut sim);
    assert_eq!(sim.boid_alignment_factor, BOID_ALIGNMENT_FACTOR - 50);
}

#[test]
fn weights_saturate() {
    let mut sim = three_agents();
    sim.boid_cohesion_factor = i32::MAX - 10;
    handle_key_press('s', &mut sim);
    assert_eq!(sim.boid_cohesion_factor, i32::MAX);
    sim.boid_seperation_factor = i32::MIN + 1;
    handle_key_press('q', &mut sim);
    assert_eq!(sim.boid_seperation_factor, i32::MIN);
}
