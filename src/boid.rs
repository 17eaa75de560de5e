use vstd::prelude::*;
use crate::geometry::{Rectangle, Vec2, UNIT};
use crate::quadtree::HasLocation;
use crate::vector::{clamp_len, clamp_length_max, lemma_clamped_bounded};

verus! {

/// Side of the square neighbourhood searched around a boid.
pub const BOID_BOUNDS_SIZE: i64 = 30 * UNIT;

pub const BOID_RADIUS: i64 = 3 * UNIT;

pub const BOID_MAX_VELOCITY: i64 = 3 * UNIT;

pub const BOID_MAX_FORCE: i64 = UNIT;

/// Neighbours this close push a boid away.
pub const BOID_AVOID_RADIUS: i64 = 3 * UNIT;

/// Neighbours this close pull a boid along.
pub const BOID_FOLLOW_RADIUS: i64 = 10 * UNIT;

/// Bound on a position component.
pub const POS_LIMIT: i64 = 0x100_0000_0000;

/// Bound on a velocity or acceleration component.
pub const VEC_LIMIT: i64 = 0x1_0000_0000;

/// Bound on a component of a force handed to `Boid::apply_force`.
pub const FORCE_LIMIT: i64 = 0x100_0000_0000_0000;

/// Bound on the arena's corner coordinates and extents.
pub const ARENA_LIMIT: i64 = 0x40_0000_0000;

/// Bound on a speed, force or radius parameter.
pub const PARAM_LIMIT: i64 = 0x4000_0000;

pub open spec fn bounded(v: Vec2, lim: int) -> bool {
    -lim <= v.x <= lim && -lim <= v.y <= lim
}

/// An arena: a rectangle of non-negative extent near the origin.
pub open spec fn arena_ok(b: Rectangle) -> bool {
    &&& -ARENA_LIMIT <= b.x <= ARENA_LIMIT
    &&& -ARENA_LIMIT <= b.y <= ARENA_LIMIT
    &&& 0 <= b.width <= ARENA_LIMIT
    &&& 0 <= b.height <= ARENA_LIMIT
}

/// Wrap on one axis: a body whose extent `[p - r, p + r]` lies wholly before
/// `[lo, lo + size]` reappears just past the far edge, and the other way round.
pub open spec fn wrap_axis(p: int, r: int, lo: int, size: int) -> int {
    if p + r < lo {
        lo + size + r
    } else if p - r > lo + size {
        lo - r
    } else {
        p
    }
}

pub open spec fn wrap(p: Vec2, r: int, b: Rectangle) -> Vec2 {
    Vec2 {
        x: wrap_axis(p.x as int, r, b.x as int, b.width as int) as i64,
        y: wrap_axis(p.y as int, r, b.y as int, b.height as int) as i64,
    }
}

/// Reflection on one axis: the velocity component turns round once the body
/// has wholly left `[lo, lo + size]` on that axis.
pub open spec fn reflect_axis(p: int, v: int, r: int, lo: int, size: int) -> int {
    if p + r < lo || p - r > lo + size {
        -v
    } else {
        v
    }
}

/// `b` after `apply_force(f)`.
pub open spec fn pushed(b: Boid, f: Vec2) -> Boid {
    Boid { acceleration: clamp_len(b.acceleration.plus(f), b.max_force as int), ..b }
}

/// `b` after `update(bounds)`.
pub open spec fn advanced(b: Boid, bounds: Rectangle) -> Boid {
    let v = clamp_len(b.velocity.plus(b.acceleration), b.max_speed as int);
    Boid {
        position: wrap(b.position.plus(v), b.radius as int, bounds),
        velocity: v,
        acceleration: Vec2::zero_spec(),
        ..b
    }
}

/// One simulated agent.
#[derive(Clone, Copy, Debug)]
pub struct Boid {
    pub position: Vec2,
    pub velocity: Vec2,
    pub acceleration: Vec2,
    pub max_speed: i64,
    pub max_force: i64,
    pub radius: i64,
    /// Identity, unique among the boids of a simulation.
    pub index: i32,
}

impl HasLocation for Boid {
    open spec fn location(&self) -> Vec2 {
        self.position
    }

    fn get_location(&self) -> (r: Vec2) {
        self.position
    }
}

impl Boid {
    /// Parameters and state within the ranges the integer arithmetic allows.
    pub open spec fn wf(&self) -> bool {
        &&& 0 <= self.max_speed <= PARAM_LIMIT
        &&& 0 <= self.max_force <= PARAM_LIMIT
        &&& 0 <= self.radius <= PARAM_LIMIT
        &&& bounded(self.position, POS_LIMIT as int)
        &&& bounded(self.velocity, VEC_LIMIT as int)
        &&& bounded(self.acceleration, VEC_LIMIT as int)
    }

    /// Adds `force` to the acceleration and cuts the sum down to `max_force`.
    /// The cut is made on every call, so the acceleration never exceeds `max_force`.
    pub fn apply_force(&mut self, force: Vec2)
        requires
            old(self).wf(),
            bounded(force, FORCE_LIMIT as int),
        ensures
            final(self).wf(),
            *final(self) == pushed(*old(self), force),
            final(self).acceleration == clamp_len(
                old(self).acceleration.plus(force),
                old(self).max_force as int,
            ),
            final(self).acceleration.len_sq() <= final(self).max_force * final(self).max_force,
            final(self).position == old(self).position,
            final(self).velocity == old(self).velocity,
            final(self).max_speed == old(self).max_speed,
            final(self).max_force == old(self).max_force,
            final(self).radius == old(self).radius,
            final(self).index == old(self).index,
    {
        let sum = self.acceleration.add(force);
        let a = clamp_length_max(sum, self.max_force);
        proof {
            lemma_clamped_bounded(a, self.max_force as int);
        }
        self.acceleration = a;
    }

    /// One step: the acceleration is added to the velocity, the velocity is cut
    /// down to `max_speed` and added to the position, the acceleration is reset,
    /// and the position is wrapped round the arena.
    pub fn update(&mut self, bounds: Rectangle)
        requires
            old(self).wf(),
            arena_ok(bounds),
        ensures
            final(self).wf(),
            *final(self) == advanced(*old(self), bounds),
            final(self).velocity == clamp_len(
                old(self).velocity.plus(old(self).acceleration),
                old(self).max_speed as int,
            ),
            final(self).velocity.len_sq() <= final(self).max_speed * final(self).max_speed,
            final(self).position == wrap(
                old(self).position.plus(final(self).velocity),
                old(self).radius as int,
                bounds,
            ),
            final(self).acceleration == Vec2::zero_spec(),
            final(self).max_speed == old(self).max_speed,
            final(self).max_force == old(self).max_force,
            final(self).radius == old(self).radius,
            final(self).index == old(self).index,
    {
        let v = self.velocity.add(self.acceleration);
        let v = clamp_length_max(v, self.max_speed);
        proof {
            lemma_clamped_bounded(v, self.max_speed as int);
        }
        self.velocity = v;
        self.position = self.position.add(v);
        self.acceleration = Vec2::zero();
        self.loop_bounds(bounds);
    }

    /// Turns the velocity round on each axis on which the body has wholly left
    /// the arena; the position is left as it is.
    pub fn reflect_bounds(&mut self, bounds: Rectangle)
        requires
            old(self).wf(),
            arena_ok(bounds),
        ensures
            final(self).wf(),
            final(self).velocity.x == reflect_axis(
                old(self).position.x as int,
                old(self).velocity.x as int,
                old(self).radius as int,
                bounds.x as int,
                bounds.width as int,
            ),
            final(self).velocity.y == reflect_axis(
                old(self).position.y as int,
                old(self).velocity.y as int,
                old(self).radius as int,
                bounds.y as int,
                bounds.height as int,
            ),
            final(self).position == old(self).position,
            final(self).acceleration == old(self).acceleration,
            final(self).max_speed == old(self).max_speed,
            final(self).max_force == old(self).max_force,
            final(self).radius == old(self).radius,
            final(self).index == old(self).index,
    {
        if self.position.x + self.radius < bounds.x {
            self.velocity = Vec2::new(-self.velocity.x, self.velocity.y);
        } else if self.position.x - self.radius > bounds.x + bounds.width {
            self.velocity = Vec2::new(-self.velocity.x, self.velocity.y);
        }
        if self.position.y + self.radius < bounds.y {
            self.velocity = Vec2::new(self.velocity.x, -self.velocity.y);
        } else if self.position.y - self.radius > bounds.y + bounds.height {
            self.velocity = Vec2::new(self.velocity.x, -self.velocity.y);
        }
    }

    /// Wraps the position round the arena (see `wrap_axis`); afterwards each
    /// coordinate lies within `radius` of the arena.
    pub fn loop_bounds(&mut self, bounds: Rectangle)
        requires
            bounded(old(self).position, POS_LIMIT + PARAM_LIMIT),
            0 <= old(self).radius <= PARAM_LIMIT,
            arena_ok(bounds),
        ensures
            final(self).position == wrap(old(self).position, old(self).radius as int, bounds),
            bounds.x - final(self).radius <= final(self).position.x <= bounds.x + bounds.width
                + final(self).radius,
            bounds.y - final(self).radius <= final(self).position.y <= bounds.y + bounds.height
                + final(self).radius,
            bounded(final(self).position, POS_LIMIT as int),
            final(self).velocity == old(self).velocity,
            final(self).acceleration == old(self).acceleration,
            final(self).max_speed == old(self).max_speed,
            final(self).max_force == old(self).max_force,
            final(self).radius == old(self).radius,
            final(self).index == old(self).index,
    {
        if self.position.x + self.radius < bounds.x {
            self.position.x = bounds.x + bounds.width + self.radius;
        } else if self.position.x - self.radius > bounds.x + bounds.width {
            self.position.x = bounds.x - self.radius;
        }
        if self.position.y + self.radius < bounds.y {
            self.position.y = bounds.y + bounds.height + self.radius;
        } else if self.position.y - self.radius > bounds.y + bounds.height {
            self.position.y = bounds.y - self.radius;
        }
    }
}

/// Wrapping leaves a position that wrapping keeps: a second wrap with no
/// movement in between changes nothing.
pub proof fn lemma_wrap_idempotent(p: int, r: int, lo: int, size: int)
    requires
        r >= 0,
        size >= 0,
    ensures
        wrap_axis(wrap_axis(p, r, lo, size), r, lo, size) == wrap_axis(p, r, lo, size),
{
}

/// A body just wholly past the near edge (by any `eps > 0`) reappears with its
/// near side on the far edge.
pub proof fn lemma_wrap_crossing(r: int, lo: int, size: int, eps: int)
    requires
        r >= 0,
        size >= 0,
        eps > 0,
    ensures
        wrap_axis(lo - r - eps, r, lo, size) == lo + size + r,
        wrap_axis(lo + size + r + eps, r, lo, size) == lo - r,
{
}

} // verus!
