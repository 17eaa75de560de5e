use vstd::prelude::*;
use crate::boid::{bounded, wrap, arena_ok, PARAM_LIMIT, POS_LIMIT, VEC_LIMIT};
use crate::geometry::{dist_sq, Rectangle, Vec2};
use crate::quadtree::HasLocation;
use crate::vector::{clamp_len, clamp_length_max, lemma_clamped_bounded};

verus! {

/// How many radii away a vehicle still notices an obstacle.
pub const AVOID_REACH: i64 = 10;

/// How strongly a vehicle swerves from an obstacle, as a multiple of its force.
pub const AVOID_STRENGTH: i64 = 3;

/// A steering agent whose forces add up unclamped until the next `update`.
#[derive(Clone, Copy, Debug)]
pub struct Vehicle {
    pub position: Vec2,
    pub velocity: Vec2,
    pub acceleration: Vec2,
    pub max_speed: i64,
    pub max_force: i64,
    pub radius: i64,
    pub index: i32,
}

impl HasLocation for Vehicle {
    open spec fn location(&self) -> Vec2 {
        self.position
    }

    fn get_location(&self) -> (r: Vec2) {
        self.position
    }
}

/// `p` counts as an obstacle to a vehicle at `pos` with radius `r`: apart from
/// it, and closer than `AVOID_REACH` radii.
pub open spec fn is_obstacle(pos: Vec2, r: int, p: Vec2) -> bool {
    0 < dist_sq(pos, p) < (AVOID_REACH * r) * (AVOID_REACH * r)
}

/// The nearest obstacle among the first `k` points (the first of equals).
pub open spec fn nearest(others: Seq<Vec2>, pos: Vec2, r: int, k: int) -> Option<int>
    decreases k,
{
    if k <= 0 {
        None
    } else {
        let prev = nearest(others, pos, r, k - 1);
        let p = others[k - 1];
        if is_obstacle(pos, r, p) && (prev is None || dist_sq(pos, p) < dist_sq(
            pos,
            others[prev->0],
        )) {
            Some(k - 1)
        } else {
            prev
        }
    }
}

impl Vehicle {
    pub open spec fn wf(&self) -> bool {
        &&& 0 <= self.max_speed <= PARAM_LIMIT
        &&& 0 <= self.max_force <= PARAM_LIMIT
        &&& 0 <= self.radius <= PARAM_LIMIT
        &&& bounded(self.position, POS_LIMIT as int)
        &&& bounded(self.velocity, VEC_LIMIT as int)
        &&& bounded(self.acceleration, VEC_LIMIT as int)
    }

    /// Adds `force` to the acceleration, with no cut: the sum is only limited
    /// through the speed limit in `update`.
    pub fn apply_force(&mut self, force: Vec2)
        requires
            old(self).wf(),
            bounded(old(self).acceleration.plus(force), VEC_LIMIT as int),
            bounded(force, VEC_LIMIT as int),
        ensures
            final(self).wf(),
            *final(self) == (Vehicle { acceleration: old(self).acceleration.plus(force), ..*old(self) }),
    {
        self.acceleration = self.acceleration.add(force);
    }

    /// Pushes toward `point`: by the velocity less the offset from `point`,
    /// cut down to `max_force`.
    pub fn steer(&mut self, point: Vec2)
        requires
            old(self).wf(),
            bounded(point, POS_LIMIT as int),
            bounded(old(self).acceleration, VEC_LIMIT - PARAM_LIMIT),
        ensures
            final(self).wf(),
            *final(self) == (Vehicle {
                acceleration: old(self).acceleration.plus(
                    clamp_len(
                        old(self).velocity.minus(old(self).position.minus(point)),
                        old(self).max_force as int,
                    ),
                ),
                ..*old(self)
            }),
    {
        let steer = self.velocity.sub(self.position.sub(point));
        let steer = clamp_length_max(steer, self.max_force);
        proof {
            lemma_clamped_bounded(steer, self.max_force as int);
        }
        self.apply_force(steer);
    }

    /// Swerves from the nearest obstacle among `others`, if there is one: the
    /// push is the velocity plus the offset from the obstacle, cut down to
    /// `max_force`, times `AVOID_STRENGTH`.
    pub fn avoid(&mut self, others: &Vec<Vec2>)
        requires
            old(self).wf(),
            bounded(old(self).acceleration, VEC_LIMIT - AVOID_STRENGTH * PARAM_LIMIT),
            forall|i: int| 0 <= i < others.len() ==> bounded(#[trigger] others@[i], POS_LIMIT as int),
        ensures
            final(self).wf(),
            match nearest(others@, old(self).position, old(self).radius as int, others.len() as int) {
                None => *final(self) == *old(self),
                Some(k) => {
                    let push = clamp_len(
                        old(self).velocity.plus(old(self).position.minus(others@[k])),
                        old(self).max_force as int,
                    );
                    *final(self) == (Vehicle {
                        acceleration: Vec2 {
                            x: (old(self).acceleration.x + AVOID_STRENGTH * push.x) as i64,
                            y: (old(self).acceleration.y + AVOID_STRENGTH * push.y) as i64,
                        },
                        ..*old(self)
                    })
                },
            },
    {
        let ghost pos = self.position;
        let ghost r = self.radius as int;
        let reach = (AVOID_REACH as i128) * (self.radius as i128);
        proof {
            assert(0 <= reach * reach <= 0x1000_0000_0000_0000_0000) by (nonlinear_arith)
                requires
                    0 <= reach <= 0x40_0000_0000,
            ;
        }
        let reach_sq = reach * reach;
        let mut best: Option<usize> = None;
        let mut best_d: i128 = 0;
        let mut i: usize = 0;
        while i < others.len()
            invariant
                i <= others.len(),
                self.wf(),
                pos == self.position,
                r == self.radius,
                reach_sq == (AVOID_REACH * r) * (AVOID_REACH * r),
                forall|j: int| 0 <= j < others.len() ==> bounded(#[trigger] others@[j], POS_LIMIT as int),
                match nearest(others@, pos, r, i as int) {
                    None => best is None,
                    Some(k) => 0 <= k < i && best == Some(k as usize) && best_d == dist_sq(
                        pos,
                        others@[k],
                    ),
                },
            decreases others.len() - i,
        {
            let p = others[i];
            let dx = self.position.x as i128 - p.x as i128;
            let dy = self.position.y as i128 - p.y as i128;
            proof {
                assert(0 <= dx * dx <= 0x400_0000_0000_0000_0000_0000) by (nonlinear_arith)
                    requires
                        -0x200_0000_0000 <= dx <= 0x200_0000_0000,
                ;
                assert(0 <= dy * dy <= 0x400_0000_0000_0000_0000_0000) by (nonlinear_arith)
                    requires
                        -0x200_0000_0000 <= dy <= 0x200_0000_0000,
                ;
            }
            let d = dx * dx + dy * dy;
            if 0 < d && d < reach_sq && (best.is_none() || d < best_d) {
                best = Some(i);
                best_d = d;
            }
            i += 1;
        }
        match best {
            None => {},
            Some(k) => {
                let away = self.velocity.add(self.position.sub(others[k]));
                let push = clamp_length_max(away, self.max_force);
                proof {
                    lemma_clamped_bounded(push, self.max_force as int);
                }
                let force = Vec2::new(AVOID_STRENGTH * push.x, AVOID_STRENGTH * push.y);
                self.apply_force(force);
            },
        }
    }

    /// One step: velocity gains the acceleration and is cut down to
    /// `max_speed`, position gains the velocity, the acceleration is reset,
    /// and the position wraps round `bounds`.
    pub fn update(&mut self, bounds: Rectangle)
        requires
            old(self).wf(),
            arena_ok(bounds),
        ensures
            final(self).wf(),
            final(self).velocity == clamp_len(
                old(self).velocity.plus(old(self).acceleration),
                old(self).max_speed as int,
            ),
            final(self).velocity.len_sq() <= final(self).max_speed * final(self).max_speed,
            final(self).position == wrap(
                old(self).position.plus(final(self).velocity),
                old(self).radius as int,
                bounds,
            ),
            final(self).acceleration == Vec2::zero_spec(),
            final(self).max_speed == old(self).max_speed,
            final(self).max_force == old(self).max_force,
            final(self).radius == old(self).radius,
            final(self).index == old(self).index,
    {
        let v = self.velocity.add(self.acceleration);
        let v = clamp_length_max(v, self.max_speed);
        proof {
            lemma_clamped_bounded(v, self.max_speed as int);
        }
        self.velocity = v;
        let p = self.position.add(v);
        let r = self.radius;
        let x = if p.x + r < bounds.x {
            bounds.x + bounds.width + r
        } else if p.x - r > bounds.x + bounds.width {
            bounds.x - r
        } else {
            p.x
        };
        let y = if p.y + r < bounds.y {
            bounds.y + bounds.height + r
        } else if p.y - r > bounds.y + bounds.height {
            bounds.y - r
        } else {
            p.y
        };
        self.position = Vec2::new(x, y);
        self.acceleration = Vec2::zero();
    }
}

} // verus!
