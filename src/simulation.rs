use vstd::prelude::*;
use crate::boid::{
    advanced, arena_ok, wrap, bounded, pushed, Boid, BOID_MAX_FORCE, BOID_MAX_VELOCITY, BOID_RADIUS, BOID_AVOID_RADIUS, BOID_BOUNDS_SIZE, BOID_FOLLOW_RADIUS,
    FORCE_LIMIT, PARAM_LIMIT, POS_LIMIT, VEC_LIMIT,
};
use crate::geometry::{dist_sq, Rectangle, Vec2, UNIT};
use crate::quadtree::{hits, HasLocation, lemma_hits_permutation, lemma_query_sound, names_hit, Item, QuadTree};
use crate::vector::{
    clamp_len, clamp_length_max, lemma_clamped_bounded, lemma_mean_bound, trunc_div, trunc_div_i128, with_length,
    with_length_spec,
};

verus! {

broadcast use vstd::seq_lib::group_to_multiset_ensures;

/// Default weights, in thousandths (`UNIT` is a weight of one).
pub const BOID_SEPERATION_FACTOR: i32 = 1500;

pub const BOID_COHESION_FACTOR: i32 = 1000;

pub const BOID_ALIGNMENT_FACTOR: i32 = 1000;

/// The square of side `BOID_BOUNDS_SIZE` centred on `p`, searched for neighbours.
pub open spec fn neighbourhood(p: Vec2) -> Rectangle {
    Rectangle {
        x: (p.x - BOID_BOUNDS_SIZE / 2) as i64,
        y: (p.y - BOID_BOUNDS_SIZE / 2) as i64,
        width: BOID_BOUNDS_SIZE,
        height: BOID_BOUNDS_SIZE,
    }
}

/// The items an index over `bounds` holds after the first `k` boids of `s`
/// were inserted in order, each under its position in `s`.
pub open spec fn inserted(s: Seq<Boid>, bounds: Rectangle, k: int) -> Seq<Item>
    decreases k,
{
    if k <= 0 {
        Seq::empty()
    } else {
        inserted(s, bounds, k - 1) + if bounds.contains_spec(s[k - 1].position) {
            seq![Item { position: s[k - 1].position, handle: (k - 1) as usize }]
        } else {
            Seq::empty()
        }
    }
}

/// The boids found around boid `i`: those inside the arena and inside its
/// neighbourhood square, by position in `s`.
pub open spec fn found_around(s: Seq<Boid>, bounds: Rectangle, i: int) -> Seq<usize> {
    hits(inserted(s, bounds, s.len() as int), neighbourhood(s[i].position))
}

/// Sums over the neighbours of one boid: the offsets from the close ones, and
/// the positions and velocities of the near ones, with their counts.
pub struct Tally {
    pub sep_x: int,
    pub sep_y: int,
    pub n_sep: int,
    pub coh_x: int,
    pub coh_y: int,
    pub ali_x: int,
    pub ali_y: int,
    pub n_follow: int,
}

pub open spec fn tally_zero() -> Tally {
    Tally { sep_x: 0, sep_y: 0, n_sep: 0, coh_x: 0, coh_y: 0, ali_x: 0, ali_y: 0, n_follow: 0 }
}

pub open spec fn tally_add(a: Tally, b: Tally) -> Tally {
    Tally {
        sep_x: a.sep_x + b.sep_x,
        sep_y: a.sep_y + b.sep_y,
        n_sep: a.n_sep + b.n_sep,
        coh_x: a.coh_x + b.coh_x,
        coh_y: a.coh_y + b.coh_y,
        ali_x: a.ali_x + b.ali_x,
        ali_y: a.ali_y + b.ali_y,
        n_follow: a.n_follow + b.n_follow,
    }
}

/// What neighbour `o` adds to the tally of `b`: nothing if it is `b` itself
/// (by `index`); its offset if within `avoid`; its position and velocity if
/// within `follow`. Distances compare as squares.
pub open spec fn contribution(b: Boid, o: Boid, avoid: int, follow: int) -> Tally {
    let d = dist_sq(o.position, b.position);
    let close = o.index != b.index && d <= avoid * avoid;
    let near = o.index != b.index && d <= follow * follow;
    Tally {
        sep_x: if close { b.position.x - o.position.x } else { 0 },
        sep_y: if close { b.position.y - o.position.y } else { 0 },
        n_sep: if close { 1 } else { 0 },
        coh_x: if near { o.position.x as int } else { 0 },
        coh_y: if near { o.position.y as int } else { 0 },
        ali_x: if near { o.velocity.x as int } else { 0 },
        ali_y: if near { o.velocity.y as int } else { 0 },
        n_follow: if near { 1 } else { 0 },
    }
}

pub open spec fn tally(s: Seq<Boid>, b: Boid, hs: Seq<usize>, avoid: int, follow: int) -> Tally
    decreases hs.len(),
{
    if hs.len() == 0 {
        tally_zero()
    } else {
        tally_add(
            tally(s, b, hs.drop_last(), avoid, follow),
            contribution(b, s[hs.last() as int], avoid, follow),
        )
    }
}

/// The mean of `n > 0` values summing to `(sx, sy)`, rounded toward zero.
pub open spec fn mean(sx: int, sy: int, n: int) -> Vec2 {
    Vec2 { x: trunc_div(sx, n) as i64, y: trunc_div(sy, n) as i64 }
}

/// Weights of the three rules, in thousandths.
pub struct Weights {
    pub separation: i32,
    pub cohesion: i32,
    pub alignment: i32,
}

/// Separation: the mean offset from the close neighbours, at length
/// `separation` (nothing without such neighbours, or if the offsets cancel).
pub open spec fn separation_term(t: Tally, w: int) -> Vec2 {
    let m = mean(t.sep_x, t.sep_y, t.n_sep);
    if t.n_sep > 0 && m.len_sq() > 0 {
        with_length_spec(m, w)
    } else {
        Vec2::zero_spec()
    }
}

/// Cohesion: toward the mean position of the near neighbours, at length
/// `cohesion` (nothing without such neighbours, or at that mean already).
pub open spec fn cohesion_term(b: Boid, t: Tally, w: int) -> Vec2 {
    let d = mean(t.coh_x, t.coh_y, t.n_follow).minus(b.position);
    if t.n_follow > 0 && d.len_sq() > 0 {
        with_length_spec(d, w)
    } else {
        Vec2::zero_spec()
    }
}

/// Alignment: the mean velocity of the near neighbours, rescaled to
/// `max_speed`, less the boid's own velocity, times `alignment / UNIT`
/// (nothing without such neighbours, or if their velocities cancel).
pub open spec fn alignment_term(b: Boid, t: Tally, w: int) -> Vec2 {
    let m = mean(t.ali_x, t.ali_y, t.n_follow);
    let target = with_length_spec(m, b.max_speed as int);
    if t.n_follow > 0 && m.len_sq() > 0 {
        Vec2 {
            x: trunc_div((target.x - b.velocity.x) * w, UNIT as int) as i64,
            y: trunc_div((target.y - b.velocity.y) * w, UNIT as int) as i64,
        }
    } else {
        Vec2::zero_spec()
    }
}

pub open spec fn force_from(b: Boid, t: Tally, w: Weights) -> Vec2 {
    let s = separation_term(t, w.separation as int);
    let c = cohesion_term(b, t, w.cohesion as int);
    let a = alignment_term(b, t, w.alignment as int);
    Vec2 { x: (s.x + a.x + c.x) as i64, y: (s.y + a.y + c.y) as i64 }
}

/// The flocking force on boid `i` of the snapshot `s`.
pub open spec fn flock_force(
    s: Seq<Boid>,
    bounds: Rectangle,
    i: int,
    w: Weights,
    avoid: int,
    follow: int,
) -> Vec2 {
    force_from(s[i], tally(s, s[i], found_around(s, bounds, i), avoid, follow), w)
}

proof fn lemma_square_bound(a: int, m: int)
    requires
        -m <= a <= m,
    ensures
        0 <= a * a <= m * m,
{
    assert(0 <= a * a <= m * m) by (nonlinear_arith)
        requires
            -m <= a <= m,
    ;
}

/// Taking out the neighbour at `k` takes its contribution out of the tally.
proof fn lemma_tally_remove(s: Seq<Boid>, b: Boid, hs: Seq<usize>, k: int, avoid: int, follow: int)
    requires
        0 <= k < hs.len(),
    ensures
        tally(s, b, hs, avoid, follow) == tally_add(
            tally(s, b, hs.remove(k), avoid, follow),
            contribution(b, s[hs[k] as int], avoid, follow),
        ),
    decreases hs.len(),
{
    if k == hs.len() - 1 {
        assert(hs.remove(k) =~= hs.drop_last());
    } else {
        lemma_tally_remove(s, b, hs.drop_last(), k, avoid, follow);
        assert(hs.remove(k).drop_last() =~= hs.drop_last().remove(k));
        assert(hs.remove(k).last() == hs.last());
    }
}

/// The tally does not depend on the order in which the neighbours come.
pub proof fn lemma_tally_permutation(
    s: Seq<Boid>,
    b: Boid,
    h1: Seq<usize>,
    h2: Seq<usize>,
    avoid: int,
    follow: int,
)
    requires
        h1.to_multiset() == h2.to_multiset(),
    ensures
        tally(s, b, h1, avoid, follow) == tally(s, b, h2, avoid, follow),
    decreases h1.len(),
{
    broadcast use vstd::multiset::group_multiset_axioms;

    if h1.len() == 0 {
        assert(h1.to_multiset().len() == 0);
        assert(h2.len() == 0);
    } else {
        let x = h1.last();
        let rest = h1.drop_last();
        assert(rest.push(x) =~= h1);
        assert(h2.to_multiset().count(x) > 0);
        assert(h2.contains(x));
        let k = choose|k: int| 0 <= k < h2.len() && h2[k] == x;
        vstd::seq_lib::to_multiset_remove(h2, k);
        assert(rest.to_multiset() =~= h2.remove(k).to_multiset());
        lemma_tally_permutation(s, b, rest, h2.remove(k), avoid, follow);
        lemma_tally_remove(s, b, h2, k, avoid, follow);
    }
}

/// Every handle in the index built from the first `k` boids is below `k`.
proof fn lemma_inserted_handles(s: Seq<Boid>, bounds: Rectangle, k: int)
    requires
        0 <= k <= s.len(),
    ensures
        forall|i: int|
            0 <= i < inserted(s, bounds, k).len() ==> (#[trigger] inserted(s, bounds, k)[i]).handle
                < k,
    decreases k,
{
    if k > 0 {
        lemma_inserted_handles(s, bounds, k - 1);
        let prev = inserted(s, bounds, k - 1);
        assert forall|i: int| 0 <= i < inserted(s, bounds, k).len() implies (#[trigger] inserted(
            s,
            bounds,
            k,
        )[i]).handle < k by {
            if i < prev.len() {
                assert(inserted(s, bounds, k)[i] == prev[i]);
            }
        }
    }
}

/// Every boid found around another is a boid of the snapshot.
proof fn lemma_found_in_range(s: Seq<Boid>, bounds: Rectangle, r: Rectangle, f: Seq<usize>)
    requires
        f.to_multiset() == hits(inserted(s, bounds, s.len() as int), r).to_multiset(),
    ensures
        forall|j: int| 0 <= j < f.len() ==> #[trigger] f[j] < s.len(),
{
    let ins = inserted(s, bounds, s.len() as int);
    lemma_query_sound(ins, r);
    lemma_inserted_handles(s, bounds, s.len() as int);
    assert forall|j: int| 0 <= j < f.len() implies #[trigger] f[j] < s.len() by {
        assert(f.to_multiset().count(f[j]) > 0);
        assert(hits(ins, r).contains(f[j]));
        let k = choose|k: int| 0 <= k < hits(ins, r).len() && hits(ins, r)[k] == f[j];
        assert(names_hit(ins, r, hits(ins, r)[k]));
    }
}

/// A population of boids moving over an arena.
pub struct Simulation {
    /// The last pointer position handed to `update`.
    pub mouse_position: Vec2,
    pub boids: Vec<Boid>,
    /// The arena.
    pub bounds: Rectangle,
    pub boid_cohesion_factor: i32,
    pub boid_seperation_factor: i32,
    pub boid_alignment_factor: i32,
    /// Neighbours this close push a boid away.
    pub avoid_radius: i64,
    /// Neighbours this close pull a boid along.
    pub follow_radius: i64,
}

impl Simulation {
    pub open spec fn weights(&self) -> Weights {
        Weights {
            separation: self.boid_seperation_factor,
            cohesion: self.boid_cohesion_factor,
            alignment: self.boid_alignment_factor,
        }
    }

    pub open spec fn wf(&self) -> bool {
        &&& arena_ok(self.bounds)
        &&& self.bounds.width > 0
        &&& self.bounds.height > 0
        &&& 0 <= self.avoid_radius <= PARAM_LIMIT
        &&& 0 <= self.follow_radius <= PARAM_LIMIT
        &&& forall|i: int| 0 <= i < self.boids.len() ==> (#[trigger] self.boids@[i]).wf()
    }

    /// The flocking force on boid `i` in the current state.
    pub open spec fn force_on(&self, i: int) -> Vec2 {
        flock_force(
            self.boids@,
            self.bounds,
            i,
            self.weights(),
            self.avoid_radius as int,
            self.follow_radius as int,
        )
    }

    /// The square around a boid searched for its neighbours.
    fn get_vehicle_rect(boid: &Boid) -> (r: Rectangle)
        requires
            bounded(boid.position, POS_LIMIT as int),
        ensures
            r == neighbourhood(boid.position),
    {
        Rectangle::new(
            boid.position.x - BOID_BOUNDS_SIZE / 2,
            boid.position.y - BOID_BOUNDS_SIZE / 2,
            BOID_BOUNDS_SIZE,
            BOID_BOUNDS_SIZE,
        )
    }

    /// A simulation over `bounds` (of positive area) with one boid for each
    /// `(position, velocity)` in `starts`; boid `i` gets `index` `i`.
    pub fn new(bounds: Rectangle, starts: &Vec<(Vec2, Vec2)>) -> (r: Simulation)
        requires
            arena_ok(bounds),
            bounds.width > 0,
            bounds.height > 0,
            starts.len() <= i32::MAX,
            forall|i: int|
                0 <= i < starts.len() ==> bounded(#[trigger] starts@[i].0, POS_LIMIT as int)
                    && bounded(starts@[i].1, VEC_LIMIT as int),
        ensures
            r.wf(),
            r.bounds == bounds,
            r.boids.len() == starts.len(),
            forall|i: int|
                0 <= i < starts.len() ==> #[trigger] r.boids@[i] == (Boid {
                    position: starts@[i].0,
                    velocity: starts@[i].1,
                    acceleration: Vec2::zero_spec(),
                    max_speed: BOID_MAX_VELOCITY,
                    max_force: BOID_MAX_FORCE,
                    radius: BOID_RADIUS,
                    index: i as i32,
                }),
            r.boid_seperation_factor == BOID_SEPERATION_FACTOR,
            r.boid_cohesion_factor == BOID_COHESION_FACTOR,
            r.boid_alignment_factor == BOID_ALIGNMENT_FACTOR,
            r.avoid_radius == BOID_AVOID_RADIUS,
            r.follow_radius == BOID_FOLLOW_RADIUS,
            r.mouse_position == Vec2::zero_spec(),
    {
        let mut boids: Vec<Boid> = Vec::new();
        let mut i: usize = 0;
        while i < starts.len()
            invariant
                i <= starts.len() <= i32::MAX,
                boids.len() == i,
                forall|j: int|
                    0 <= j < starts.len() ==> bounded(#[trigger] starts@[j].0, POS_LIMIT as int)
                        && bounded(starts@[j].1, VEC_LIMIT as int),
                forall|j: int|
                    0 <= j < i ==> #[trigger] boids@[j] == (Boid {
                        position: starts@[j].0,
                        velocity: starts@[j].1,
                        acceleration: Vec2::zero_spec(),
                        max_speed: BOID_MAX_VELOCITY,
                        max_force: BOID_MAX_FORCE,
                        radius: BOID_RADIUS,
                        index: j as i32,
                    }),
            decreases starts.len() - i,
        {
            let (pt, v) = starts[i];
            boids.push(
                Boid {
                    position: pt,
                    velocity: v,
                    radius: BOID_RADIUS,
                    acceleration: Vec2::zero(),
                    max_speed: BOID_MAX_VELOCITY,
                    max_force: BOID_MAX_FORCE,
                    index: i as i32,
                },
            );
            i += 1;
        }
        Simulation {
            mouse_position: Vec2::zero(),
            boids,
            bounds,
            boid_seperation_factor: BOID_SEPERATION_FACTOR,
            boid_cohesion_factor: BOID_COHESION_FACTOR,
            boid_alignment_factor: BOID_ALIGNMENT_FACTOR,
            avoid_radius: BOID_AVOID_RADIUS,
            follow_radius: BOID_FOLLOW_RADIUS,
        }
    }

    /// Builds an index of the current boids and works out the flocking force
    /// on each from that one snapshot; only then is each force applied, so no
    /// boid reacts to a neighbour that has already been pushed this frame.
    pub fn navigate(&mut self)
        requires
            old(self).wf(),
        ensures
            final(self).wf(),
            final(self).boids.len() == old(self).boids.len(),
            forall|i: int|
                0 <= i < old(self).boids.len() ==> #[trigger] final(self).boids@[i] == pushed(
                    old(self).boids@[i],
                    old(self).force_on(i),
                ),
            final(self).bounds == old(self).bounds,
            final(self).weights() == old(self).weights(),
            final(self).avoid_radius == old(self).avoid_radius,
            final(self).follow_radius == old(self).follow_radius,
            final(self).mouse_position == old(self).mouse_position,
    {
        let ghost s = self.boids@;
        let n = self.boids.len();
        let mut quadtree = QuadTree::new(self.bounds);
        let mut k: usize = 0;
        while k < n
            invariant
                self.wf(),
                s == self.boids@,
                n == s.len(),
                k <= n,
                quadtree.wf(),
                quadtree.boundary_spec() == self.bounds,
                quadtree.items().to_multiset() == inserted(s, self.bounds, k as int).to_multiset(),
            decreases n - k,
        {
            let ghost before = quadtree.items();
            quadtree.insert(self.boids[k].get_location(), k);
            proof {
                let it = Item { position: s[k as int].position, handle: k };
                let prev = inserted(s, self.bounds, k as int);
                if self.bounds.contains_spec(it.position) {
                    assert(inserted(s, self.bounds, k + 1) =~= prev.push(it));
                } else {
                    assert(inserted(s, self.bounds, k + 1) =~= prev);
                }
            }
            k += 1;
        }
        let mut forces: Vec<Vec2> = Vec::new();
        let mut i: usize = 0;
        while i < n
            invariant
                self.wf(),
                s == self.boids@,
                n == s.len(),
                i <= n,
                quadtree.wf(),
                quadtree.items().to_multiset() == inserted(s, self.bounds, n as int).to_multiset(),
                forces.len() == i,
                forall|j: int| 0 <= j < i ==> #[trigger] forces@[j] == self.force_on(j),
                forall|j: int| 0 <= j < i ==> bounded(#[trigger] forces@[j], FORCE_LIMIT as int),
            decreases n - i,
        {
            let f = self.boid_force(&quadtree, i);
            forces.push(f);
            i += 1;
        }
        let ghost snapshot = *self;
        let mut i: usize = 0;
        while i < n
            invariant
                n == s.len(),
                self.boids.len() == n,
                i <= n,
                forces.len() == n,
                snapshot.wf(),
                snapshot.boids@ == s,
                self.bounds == snapshot.bounds,
                self.weights() == snapshot.weights(),
                self.avoid_radius == snapshot.avoid_radius,
                self.follow_radius == snapshot.follow_radius,
                self.mouse_position == snapshot.mouse_position,
                forall|j: int| 0 <= j < n ==> #[trigger] forces@[j] == snapshot.force_on(j),
                forall|j: int| 0 <= j < n ==> bounded(#[trigger] forces@[j], FORCE_LIMIT as int),
                forall|j: int| 0 <= j < i ==> #[trigger] self.boids@[j] == pushed(s[j], forces@[j]),
                forall|j: int| i <= j < n ==> #[trigger] self.boids@[j] == s[j],
                forall|j: int| 0 <= j < n ==> (#[trigger] self.boids@[j]).wf(),
            decreases n - i,
        {
            let mut b = self.boids[i];
            assert(b.wf());
            b.apply_force(forces[i]);
            self.boids.set(i, b);
            i += 1;
        }
    }

    /// One frame: records the pointer, applies the flocking forces (see
    /// `navigate`), then advances every boid.
    pub fn update(&mut self, mouse_position: Vec2)
        requires
            old(self).wf(),
        ensures
            final(self).wf(),
            final(self).boids.len() == old(self).boids.len(),
            forall|i: int|
                0 <= i < old(self).boids.len() ==> #[trigger] final(self).boids@[i] == advanced(
                    pushed(old(self).boids@[i], old(self).force_on(i)),
                    old(self).bounds,
                ),
            forall|i: int|
                0 <= i < final(self).boids.len() ==> (#[trigger] final(self).boids@[i]).velocity.len_sq()
                    <= final(self).boids@[i].max_speed * final(self).boids@[i].max_speed,
            final(self).mouse_position == mouse_position,
            final(self).bounds == old(self).bounds,
            final(self).weights() == old(self).weights(),
            final(self).avoid_radius == old(self).avoid_radius,
            final(self).follow_radius == old(self).follow_radius,
    {
        self.mouse_position = mouse_position;
        self.navigate();
        let ghost pushed_boids = self.boids@;
        let n = self.boids.len();
        let mut i: usize = 0;
        while i < n
            invariant
                self.wf(),
                self.boids.len() == n,
                pushed_boids.len() == n,
                i <= n,
                self.mouse_position == mouse_position,
                self.bounds == old(self).bounds,
                self.weights() == old(self).weights(),
                self.avoid_radius == old(self).avoid_radius,
                self.follow_radius == old(self).follow_radius,
                forall|j: int| 0 <= j < n ==> #[trigger] pushed_boids[j] == pushed(
                    old(self).boids@[j],
                    old(self).force_on(j),
                ),
                forall|j: int| 0 <= j < i ==> #[trigger] self.boids@[j] == advanced(
                    pushed_boids[j],
                    self.bounds,
                ),
                forall|j: int| 0 <= j < i ==> (#[trigger] self.boids@[j]).velocity.len_sq()
                    <= self.boids@[j].max_speed * self.boids@[j].max_speed,
                forall|j: int| i <= j < n ==> #[trigger] self.boids@[j] == pushed_boids[j],
            decreases n - i,
        {
            let mut b = self.boids[i];
            assert(b.wf());
            b.update(self.bounds);
            self.boids.set(i, b);
            i += 1;
        }
    }

    /// The boids' positions, in order, for drawing.
    pub fn positions(&self) -> (r: Vec<Vec2>)
        ensures
            r.len() == self.boids.len(),
            forall|i: int| 0 <= i < r.len() ==> #[trigger] r@[i] == self.boids@[i].position,
    {
        let mut r: Vec<Vec2> = Vec::new();
        let mut i: usize = 0;
        while i < self.boids.len()
            invariant
                i <= self.boids.len(),
                r.len() == i,
                forall|j: int| 0 <= j < i ==> #[trigger] r@[j] == self.boids@[j].position,
            decreases self.boids.len() - i,
        {
            r.push(self.boids[i].position);
            i += 1;
        }
        r
    }

    /// Pulls every boid toward `point`: each is pushed by its velocity less
    /// its offset from `point`, cut down to `max_force`.
    pub fn steer(&mut self, point: Vec2)
        requires
            old(self).wf(),
            bounded(point, POS_LIMIT as int),
        ensures
            final(self).wf(),
            final(self).boids.len() == old(self).boids.len(),
            forall|i: int|
                0 <= i < old(self).boids.len() ==> #[trigger] final(self).boids@[i] == pushed(
                    old(self).boids@[i],
                    clamp_len(
                        old(self).boids@[i].velocity.minus(old(self).boids@[i].position.minus(point)),
                        old(self).boids@[i].max_force as int,
                    ),
                ),
            final(self).bounds == old(self).bounds,
            final(self).weights() == old(self).weights(),
            final(self).avoid_radius == old(self).avoid_radius,
            final(self).follow_radius == old(self).follow_radius,
            final(self).mouse_position == old(self).mouse_position,
    {
        let n = self.boids.len();
        let mut i: usize = 0;
        while i < n
            invariant
                self.wf(),
                self.boids.len() == n,
                n == old(self).boids.len(),
                i <= n,
                bounded(point, POS_LIMIT as int),
                self.bounds == old(self).bounds,
                self.weights() == old(self).weights(),
                self.avoid_radius == old(self).avoid_radius,
                self.follow_radius == old(self).follow_radius,
                self.mouse_position == old(self).mouse_position,
                forall|j: int| 0 <= j < i ==> #[trigger] self.boids@[j] == pushed(
                    old(self).boids@[j],
                    clamp_len(
                        old(self).boids@[j].velocity.minus(old(self).boids@[j].position.minus(point)),
                        old(self).boids@[j].max_force as int,
                    ),
                ),
                forall|j: int| i <= j < n ==> #[trigger] self.boids@[j] == old(self).boids@[j],
            decreases n - i,
        {
            let mut boid = self.boids[i];
            assert(boid.wf());
            let steer = boid.velocity.sub(boid.position.sub(point));
            let steer = clamp_length_max(steer, boid.max_force);
            proof {
                lemma_clamped_bounded(steer, boid.max_force as int);
            }
            boid.apply_force(steer);
            self.boids.set(i, boid);
            i += 1;
        }
    }

    /// The force on boid `i`, from an index that holds the current boids.
    fn boid_force(&self, tree: &QuadTree, i: usize) -> (r: Vec2)
        requires
            self.wf(),
            i < self.boids.len(),
            tree.wf(),
            tree.items().to_multiset() == inserted(
                self.boids@,
                self.bounds,
                self.boids.len() as int,
            ).to_multiset(),
        ensures
            r == self.force_on(i as int),
            bounded(r, FORCE_LIMIT as int),
    {
        let ghost s = self.boids@;
        let b = self.boids[i];
        assert(b.wf());
        let rect = Simulation::get_vehicle_rect(&b);
        let found = tree.query(rect);
        let ghost around = found_around(s, self.bounds, i as int);
        proof {
            lemma_hits_permutation(tree.items(), inserted(s, self.bounds, s.len() as int), rect);
            lemma_found_in_range(s, self.bounds, rect, found@);
        }
        let sums = self.gather(&found, &b);
        proof {
            lemma_tally_permutation(
                s,
                b,
                found@,
                around,
                self.avoid_radius as int,
                self.follow_radius as int,
            );
        }
        let sep = separation(&sums, self.boid_seperation_factor);
        let coh = cohesion(&sums, &b, self.boid_cohesion_factor);
        let ali = alignment(&sums, &b, self.boid_alignment_factor);
        Vec2::new(sep.x + ali.x + coh.x, sep.y + ali.y + coh.y)
    }

    /// Sums over the boids named in `found`, seen from `b`.
    fn gather(&self, found: &Vec<usize>, b: &Boid) -> (r: Sums)
        requires
            self.wf(),
            b.wf(),
            forall|j: int| 0 <= j < found.len() ==> #[trigger] found@[j] < self.boids.len(),
        ensures
            r.view() == tally(
                self.boids@,
                *b,
                found@,
                self.avoid_radius as int,
                self.follow_radius as int,
            ),
            r.ok(),
    {
        let ghost s = self.boids@;
        let ghost avoid = self.avoid_radius as int;
        let ghost follow = self.follow_radius as int;
        proof {
            lemma_square_bound(avoid, PARAM_LIMIT as int);
            lemma_square_bound(follow, PARAM_LIMIT as int);
        }
        let avoid_sq = (self.avoid_radius as i128) * (self.avoid_radius as i128);
        let follow_sq = (self.follow_radius as i128) * (self.follow_radius as i128);
        let mut t = Sums {
            sep_x: 0,
            sep_y: 0,
            n_sep: 0,
            coh_x: 0,
            coh_y: 0,
            ali_x: 0,
            ali_y: 0,
            n_follow: 0,
        };
        let mut k: usize = 0;
        while k < found.len()
            invariant
                self.wf(),
                b.wf(),
                s == self.boids@,
                k <= found.len(),
                forall|j: int| 0 <= j < found.len() ==> #[trigger] found@[j] < s.len(),
                avoid_sq == avoid * avoid,
                follow_sq == follow * follow,
                t.view() == tally(s, *b, found@.subrange(0, k as int), avoid, follow),
                t.ok(),
                t.n_sep <= k,
                t.n_follow <= k,
            decreases found.len() - k,
        {
            let h = found[k];
            let other = self.boids[h];
            assert(other.wf());
            proof {
                assert(found@.subrange(0, k + 1).drop_last() =~= found@.subrange(0, k as int));
                assert(found@.subrange(0, k + 1).last() == h);
            }
            if other.index != b.index {
                let dx = other.position.x as i128 - b.position.x as i128;
                let dy = other.position.y as i128 - b.position.y as i128;
                proof {
                    lemma_square_bound(dx as int, 2 * POS_LIMIT);
                    lemma_square_bound(dy as int, 2 * POS_LIMIT);
                }
                let d = dx * dx + dy * dy;
                if d <= avoid_sq {
                    t.sep_x = t.sep_x + (b.position.x as i128 - other.position.x as i128);
                    t.sep_y = t.sep_y + (b.position.y as i128 - other.position.y as i128);
                    t.n_sep = t.n_sep + 1;
                }
                if d <= follow_sq {
                    t.coh_x = t.coh_x + other.position.x as i128;
                    t.coh_y = t.coh_y + other.position.y as i128;
                    t.ali_x = t.ali_x + other.velocity.x as i128;
                    t.ali_y = t.ali_y + other.velocity.y as i128;
                    t.n_follow = t.n_follow + 1;
                }
            }
            k += 1;
        }
        proof {
            assert(found@.subrange(0, k as int) =~= found@);
        }
        t
    }
}

/// Running sums of a tally.
struct Sums {
    sep_x: i128,
    sep_y: i128,
    n_sep: i128,
    coh_x: i128,
    coh_y: i128,
    ali_x: i128,
    ali_y: i128,
    n_follow: i128,
}

impl Sums {
    spec fn view(&self) -> Tally {
        Tally {
            sep_x: self.sep_x as int,
            sep_y: self.sep_y as int,
            n_sep: self.n_sep as int,
            coh_x: self.coh_x as int,
            coh_y: self.coh_y as int,
            ali_x: self.ali_x as int,
            ali_y: self.ali_y as int,
            n_follow: self.n_follow as int,
        }
    }

    /// Each sum is at most its count times the largest size of a term.
    spec fn ok(&self) -> bool {
        &&& 0 <= self.n_sep <= usize::MAX
        &&& 0 <= self.n_follow <= usize::MAX
        &&& -(self.n_sep * 2 * POS_LIMIT) <= self.sep_x <= self.n_sep * 2 * POS_LIMIT
        &&& -(self.n_sep * 2 * POS_LIMIT) <= self.sep_y <= self.n_sep * 2 * POS_LIMIT
        &&& -(self.n_follow * POS_LIMIT) <= self.coh_x <= self.n_follow * POS_LIMIT
        &&& -(self.n_follow * POS_LIMIT) <= self.coh_y <= self.n_follow * POS_LIMIT
        &&& -(self.n_follow * VEC_LIMIT) <= self.ali_x <= self.n_follow * VEC_LIMIT
        &&& -(self.n_follow * VEC_LIMIT) <= self.ali_y <= self.n_follow * VEC_LIMIT
    }
}

/// The separation term of a tally.
fn separation(t: &Sums, weight: i32) -> (r: Vec2)
    requires
        t.ok(),
    ensures
        r == separation_term(t.view(), weight as int),
        bounded(r, 0x8000_0000),
{
    if t.n_sep > 0 {
        proof {
            lemma_mean_bound(t.sep_x as int, t.n_sep as int, 2 * POS_LIMIT);
            lemma_mean_bound(t.sep_y as int, t.n_sep as int, 2 * POS_LIMIT);
        }
        let m = Vec2::new(
            trunc_div_i128(t.sep_x, t.n_sep) as i64,
            trunc_div_i128(t.sep_y, t.n_sep) as i64,
        );
        if !m.is_zero() {
            return with_length(m, weight as i64);
        }
    }
    Vec2::zero()
}

/// The cohesion term of a tally seen from `b`.
fn cohesion(t: &Sums, b: &Boid, weight: i32) -> (r: Vec2)
    requires
        t.ok(),
        b.wf(),
    ensures
        r == cohesion_term(*b, t.view(), weight as int),
        bounded(r, 0x8000_0000),
{
    if t.n_follow > 0 {
        proof {
            lemma_mean_bound(t.coh_x as int, t.n_follow as int, POS_LIMIT as int);
            lemma_mean_bound(t.coh_y as int, t.n_follow as int, POS_LIMIT as int);
        }
        let cm = Vec2::new(
            trunc_div_i128(t.coh_x, t.n_follow) as i64,
            trunc_div_i128(t.coh_y, t.n_follow) as i64,
        );
        let d = cm.sub(b.position);
        if !d.is_zero() {
            return with_length(d, weight as i64);
        }
    }
    Vec2::zero()
}

/// The alignment term of a tally seen from `b`.
fn alignment(t: &Sums, b: &Boid, weight: i32) -> (r: Vec2)
    requires
        t.ok(),
        b.wf(),
    ensures
        r == alignment_term(*b, t.view(), weight as int),
        bounded(r, 0x80_0000_0000_0000),
{
    if t.n_follow > 0 {
        proof {
            lemma_mean_bound(t.ali_x as int, t.n_follow as int, VEC_LIMIT as int);
            lemma_mean_bound(t.ali_y as int, t.n_follow as int, VEC_LIMIT as int);
        }
        let am = Vec2::new(
            trunc_div_i128(t.ali_x, t.n_follow) as i64,
            trunc_div_i128(t.ali_y, t.n_follow) as i64,
        );
        if !am.is_zero() {
            let target = with_length(am, b.max_speed);
            let w = weight as i128;
            let ex = target.x as i128 - b.velocity.x as i128;
            let ey = target.y as i128 - b.velocity.y as i128;
            proof {
                lemma_product_bound(ex as int, w as int);
                lemma_product_bound(ey as int, w as int);
                lemma_mean_bound(ex * w, UNIT as int, 0x80_0000_0000_0000);
                lemma_mean_bound(ey * w, UNIT as int, 0x80_0000_0000_0000);
            }
            return Vec2::new(
                trunc_div_i128(ex * w, UNIT as i128) as i64,
                trunc_div_i128(ey * w, UNIT as i128) as i64,
            );
        }
    }
    Vec2::zero()
}

proof fn lemma_product_bound(e: int, w: int)
    requires
        -0x2_0000_0000 <= e <= 0x2_0000_0000,
        -0x8000_0000 <= w <= 0x8000_0000,
    ensures
        -0x1_0000_0000_0000_0000int <= e * w <= 0x1_0000_0000_0000_0000int,
{
    assert(-0x1_0000_0000_0000_0000int <= e * w <= 0x1_0000_0000_0000_0000int) by (nonlinear_arith)
        requires
            -0x2_0000_0000 <= e <= 0x2_0000_0000,
            -0x8000_0000 <= w <= 0x8000_0000,
    ;
}

/// `f` moved by `d`, held within the range of `i32`.
pub open spec fn nudged(f: i32, d: int) -> i32 {
    if f + d > i32::MAX {
        i32::MAX
    } else if f + d < i32::MIN {
        i32::MIN
    } else {
        (f + d) as i32
    }
}

fn nudge(f: i32, d: i32) -> (r: i32)
    ensures
        r == nudged(f, d as int),
{
    let v = f as i64 + d as i64;
    if v > i32::MAX as i64 {
        i32::MAX
    } else if v < i32::MIN as i64 {
        i32::MIN
    } else {
        v as i32
    }
}

/// Weight change for the tuning key `key`, in thousandths: `w`/`q` raise and
/// lower separation, `s`/`a` cohesion, `x`/`z` alignment.
pub open spec fn key_delta(key: char) -> (int, int, int) {
    if key == 'w' {
        (100, 0, 0)
    } else if key == 'q' {
        (-100, 0, 0)
    } else if key == 's' {
        (0, 100, 0)
    } else if key == 'a' {
        (0, -100, 0)
    } else if key == 'x' {
        (0, 0, 50)
    } else if key == 'z' {
        (0, 0, -50)
    } else {
        (0, 0, 0)
    }
}

/// Applies one tuning key to the weights; any other key changes nothing. The
/// weights have no range of their own: they stop only at the limits of `i32`.
pub fn handle_key_press(key: char, simulation: &mut Simulation)
    ensures
        final(simulation).boid_seperation_factor == nudged(
            old(simulation).boid_seperation_factor,
            key_delta(key).0,
        ),
        final(simulation).boid_cohesion_factor == nudged(
            old(simulation).boid_cohesion_factor,
            key_delta(key).1,
        ),
        final(simulation).boid_alignment_factor == nudged(
            old(simulation).boid_alignment_factor,
            key_delta(key).2,
        ),
        final(simulation).boids == old(simulation).boids,
        final(simulation).bounds == old(simulation).bounds,
        final(simulation).avoid_radius == old(simulation).avoid_radius,
        final(simulation).follow_radius == old(simulation).follow_radius,
        final(simulation).mouse_position == old(simulation).mouse_position,
{
    if key == 'w' {
        simulation.boid_seperation_factor = nudge(simulation.boid_seperation_factor, 100);
    } else if key == 'q' {
        simulation.boid_seperation_factor = nudge(simulation.boid_seperation_factor, -100);
    } else if key == 's' {
        simulation.boid_cohesion_factor = nudge(simulation.boid_cohesion_factor, 100);
    } else if key == 'a' {
        simulation.boid_cohesion_factor = nudge(simulation.boid_cohesion_factor, -100);
    } else if key == 'x' {
        simulation.boid_alignment_factor = nudge(simulation.boid_alignment_factor, 50);
    } else if key == 'z' {
        simulation.boid_alignment_factor = nudge(simulation.boid_alignment_factor, -50);
    }
}

/// A tally over neighbours that are all the boid itself or beyond `follow`
/// (with `avoid <= follow`) is empty.
proof fn lemma_tally_isolated(s: Seq<Boid>, b: Boid, hs: Seq<usize>, avoid: int, follow: int)
    requires
        0 <= avoid <= follow,
        forall|k: int| 0 <= k < hs.len() ==> #[trigger] hs[k] < s.len(),
        forall|j: int|
            0 <= j < s.len() && (#[trigger] s[j]).index != b.index ==> dist_sq(
                s[j].position,
                b.position,
            ) > follow * follow,
    ensures
        tally(s, b, hs, avoid, follow) == tally_zero(),
    decreases hs.len(),
{
    if hs.len() > 0 {
        assert(avoid * avoid <= follow * follow) by (nonlinear_arith)
            requires
                0 <= avoid <= follow,
        ;
        lemma_tally_isolated(s, b, hs.drop_last(), avoid, follow);
        let o = s[hs.last() as int];
        assert(hs.last() == hs[hs.len() - 1]);
    }
}

/// An agent with no other agent (by `index`) within `follow` of it, where
/// `avoid <= follow`, feels no flocking force, whatever the weights.
pub proof fn lemma_isolated_no_force(
    s: Seq<Boid>,
    bounds: Rectangle,
    i: int,
    w: Weights,
    avoid: int,
    follow: int,
)
    requires
        0 <= i < s.len(),
        0 <= avoid <= follow,
        forall|j: int|
            0 <= j < s.len() && (#[trigger] s[j]).index != s[i].index ==> dist_sq(
                s[j].position,
                s[i].position,
            ) > follow * follow,
    ensures
        flock_force(s, bounds, i, w, avoid, follow) == Vec2::zero_spec(),
{
    let ins = inserted(s, bounds, s.len() as int);
    let around = found_around(s, bounds, i);
    lemma_query_sound(ins, neighbourhood(s[i].position));
    lemma_inserted_handles(s, bounds, s.len() as int);
    assert forall|k: int| 0 <= k < around.len() implies #[trigger] around[k] < s.len() by {
        assert(names_hit(ins, neighbourhood(s[i].position), around[k]));
    }
    lemma_tally_isolated(s, s[i], around, avoid, follow);
}

/// With no force on it, a boid at rest in acceleration and within its speed
/// limit keeps its velocity and moves by exactly that velocity (then wraps).
pub proof fn lemma_unforced_step(b: Boid, bounds: Rectangle)
    requires
        b.acceleration == Vec2::zero_spec(),
        b.velocity.len_sq() <= b.max_speed * b.max_speed,
    ensures
        advanced(pushed(b, Vec2::zero_spec()), bounds).velocity == b.velocity,
        advanced(pushed(b, Vec2::zero_spec()), bounds).position == wrap(
            b.position.plus(b.velocity),
            b.radius as int,
            bounds,
        ),
{
    let mf = b.max_force as int;
    assert(mf * mf >= 0) by (nonlinear_arith);
    assert(b.acceleration.plus(Vec2::zero_spec()) == Vec2::zero_spec());
    assert(Vec2::zero_spec().len_sq() == 0);
    let p = pushed(b, Vec2::zero_spec());
    assert(p.acceleration == Vec2::zero_spec());
    assert(p.velocity.plus(p.acceleration) == b.velocity);
}

} // verus!
