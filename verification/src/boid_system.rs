//! The world: the agent population, the neighbor query that feeds each
//! agent's update, and the synchronous per-tick walk over the population.
//!
//! The walk is sequential and mutates in place: agents later in population
//! order see the already-updated state of earlier ones within the same
//! tick. `spec_world_step` mirrors exactly that order.

use vstd::prelude::*;
use vstd::pervasive::VecAdditionalExecFns;
use crate::boid::{
    Boid, BoidM, EXTENT_LIMIT, MAX_POP, MAX_SPEED, POS_LIMIT, boid_ok,
    boid_valid, lemma_spec_boid_step_valid, lemma_speed_norm, lemma_step_straight_line,
    spec_boid_step, spec_border, views,
};
use crate::rng::rand_range;
use crate::vec2::{V2, div_pos, v2_add, v2_dist, v2_norm, v2_norm_sq, v2_sub};

verus! {

/// Radius of the neighbor query (50 units in fixed point).
pub const NEIGHBOR_RADIUS: i64 = 50_000;

/// Why a world could not be built: the configuration was rejected.
#[derive(Clone, Copy, PartialEq, Eq, Structural, Debug)]
pub enum ConfigError {
    NonPositiveWidth,
    NonPositiveHeight,
    NegativeAgentCount,
}

/// The bounded world owning the whole agent population.
#[allow(non_camel_case_types)]
#[derive(Clone, Debug)]
pub struct Boid_World {
    pub width: i64,
    pub height: i64,
    pub boids: Vec<Boid>,
}

/// The neighbor query's result on the view level: every agent whose
/// distance to `p` is within `NEIGHBOR_RADIUS`, in population order — the
/// querying agent itself included, since its own distance is zero.
pub open spec fn neighbors_of(bs: Seq<BoidM>, p: V2) -> Seq<BoidM>
    decreases bs.len(),
{
    if bs.len() == 0 {
        Seq::empty()
    } else {
        let rest = neighbors_of(bs.drop_last(), p);
        if v2_dist(bs.last().point, p) <= NEIGHBOR_RADIUS {
            rest.push(bs.last())
        } else {
            rest
        }
    }
}

/// The first `k` agents updated in population order, each against the
/// neighbor query over the then-current population: the sequential,
/// in-place tick.
pub open spec fn spec_world_step(bs: Seq<BoidM>, width: int, height: int, k: int) -> Seq<BoidM>
    decreases k,
{
    if k <= 0 {
        bs
    } else {
        let prev = spec_world_step(bs, width, height, k - 1);
        prev.update(
            k - 1,
            spec_boid_step(prev[k - 1], neighbors_of(prev, prev[k - 1].point), width, height),
        )
    }
}

impl Boid_World {
    /// Well-formedness: positive bounded extents, a bounded population,
    /// every agent valid, and each agent's id equal to its index.
    pub open spec fn wf(self) -> bool {
        &&& 0 < self.width <= EXTENT_LIMIT
        &&& 0 < self.height <= EXTENT_LIMIT
        &&& self.boids@.len() <= MAX_POP
        &&& forall|i: int|
            0 <= i < self.boids@.len() ==> boid_valid((#[trigger] self.boids@[i])@)
        &&& forall|i: int| 0 <= i < self.boids@.len() ==> (#[trigger] self.boids@[i])@.id == i
    }

    /// Builds a world of `boid_amount` agents with ids `0..boid_amount`,
    /// each at a uniformly random position inside the bounds (half-open:
    /// the high edge of an axis is never drawn). A non-positive extent or
    /// a negative count is rejected.
    #[verifier::loop_isolation(false)]
    pub fn new(width: i64, height: i64, boid_amount: i32) -> (r: Result<Boid_World, ConfigError>)
        requires
            width <= EXTENT_LIMIT,
            height <= EXTENT_LIMIT,
        ensures
            r is Ok <==> (width > 0 && height > 0 && boid_amount >= 0),
            width <= 0 ==> r == Err::<Boid_World, ConfigError>(ConfigError::NonPositiveWidth),
            width > 0 && height <= 0 ==> r == Err::<Boid_World, ConfigError>(
                ConfigError::NonPositiveHeight,
            ),
            width > 0 && height > 0 && boid_amount < 0 ==> r == Err::<Boid_World, ConfigError>(
                ConfigError::NegativeAgentCount,
            ),
            r matches Ok(w) ==> {
                &&& w.wf()
                &&& w.width == width
                &&& w.height == height
                &&& w.boids@.len() == boid_amount
                &&& forall|i: int|
                    0 <= i < w.boids@.len() ==> -((width as int) / 2) <= (
                    #[trigger] w.boids@[i])@.point.x <= (width as int) / 2 && -((height as int)
                        / 2) <= w.boids@[i]@.point.y <= (height as int) / 2
                &&& forall|i: int|
                    0 <= i < w.boids@.len() && (width as int) / 2 > 0 ==> (
                    #[trigger] w.boids@[i])@.point.x < (width as int) / 2
                &&& forall|i: int|
                    0 <= i < w.boids@.len() && (height as int) / 2 > 0 ==> (
                    #[trigger] w.boids@[i])@.point.y < (height as int) / 2
                &&& forall|i: int|
                    0 <= i < w.boids@.len() ==> 992_000 <= v2_norm_sq(
                        (#[trigger] w.boids@[i])@.velocity,
                    ) <= 1_004_000
            },
    {
        if width <= 0 {
            return Err(ConfigError::NonPositiveWidth);
        }
        if height <= 0 {
            return Err(ConfigError::NonPositiveHeight);
        }
        if boid_amount < 0 {
            return Err(ConfigError::NegativeAgentCount);
        }
        let half_w = div_pos(width, 2);
        let half_h = div_pos(height, 2);
        let n = boid_amount as usize;
        let mut boids: Vec<Boid> = Vec::new();
        let mut i: usize = 0;
        while i < n
            invariant
                i <= n,
                boids@.len() == i,
                forall|j: int| 0 <= j < i ==> boid_valid((#[trigger] boids@[j])@),
                forall|j: int| 0 <= j < i ==> (#[trigger] boids@[j])@.id == j,
                forall|j: int|
                    0 <= j < i ==> -half_w <= (#[trigger] boids@[j])@.point.x <= half_w && -half_h
                        <= boids@[j]@.point.y <= half_h,
                forall|j: int|
                    0 <= j < i && half_w > 0 ==> (#[trigger] boids@[j])@.point.x < half_w,
                forall|j: int|
                    0 <= j < i && half_h > 0 ==> (#[trigger] boids@[j])@.point.y < half_h,
                forall|j: int|
                    0 <= j < i ==> 992_000 <= v2_norm_sq((#[trigger] boids@[j])@.velocity)
                        <= 1_004_000,
            decreases n - i,
        {
            let x = if half_w > 0 {
                rand_range(-half_w, half_w)
            } else {
                0
            };
            let y = if half_h > 0 {
                rand_range(-half_h, half_h)
            } else {
                0
            };
            let b = Boid::new(x, y, i as i32);
            boids.push(b);
            i = i + 1;
        }
        Ok(Boid_World { width, height, boids })
    }

    /// A snapshot of the whole population, by value: the returned vector
    /// holds exactly the world's agents, so two snapshots without an
    /// intervening `step` are identical.
    #[verifier::loop_isolation(false)]
    pub fn get_boids(&self) -> (r: Vec<Boid>)
        ensures
            r@ == self.boids@,
    {
        let mut r: Vec<Boid> = Vec::new();
        let mut i: usize = 0;
        while i < self.boids.len()
            invariant
                i <= self.boids@.len(),
                r@ == self.boids@.take(i as int),
            decreases self.boids@.len() - i,
        {
            r.push(self.boids[i]);
            proof {
                assert(r@ =~= self.boids@.take(i as int + 1));
            }
            i = i + 1;
        }
        proof {
            assert(self.boids@.take(self.boids@.len() as int) =~= self.boids@);
        }
        r
    }

    /// The neighbor query: every agent of the world, the given one
    /// included, whose distance to `b` is at most `NEIGHBOR_RADIUS`. A full
    /// population scan, in population order.
    #[verifier::loop_isolation(false)]
    pub fn get_boid_neighbors(&self, b: &Boid) -> (r: Vec<Boid>)
        requires
            self.wf(),
            -POS_LIMIT <= b@.point.x <= POS_LIMIT,
            -POS_LIMIT <= b@.point.y <= POS_LIMIT,
        ensures
            views(r@) == neighbors_of(views(self.boids@), b@.point),
            r@.len() <= self.boids@.len(),
            forall|j: int| 0 <= j < r@.len() ==> boid_valid((#[trigger] r@[j])@),
    {
        let ghost vs = views(self.boids@);
        let mut r: Vec<Boid> = Vec::new();
        let mut i: usize = 0;
        while i < self.boids.len()
            invariant
                i <= self.boids@.len(),
                r@.len() <= i,
                views(r@) == neighbors_of(vs.take(i as int), b@.point),
                forall|j: int| 0 <= j < r@.len() ==> boid_valid((#[trigger] r@[j])@),
            decreases self.boids@.len() - i,
        {
            let cand = self.boids[i];
            proof {
                assert(vs.take(i as int + 1).drop_last() =~= vs.take(i as int));
                assert(vs[i as int] == self.boids@[i as int]@);
            }
            let d = cand.get_point().distance(b.get_point());
            if d <= NEIGHBOR_RADIUS {
                r.push(cand);
                proof {
                    assert(views(r@) =~= neighbors_of(vs.take(i as int + 1), b@.point));
                }
            }
            i = i + 1;
        }
        proof {
            assert(vs.take(self.boids@.len() as int) =~= vs);
        }
        r
    }

    /// One synchronous tick: walk the population in order, query each
    /// agent's neighbors against the current (partially updated) state, and
    /// step the agent in place. Afterwards the world is well-formed again
    /// and every agent's speed is at most `MAX_SPEED`.
    #[verifier::loop_isolation(false)]
    pub fn step(&mut self)
        requires
            old(self).wf(),
        ensures
            final(self).wf(),
            final(self).width == old(self).width,
            final(self).height == old(self).height,
            final(self).boids@.len() == old(self).boids@.len(),
            views(final(self).boids@) == spec_world_step(
                views(old(self).boids@),
                old(self).width as int,
                old(self).height as int,
                old(self).boids@.len() as int,
            ),
            forall|i: int|
                0 <= i < final(self).boids@.len() ==> v2_norm(
                    (#[trigger] final(self).boids@[i])@.velocity,
                ) <= MAX_SPEED,
    {
        let ghost orig = views(old(self).boids@);
        let ghost w = old(self).width as int;
        let ghost h = old(self).height as int;
        let mut i: usize = 0;
        while i < self.boids.len()
            invariant
                i <= self.boids@.len(),
                self.wf(),
                self.width == old(self).width,
                self.height == old(self).height,
                self.boids@.len() == old(self).boids@.len(),
                views(self.boids@) == spec_world_step(orig, w, h, i as int),
            decreases self.boids@.len() - i,
        {
            let cur = self.boids[i];
            let ns = self.get_boid_neighbors(&cur);
            proof {
                assert(views(self.boids@)[i as int] == self.boids@[i as int]@);
                assert forall|j: int| 0 <= j < views(ns@).len() implies boid_ok(
                    #[trigger] views(ns@)[j],
                ) by {
                    assert(views(ns@)[j] == ns@[j]@);
                }
            }
            let mut b = cur;
            b.step(&ns, self.width, self.height);
            self.boids.set(i, b);
            proof {
                let prev = spec_world_step(orig, w, h, i as int);
                assert(views(self.boids@) =~= prev.update(i as int, b@));
                assert(cur@ == prev[i as int]);
                assert(b@ == spec_boid_step(
                    prev[i as int],
                    neighbors_of(prev, prev[i as int].point),
                    w,
                    h,
                ));
                assert(views(self.boids@) == spec_world_step(orig, w, h, i as int + 1));
            }
            i = i + 1;
        }
        proof {
            lemma_world_speed_bound(*self);
        }
    }
}

/// The population after `rounds` full ticks.
pub open spec fn spec_world_ticks(bs: Seq<BoidM>, width: int, height: int, rounds: int) -> Seq<
    BoidM,
>
    decreases rounds,
{
    if rounds <= 0 {
        bs
    } else {
        let prev = spec_world_ticks(bs, width, height, rounds - 1);
        spec_world_step(prev, width, height, prev.len() as int)
    }
}

/// A partial tick preserves the population's length, leaves every agent it
/// updated valid, and leaves the rest untouched.
proof fn lemma_world_step_valid(bs: Seq<BoidM>, width: int, height: int, k: int)
    requires
        0 < width <= EXTENT_LIMIT as int,
        0 < height <= EXTENT_LIMIT as int,
        0 <= k <= bs.len(),
    ensures
        spec_world_step(bs, width, height, k).len() == bs.len(),
        forall|j: int|
            0 <= j < k ==> boid_valid(#[trigger] spec_world_step(bs, width, height, k)[j]),
        forall|j: int| k <= j < bs.len() ==> spec_world_step(bs, width, height, k)[j] == bs[j],
    decreases k,
{
    if k > 0 {
        lemma_world_step_valid(bs, width, height, k - 1);
        let prev = spec_world_step(bs, width, height, k - 1);
        lemma_spec_boid_step_valid(
            prev[k - 1],
            neighbors_of(prev, prev[k - 1].point),
            width,
            height,
        );
    }
}

/// The speed bound is an invariant of the simulation: starting from any
/// population of valid agents — as `new` builds them — after any number of
/// full ticks every agent is still valid, and in particular every agent's
/// speed is at most `MAX_SPEED`.
pub proof fn lemma_speed_bounded_after_ticks(bs: Seq<BoidM>, width: int, height: int, rounds: int)
    requires
        0 < width <= EXTENT_LIMIT as int,
        0 < height <= EXTENT_LIMIT as int,
        rounds >= 0,
        forall|i: int| 0 <= i < bs.len() ==> boid_valid(#[trigger] bs[i]),
    ensures
        spec_world_ticks(bs, width, height, rounds).len() == bs.len(),
        forall|i: int|
            0 <= i < bs.len() ==> boid_valid(
                #[trigger] spec_world_ticks(bs, width, height, rounds)[i],
            ),
        forall|i: int|
            0 <= i < bs.len() ==> v2_norm(
                (#[trigger] spec_world_ticks(bs, width, height, rounds)[i]).velocity,
            ) <= MAX_SPEED,
    decreases rounds,
{
    if rounds > 0 {
        lemma_speed_bounded_after_ticks(bs, width, height, rounds - 1);
        let prev = spec_world_ticks(bs, width, height, rounds - 1);
        lemma_world_step_valid(prev, width, height, prev.len() as int);
    }
    assert forall|i: int| 0 <= i < bs.len() implies v2_norm(
        (#[trigger] spec_world_ticks(bs, width, height, rounds)[i]).velocity,
    ) <= MAX_SPEED by {
        lemma_speed_norm(spec_world_ticks(bs, width, height, rounds)[i].velocity);
    }
}

/// In a well-formed world every agent's speed — the fixed-point length of
/// its velocity — is at most `MAX_SPEED`. Together with `step` preserving
/// well-formedness this bounds every agent's speed after any number of
/// ticks.
pub proof fn lemma_world_speed_bound(w: Boid_World)
    requires
        w.wf(),
    ensures
        forall|i: int|
            0 <= i < w.boids@.len() ==> v2_norm((#[trigger] w.boids@[i])@.velocity) <= MAX_SPEED,
{
    assert forall|i: int| 0 <= i < w.boids@.len() implies v2_norm(
        (#[trigger] w.boids@[i])@.velocity,
    ) <= MAX_SPEED by {
        lemma_speed_norm(w.boids@[i]@.velocity);
    }
}

/// Two population snapshots taken without an intervening mutation are
/// identical: `get_boids` returns exactly the world's agent sequence, so
/// the world value alone determines the snapshot.
pub proof fn lemma_snapshot_idempotent(w: Boid_World, a: Seq<Boid>, b: Seq<Boid>)
    requires
        a == w.boids@,
        b == w.boids@,
    ensures
        a == b,
{
}

/// A sequence of agents all farther than `NEIGHBOR_RADIUS` from `p` yields
/// an empty neighbor query.
proof fn lemma_no_neighbors(bs: Seq<BoidM>, p: V2)
    requires
        forall|j: int|
            0 <= j < bs.len() ==> v2_dist((#[trigger] bs[j]).point, p) > NEIGHBOR_RADIUS,
    ensures
        neighbors_of(bs, p) == Seq::<BoidM>::empty(),
    decreases bs.len(),
{
    if bs.len() > 0 {
        assert forall|j: int| 0 <= j < bs.drop_last().len() implies v2_dist(
            (#[trigger] bs.drop_last()[j]).point,
            p,
        ) > NEIGHBOR_RADIUS by {
            assert(bs.drop_last()[j] == bs[j]);
        }
        lemma_no_neighbors(bs.drop_last(), p);
        assert(v2_dist(bs.last().point, p) > NEIGHBOR_RADIUS);
    }
}

/// An agent with no other agent within `NEIGHBOR_RADIUS` of it has exactly
/// one neighbor: itself (its own distance is zero).
pub proof fn lemma_isolated_agent(bs: Seq<BoidM>, i: int)
    requires
        0 <= i < bs.len(),
        forall|j: int|
            0 <= j < bs.len() && j != i ==> v2_dist((#[trigger] bs[j]).point, bs[i].point)
                > NEIGHBOR_RADIUS,
    ensures
        neighbors_of(bs, bs[i].point) == seq![bs[i]],
    decreases bs.len(),
{
    let p = bs[i].point;
    assert(v2_sub(p, p) == (V2 { x: 0, y: 0 }));
    assert(v2_norm_sq(v2_sub(p, p)) == 0);
    assert(v2_dist(p, p) == 0);
    if i == bs.len() - 1 {
        assert forall|j: int| 0 <= j < bs.drop_last().len() implies v2_dist(
            (#[trigger] bs.drop_last()[j]).point,
            p,
        ) > NEIGHBOR_RADIUS by {
            assert(bs.drop_last()[j] == bs[j]);
        }
        lemma_no_neighbors(bs.drop_last(), p);
        assert(neighbors_of(bs, p) =~= seq![bs[i]]);
    } else {
        assert forall|j: int|
            0 <= j < bs.drop_last().len() && j != i implies v2_dist(
            (#[trigger] bs.drop_last()[j]).point,
            bs.drop_last()[i].point,
        ) > NEIGHBOR_RADIUS by {
            assert(bs.drop_last()[j] == bs[j]);
            assert(bs.drop_last()[i] == bs[i]);
        }
        assert(bs.drop_last()[i] == bs[i]);
        lemma_isolated_agent(bs.drop_last(), i);
        assert(v2_dist(bs.last().point, p) > NEIGHBOR_RADIUS);
    }
}

/// With exactly one agent in the world a tick applies no steering force at
/// all: the agent is its own only neighbor, every rule skips it by id, so
/// its velocity is unchanged and it moves by exactly that velocity from
/// its wrapped position — straight-line motion until it wraps.
pub proof fn lemma_single_agent_straight_line(bs: Seq<BoidM>, width: int, height: int)
    requires
        bs.len() == 1,
        boid_valid(bs[0]),
        0 < width <= EXTENT_LIMIT as int,
        0 < height <= EXTENT_LIMIT as int,
    ensures
        spec_world_step(bs, width, height, 1)[0].velocity == bs[0].velocity,
        spec_world_step(bs, width, height, 1)[0].point == v2_add(
            spec_border(bs[0], width, height).point,
            bs[0].velocity,
        ),
{
    lemma_isolated_agent(bs, 0);
    let ns = neighbors_of(bs, bs[0].point);
    assert(forall|i: int| 0 <= i < ns.len() ==> (#[trigger] ns[i]).id == bs[0].id);
    lemma_step_straight_line(bs[0], ns, width, height);
    assert(spec_world_step(bs, width, height, 0) == bs);
    assert(spec_world_step(bs, width, height, 1) == bs.update(
        0,
        spec_boid_step(bs[0], ns, width, height),
    ));
    assert(spec_world_step(bs, width, height, 1)[0] == spec_boid_step(bs[0], ns, width, height));
}

} // verus!
