//! A single flocking agent and its per-tick update rules.
//!
//! Every rule is mirrored by a spec function over the agent's mathematical
//! view, and each executable method is proved to compute exactly that
//! mirror, so a `step` is pinned down to the last milliunit.

use vstd::prelude::*;
use crate::rng::rand_range;
use crate::vec2::{
    COORD_LIMIT, FP_ONE, V2, Vec2, div_pos, div_tz, lemma_abs_from_sq_strict, lemma_clamp_axis,
    lemma_clamp_norm, lemma_div_tz_abs, lemma_div_tz_lower, lemma_div_tz_mul_divisor,
    lemma_div_tz_one, lemma_normalize_axis, lemma_normalize_near_unit, lemma_normalize_norm,
    lemma_scale_fp_exact, lemma_sqrt_floor_le, v2_add, v2_bounded, v2_clamp, v2_dist, v2_div,
    v2_div_fp, v2_norm, v2_norm_sq, v2_normalize, v2_scale_fp, v2_sub, v2_zero,
};

verus! {

/// Largest steering-force magnitude a single rule may submit (0.03 units).
pub const MAX_FORCE: i64 = 30;

/// Largest speed an agent may reach (2 units per tick).
pub const MAX_SPEED: i64 = 2000;

/// Radius within which the separation rule reacts to a neighbor (100 units).
pub const DESIRED_SEPARATION: i64 = 100_000;

/// Speed the alignment and seek rules steer toward (5 units per tick).
pub const STEER_SPEED: i64 = 5000;

/// Rule weights in fixed-point: separation 1.5, alignment 1.1, cohesion 1.2.
pub const WEIGHT_SEPARATION: i64 = 1500;

pub const WEIGHT_ALIGNMENT: i64 = 1100;

pub const WEIGHT_COHESION: i64 = 1200;

/// Largest world extent (width or height) the simulation accepts; keeps all
/// distance computations inside `i64`.
pub const EXTENT_LIMIT: i64 = 1_000_000_000;

/// Largest coordinate magnitude an agent can reach: half the largest extent
/// plus one tick of maximal motion.
pub const POS_LIMIT: i64 = 500_002_000;

/// Upper bound on the squared speed after clamping: the fixed-point length
/// of the velocity then cannot exceed `MAX_SPEED`.
pub const SPEED_SQ_LIMIT: i64 = MAX_SPEED * MAX_SPEED + 2 * MAX_SPEED;

/// Largest population (and hence neighbor-list length) accepted.
pub const MAX_POP: usize = 0x7fff_ffff;

/// The mathematical view of an agent.
pub struct BoidM {
    pub point: V2,
    pub velocity: V2,
    pub accel: V2,
    pub id: int,
}

/// One flocking agent: position, velocity and the per-tick force
/// accumulator, all in fixed-point milliunits, plus a stable identity.
#[derive(Clone, Copy, PartialEq, Eq, Structural, Debug)]
pub struct Boid {
    pub point: Vec2,
    pub velocity: Vec2,
    pub accel: Vec2,
    pub id: i32,
}

impl View for Boid {
    type V = BoidM;

    open spec fn view(&self) -> BoidM {
        BoidM { point: self.point@, velocity: self.velocity@, accel: self.accel@, id: self.id as int }
    }
}

/// The views of a sequence of agents.
pub open spec fn views(s: Seq<Boid>) -> Seq<BoidM> {
    s.map_values(|b: Boid| b@)
}

/// The agent's coordinates and speed are within the simulation's bounds.
pub open spec fn boid_ok(b: BoidM) -> bool {
    &&& -POS_LIMIT <= b.point.x <= POS_LIMIT
    &&& -POS_LIMIT <= b.point.y <= POS_LIMIT
    &&& v2_norm_sq(b.velocity) <= SPEED_SQ_LIMIT
}

/// Between steps an agent is in bounds and its force accumulator is empty.
pub open spec fn boid_valid(b: BoidM) -> bool {
    boid_ok(b) && b.accel == v2_zero()
}

/// Every agent of the sequence is within the simulation's bounds.
pub open spec fn all_ok(ns: Seq<BoidM>) -> bool {
    forall|i: int| 0 <= i < ns.len() ==> boid_ok(#[trigger] ns[i])
}

/// `a` differs from `b` by at most `d` in each coordinate.
pub open spec fn v2_near(a: V2, b: V2, d: int) -> bool {
    b.x - d <= a.x <= b.x + d && b.y - d <= a.y <= b.y + d
}

/// A speed within `SPEED_SQ_LIMIT` bounds each velocity coordinate by
/// `MAX_SPEED`.
pub proof fn lemma_speed_comp(v: V2)
    requires
        v2_norm_sq(v) <= SPEED_SQ_LIMIT,
    ensures
        v2_bounded(v, MAX_SPEED as int),
{
    assert(v.x * v.x < 2001 * 2001 && v.y * v.y < 2001 * 2001) by (nonlinear_arith)
        requires
            v.x * v.x + v.y * v.y <= 4_004_000,
    ;
    lemma_abs_from_sq_strict(v.x, 2001);
    lemma_abs_from_sq_strict(v.y, 2001);
}

/// Toroidal wrap of one coordinate: a coordinate beyond either half-extent
/// restarts at the opposite extreme.
pub open spec fn wrap_coord(x: int, extent: int) -> int {
    let half = extent / 2;
    if x > half {
        -half
    } else if x < -half {
        half
    } else {
        x
    }
}

/// The border rule: wrap both coordinates; nothing else changes.
pub open spec fn spec_border(b: BoidM, width: int, height: int) -> BoidM {
    BoidM {
        point: V2 { x: wrap_coord(b.point.x, width), y: wrap_coord(b.point.y, height) },
        velocity: b.velocity,
        accel: b.accel,
        id: b.id,
    }
}

/// Force submission: the candidate force is clamped to `MAX_FORCE`, scaled
/// by the rule weight, and accumulated.
pub open spec fn spec_add_force(b: BoidM, force: V2, weight: int) -> BoidM {
    BoidM {
        point: b.point,
        velocity: b.velocity,
        accel: v2_add(b.accel, v2_scale_fp(v2_clamp(force, MAX_FORCE as int), weight)),
        id: b.id,
    }
}

/// Steering toward a target position: desire the unit direction to the
/// target at `STEER_SPEED`, and submit the difference to the current
/// velocity with the cohesion weight.
pub open spec fn spec_seek(b: BoidM, target: V2) -> BoidM {
    let desired = v2_scale_fp(v2_normalize(v2_sub(target, b.point)), STEER_SPEED as int);
    spec_add_force(b, v2_sub(desired, b.velocity), WEIGHT_COHESION as int)
}

/// Sum and count of the velocities of all neighbors other than `sid`.
pub open spec fn align_fold(sid: int, ns: Seq<BoidM>) -> (V2, int)
    decreases ns.len(),
{
    if ns.len() == 0 {
        (v2_zero(), 0int)
    } else {
        let r = align_fold(sid, ns.drop_last());
        let b = ns.last();
        if b.id == sid {
            r
        } else {
            (v2_add(r.0, b.velocity), r.1 + 1)
        }
    }
}

/// The alignment rule: steer toward the normalized average neighbor
/// velocity, scaled to `STEER_SPEED`, with weight 1.1.
pub open spec fn spec_alignment(b: BoidM, ns: Seq<BoidM>) -> BoidM {
    let r = align_fold(b.id, ns);
    if r.1 > 0 {
        let avg = v2_div(r.0, r.1);
        let steer = v2_sub(v2_scale_fp(v2_normalize(avg), STEER_SPEED as int), b.velocity);
        spec_add_force(b, steer, WEIGHT_ALIGNMENT as int)
    } else {
        b
    }
}

/// Sum and count of the positions of all neighbors other than `sid`.
pub open spec fn cohesion_fold(sid: int, ns: Seq<BoidM>) -> (V2, int)
    decreases ns.len(),
{
    if ns.len() == 0 {
        (v2_zero(), 0int)
    } else {
        let r = cohesion_fold(sid, ns.drop_last());
        let b = ns.last();
        if b.id == sid {
            r
        } else {
            (v2_add(r.0, b.point), r.1 + 1)
        }
    }
}

/// The cohesion rule: seek the average neighbor position.
pub open spec fn spec_cohesion(b: BoidM, ns: Seq<BoidM>) -> BoidM {
    let r = cohesion_fold(b.id, ns);
    if r.1 > 0 {
        spec_seek(b, v2_div(r.0, r.1))
    } else {
        b
    }
}

/// One separation contribution: the unit vector pointing from `q` toward
/// `p`, divided by their distance, so closer neighbors repel more strongly.
pub open spec fn sep_term(p: V2, q: V2) -> V2 {
    v2_div_fp(v2_normalize(v2_sub(p, q)), v2_dist(p, q))
}

/// Sum and count of the separation contributions of all neighbors other
/// than `sid` that lie closer than `DESIRED_SEPARATION` (a neighbor at the
/// very same position has no pointing-away direction and contributes
/// nothing).
pub open spec fn sep_fold(p: V2, sid: int, ns: Seq<BoidM>) -> (V2, int)
    decreases ns.len(),
{
    if ns.len() == 0 {
        (v2_zero(), 0int)
    } else {
        let r = sep_fold(p, sid, ns.drop_last());
        let b = ns.last();
        if b.id == sid {
            r
        } else {
            let d = v2_dist(p, b.point);
            if 0 < d && d < DESIRED_SEPARATION {
                (v2_add(r.0, sep_term(p, b.point)), r.1 + 1)
            } else {
                r
            }
        }
    }
}

/// The separation rule: average the contributions, and if the average is
/// nonzero steer away at `MAX_SPEED` with weight 1.5.
pub open spec fn spec_separation(b: BoidM, ns: Seq<BoidM>) -> BoidM {
    let r = sep_fold(b.point, b.id, ns);
    let avg = if r.1 > 0 {
        v2_div(r.0, r.1)
    } else {
        r.0
    };
    if v2_norm_sq(avg) > 0 {
        let steer = v2_sub(v2_scale_fp(v2_normalize(avg), MAX_SPEED as int), b.velocity);
        spec_add_force(b, steer, WEIGHT_SEPARATION as int)
    } else {
        b
    }
}

/// Integration: accumulate the acceleration into the velocity, clamp the
/// speed, move, and reset the accumulator.
pub open spec fn spec_integrate(b: BoidM) -> BoidM {
    let v = v2_clamp(v2_add(b.velocity, b.accel), MAX_SPEED as int);
    BoidM { point: v2_add(b.point, v), velocity: v, accel: v2_zero(), id: b.id }
}

/// One full agent tick: wrap at the borders, apply the three steering rules
/// in order, then integrate.
pub open spec fn spec_boid_step(b: BoidM, ns: Seq<BoidM>, width: int, height: int) -> BoidM {
    spec_integrate(
        spec_cohesion(spec_alignment(spec_separation(spec_border(b, width, height), ns), ns), ns),
    )
}

/// A random point on the (fixed-point) unit circle, up to integer
/// rounding: a random direction of at least half a unit is drawn and
/// normalized, so the result's length is within half a percent of one
/// unit. The direction is unspecified; every outcome satisfies the bounds.
pub fn random_unit_vector() -> (r: Vec2)
    ensures
        992_000 <= v2_norm_sq(r@) <= 1_004_000,
        995 <= v2_norm(r@) <= 1001,
        v2_bounded(r@, 1001),
{
    let mut vx: i64 = FP_ONE;
    let mut vy: i64 = 0;
    let mut tries: u32 = 0;
    while tries < 8
        invariant
            -1000 <= vx <= 1000,
            -1000 <= vy <= 1000,
            vx * vx + vy * vy >= 250_000,
        decreases 8 - tries,
    {
        let dx = rand_range(-1000, 1001);
        let dy = rand_range(-1000, 1001);
        proof {
            assert(0 <= dx * dx <= 1_000_000 && 0 <= dy * dy <= 1_000_000) by (nonlinear_arith)
                requires
                    -1000 <= dx <= 1000,
                    -1000 <= dy <= 1000,
            ;
        }
        if dx * dx + dy * dy >= 250_000 {
            vx = dx;
            vy = dy;
            tries = 8;
        } else {
            tries = tries + 1;
        }
    }
    let raw = Vec2 { x: vx, y: vy };
    proof {
        lemma_normalize_near_unit(raw@);
    }
    raw.normalize()
}

impl Boid {
    /// Builds an agent at the given position with an empty force
    /// accumulator and a velocity of random direction and unit length up
    /// to rounding: within half a percent of one unit.
    pub fn new(x: i64, y: i64, id: i32) -> (b: Boid)
        requires
            -POS_LIMIT <= x <= POS_LIMIT,
            -POS_LIMIT <= y <= POS_LIMIT,
        ensures
            b@.point == (V2 { x: x as int, y: y as int }),
            b@.id == id as int,
            b@.accel == v2_zero(),
            992_000 <= v2_norm_sq(b@.velocity) <= 1_004_000,
            995 <= v2_norm(b@.velocity) <= 1001,
            boid_valid(b@),
    {
        let velocity = random_unit_vector();
        Boid { point: Vec2 { x, y }, velocity, accel: Vec2 { x: 0, y: 0 }, id }
    }

    /// A copy of the agent's position.
    pub fn get_point(&self) -> (r: Vec2)
        ensures
            r@ == self@.point,
    {
        self.point
    }

    /// The border rule: wrap each coordinate that left the world back to
    /// the opposite extreme; the wrapped position always lies within the
    /// half-extents, and a crossing lands exactly on the far edge.
    pub fn border(&mut self, width: i64, height: i64)
        requires
            0 < width <= EXTENT_LIMIT,
            0 < height <= EXTENT_LIMIT,
        ensures
            final(self)@ == spec_border(old(self)@, width as int, height as int),
            -((width as int) / 2) <= final(self)@.point.x <= (width as int) / 2,
            -((height as int) / 2) <= final(self)@.point.y <= (height as int) / 2,
            old(self)@.point.x > (width as int) / 2 ==> final(self)@.point.x == -((width as int)
                / 2),
            old(self)@.point.x < -((width as int) / 2) ==> final(self)@.point.x == (width as int)
                / 2,
            old(self)@.point.y > (height as int) / 2 ==> final(self)@.point.y == -((height as int)
                / 2),
            old(self)@.point.y < -((height as int) / 2) ==> final(self)@.point.y == (height as int)
                / 2,
            final(self)@.velocity == old(self)@.velocity,
            final(self)@.accel == old(self)@.accel,
            final(self)@.id == old(self)@.id,
    {
        let half_w = div_pos(width, 2);
        let half_h = div_pos(height, 2);
        let mut px = self.point.x;
        let mut py = self.point.y;
        if px > half_w {
            px = -half_w;
        }
        if px < -half_w {
            px = half_w;
        }
        if py > half_h {
            py = -half_h;
        }
        if py < -half_h {
            py = half_h;
        }
        self.point = Vec2 { x: px, y: py };
    }

    /// Force submission: clamp the candidate force to `MAX_FORCE`, scale it
    /// by the rule weight `mul` (fixed point), and accumulate it.
    #[allow(non_snake_case)]
    pub fn addForce(&mut self, force: Vec2, mul: i64)
        requires
            0 <= mul <= 2000,
            v2_bounded(force@, COORD_LIMIT as int),
            v2_bounded(old(self)@.accel, 100_000),
        ensures
            final(self)@ == spec_add_force(old(self)@, force@, mul as int),
            v2_near(final(self)@.accel, old(self)@.accel, 60),
            final(self)@.point == old(self)@.point,
            final(self)@.velocity == old(self)@.velocity,
            final(self)@.id == old(self)@.id,
    {
        let f = force.clamp_length(MAX_FORCE);
        proof {
            assert(-(60 * 1000) <= f@.x * mul <= 60 * 1000 && -(60 * 1000) <= f@.y * mul <= 60
                * 1000) by (nonlinear_arith)
                requires
                    v2_bounded(f@, 30),
                    0 <= mul <= 2000,
            ;
            lemma_div_tz_abs(f@.x * mul, 1000, 60);
            lemma_div_tz_abs(f@.y * mul, 1000, 60);
        }
        let fw = f.scale_fp(mul);
        self.accel = self.accel.add(fw);
    }

    /// Steer toward `desired_pos` (used by cohesion).
    pub fn seek(&mut self, desired_pos: Vec2)
        requires
            boid_ok(old(self)@),
            v2_bounded(old(self)@.accel, 1000),
            v2_bounded(desired_pos@, POS_LIMIT as int),
        ensures
            final(self)@ == spec_seek(old(self)@, desired_pos@),
            v2_near(final(self)@.accel, old(self)@.accel, 60),
            final(self)@.point == old(self)@.point,
            final(self)@.velocity == old(self)@.velocity,
            final(self)@.id == old(self)@.id,
    {
        let diff = desired_pos.sub(self.point);
        let dir = diff.normalize();
        proof {
            lemma_normalize_norm(diff@);
            lemma_scale_fp_exact(dir@, 5);
            lemma_speed_comp(self@.velocity);
        }
        let desired = dir.scale_fp(STEER_SPEED);
        let steer = desired.sub(self.velocity);
        self.addForce(steer, WEIGHT_COHESION);
    }

    /// The alignment rule: average the velocities of all true neighbors
    /// (entries carrying the agent's own id are skipped) and steer toward
    /// that average direction at `STEER_SPEED`, weight 1.1. Without true
    /// neighbors nothing changes.
    #[verifier::loop_isolation(false)]
    pub fn alignment(&mut self, neighbors: &Vec<Boid>)
        requires
            boid_ok(old(self)@),
            v2_bounded(old(self)@.accel, 1000),
            neighbors@.len() <= MAX_POP,
            all_ok(views(neighbors@)),
        ensures
            final(self)@ == spec_alignment(old(self)@, views(neighbors@)),
            v2_near(final(self)@.accel, old(self)@.accel, 60),
            final(self)@.point == old(self)@.point,
            final(self)@.velocity == old(self)@.velocity,
            final(self)@.id == old(self)@.id,
    {
        let ghost vs = views(neighbors@);
        let mut sum = Vec2 { x: 0, y: 0 };
        let mut count: i64 = 0;
        let mut i: usize = 0;
        while i < neighbors.len()
            invariant
                i <= neighbors@.len(),
                0 <= count <= i,
                sum@ == align_fold(self.id as int, vs.take(i as int)).0,
                count as int == align_fold(self.id as int, vs.take(i as int)).1,
                v2_bounded(sum@, 2000 * (count as int)),
            decreases neighbors@.len() - i,
        {
            let b = neighbors[i];
            proof {
                assert(vs.take(i as int + 1).drop_last() =~= vs.take(i as int));
                assert(vs[i as int] == neighbors@[i as int]@);
                assert(boid_ok(vs[i as int]));
                lemma_speed_comp(vs[i as int].velocity);
            }
            if b.id != self.id {
                sum = sum.add(b.velocity);
                count = count + 1;
            }
            i = i + 1;
        }
        proof {
            assert(vs.take(neighbors@.len() as int) =~= vs);
        }
        if count > 0 {
            proof {
                lemma_div_tz_abs(sum@.x, count as int, 2000);
                lemma_div_tz_abs(sum@.y, count as int, 2000);
            }
            let avg = sum.div_int(count);
            let dir = avg.normalize();
            proof {
                lemma_normalize_norm(avg@);
                lemma_scale_fp_exact(dir@, 5);
                lemma_speed_comp(self@.velocity);
            }
            let desired = dir.scale_fp(STEER_SPEED);
            let steer = desired.sub(self.velocity);
            self.addForce(steer, WEIGHT_ALIGNMENT);
        }
    }

    /// The cohesion rule: seek the average position of all true neighbors.
    /// Without true neighbors nothing changes.
    #[verifier::loop_isolation(false)]
    pub fn cohesion(&mut self, neighbors: &Vec<Boid>)
        requires
            boid_ok(old(self)@),
            v2_bounded(old(self)@.accel, 1000),
            neighbors@.len() <= MAX_POP,
            all_ok(views(neighbors@)),
        ensures
            final(self)@ == spec_cohesion(old(self)@, views(neighbors@)),
            v2_near(final(self)@.accel, old(self)@.accel, 60),
            final(self)@.point == old(self)@.point,
            final(self)@.velocity == old(self)@.velocity,
            final(self)@.id == old(self)@.id,
    {
        let ghost vs = views(neighbors@);
        let mut sum = Vec2 { x: 0, y: 0 };
        let mut count: i64 = 0;
        let mut i: usize = 0;
        while i < neighbors.len()
            invariant
                i <= neighbors@.len(),
                0 <= count <= i,
                sum@ == cohesion_fold(self.id as int, vs.take(i as int)).0,
                count as int == cohesion_fold(self.id as int, vs.take(i as int)).1,
                v2_bounded(sum@, (POS_LIMIT as int) * (count as int)),
            decreases neighbors@.len() - i,
        {
            let b = neighbors[i];
            proof {
                assert(vs.take(i as int + 1).drop_last() =~= vs.take(i as int));
                assert(vs[i as int] == neighbors@[i as int]@);
                assert(boid_ok(vs[i as int]));
            }
            if b.id != self.id {
                sum = sum.add(b.point);
                count = count + 1;
            }
            i = i + 1;
        }
        proof {
            assert(vs.take(neighbors@.len() as int) =~= vs);
        }
        if count > 0 {
            proof {
                lemma_div_tz_abs(sum@.x, count as int, POS_LIMIT as int);
                lemma_div_tz_abs(sum@.y, count as int, POS_LIMIT as int);
            }
            let avg = sum.div_int(count);
            self.seek(avg);
        }
    }

    /// The separation rule: accumulate, over all true neighbors closer than
    /// `DESIRED_SEPARATION`, the unit vector away from the neighbor divided
    /// by the distance; average, and if the result is nonzero steer away at
    /// `MAX_SPEED`, weight 1.5.
    #[verifier::loop_isolation(false)]
    pub fn separation(&mut self, neighbors: &Vec<Boid>)
        requires
            boid_ok(old(self)@),
            v2_bounded(old(self)@.accel, 1000),
            neighbors@.len() <= MAX_POP,
            all_ok(views(neighbors@)),
        ensures
            final(self)@ == spec_separation(old(self)@, views(neighbors@)),
            v2_near(final(self)@.accel, old(self)@.accel, 60),
            final(self)@.point == old(self)@.point,
            final(self)@.velocity == old(self)@.velocity,
            final(self)@.id == old(self)@.id,
    {
        let ghost vs = views(neighbors@);
        let mut sum = Vec2 { x: 0, y: 0 };
        let mut count: i64 = 0;
        let mut i: usize = 0;
        while i < neighbors.len()
            invariant
                i <= neighbors@.len(),
                0 <= count <= i,
                sum@ == sep_fold(old(self)@.point, self.id as int, vs.take(i as int)).0,
                count as int == sep_fold(old(self)@.point, self.id as int, vs.take(i as int)).1,
                v2_bounded(sum@, 2_000_000 * (count as int)),
            decreases neighbors@.len() - i,
        {
            let b = neighbors[i];
            proof {
                assert(vs.take(i as int + 1).drop_last() =~= vs.take(i as int));
                assert(vs[i as int] == neighbors@[i as int]@);
                assert(boid_ok(vs[i as int]));
            }
            if b.id != self.id {
                let d = self.point.distance(b.point);
                if d > 0 && d < DESIRED_SEPARATION {
                    let diff = self.point.sub(b.point);
                    let dir = diff.normalize();
                    proof {
                        lemma_normalize_norm(diff@);
                        lemma_div_tz_abs(dir@.x * (FP_ONE as int), d as int, 2_000_000);
                        lemma_div_tz_abs(dir@.y * (FP_ONE as int), d as int, 2_000_000);
                    }
                    let term = dir.div_fp(d);
                    sum = sum.add(term);
                    count = count + 1;
                }
            }
            i = i + 1;
        }
        proof {
            assert(vs.take(neighbors@.len() as int) =~= vs);
        }
        let steer = if count > 0 {
            proof {
                lemma_div_tz_abs(sum@.x, count as int, 2_000_000);
                lemma_div_tz_abs(sum@.y, count as int, 2_000_000);
            }
            sum.div_int(count)
        } else {
            sum
        };
        let sn = steer.norm_sq();
        if sn > 0 {
            let dir = steer.normalize();
            proof {
                lemma_normalize_norm(steer@);
                lemma_scale_fp_exact(dir@, 2);
                lemma_speed_comp(self@.velocity);
            }
            let scaled = dir.scale_fp(MAX_SPEED);
            let force = scaled.sub(self.velocity);
            self.addForce(force, WEIGHT_SEPARATION);
        }
    }

    /// One full tick of this agent against the given neighbor list (which
    /// may contain the agent itself; every rule skips entries with its own
    /// id). Wraps at the borders, applies separation, alignment and
    /// cohesion, then integrates; afterwards the speed is at most
    /// `MAX_SPEED` and the force accumulator is empty again.
    pub fn step(&mut self, neighbors: &Vec<Boid>, width: i64, height: i64)
        requires
            boid_valid(old(self)@),
            0 < width <= EXTENT_LIMIT,
            0 < height <= EXTENT_LIMIT,
            neighbors@.len() <= MAX_POP,
            all_ok(views(neighbors@)),
        ensures
            final(self)@ == spec_boid_step(
                old(self)@,
                views(neighbors@),
                width as int,
                height as int,
            ),
            boid_valid(final(self)@),
            v2_norm(final(self)@.velocity) <= MAX_SPEED,
            -((width as int) / 2) - MAX_SPEED <= final(self)@.point.x <= (width as int) / 2
                + MAX_SPEED,
            -((height as int) / 2) - MAX_SPEED <= final(self)@.point.y <= (height as int) / 2
                + MAX_SPEED,
            final(self)@.id == old(self)@.id,
    {
        self.border(width, height);
        self.separation(neighbors);
        self.alignment(neighbors);
        self.cohesion(neighbors);
        proof {
            lemma_speed_comp(self@.velocity);
        }
        let v = self.velocity.add(self.accel).clamp_length(MAX_SPEED);
        proof {
            assert(0 <= v2_norm_sq(v@)) by (nonlinear_arith)
                requires
                    v2_norm_sq(v@) == v@.x * v@.x + v@.y * v@.y,
            ;
            lemma_sqrt_floor_le(v2_norm_sq(v@), MAX_SPEED as int);
        }
        self.velocity = v;
        self.point = self.point.add(v);
        self.accel = Vec2 { x: 0, y: 0 };
    }
}

/// An all-own-id sequence contributes nothing to alignment.
proof fn lemma_align_fold_self(sid: int, ns: Seq<BoidM>)
    requires
        forall|i: int| 0 <= i < ns.len() ==> #[trigger] ns[i].id == sid,
    ensures
        align_fold(sid, ns).0 == v2_zero(),
        align_fold(sid, ns).1 == 0,
    decreases ns.len(),
{
    if ns.len() > 0 {
        assert forall|i: int| 0 <= i < ns.drop_last().len() implies #[trigger] ns.drop_last()[
            i
        ].id == sid by {
            assert(ns.drop_last()[i] == ns[i]);
        }
        lemma_align_fold_self(sid, ns.drop_last());
        assert(ns.last().id == sid);
    }
}

/// An all-own-id sequence contributes nothing to cohesion.
proof fn lemma_cohesion_fold_self(sid: int, ns: Seq<BoidM>)
    requires
        forall|i: int| 0 <= i < ns.len() ==> #[trigger] ns[i].id == sid,
    ensures
        cohesion_fold(sid, ns).0 == v2_zero(),
        cohesion_fold(sid, ns).1 == 0,
    decreases ns.len(),
{
    if ns.len() > 0 {
        assert forall|i: int| 0 <= i < ns.drop_last().len() implies #[trigger] ns.drop_last()[
            i
        ].id == sid by {
            assert(ns.drop_last()[i] == ns[i]);
        }
        lemma_cohesion_fold_self(sid, ns.drop_last());
        assert(ns.last().id == sid);
    }
}

/// An all-own-id sequence contributes nothing to separation.
proof fn lemma_sep_fold_self(p: V2, sid: int, ns: Seq<BoidM>)
    requires
        forall|i: int| 0 <= i < ns.len() ==> #[trigger] ns[i].id == sid,
    ensures
        sep_fold(p, sid, ns).0 == v2_zero(),
        sep_fold(p, sid, ns).1 == 0,
    decreases ns.len(),
{
    if ns.len() > 0 {
        assert forall|i: int| 0 <= i < ns.drop_last().len() implies #[trigger] ns.drop_last()[
            i
        ].id == sid by {
            assert(ns.drop_last()[i] == ns[i]);
        }
        lemma_sep_fold_self(p, sid, ns.drop_last());
        assert(ns.last().id == sid);
    }
}

/// With no true neighbors — every entry of `ns` carries the agent's own id —
/// a step produces no steering force at all: the velocity is unchanged and
/// the agent moves by exactly that velocity from its wrapped position,
/// straight-line motion at constant speed.
pub proof fn lemma_step_straight_line(b: BoidM, ns: Seq<BoidM>, width: int, height: int)
    requires
        boid_valid(b),
        0 < width,
        0 < height,
        forall|i: int| 0 <= i < ns.len() ==> #[trigger] ns[i].id == b.id,
    ensures
        spec_boid_step(b, ns, width, height).velocity == b.velocity,
        spec_boid_step(b, ns, width, height).point == v2_add(
            spec_border(b, width, height).point,
            b.velocity,
        ),
        spec_boid_step(b, ns, width, height).accel == v2_zero(),
        spec_boid_step(b, ns, width, height).id == b.id,
{
    let b1 = spec_border(b, width, height);
    lemma_sep_fold_self(b1.point, b1.id, ns);
    lemma_align_fold_self(b1.id, ns);
    lemma_cohesion_fold_self(b1.id, ns);
    let b2 = spec_separation(b1, ns);
    assert(v2_norm_sq(v2_zero()) == 0);
    assert(b2 == b1);
    let b3 = spec_alignment(b2, ns);
    assert(b3 == b1);
    let b4 = spec_cohesion(b3, ns);
    assert(b4 == b1);
    assert(v2_add(b1.velocity, b1.accel) == b1.velocity);
    assert(0 <= v2_norm_sq(b1.velocity)) by (nonlinear_arith)
        requires
            v2_norm_sq(b1.velocity) == b1.velocity.x * b1.velocity.x + b1.velocity.y
                * b1.velocity.y,
    ;
    lemma_sqrt_floor_le(v2_norm_sq(b1.velocity), MAX_SPEED as int);
    assert(v2_clamp(b1.velocity, MAX_SPEED as int) == b1.velocity);
}

/// Two still agents side by side, closer than `DESIRED_SEPARATION`, push
/// apart: after one tick against the pair as neighbor list, the left
/// agent's velocity is exactly nine milliunits leftward and the right
/// agent's nine rightward. Separation at weight 1.5 submits a saturated
/// force of 45 away, cohesion at weight 1.2 submits 36 toward, alignment
/// of two still agents submits nothing.
pub proof fn lemma_still_pair_diverges(a: BoidM, b: BoidM, width: int, height: int, d: int)
    requires
        a.velocity == v2_zero(),
        a.accel == v2_zero(),
        b.velocity == v2_zero(),
        b.accel == v2_zero(),
        a.id != b.id,
        b.point == (V2 { x: a.point.x + d, y: a.point.y }),
        0 < d < DESIRED_SEPARATION as int,
        0 < width <= EXTENT_LIMIT as int,
        0 < height <= EXTENT_LIMIT as int,
        -(width / 2) <= a.point.x,
        a.point.x + d <= width / 2,
        -(height / 2) <= a.point.y <= height / 2,
    ensures
        spec_boid_step(a, seq![a, b], width, height).velocity == (V2 { x: -9, y: 0 }),
        spec_boid_step(b, seq![a, b], width, height).velocity == (V2 { x: 9, y: 0 }),
{
    let ns = seq![a, b];
    let one = seq![a];
    assert(ns.len() == 2 && ns[0] == a && ns[1] == b);
    assert(ns.last() == b);
    assert(ns.drop_last() =~= one);
    assert(one.last() == a);
    assert(one.drop_last() =~= Seq::<BoidM>::empty());
    assert(v2_sub(a.point, b.point) == (V2 { x: -d, y: 0 }));
    assert(v2_sub(b.point, a.point) == (V2 { x: d, y: 0 }));
    lemma_normalize_axis(d);
    assert(v2_dist(a.point, b.point) == d);
    assert(v2_dist(b.point, a.point) == d);
    assert(spec_border(a, width, height) == a);
    assert(spec_border(b, width, height) == b);

    // The shared pieces of both agents' rule evaluations.
    let q = div_tz(1_000_000, d);
    lemma_div_tz_lower(1_000_000, d, 10);
    assert(div_tz(-1_000_000, d) == -q);
    lemma_div_tz_one(q);
    lemma_div_tz_one(-q);
    lemma_div_tz_one(0);
    lemma_div_tz_one(b.point.x);
    lemma_div_tz_one(b.point.y);
    lemma_div_tz_one(a.point.x);
    lemma_div_tz_one(a.point.y);
    lemma_normalize_axis(q);
    lemma_scale_fp_exact(V2 { x: 1000, y: 0 }, 2);
    lemma_scale_fp_exact(V2 { x: -1000, y: 0 }, 2);
    lemma_scale_fp_exact(V2 { x: 1000, y: 0 }, 5);
    lemma_scale_fp_exact(V2 { x: -1000, y: 0 }, 5);
    lemma_scale_fp_exact(v2_zero(), 5);
    lemma_clamp_axis(2000, MAX_FORCE as int);
    lemma_clamp_axis(5000, MAX_FORCE as int);
    lemma_div_tz_mul_divisor(45, 1000);
    lemma_div_tz_mul_divisor(36, 1000);
    lemma_div_tz_mul_divisor(0, 1000);
    let z = v2_zero();
    assert(z.x * z.x + z.y * z.y == 0) by (nonlinear_arith)
        requires
            z.x == 0,
            z.y == 0,
    ;
    assert(v2_norm_sq(v2_zero()) == 0);
    assert(v2_clamp(v2_zero(), MAX_FORCE as int) == v2_zero());
    assert(v2_normalize(v2_zero()) == v2_zero());
    assert(q * q > 0) by (nonlinear_arith)
        requires
            q >= 10,
    ;
    lemma_normalize_axis(9);
    let nobody = Seq::<BoidM>::empty();
    assert(sep_fold(a.point, a.id, nobody).1 == 0 && sep_fold(a.point, a.id, nobody).0
        == v2_zero());
    assert(sep_fold(b.point, b.id, nobody).1 == 0 && sep_fold(b.point, b.id, nobody).0
        == v2_zero());
    assert(align_fold(a.id, nobody).1 == 0 && align_fold(a.id, nobody).0 == v2_zero());
    assert(align_fold(b.id, nobody).1 == 0 && align_fold(b.id, nobody).0 == v2_zero());
    assert(cohesion_fold(a.id, nobody).1 == 0 && cohesion_fold(a.id, nobody).0 == v2_zero());
    assert(cohesion_fold(b.id, nobody).1 == 0 && cohesion_fold(b.id, nobody).0 == v2_zero());

    // The left agent: separation pushes left, cohesion pulls right.
    assert(sep_fold(a.point, a.id, one).1 == 0 && sep_fold(a.point, a.id, one).0 == v2_zero());
    assert(sep_term(a.point, b.point) == (V2 { x: -q, y: 0 }));
    assert(sep_fold(a.point, a.id, ns).0 == (V2 { x: -q, y: 0 }) && sep_fold(a.point, a.id, ns).1
        == 1);
    let a2 = spec_separation(a, ns);
    assert(a2.accel == (V2 { x: -45, y: 0 }) && a2.point == a.point && a2.velocity == a.velocity
        && a2.id == a.id);
    assert(align_fold(a.id, one).1 == 0 && align_fold(a.id, one).0 == v2_zero());
    assert(align_fold(a.id, ns).0 == v2_zero() && align_fold(a.id, ns).1 == 1);
    let a3 = spec_alignment(a2, ns);
    assert(a3 == a2);
    assert(cohesion_fold(a.id, one).1 == 0 && cohesion_fold(a.id, one).0 == v2_zero());
    assert(cohesion_fold(a.id, ns).0 == v2_add(v2_zero(), b.point) && cohesion_fold(a.id, ns).1
        == 1);
    assert(v2_div(v2_add(v2_zero(), b.point), 1) == b.point);
    let a4 = spec_cohesion(a3, ns);
    assert(a4.accel == (V2 { x: -9, y: 0 }) && a4.velocity == a.velocity);
    assert(v2_add(a4.velocity, a4.accel) == (V2 { x: -9, y: 0 }));
    assert(v2_clamp(V2 { x: -9, y: 0 }, MAX_SPEED as int) == (V2 { x: -9, y: 0 }));
    assert(spec_boid_step(a, ns, width, height).velocity == (V2 { x: -9, y: 0 }));

    // The right agent, mirrored: separation pushes right, cohesion left.
    assert(sep_fold(b.point, b.id, one).1 == 1 && sep_fold(b.point, b.id, one).0 == v2_add(
        v2_zero(),
        sep_term(b.point, a.point),
    ));
    assert(sep_term(b.point, a.point) == (V2 { x: q, y: 0 }));
    assert(sep_fold(b.point, b.id, ns).0 == (V2 { x: q, y: 0 }) && sep_fold(b.point, b.id, ns).1
        == 1);
    let b2 = spec_separation(b, ns);
    assert(b2.accel == (V2 { x: 45, y: 0 }) && b2.point == b.point && b2.velocity == b.velocity
        && b2.id == b.id);
    assert(align_fold(b.id, one).1 == 1 && align_fold(b.id, one).0 == v2_add(
        v2_zero(),
        a.velocity,
    ));
    assert(align_fold(b.id, ns).0 == v2_zero() && align_fold(b.id, ns).1 == 1);
    let b3 = spec_alignment(b2, ns);
    assert(b3 == b2);
    assert(cohesion_fold(b.id, one).1 == 1 && cohesion_fold(b.id, one).0 == v2_add(
        v2_zero(),
        a.point,
    ));
    assert(cohesion_fold(b.id, ns).0 == v2_add(v2_zero(), a.point) && cohesion_fold(b.id, ns).1
        == 1);
    assert(v2_div(v2_add(v2_zero(), a.point), 1) == a.point);
    let b4 = spec_cohesion(b3, ns);
    assert(b4.accel == (V2 { x: 9, y: 0 }) && b4.velocity == b.velocity);
    assert(v2_add(b4.velocity, b4.accel) == (V2 { x: 9, y: 0 }));
    assert(v2_clamp(V2 { x: 9, y: 0 }, MAX_SPEED as int) == (V2 { x: 9, y: 0 }));
    assert(spec_boid_step(b, ns, width, height).velocity == (V2 { x: 9, y: 0 }));
}

/// The squared-speed bound gives the speed bound itself.
pub proof fn lemma_speed_norm(v: V2)
    requires
        v2_norm_sq(v) <= SPEED_SQ_LIMIT,
    ensures
        v2_norm(v) <= MAX_SPEED,
{
    assert(0 <= v2_norm_sq(v)) by (nonlinear_arith)
        requires
            v2_norm_sq(v) == v.x * v.x + v.y * v.y,
    ;
    lemma_sqrt_floor_le(v2_norm_sq(v), MAX_SPEED as int);
}

/// Whatever state an agent starts a tick in, the tick leaves it valid: the
/// border rule wraps the position into the world, the rules only charge
/// the accumulator, integration clamps the speed to `MAX_SPEED`, moves by
/// at most one clamped velocity and resets the accumulator.
pub proof fn lemma_spec_boid_step_valid(b: BoidM, ns: Seq<BoidM>, width: int, height: int)
    requires
        0 < width <= EXTENT_LIMIT as int,
        0 < height <= EXTENT_LIMIT as int,
    ensures
        boid_valid(spec_boid_step(b, ns, width, height)),
        spec_boid_step(b, ns, width, height).id == b.id,
        v2_norm(spec_boid_step(b, ns, width, height).velocity) <= MAX_SPEED,
{
    let b1 = spec_border(b, width, height);
    let b2 = spec_separation(b1, ns);
    let b3 = spec_alignment(b2, ns);
    let b4 = spec_cohesion(b3, ns);
    assert(b4.point == b1.point && b4.velocity == b1.velocity && b4.id == b1.id);
    let v = v2_clamp(v2_add(b4.velocity, b4.accel), MAX_SPEED as int);
    lemma_clamp_norm(v2_add(b4.velocity, b4.accel), MAX_SPEED as int);
    lemma_speed_norm(v);
    vstd::arithmetic::div_mod::lemma_div_is_ordered(width, EXTENT_LIMIT as int, 2);
    vstd::arithmetic::div_mod::lemma_div_pos_is_pos(width, 2);
    vstd::arithmetic::div_mod::lemma_div_is_ordered(height, EXTENT_LIMIT as int, 2);
    vstd::arithmetic::div_mod::lemma_div_pos_is_pos(height, 2);
    assert(-(width / 2) <= b1.point.x <= width / 2);
    assert(-(height / 2) <= b1.point.y <= height / 2);
}

} // verus!
