use boids::boid::{Boid, MAX_SPEED, SPEED_SQ_LIMIT};
use boids::boid_system::{Boid_World, ConfigError};
use boids::vec2::Vec2;

const WIDTH: i64 = 1_920_000;
const HEIGHT: i64 = 1_080_000;

fn still_boid(x: i64, y: i64, id: i32) -> Boid {
    Boid {
        point: Vec2 { x, y },
        velocity: Vec2 { x: 0, y: 0 },
        accel: Vec2 { x: 0, y: 0 },
        id,
    }
}

#[test]
fn border_wraps_right_edge_exactly() {
    let mut b = still_boid(960_001, 0, 0);
    b.border(WIDTH, HEIGHT);
    assert_eq!(b.point, Vec2 { x: -960_000, y: 0 });
}

#[test]
fn border_wraps_left_edge_exactly() {
    let mut b = still_boid(-960_001, 0, 0);
    b.border(WIDTH, HEIGHT);
    assert_eq!(b.point, Vec2 { x: 960_000, y: 0 });
}

#[test]
fn border_wraps_top_and_bottom_exactly() {
    let mut b = still_boid(0, 540_001, 0);
    b.border(WIDTH, HEIGHT);
    assert_eq!(b.point, Vec2 { x: 0, y: -540_000 });
    let mut c = still_boid(0, -600_000, 0);
    c.border(WIDTH, HEIGHT);
    assert_eq!(c.point, Vec2 { x: 0, y: 540_000 });
}

#[test]
fn border_keeps_interior_point() {
    let mut b = still_boid(123_456, -54_321, 0);
    b.border(WIDTH, HEIGHT);
    assert_eq!(b.point, Vec2 { x: 123_456, y: -54_321 });
}

#[test]
fn add_force_clamps_scales_and_accumulates() {
    let mut b = still_boid(0, 0, 0);
    // |(100, 0)| = 100 > MAX_FORCE = 30, clamp to (30, 0); weight 1.5
    // makes (45, 0).
    b.addForce(Vec2 { x: 100, y: 0 }, 1500);
    assert_eq!(b.accel, Vec2 { x: 45, y: 0 });
    // A second force accumulates on top.
    b.addForce(Vec2 { x: 0, y: -10 }, 1000);
    assert_eq!(b.accel, Vec2 { x: 45, y: -10 });
}

#[test]
fn seek_steers_toward_target() {
    let mut b = still_boid(0, 0, 0);
    b.seek(Vec2 { x: 100_000, y: 0 });
    // desired = normalize(target) * 5 = (5000, 0); steering clamps to
    // (30, 0) and the cohesion weight 1.2 gives (36, 0).
    assert_eq!(b.accel, Vec2 { x: 36, y: 0 });
    assert_eq!(b.velocity, Vec2 { x: 0, y: 0 });
    assert_eq!(b.point, Vec2 { x: 0, y: 0 });
}

#[test]
fn alignment_averages_neighbor_velocities() {
    let mut b = still_boid(0, 0, 0);
    let mut own = still_boid(0, 0, 0);
    own.velocity = Vec2 { x: 55_555, y: 0 };
    let mut n1 = still_boid(1000, 0, 1);
    n1.velocity = Vec2 { x: 1000, y: 0 };
    let mut n2 = still_boid(0, 1000, 2);
    n2.velocity = Vec2 { x: 0, y: 1000 };
    // The entry with the agent's own id must be skipped even though its
    // velocity is huge.
    let ns = vec![own, n1, n2];
    b.alignment(&ns);
    // avg = (500, 500); normalize -> (707, 707); * 5 -> (3535, 3535);
    // clamp to length 30 -> (21, 21); weight 1.1 -> (23, 23).
    assert_eq!(b.accel, Vec2 { x: 23, y: 23 });
}

#[test]
fn alignment_without_neighbors_is_inert() {
    let mut b = still_boid(0, 0, 7);
    let ns = vec![still_boid(500, 500, 7)];
    b.alignment(&ns);
    assert_eq!(b.accel, Vec2 { x: 0, y: 0 });
}

#[test]
fn cohesion_seeks_average_position() {
    let mut b = still_boid(0, 0, 0);
    let ns = vec![still_boid(0, 0, 0), still_boid(100_000, 0, 1)];
    b.cohesion(&ns);
    assert_eq!(b.accel, Vec2 { x: 36, y: 0 });
}

#[test]
fn separation_pushes_away_from_close_neighbor() {
    let mut b = still_boid(0, 0, 0);
    let ns = vec![still_boid(50_000, 0, 1)];
    b.separation(&ns);
    // diff = normalize((-50000, 0)) / 50 = (-20, 0); normalized and scaled
    // to MAX_SPEED: (-2000, 0); clamped to (-30, 0); weight 1.5: (-45, 0).
    assert_eq!(b.accel, Vec2 { x: -45, y: 0 });
}

#[test]
fn separation_ignores_far_neighbor() {
    let mut b = still_boid(0, 0, 0);
    // 150 units away is beyond DESIRED_SEPARATION = 100 units.
    let ns = vec![still_boid(150_000, 0, 1)];
    b.separation(&ns);
    assert_eq!(b.accel, Vec2 { x: 0, y: 0 });
}

#[test]
fn step_alone_moves_in_straight_line() {
    let mut b = still_boid(0, 0, 0);
    b.velocity = Vec2 { x: 1000, y: 500 };
    // The neighbor list contains only the agent itself: no rule fires.
    let ns = vec![b];
    b.step(&ns, WIDTH, HEIGHT);
    assert_eq!(b.velocity, Vec2 { x: 1000, y: 500 });
    assert_eq!(b.point, Vec2 { x: 1000, y: 500 });
    assert_eq!(b.accel, Vec2 { x: 0, y: 0 });
    b.step(&vec![b], WIDTH, HEIGHT);
    assert_eq!(b.velocity, Vec2 { x: 1000, y: 500 });
    assert_eq!(b.point, Vec2 { x: 2000, y: 1000 });
}

#[test]
fn close_pair_diverges_under_separation() {
    // Two still agents 10 units apart: separation (weight 1.5) beats
    // cohesion (weight 1.2), so their velocities point away from each
    // other after one step.
    let a0 = still_boid(0, 0, 0);
    let b0 = still_boid(10_000, 0, 1);
    let mut a = a0;
    a.step(&vec![a0, b0], WIDTH, HEIGHT);
    let mut b = b0;
    b.step(&vec![a0, b0], WIDTH, HEIGHT);
    assert_eq!(a.velocity, Vec2 { x: -9, y: 0 });
    assert_eq!(b.velocity, Vec2 { x: 9, y: 0 });
    // They moved apart along the line joining them.
    assert!(b.point.x - a.point.x > 10_000);
}

#[test]
fn world_rejects_non_positive_width() {
    assert_eq!(
        Boid_World::new(0, HEIGHT, 5).unwrap_err(),
        ConfigError::NonPositiveWidth
    );
    assert_eq!(
        Boid_World::new(-10, HEIGHT, 5).unwrap_err(),
        ConfigError::NonPositiveWidth
    );
}

#[test]
fn world_rejects_non_positive_height() {
    assert_eq!(
        Boid_World::new(WIDTH, 0, 5).unwrap_err(),
        ConfigError::NonPositiveHeight
    );
}

#[test]
fn world_rejects_negative_agent_count() {
    assert_eq!(
        Boid_World::new(WIDTH, HEIGHT, -1).unwrap_err(),
        ConfigError::NegativeAgentCount
    );
}

#[test]
fn world_builds_agents_with_unique_ids_in_bounds() {
    let w = Boid_World::new(WIDTH, HEIGHT, 25).unwrap();
    let agents = w.get_boids();
    assert_eq!(agents.len(), 25);
    for (i, a) in agents.iter().enumerate() {
        assert_eq!(a.id, i as i32);
        assert!(-960_000 <= a.point.x && a.point.x < 960_000);
        assert!(-540_000 <= a.point.y && a.point.y < 540_000);
        // The initial velocity is a normalized random direction: one unit
        // of length up to rounding.
        let sq = a.velocity.x * a.velocity.x + a.velocity.y * a.velocity.y;
        assert!(992_000 <= sq && sq <= 1_004_000);
    }
    // Placement is random: 25 agents landing on one single point of a
    // 1920x1080-unit world would mean the random source is constant.
    assert!(agents.iter().any(|a| a.point != agents[0].point));
}

#[test]
fn world_of_zero_agents_is_fine() {
    let mut w = Boid_World::new(WIDTH, HEIGHT, 0).unwrap();
    assert_eq!(w.get_boids().len(), 0);
    w.step();
    assert_eq!(w.get_boids().len(), 0);
}

#[test]
fn snapshots_without_step_are_identical() {
    let w = Boid_World::new(WIDTH, HEIGHT, 12).unwrap();
    let first = w.get_boids();
    let second = w.get_boids();
    assert_eq!(first, second);
}

#[test]
fn lone_agent_is_its_only_neighbor() {
    let w = Boid_World::new(WIDTH, HEIGHT, 1).unwrap();
    let agents = w.get_boids();
    let ns = w.get_boid_neighbors(&agents[0]);
    assert_eq!(ns.len(), 1);
    assert_eq!(ns[0], agents[0]);
}

#[test]
fn far_probe_has_no_neighbors() {
    let w = Boid_World::new(WIDTH, HEIGHT, 8).unwrap();
    // Far outside the world: more than 50 units from every agent.
    let probe = still_boid(400_000_000, 400_000_000, 99);
    let ns = w.get_boid_neighbors(&probe);
    assert_eq!(ns.len(), 0);
}

#[test]
fn speed_stays_bounded_over_many_steps() {
    // A small world forces plenty of interaction.
    let mut w = Boid_World::new(200_000, 200_000, 20).unwrap();
    for _ in 0..50 {
        w.step();
        for a in w.get_boids() {
            let sq = a.velocity.x * a.velocity.x + a.velocity.y * a.velocity.y;
            assert!(sq <= SPEED_SQ_LIMIT);
            // One step past the wrap can overshoot by at most MAX_SPEED.
            assert!(a.point.x.abs() <= 100_000 + MAX_SPEED);
            assert!(a.point.y.abs() <= 100_000 + MAX_SPEED);
        }
    }
}

#[test]
fn get_point_returns_position() {
    let b = still_boid(42, -7, 3);
    assert_eq!(b.get_point(), Vec2 { x: 42, y: -7 });
}
