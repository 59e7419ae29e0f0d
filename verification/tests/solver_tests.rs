use verlet_solver::math::{abs64, isqrt, mul3div2};
use verlet_solver::particle::{Particle, Rgba, Vec2};
use verlet_solver::solver::MainState;
use verlet_solver::solver::{CENTER_X, CENTER_Y, GRAVITY, ROOM_RADIUS, SPAWN_TIME};
use verlet_solver::SCALE;

fn particle_at(x: i64, y: i64, radius: i64) -> Particle {
    Particle::new(Vec2 { x, y }, radius, Rgba { r: 10, g: 20, b: 30 })
}

fn world_with(particles: Vec<Particle>) -> MainState {
    MainState { particles, rng: oorandom::Rand32::new(1), total_time: 0 }
}

#[test]
fn isqrt_exact_values() {
    assert_eq!(isqrt(0), 0);
    assert_eq!(isqrt(1), 1);
    assert_eq!(isqrt(24), 4);
    assert_eq!(isqrt(25), 5);
    assert_eq!(isqrt(26), 5);
    assert_eq!(isqrt(10_000_000_000_000_000_000_000), 100_000_000_000);
    assert_eq!(isqrt(9_999_999_999_999_999_999_999), 99_999_999_999);
}

#[test]
fn abs64_and_mul3div2() {
    assert_eq!(abs64(-5), 5);
    assert_eq!(abs64(7), 7);
    assert_eq!(abs64(0), 0);
    assert_eq!(mul3div2(50_000, 56_250, 100_000, 50_000, 200_000), 28_125);
    assert_eq!(mul3div2(3, 3, 3, 2, 2), 6);
}

#[test]
fn integration_determinism() {
    // Velocity (1000, 1000); acceleration term 10^6 * 500^2 / 10^8 = 2500.
    let mut p = particle_at(10_000, 20_000, 100_000);
    p.prev_pos = Vec2 { x: 9_000, y: 19_000 };
    p.acc = Vec2 { x: 0, y: 1_000_000 };
    let mut q = p;
    p.update_position(500);
    assert_eq!(p.pos, Vec2 { x: 11_000, y: 23_500 });
    assert_eq!(p.prev_pos, Vec2 { x: 10_000, y: 20_000 });
    assert_eq!(p.acc, Vec2 { x: 0, y: 0 });
    // Same inputs give exactly the same outputs.
    q.update_position(500);
    assert_eq!(p, q);
}

#[test]
fn acceleration_accumulates() {
    let mut p = particle_at(0, 0, 50_000);
    p.accelerate(Vec2 { x: 3, y: -4 });
    p.accelerate(Vec2 { x: 10, y: 20 });
    assert_eq!(p.acc, Vec2 { x: 13, y: 16 });
}

#[test]
fn gravity_adds_to_every_particle() {
    let mut w = world_with(vec![particle_at(0, 0, 50_000), particle_at(5, 5, 60_000)]);
    w.particles[0].acc = Vec2 { x: 1, y: 2 };
    w.apply_gravity();
    assert_eq!(w.particles[0].acc, Vec2 { x: 1, y: 2 + GRAVITY });
    assert_eq!(w.particles[1].acc, Vec2 { x: 0, y: GRAVITY });
}

#[test]
fn overlapping_equal_pair_separates_exactly() {
    // Two particles of radius 10 units placed 5 units apart on the x-axis:
    // each moves 2.8125 units (28125 subunits) along x, away from the other.
    let a = particle_at(CENTER_X, CENTER_Y, 10 * SCALE);
    let b = particle_at(CENTER_X + 5 * SCALE, CENTER_Y, 10 * SCALE);
    let mut w = world_with(vec![a, b]);
    w.apply_collisions();
    assert_eq!(w.particles[0].pos, Vec2 { x: CENTER_X - 28_125, y: CENTER_Y });
    assert_eq!(w.particles[1].pos, Vec2 { x: CENTER_X + 5 * SCALE + 28_125, y: CENTER_Y });
    // Separation grew from 5 units toward the 20-unit rest distance.
    let gap = w.particles[1].pos.x - w.particles[0].pos.x;
    assert_eq!(gap, 5 * SCALE + 2 * 28_125);
    assert!(gap > 5 * SCALE);
}

#[test]
fn collision_displacement_inverse_to_radius() {
    // Radii 10 and 30 units, centers 20 units apart: the small particle is
    // displaced three times as far as the large one.
    let a = particle_at(CENTER_X, CENTER_Y, 10 * SCALE);
    let b = particle_at(CENTER_X + 20 * SCALE, CENTER_Y, 30 * SCALE);
    let mut w = world_with(vec![a, b]);
    w.apply_collisions();
    let da = CENTER_X - w.particles[0].pos.x;
    let db = w.particles[1].pos.x - (CENTER_X + 20 * SCALE);
    assert_eq!(da, 56_250);
    assert_eq!(db, 18_750);
    assert_eq!(da * (10 * SCALE), db * (30 * SCALE));
}

#[test]
fn coincident_centers_stay_put() {
    let a = particle_at(CENTER_X, CENTER_Y, 10 * SCALE);
    let b = particle_at(CENTER_X, CENTER_Y, 20 * SCALE);
    let mut w = world_with(vec![a, b]);
    w.apply_collisions();
    assert_eq!(w.particles[0].pos, Vec2 { x: CENTER_X, y: CENTER_Y });
    assert_eq!(w.particles[1].pos, Vec2 { x: CENTER_X, y: CENTER_Y });
}

#[test]
fn non_overlapping_pair_untouched() {
    let a = particle_at(CENTER_X, CENTER_Y, 10 * SCALE);
    let b = particle_at(CENTER_X + 30 * SCALE, CENTER_Y, 10 * SCALE);
    let mut w = world_with(vec![a, b]);
    w.apply_collisions();
    assert_eq!(w.particles[0].pos, Vec2 { x: CENTER_X, y: CENTER_Y });
    assert_eq!(w.particles[1].pos, Vec2 { x: CENTER_X + 30 * SCALE, y: CENTER_Y });
}

#[test]
fn empty_and_single_worlds_resolve() {
    let mut w = world_with(vec![]);
    w.apply_collisions();
    assert_eq!(w.particles.len(), 0);
    let mut w1 = world_with(vec![particle_at(CENTER_X, CENTER_Y, 10 * SCALE)]);
    w1.apply_collisions();
    assert_eq!(w1.particles[0].pos, Vec2 { x: CENTER_X, y: CENTER_Y });
}

#[test]
fn boundary_clamps_to_rim() {
    // 9500 units right of center with radius 10: pushed back to the rim at
    // ROOM_RADIUS - radius = 8900 units from the center.
    let p = particle_at(CENTER_X + 9_500_000, CENTER_Y, 10 * SCALE);
    let mut w = world_with(vec![p]);
    w.apply_constraints();
    assert_eq!(w.particles[0].pos, Vec2 { x: CENTER_X + ROOM_RADIUS - 10 * SCALE, y: CENTER_Y });
}

#[test]
fn boundary_containment_after_constraints() {
    let ps = vec![
        particle_at(CENTER_X + 9_500_000, CENTER_Y - 3_000_000, 10 * SCALE),
        particle_at(CENTER_X - 12_000_000, CENTER_Y + 7_000_000, 25 * SCALE),
        particle_at(CENTER_X + 100, CENTER_Y - 100, 49 * SCALE),
    ];
    let mut w = world_with(ps);
    w.apply_constraints();
    for p in &w.particles {
        let tx = (p.pos.x - CENTER_X) as i128;
        let ty = (p.pos.y - CENTER_Y) as i128;
        let lim = (ROOM_RADIUS - p.radius + 1) as i128;
        assert!(tx * tx + ty * ty <= lim * lim);
    }
}

#[test]
fn inside_particle_not_moved_by_constraints() {
    let p = particle_at(CENTER_X + 1_000_000, CENTER_Y, 10 * SCALE);
    let mut w = world_with(vec![p]);
    w.apply_constraints();
    assert_eq!(w.particles[0].pos, Vec2 { x: CENTER_X + 1_000_000, y: CENTER_Y });
}

#[test]
fn lone_particle_fall_accelerates() {
    // At rest at the center; dt = 0.1 s gives a gravity contribution of
    // 10^6 * 1000^2 / 10^8 = 10000 subunits (one unit) per sub-step.
    let p = particle_at(CENTER_X, CENTER_Y, 10 * SCALE);
    let mut w = world_with(vec![p]);
    w.step(1_000);
    let d1 = w.particles[0].pos.y - w.particles[0].prev_pos.y;
    assert_eq!(w.particles[0].pos.x, CENTER_X);
    assert_eq!(d1, 10_000);
    w.step(1_000);
    let d2 = w.particles[0].pos.y - w.particles[0].prev_pos.y;
    assert_eq!(d2, 20_000);
    assert!(d2 > d1);
    w.step(1_000);
    let d3 = w.particles[0].pos.y - w.particles[0].prev_pos.y;
    assert_eq!(d3, 30_000);
    assert!(d3 > d2);
}

#[test]
fn spawn_threshold_two_half_frames() {
    // SPAWN_TIME is 0.1 s; two updates of dt = 0.05 s spawn exactly once,
    // on the second call, and reset the accumulator.
    let mut w = MainState::new(42);
    assert_eq!(w.particles.len(), 1);
    let dt = SPAWN_TIME / 2;
    w.update(dt);
    assert_eq!(w.particles.len(), 1);
    assert_eq!(w.total_time, dt);
    w.update(dt);
    assert_eq!(w.particles.len(), 2);
    assert_eq!(w.total_time, 0);
}

#[test]
fn spawned_particles_within_contract() {
    let mut w = MainState::new(7);
    for _ in 0..20 {
        w.spawn_particle();
    }
    for p in &w.particles {
        assert!(p.radius >= 5 * SCALE && p.radius <= 49 * SCALE);
        assert_eq!(p.radius % SCALE, 0);
        assert!(p.pos.x == CENTER_X - SCALE || p.pos.x == CENTER_X);
        assert!(p.pos.y == CENTER_Y - SCALE || p.pos.y == CENTER_Y);
        assert_eq!(p.prev_pos, p.pos);
        assert_eq!(p.acc, Vec2 { x: 0, y: 0 });
        assert!(p.color.r < 255 && p.color.g < 255 && p.color.b < 255);
    }
}

#[test]
fn world_seeded_reproducibly() {
    let a = MainState::new(123);
    let b = MainState::new(123);
    assert_eq!(a.particles[0], b.particles[0]);
    assert_eq!(a.total_time, 0);
}

#[test]
fn long_run_stays_inside_room() {
    let mut w = MainState::new(9);
    for _ in 0..50 {
        w.update(500);
    }
    assert!(w.particles.len() > 1);
    // After each frame's final constraint-then-integrate, positions stay
    // near the room; re-applying the constraint pins them inside it.
    w.apply_constraints();
    for p in &w.particles {
        let tx = (p.pos.x - CENTER_X) as i128;
        let ty = (p.pos.y - CENTER_Y) as i128;
        let lim = (ROOM_RADIUS - p.radius + 1) as i128;
        assert!(tx * tx + ty * ty <= lim * lim);
    }
}

#[test]
fn rand_range_stays_in_bounds() {
    let mut rng = oorandom::Rand32::new(99);
    for _ in 0..1000 {
        let v = rng.rand_range(5..50);
        assert!((5..50).contains(&v));
    }
}
