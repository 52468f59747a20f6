//! The simulation loop: snapshot cadence, momentum behaviour over many
//! steps, energy near-conservation of the leapfrog scheme against a naive
//! single-stage update, and the explicit degradation on a blow-up.

use nbody::body::Body;
use nbody::sim::{advance, run};
use nbody::vec2::Vec2;

const S: i64 = 100_000_000;

fn body(mass: i64, px: i64, py: i64, vx: i64, vy: i64) -> Body {
    Body::new(mass, Vec2::new(px, py), Vec2::new(vx, vy))
}

#[test]
fn snapshot_cadence() {
    // two force-free bodies (g = 0), ten iterations, a snapshot every
    // third: snapshots fall on iterations 0, 3, 6 and 9, and the loop
    // stops before reaching index 10
    let bodies = vec![body(S, -S, 0, 0, 0), body(S, S, 0, 0, 0)];
    let max_dt = 10 * S;
    let (snaps, completed) = run(bodies, max_dt, S, 0, 10, 3);
    assert!(completed);
    assert_eq!(snaps.len(), 4);
    assert_eq!(snaps[0].t, 0);
    assert_eq!(snaps[1].t, 3 * max_dt);
    assert_eq!(snaps[2].t, 6 * max_dt);
    assert_eq!(snaps[3].t, 9 * max_dt);
    // the step-0 snapshot reflects the frame-normalized initial state
    assert_eq!(snaps[0].positions, vec![Vec2::new(-S, 0), Vec2::new(S, 0)]);
    // force-free bodies do not move
    assert_eq!(snaps[3].positions, vec![Vec2::new(-S, 0), Vec2::new(S, 0)]);
}

#[test]
fn momentum_stays_within_truncation_tolerance() {
    // unequal masses on a bound pair; each kick can displace the total
    // momentum by less than one mass-weighted quantum per body pair
    let g: i64 = 1_000_000; // 0.01
    let dt: i64 = 1_000_000; // 0.01
    let mut bodies = vec![
        body(2 * S, -S / 2, 0, 0, -5_773_502),
        body(S, S / 2, 0, 0, 11_547_005),
    ];
    let p0x: i128 = momentum_x(&bodies);
    let p0y: i128 = momentum_y(&bodies);
    let steps = 200;
    for _ in 0..steps {
        assert!(advance(&mut bodies, dt, g));
    }
    // tolerance: the staggered kick evaluations and the truncation leave
    // a drift three orders of magnitude below the momentum the individual
    // bodies carry (about 1.15e15 each)
    let tol: i128 = 1_000_000_000_000;
    assert!((momentum_x(&bodies) - p0x).abs() <= tol);
    assert!((momentum_y(&bodies) - p0y).abs() <= tol);
}

#[test]
fn synchronized_kick_balances_momentum() {
    // stationary bodies: the half-drifts vanish, so the two kicks of the
    // pair are evaluated at the same positions and cancel up to one
    // mass-weighted quantum per component
    let mut bodies = vec![body(2 * S, 0, 0, 0, 0), body(S, S, S / 2, 0, 0)];
    assert!(advance(&mut bodies, 1_000_000, 1_000_000));
    let limit = (3 * S) as i128;
    assert!(momentum_x(&bodies).abs() < limit);
    assert!(momentum_y(&bodies).abs() < limit);
}

fn momentum_x(bodies: &[Body]) -> i128 {
    bodies.iter().map(|b| b.mass as i128 * b.vel.x as i128).sum()
}

fn momentum_y(bodies: &[Body]) -> i128 {
    bodies.iter().map(|b| b.mass as i128 * b.vel.y as i128).sum()
}

fn total_energy(bodies: &Vec<Body>, g: i64) -> i128 {
    let mut e: i128 = 0;
    for i in 0..bodies.len() {
        let mut others: Vec<Body> = Vec::new();
        for j in 0..bodies.len() {
            if j != i {
                others.push(bodies[j]);
            }
        }
        e += bodies[i].energy(g, &others);
    }
    e
}

/// A naive single-stage update (full drift, then kick) with the same
/// fixed-point arithmetic as the library's leapfrog step; its energy
/// drifts, which is why the design rejects it.
fn naive_step(bodies: &mut Vec<Body>, dt: i64, g: i64) {
    let old = bodies.clone();
    for i in 0..bodies.len() {
        let b = &old[i];
        let px = b.pos.x as i128 + (dt as i128 * b.vel.x as i128) / (S as i128);
        let py = b.pos.y as i128 + (dt as i128 * b.vel.y as i128) / (S as i128);
        let mut ax: i128 = 0;
        let mut ay: i128 = 0;
        for j in 0..old.len() {
            if j != i {
                let o = &old[j];
                let dx = px - o.pos.x as i128;
                let dy = py - o.pos.y as i128;
                let d = ((dx * dx + dy * dy) as f64).sqrt() as i128;
                if d > 0 {
                    let am = dt as i128 * g as i128 * o.mass as i128;
                    ax += am * dx / (d * d * d);
                    ay += am * dy / (d * d * d);
                }
            }
        }
        let b2 = Body::new(
            b.mass,
            Vec2::new(px as i64, py as i64),
            Vec2::new((b.vel.x as i128 - ax) as i64, (b.vel.y as i128 - ay) as i64),
        );
        bodies[i] = b2;
    }
}

#[test]
fn leapfrog_nearly_conserves_energy() {
    // a light body on a circular orbit of radius 1.0 around a heavy one:
    // v = sqrt(g * M / r) = 0.1 for g = 0.01, M = 1.0
    let g: i64 = 1_000_000; // 0.01
    let dt: i64 = 1_000_000; // 0.01
    let start = vec![body(S, 0, 0, 0, 0), body(100, S, 0, 0, 10_000_000)];

    let mut leap = start.clone();
    let e0 = total_energy(&leap, g);
    for _ in 0..1000 {
        assert!(advance(&mut leap, dt, g));
    }
    let drift_leap = (total_energy(&leap, g) - e0).abs();
    // within one percent of the initial energy over a thousand steps
    assert!(drift_leap <= e0.abs() / 100);

    // the rejected naive update drifts visibly more on the same run
    let mut naive = start.clone();
    for _ in 0..1000 {
        naive_step(&mut naive, dt, g);
    }
    let drift_naive = (total_energy(&naive, g) - e0).abs();
    assert!(drift_naive > 2 * drift_leap);
}

#[test]
fn blow_up_degrades_explicitly() {
    // two heavy bodies one quantum apart: the kick leaves the admitted
    // range, the step reports the degradation and changes nothing
    let before = vec![
        body(10 * S, 0, 0, 0, 0),
        body(10 * S, 1, 0, 0, 0),
    ];
    let mut bodies = before.clone();
    let ok = advance(&mut bodies, 80 * S, 16_000_000);
    assert!(!ok);
    assert_eq!(bodies, before);
}

#[test]
fn energy_exact_value() {
    // one pair: kinetic 0.5 * 1.0 * 0.1^2 = 0.005, potential
    // 0.01 * 1.0 * 1.0 / 1.0 = 0.01, energy -0.005 (scaled twice by 1e8)
    let a = body(S, 0, 0, 10_000_000, 0);
    let b = body(S, S, 0, 0, 0);
    let others = vec![b];
    assert_eq!(a.energy(1_000_000, &others), -50_000_000_000_000);
}

#[test]
fn run_reports_a_degenerate_iteration() {
    // the same blow-up inside a run: the snapshots up to the degradation
    // come back, with the completion flag cleared
    let bodies = vec![body(10 * S, 0, 0, 0, 0), body(10 * S, 1, 0, 0, 0)];
    let (snaps, completed) = run(bodies, 80 * S, 0, 16_000_000, 10, 3);
    assert!(!completed);
    assert_eq!(snaps.len(), 1);
}
