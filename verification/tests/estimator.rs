//! The adaptive timestep estimator and the global timestep selection.

use nbody::body::Body;
use nbody::sim::global_timestep;
use nbody::vec2::Vec2;

const S: i64 = 100_000_000; // one real unit, in stored quanta

fn body(mass: i64, px: i64, py: i64, vx: i64, vy: i64) -> Body {
    Body::new(mass, Vec2::new(px, py), Vec2::new(vx, vy))
}

#[test]
fn estimator_boundary_value() {
    // a body at the origin moving at speed 1.0 toward a body at (2.0, 0):
    // with a closing threshold of 0.5 the bound is 2.0 * 0.5 / 1.0 = 1.0
    let a = body(S, 0, 0, S, 0);
    let b = body(S, 2 * S, 0, 0, 0);
    assert_eq!(a.estimate_timestep(&b, S / 2), Some(S as i128));
}

#[test]
fn estimator_stationary_gives_no_bound() {
    let a = body(S, 0, 0, 0, 0);
    let b = body(S, 2 * S, 0, 0, 0);
    assert_eq!(a.estimate_timestep(&b, S / 2), None);
}

#[test]
fn estimator_zero_separation_gives_zero_bound() {
    // coincident bodies do not fail the estimator: the bound collapses to
    // zero, shrinking the step instead of raising an error
    let a = body(S, S, S, S, 0);
    let b = body(S, S, S, 0, 0);
    assert_eq!(a.estimate_timestep(&b, S / 2), Some(0));
}

#[test]
fn global_timestep_takes_the_minimum() {
    // pairwise bounds 3.0 and 7.0 against a ceiling of 10.0: dt is 3.0
    let a = body(S, 0, 0, S, 0);
    let b = body(S, 0, 3 * S, 0, 0);
    let c = body(S, 7 * S, 0, 0, 0);
    let set = vec![a, b, c];
    assert_eq!(global_timestep(&set, 10 * S, S), 3 * S);
}

#[test]
fn global_timestep_without_bounds_is_the_ceiling() {
    // stationary bodies constrain nothing
    let a = body(S, 0, 0, 0, 0);
    let b = body(S, 0, 3 * S, 0, 0);
    let set = vec![a, b];
    assert_eq!(global_timestep(&set, 10 * S, S), 10 * S);
}
