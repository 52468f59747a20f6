//! Frame normalization: after re-centering, the recomputed center of mass
//! and center-of-mass velocity are the zero vector, exactly.

use nbody::body::Body;
use nbody::frame::{center_of_mass, center_of_mass_velocity, normalize_frame};
use nbody::vec2::Vec2;

const S: i64 = 100_000_000;

#[test]
fn normalized_frame_has_zero_center() {
    let mut bodies = vec![
        Body::new(S, Vec2::new(3 * S, -S), Vec2::new(S / 2, S / 4)),
        Body::new(3 * S, Vec2::new(-S, S / 3), Vec2::new(-S / 5, S / 7)),
        Body::new(7, Vec2::new(S / 7, 11), Vec2::new(13, -S / 11)),
    ];
    normalize_frame(&mut bodies);
    assert_eq!(center_of_mass(&bodies), Vec2::new(0, 0));
    assert_eq!(center_of_mass_velocity(&bodies), Vec2::new(0, 0));
}

#[test]
fn center_of_mass_weighs_masses() {
    // masses 1.0 at 0 and 3.0 at 4.0: the center of mass is at 3.0
    let bodies = vec![
        Body::new(S, Vec2::new(0, 0), Vec2::new(0, 0)),
        Body::new(3 * S, Vec2::new(4 * S, 0), Vec2::new(0, 2 * S)),
    ];
    assert_eq!(center_of_mass(&bodies), Vec2::new(3 * S, 0));
    // the velocity analogue: (0 + 3.0 * 2.0) / 4.0 = 1.5
    assert_eq!(center_of_mass_velocity(&bodies), Vec2::new(0, S + S / 2));
}

#[test]
fn normalize_shifts_every_body() {
    let mut bodies = vec![
        Body::new(S, Vec2::new(0, 0), Vec2::new(0, 0)),
        Body::new(3 * S, Vec2::new(4 * S, 0), Vec2::new(0, 2 * S)),
    ];
    normalize_frame(&mut bodies);
    assert_eq!(bodies[0].pos, Vec2::new(-3 * S, 0));
    assert_eq!(bodies[1].pos, Vec2::new(S, 0));
    assert_eq!(bodies[0].vel, Vec2::new(0, -(S + S / 2)));
    assert_eq!(bodies[1].vel, Vec2::new(0, S / 2));
    assert_eq!(bodies[0].mass, S);
    assert_eq!(bodies[1].mass, 3 * S);
}
