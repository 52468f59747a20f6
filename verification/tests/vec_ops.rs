//! Vector arithmetic on fixed-point values: one stored unit is 1e-8, so
//! 1.5 is written 150_000_000.

use nbody::vec2::Vec2;

#[test]
fn vec_simple_arith() {
    assert_eq!(
        Vec2::new(150_000_000, 50_000_000).add(&Vec2::new(50_000_000, -50_000_000)),
        Vec2::new(200_000_000, 0)
    );
    assert_eq!(
        Vec2::new(150_000_000, 100_000_000).sub(&Vec2::new(50_000_000, 100_000_000)),
        Vec2::new(100_000_000, 0)
    );
    assert_eq!(
        Vec2::new(150_000_000, 25_000_000).scale(2),
        Vec2::new(300_000_000, 50_000_000)
    );
    assert_eq!(
        Vec2::new(150_000_000, 25_000_000).scale(2),
        Vec2::new(300_000_000, 50_000_000)
    );
}

#[test]
fn vec_scalar_prod() {
    // the dot product of two scaled vectors carries the scale twice
    assert_eq!(
        Vec2::new(100_000_000, 100_000_000).dot(&Vec2::new(100_000_000, -100_000_000)),
        0
    );
    assert_eq!(
        Vec2::new(320_000_000, 420_000_000).dot(&Vec2::new(100_000_000, 0)),
        32_000_000_000_000_000
    );
}

#[test]
fn vec_sum() {
    let vs = vec![
        Vec2::new(100_000_000, 200_000_000),
        Vec2::new(200_000_000, 300_000_000),
        Vec2::new(300_000_000, 400_000_000),
    ];
    assert_eq!(Vec2::sum(&vs), Vec2::new(600_000_000, 900_000_000));
}

#[test]
fn vec_algebra_laws_concrete() {
    let u = Vec2::new(123_456_789, -987_654_321);
    let v = Vec2::new(-50_000_000, 75_000_000);
    let w = Vec2::new(1, -1);
    assert_eq!(u.add(&v), v.add(&u));
    assert_eq!(u.add(&v).add(&w), u.add(&v.add(&w)));
    assert_eq!(u.add(&v).scale(3), u.scale(3).add(&v.scale(3)));
    assert_eq!(u.dot(&v), v.dot(&u));
}

#[test]
fn vec_norm() {
    // a 3-4-5 triangle, in stored units
    assert_eq!(Vec2::new(300_000_000, 400_000_000).norm(), 500_000_000);
    // the norm of the zero vector is zero, a legitimate base case
    assert_eq!(Vec2::new(0, 0).norm(), 0);
    assert!(Vec2::new(0, 1).norm() > 0);
    // the norm rounds down
    assert_eq!(Vec2::new(1, 1).norm(), 1);
}
