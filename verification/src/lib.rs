//! A verified planar N-body gravity simulator.
//!
//! Real-valued quantities (positions, velocities, masses, times) are held in
//! fixed-point form: a value `v` stands for the real number `v / SCALE`.
//! Every operation of the library states, over mathematical integers, exactly
//! which scaled value it produces, truncation included.

pub mod fixed;
pub mod vec2;
pub mod body;
pub mod frame;
pub mod sim;
