//! The rule core of a planar particle simulator: which body may be changed,
//! what an encounter of two bodies does, in which order a time step visits
//! bodies, fields and pairs, and the world that owns them all under stable
//! handles. The arithmetic on positions and forces is the caller's.

pub mod particle;
pub mod schedule;
pub mod psim;
