//! A verified point-mass simulation: particles connected by distance
//! constraints, advanced by position (Verlet) integration, relaxed toward
//! constraint-satisfying positions once per tick, clamped to viewport bounds,
//! and torn by deactivating the constraint nearest a pointer.
//!
//! All geometry is exact integer arithmetic: coordinates are `i64` values in
//! whatever unit the host chooses, and every Euclidean length is the floor of
//! the real-valued length. A rendering host converts to and from its own
//! scalar type at the boundary.

pub mod particle;
pub mod utils;
