//! A finite-difference engine for the time-dependent Schroedinger equation on
//! a two-dimensional lattice.
//!
//! The engine is generic in its number types: `R` stands for the real scalars
//! (lattice spacing, time step, coordinates, potential values) and `T` for the
//! complex amplitudes. All arithmetic on them is supplied by the caller as
//! functions; the engine decides which values those functions see and where
//! their results go, and its contracts state exactly that.

pub mod determinism;
pub mod genvec;
pub mod potential;
pub mod solver;
pub mod stencil;
