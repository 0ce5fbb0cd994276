//! Pencil decomposition of dense N-dimensional grids over a Cartesian
//! process topology.
//!
//! A *pencil* keeps exactly one grid axis whole ("contiguous") on every
//! process and splits the remaining axes across a process grid.  This crate
//! provides the balanced one-dimensional partition, the pencil construction
//! and its topology queries, the count/displacement tables for variable-count
//! collective exchanges, and the pack/unpack routines that move data between
//! two pencils with different contiguous axes.  The blocking collective
//! communication itself is a supplied capability of the surrounding runtime;
//! everything here is the local computation that drives it.

pub mod decomp2;
pub mod decomp3;
pub mod distribution;
pub mod laws;
pub mod laws3;
pub mod math;
pub mod pencil;

pub use decomp2::Decomp2;
pub use decomp3::Decomp3;
pub use distribution::Distribution;
pub use pencil::Pencil;
