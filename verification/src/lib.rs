//! A replicated growable array: an ordered sequence of values that several
//! replicas may mutate concurrently and that converges once every operation
//! has been delivered, with no coordinator.
//!
//! Every element carries a globally comparable identifier (`S4Vector`); the
//! engine (`rga::RGA`) keeps one identifier-to-element table, maintains the
//! logical chain through neighbor links, and buffers operations whose
//! dependencies have not arrived yet.

pub mod model;
pub mod rga;
pub mod s4vector;

pub use s4vector::S4Vector;
