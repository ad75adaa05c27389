//! A terminal flood-fill animation engine: a randomized frontier expansion
//! that grows a mutating color field from a few seed cells until the whole
//! grid is covered, one placement at a time.
//!
//! The engine itself is deterministic: every step takes the raw random
//! values it consumes as explicit arguments, so a fixed sequence of draws
//! reproduces an exact sequence of placements. The `rng` module supplies
//! those draws from the `rand` crate for the live animation.

pub mod color;
pub mod engine;
pub mod laws;
pub mod rng;
