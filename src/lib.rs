//! Procedural plant growth: the discrete half of a plant generator.
//!
//! A plant is grown from a [`genome::Shape`] into a [`context::Plant`]: the
//! branch tree, the rings and leaves it emits, one source record and one
//! material id per vertex, and the triangle index list that stitches them
//! together. Every decision about structure (how many children a branch
//! has, where leaves sit, how rings are joined) is made here; placing the
//! vertices in space is left to the embedding that reads the records.
use vstd::prelude::*;

pub mod genome;
pub mod random;
pub mod context;
pub mod branch;
pub mod grow;
