//! Birth-death trees conditioned on a number of surviving lineages.
//!
//! The library decides the shape of the tree and counts time in events:
//! the first event happens at tick one, the next at tick two, and so on.
//! Real waiting times are drawn by the caller, one for each tick, and are
//! laid over the ticks afterwards.

pub mod arena;
pub mod chance;
pub mod depth;
pub mod laws;
pub mod lemmas;
pub mod nested;
pub mod simulate;
pub mod text;
