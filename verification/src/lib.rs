//! Rule engine for a sliding-tile merging puzzle on a rectangular grid.
//!
//! The engine owns the grid data model, the directional slide/merge
//! transform, and the random tile-spawn step.  Rendering and input
//! handling are left to the embedding application.

pub mod game;
pub mod models;
pub mod rng;
