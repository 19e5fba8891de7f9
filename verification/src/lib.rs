//! Builds an in-memory weighted undirected road graph from a line-oriented
//! geographic map export: point declarations become graph nodes, usable road
//! segments become pairs of symmetric arcs whose cost is an estimated travel
//! time in whole seconds.

pub mod errors;
pub mod geometry;
pub mod numbers;
pub mod speeds;
pub mod classify;
pub mod graph;
pub mod builder;
