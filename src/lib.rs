//! Barnes-Hut spatial index over an integer grid: the in-place partitioner,
//! the arena quadtree that a gravity simulation rebuilds every step, and the
//! walk that gathers the terms of the force sum at a point.
pub mod grid;
pub mod partition;
pub mod quadtree;
pub mod walk;
