//! Procedural generation of a fixed-size 2D tile world: terrain bands, ore and
//! gem clusters, branching caves and non-overlapping camp footprints.

pub mod camp;
pub mod cave;
pub mod cluster;
pub mod grid;
pub mod rng;
pub mod tiles;
pub mod worldgen;
