//! A randomized perfect-maze generator over a rectangular grid of cells,
//! with the wall queries that a renderer and a collision step read.

pub mod cfile;
pub mod graph;
mod growth;
pub mod laws;
pub mod mazegen;
mod rng;
