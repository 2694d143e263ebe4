//! Verified core of a LEO constellation visualizer: torus routing,
//! graph search, work assignment for in-orbit computing, slide decks and
//! small raster helpers.

pub mod torus;
pub mod routing;
pub mod grid;
pub mod graph;
pub mod bfs;
pub mod slides;
pub mod spacecomp;
pub mod projection;
pub mod igrf;
pub mod raster;
pub mod geo;
pub mod lapjv;
pub mod hashing;
pub mod cameras;
