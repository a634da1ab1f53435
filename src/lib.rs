//! A flock of agents whose motion comes from local separation, alignment,
//! cohesion and colour rules, with a region quadtree for neighbour search.
//!
//! All quantities are integers: positions in thousandths of a pixel, velocities
//! in thousandths of a pixel per second, time steps in microseconds, colour
//! channels out of 1024.
pub mod boid;
pub mod fixed;
pub mod flock;
pub mod geom;
pub mod quadtree;
