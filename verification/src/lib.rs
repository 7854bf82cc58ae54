//! A verified 2D flocking ("boids") simulation.
//!
//! A population of agents moves in a bounded, toroidally wrapped plane.
//! Each simulation tick every agent steers by three local rules computed
//! from its neighbors — separation, alignment and cohesion — then
//! integrates its velocity and position. All state is fixed-point integer
//! arithmetic (milliunits), so every step is deterministic and its result
//! is pinned exactly by the contracts.

pub mod boid;
pub mod boid_system;
mod rng;
pub mod vec2;
