//! Flocking agents over a region quadtree, on fixed-point integer coordinates.
//!
//! Every length and coordinate is an integer in a fixed unit (`geometry::UNIT`
//! of them make one unit of the arena), so every rule is exact and proved.
pub mod boid;
pub mod geometry;
pub mod quadtree;
pub mod simulation;
pub mod vector;
pub mod vehicle;
