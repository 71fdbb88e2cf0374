//! A falling-sand cellular automaton: a toroidal occupancy grid with a
//! parallel RGBA buffer, and a per-tick physics step for static, solid and
//! liquid particles.
pub mod util;
pub mod grid;
pub mod physics;
pub mod world;
pub mod input;
pub mod render;
