//! A snake game engine: vote-based direction choice, wrap-around movement,
//! self-collision detection, growth on fruit and random fruit spawning.
pub mod common;
pub mod engine;
pub mod grid;
mod random;
