//! Rules engine for a falling-block puzzle game: the playing grid, the active
//! piece, rotation with wall kicks, the seven-piece bag randomizer, locking,
//! and line clearing. Rendering, input handling and configuration live outside
//! this crate; the engine is driven purely through method calls.

pub mod rng;
pub mod rotations;
pub mod state;
