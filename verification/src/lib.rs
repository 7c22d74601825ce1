//! A small grid-based snake game: cell-aligned movement with wraparound,
//! self-collision and apple-consumption checks, score tracking, and a
//! persistent high-score table serialized as a flat JSON object.

use vstd::prelude::*;

pub mod codec;
pub mod entities;
pub mod game;
pub mod grid;
pub mod score;

verus! {

/// Side length of one grid cell, in screen units.
pub const RECT_SIZE: u32 = 40;

/// Side length of the square playfield, in screen units.
pub const SCREEN_SIZE: u32 = 800;

/// Delay between two simulation ticks, in milliseconds.
pub const SLEEP_TIME: u32 = 100;

} // verus!
