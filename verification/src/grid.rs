//! The playfield grid: cell-aligned positions, movement directions, and
//! one-cell steps with wraparound at the playfield bounds.

use vstd::prelude::*;
use crate::{RECT_SIZE, SCREEN_SIZE};

verus! {

/// Error returned when a key does not map to a movement direction.
#[derive(Debug, Clone, Copy, PartialEq, Eq, Structural)]
pub enum ConversionError {
    InvalidKey,
}

/// One of the four movement directions of the snake.
#[derive(Debug, Clone, Copy, PartialEq, Eq, Structural)]
pub enum Direction {
    Up,
    Down,
    Left,
    Right,
}

/// A named key command from the input surface. Keys that the game does not
/// map to any action arrive as `Other`.
#[derive(Debug, Clone, Copy, PartialEq, Eq, Structural)]
pub enum Key {
    Up,
    Down,
    Left,
    Right,
    R,
    S,
    M,
    Q,
    Escape,
    Other,
}

/// The direction a key stands for, if any.
pub open spec fn key_direction(key: Key) -> Option<Direction> {
    match key {
        Key::Up => Some(Direction::Up),
        Key::Down => Some(Direction::Down),
        Key::Left => Some(Direction::Left),
        Key::Right => Some(Direction::Right),
        _ => None,
    }
}

impl Direction {
    /// Maps an arrow key to its direction; every other key is rejected.
    pub fn try_from(key: Key) -> (r: Result<Direction, ConversionError>)
        ensures
            match r {
                Ok(d) => key_direction(key) == Some(d),
                Err(e) => key_direction(key) is None && e == ConversionError::InvalidKey,
            },
    {
        match key {
            Key::Up => Ok(Direction::Up),
            Key::Down => Ok(Direction::Down),
            Key::Left => Ok(Direction::Left),
            Key::Right => Ok(Direction::Right),
            _ => Err(ConversionError::InvalidKey),
        }
    }
}

/// A position on the playfield, in screen units.
#[derive(Debug, Clone, Copy, PartialEq, Eq, Structural)]
pub struct Point {
    pub x: u32,
    pub y: u32,
}

/// A coordinate lies on the playfield and on the cell grid.
pub open spec fn coord_ok(c: u32) -> bool {
    c < SCREEN_SIZE && c % RECT_SIZE == 0
}

/// A coordinate one cell further in the increasing direction, wrapped at the
/// playfield bound.
pub open spec fn wrap_add(c: u32) -> u32 {
    if c + RECT_SIZE < SCREEN_SIZE {
        (c + RECT_SIZE) as u32
    } else {
        (c + RECT_SIZE - SCREEN_SIZE) as u32
    }
}

/// A coordinate one cell further in the decreasing direction, wrapped at the
/// playfield bound.
pub open spec fn wrap_sub(c: u32) -> u32 {
    if c >= RECT_SIZE {
        (c - RECT_SIZE) as u32
    } else {
        (c + SCREEN_SIZE - RECT_SIZE) as u32
    }
}

/// The position one cell away from `p` in direction `d`, with wraparound.
pub open spec fn moved(p: Point, d: Direction) -> Point {
    match d {
        Direction::Up => Point { x: p.x, y: wrap_sub(p.y) },
        Direction::Down => Point { x: p.x, y: wrap_add(p.y) },
        Direction::Left => Point { x: wrap_sub(p.x), y: p.y },
        Direction::Right => Point { x: wrap_add(p.x), y: p.y },
    }
}

impl Point {
    /// Whether the position lies on the playfield and on the cell grid.
    pub open spec fn wf(self) -> bool {
        coord_ok(self.x) && coord_ok(self.y)
    }

    /// The centre of the playfield, where the snake starts.
    pub fn new() -> (p: Point)
        ensures
            p.wf(),
            p.x == 400,
            p.y == 400,
    {
        let center: u32 = SCREEN_SIZE / 2;
        Point { x: center, y: center }
    }

    /// Steps one cell in the given direction, wrapping at the playfield
    /// bounds, so that both coordinates stay within `[0, SCREEN_SIZE)`.
    pub fn update(&mut self, direction: Direction)
        requires
            old(self).x < SCREEN_SIZE,
            old(self).y < SCREEN_SIZE,
        ensures
            *final(self) == moved(*old(self), direction),
            final(self).x < SCREEN_SIZE,
            final(self).y < SCREEN_SIZE,
    {
        match direction {
            Direction::Up => {
                if self.y >= RECT_SIZE {
                    self.y = self.y - RECT_SIZE;
                } else {
                    self.y = self.y + SCREEN_SIZE - RECT_SIZE;
                }
            },
            Direction::Down => {
                if self.y + RECT_SIZE < SCREEN_SIZE {
                    self.y = self.y + RECT_SIZE;
                } else {
                    self.y = self.y + RECT_SIZE - SCREEN_SIZE;
                }
            },
            Direction::Left => {
                if self.x >= RECT_SIZE {
                    self.x = self.x - RECT_SIZE;
                } else {
                    self.x = self.x + SCREEN_SIZE - RECT_SIZE;
                }
            },
            Direction::Right => {
                if self.x + RECT_SIZE < SCREEN_SIZE {
                    self.x = self.x + RECT_SIZE;
                } else {
                    self.x = self.x + RECT_SIZE - SCREEN_SIZE;
                }
            },
        }
    }
}

/// Stepping from any playfield position, in any direction, lands on a
/// playfield position: both coordinates of the moved point lie in
/// `[0, SCREEN_SIZE)`, and a grid-aligned point stays grid-aligned.
pub proof fn lemma_moved_in_bounds(p: Point, d: Direction)
    requires
        p.x < SCREEN_SIZE,
        p.y < SCREEN_SIZE,
    ensures
        moved(p, d).x < SCREEN_SIZE,
        moved(p, d).y < SCREEN_SIZE,
        p.wf() ==> moved(p, d).wf(),
{
}

} // verus!
