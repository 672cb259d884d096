//! Balls and their colours.

use crate::chance::random_below;
use vstd::prelude::*;

verus! {

/// The palette. Every ball has exactly one of these colours.
#[derive(Debug, Copy, Clone, PartialEq, Eq, Structural)]
pub enum BallColor {
    Red,
    Blue,
    Yellow,
    Green,
    Brown,
}

/// A ball: an identity, unique on its board, and a colour.
#[derive(Debug, Copy, Clone, PartialEq, Eq, Structural)]
pub struct Ball {
    pub id: u32,
    pub color: BallColor,
}

impl Ball {
    pub fn new(id: u32, color: BallColor) -> (ball: Self)
        ensures
            ball == (Ball { id, color }),
    {
        Self { id, color }
    }
}

/// Number of colours in the palette.
pub const PALETTE_SIZE: usize = 5;

impl BallColor {
    /// Position of a colour in the palette.
    pub open spec fn index(self) -> int {
        match self {
            BallColor::Red => 0,
            BallColor::Blue => 1,
            BallColor::Yellow => 2,
            BallColor::Green => 3,
            BallColor::Brown => 4,
        }
    }

    /// The colour at position `i` of the palette.
    pub fn from_index(i: usize) -> (color: Self)
        requires
            i < PALETTE_SIZE,
        ensures
            color.index() == i,
    {
        if i == 0 {
            BallColor::Red
        } else if i == 1 {
            BallColor::Blue
        } else if i == 2 {
            BallColor::Yellow
        } else if i == 3 {
            BallColor::Green
        } else {
            BallColor::Brown
        }
    }

    /// A colour drawn at random from the palette. Nothing is promised of
    /// which one: every colour is a possible outcome.
    pub fn random_color() -> Self {
        let i: usize = random_below(PALETTE_SIZE);
        Self::from_index(i)
    }
}

} // verus!
