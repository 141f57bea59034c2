//! The game domain: the state an embedding application navigates with the
//! engine. The engine itself never reads it.

use vstd::prelude::*;

pub mod game;
pub mod team;

verus! {

/// A football player record as the game state holds it.
pub struct Player {
    pub name: String,
    pub position: Position,
    pub hand: Hand,
    pub cost: u32,
}

/// The position a player plays in.
#[derive(Clone, Copy, Debug, PartialEq, Eq, Structural)]
pub enum Position {
    Goalkeeper,
    Defender,
    Halfback,
    Forward,
}

/// The hand a player favours.
#[derive(Clone, Copy, Debug, PartialEq, Eq, Structural)]
pub enum Hand {
    Left,
    Right,
}

} // verus!
