//! The player domain type: an external collaborator of the engine that can
//! present itself as a button.

use vstd::prelude::*;

use crate::engine::{Button, ButtonBuilder, ToButton};

verus! {

/// A football player record.
pub struct Player {
    pub name: String,
    pub position: Position,
    pub hand: Hand,
    pub cost: u32,
}

/// The position a player plays in.
#[derive(Clone, Copy, Debug, PartialEq, Eq, Structural)]
pub enum Position {
    Goalkeeper,
    Defender,
    Halfback,
    Forward,
}

/// The hand a player favours.
#[derive(Clone, Copy, Debug, PartialEq, Eq, Structural)]
pub enum Hand {
    Left,
    Right,
}

impl Player {
    /// Bundle the fields into a player record.
    pub fn new(name: String, position: Position, hand: Hand, cost: u32) -> (r: Self)
        ensures
            r.name@ == name@,
            r.position == position,
            r.hand == hand,
            r.cost == cost,
    {
        Player { name, position, hand, cost }
    }
}

impl<J> ToButton<J> for Player {
    /// An unselected button labelled with the player's name, wearing the
    /// default decoration pair and carrying the given transition callback.
    fn to_button(&self, jump: J) -> (r: Button<J>)
        ensures
            r.text@ == self.name@,
            r.tag.0@ == ">"@,
            r.tag.1@ == "<"@,
            r.tagged == false,
            r.jump == Some(jump),
    {
        ButtonBuilder::new(self.name.as_str()).jump(jump).build()
    }
}

} // verus!
