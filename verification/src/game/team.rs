//! A team of players.

use vstd::prelude::*;

use crate::game::Player;

verus! {

/// A team: its players in roster order.
pub struct Team {
    pub players: Vec<Player>,
}

} // verus!
