//! The whole game state.

use vstd::prelude::*;

use crate::game::team::Team;
use crate::game::{Hand, Player, Position};

verus! {

/// The teams in play.
pub struct Game {
    pub teams: Vec<Team>,
}

impl Game {
    /// A fresh game: one team holding its single starting player.
    pub fn new() -> (r: Self)
        ensures
            r.teams@.len() == 1,
            r.teams@[0].players@.len() == 1,
            r.teams@[0].players@[0].name@ == "muhagal"@,
            r.teams@[0].players@[0].position == Position::Forward,
            r.teams@[0].players@[0].hand == Hand::Right,
            r.teams@[0].players@[0].cost == 100,
    {
        let player = Player {
            name: "muhagal".to_owned(),
            position: Position::Forward,
            hand: Hand::Right,
            cost: 100,
        };
        let mut players: Vec<Player> = Vec::new();
        players.push(player);
        let team = Team { players };
        let mut teams: Vec<Team> = Vec::new();
        teams.push(team);
        Game { teams }
    }
}

} // verus!
