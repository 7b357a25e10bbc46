//! The players of a game: people and bots.
use crate::ids::UserId;
use crate::seat::Seat;
use crate::types::ChargingRules;
use vstd::prelude::*;

verus! {

/// How a bot chooses its passes, charges and plays.
#[derive(Clone, Copy, Debug, PartialEq, Eq, Hash, Structural)]
pub enum BotStrategy {
    Duck,
    GottaTry,
    Heuristic,
    Random,
    Simulate,
}

#[derive(Clone, Copy, Debug, PartialEq, Eq, Hash, Structural)]
pub enum Player {
    Human { user_id: UserId },
    Bot { user_id: UserId, strategy: BotStrategy },
}

/// A player joining a game, with the charging rules they propose and the seat they ask for.
#[derive(Clone, Copy, Debug, PartialEq, Eq, Hash, Structural)]
pub struct PlayerWithOptions {
    pub player: Player,
    pub rules: ChargingRules,
    pub seat: Option<Seat>,
}

impl Player {
    pub open spec fn spec_user_id(self) -> UserId {
        match self {
            Player::Human { user_id } => user_id,
            Player::Bot { user_id, .. } => user_id,
        }
    }

    pub fn user_id(&self) -> (r: UserId)
        ensures
            r == self.spec_user_id(),
    {
        match self {
            Player::Human { user_id } => *user_id,
            Player::Bot { user_id, .. } => *user_id,
        }
    }

    pub fn strategy(&self) -> (r: Option<BotStrategy>)
        ensures
            r == match *self {
                Player::Bot { strategy, .. } => Some(strategy),
                _ => None,
            },
    {
        match self {
            Player::Bot { strategy, .. } => Some(*strategy),
            _ => None,
        }
    }
}

} // verus!
