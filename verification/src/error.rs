//! Why a request to the game or the lobby is refused.
use crate::cards::Cards;
use crate::ids::{GameId, UserId};
use crate::phase::GamePhase;
use crate::types::PassDirection;
use vstd::prelude::*;

verus! {

#[derive(Clone, Debug, PartialEq, Eq)]
pub enum CardsError {
    AlreadyAcceptedClaim(UserId, UserId),
    AlreadyCharged(Cards),
    AlreadyClaiming(UserId),
    AlreadyPassed(Cards),
    GameComplete(GameId),
    GameHasStarted(GameId),
    HeartsNotBroken,
    IllegalAction(&'static str, GamePhase),
    IllegalPassSize(Cards),
    IncompleteHand(GameId, PassDirection),
    InvalidPlayer(UserId, GameId),
    NoChargeOnFirstTrickOfSuit,
    NoPointsOnFirstTrick,
    NotClaiming(UserId),
    NotEnoughPlayers,
    NotYourCards(Cards),
    NotYourTurn(UserId, &'static str),
    MustPlayJackOfDiamonds,
    MustPlayQueenOfSpades,
    MustPlayTwoOfClubs,
    MustFollowSuit,
    Unchargeable(Cards),
    UnknownAuthToken(String),
    UnknownGame(GameId),
    UnknownHand(GameId, PassDirection),
}

impl CardsError {
    /// The HTTP status that answers a request refused for this reason: not found for an
    /// unknown game, unauthorized for an unknown sign-in token, and a bad request otherwise.
    pub fn status_code(&self) -> (r: u16)
        ensures
            r == match *self {
                CardsError::UnknownGame(_) => 404u16,
                CardsError::UnknownAuthToken(_) => 401u16,
                _ => 400u16,
            },
    {
        match self {
            CardsError::UnknownGame(_) => 404,
            CardsError::UnknownAuthToken(_) => 401,
            _ => 400,
        }
    }
}

} // verus!
