//! The phases of a game: four hands, each passing (except keeper), charging and playing.
use crate::seat::Seat;
use crate::types::ChargingRules;
use vstd::prelude::*;

verus! {

#[derive(Clone, Copy, Debug, PartialEq, Eq, Hash, Structural)]
pub enum GamePhase {
    PassLeft,
    ChargeLeft,
    PlayLeft,
    PassRight,
    ChargeRight,
    PlayRight,
    PassAcross,
    ChargeAcross,
    PlayAcross,
    ChargeKeeper1,
    PassKeeper,
    ChargeKeeper2,
    PlayKeeper,
    Complete,
}

impl GamePhase {
    pub open spec fn spec_idx(self) -> u8 {
        match self {
            GamePhase::PassLeft => 0,
            GamePhase::ChargeLeft => 1,
            GamePhase::PlayLeft => 2,
            GamePhase::PassRight => 3,
            GamePhase::ChargeRight => 4,
            GamePhase::PlayRight => 5,
            GamePhase::PassAcross => 6,
            GamePhase::ChargeAcross => 7,
            GamePhase::PlayAcross => 8,
            GamePhase::ChargeKeeper1 => 9,
            GamePhase::PassKeeper => 10,
            GamePhase::ChargeKeeper2 => 11,
            GamePhase::PlayKeeper => 12,
            GamePhase::Complete => 13,
        }
    }

    /// The phase that follows this one. In the keeper hand cards are passed only when
    /// nobody charged in the first round of charging.
    pub open spec fn spec_next(self, charged: bool) -> GamePhase {
        match self {
            GamePhase::PassLeft => GamePhase::ChargeLeft,
            GamePhase::ChargeLeft => GamePhase::PlayLeft,
            GamePhase::PlayLeft => GamePhase::PassRight,
            GamePhase::PassRight => GamePhase::ChargeRight,
            GamePhase::ChargeRight => GamePhase::PlayRight,
            GamePhase::PlayRight => GamePhase::PassAcross,
            GamePhase::PassAcross => GamePhase::ChargeAcross,
            GamePhase::ChargeAcross => GamePhase::PlayAcross,
            GamePhase::PlayAcross => GamePhase::ChargeKeeper1,
            GamePhase::ChargeKeeper1 => if charged {
                GamePhase::PlayKeeper
            } else {
                GamePhase::PassKeeper
            },
            GamePhase::PassKeeper => GamePhase::ChargeKeeper2,
            GamePhase::ChargeKeeper2 => GamePhase::PlayKeeper,
            GamePhase::PlayKeeper => GamePhase::Complete,
            GamePhase::Complete => GamePhase::Complete,
        }
    }

    pub open spec fn spec_is_passing(self) -> bool {
        self == GamePhase::PassLeft || self == GamePhase::PassRight || self
            == GamePhase::PassAcross || self == GamePhase::PassKeeper
    }

    pub open spec fn spec_is_charging(self) -> bool {
        self == GamePhase::ChargeLeft || self == GamePhase::ChargeRight || self
            == GamePhase::ChargeAcross || self == GamePhase::ChargeKeeper1 || self
            == GamePhase::ChargeKeeper2
    }

    pub open spec fn spec_is_playing(self) -> bool {
        self == GamePhase::PlayLeft || self == GamePhase::PlayRight || self
            == GamePhase::PlayAcross || self == GamePhase::PlayKeeper
    }

    /// How far to the left cards are passed in this phase's hand (none in the keeper hand).
    pub open spec fn pass_offset(self) -> u8 {
        if self.spec_idx() < 3 {
            1
        } else if self.spec_idx() < 6 {
            3
        } else if self.spec_idx() < 9 {
            2
        } else {
            0
        }
    }

    /// Who charges first when charges go around the table: the player who passes first.
    pub open spec fn spec_first_charger(self, rules: ChargingRules) -> Option<Seat> {
        if rules.spec_free() {
            None
        } else if self.spec_idx() < 3 {
            Some(Seat::North)
        } else if self.spec_idx() < 6 {
            Some(Seat::East)
        } else if self.spec_idx() < 9 {
            Some(Seat::South)
        } else {
            Some(Seat::West)
        }
    }

    pub fn next(&self, charged: bool) -> (r: GamePhase)
        requires
            *self != GamePhase::Complete,
        ensures
            r == self.spec_next(charged),
    {
        match self {
            GamePhase::PassLeft => GamePhase::ChargeLeft,
            GamePhase::ChargeLeft => GamePhase::PlayLeft,
            GamePhase::PlayLeft => GamePhase::PassRight,
            GamePhase::PassRight => GamePhase::ChargeRight,
            GamePhase::ChargeRight => GamePhase::PlayRight,
            GamePhase::PlayRight => GamePhase::PassAcross,
            GamePhase::PassAcross => GamePhase::ChargeAcross,
            GamePhase::ChargeAcross => GamePhase::PlayAcross,
            GamePhase::PlayAcross => GamePhase::ChargeKeeper1,
            GamePhase::ChargeKeeper1 => if charged {
                GamePhase::PlayKeeper
            } else {
                GamePhase::PassKeeper
            },
            GamePhase::PassKeeper => GamePhase::ChargeKeeper2,
            GamePhase::ChargeKeeper2 => GamePhase::PlayKeeper,
            GamePhase::PlayKeeper => GamePhase::Complete,
            GamePhase::Complete => GamePhase::Complete,
        }
    }

    pub fn is_complete(&self) -> (r: bool)
        ensures
            r == (*self == GamePhase::Complete),
    {
        match self {
            GamePhase::Complete => true,
            _ => false,
        }
    }

    pub fn is_passing(&self) -> (r: bool)
        ensures
            r == self.spec_is_passing(),
    {
        match self {
            GamePhase::PassLeft | GamePhase::PassRight | GamePhase::PassAcross
            | GamePhase::PassKeeper => true,
            _ => false,
        }
    }

    pub fn is_charging(&self) -> (r: bool)
        ensures
            r == self.spec_is_charging(),
    {
        match self {
            GamePhase::ChargeLeft | GamePhase::ChargeRight | GamePhase::ChargeAcross
            | GamePhase::ChargeKeeper1 | GamePhase::ChargeKeeper2 => true,
            _ => false,
        }
    }

    pub fn is_playing(&self) -> (r: bool)
        ensures
            r == self.spec_is_playing(),
    {
        match self {
            GamePhase::PlayLeft | GamePhase::PlayRight | GamePhase::PlayAcross
            | GamePhase::PlayKeeper => true,
            _ => false,
        }
    }

    pub fn first_charger(&self, rules: ChargingRules) -> (r: Option<Seat>)
        ensures
            r == self.spec_first_charger(rules),
    {
        if rules.free() {
            return None;
        }
        Some(
            match self {
                GamePhase::PassLeft | GamePhase::ChargeLeft | GamePhase::PlayLeft => Seat::North,
                GamePhase::PassRight | GamePhase::ChargeRight | GamePhase::PlayRight => Seat::East,
                GamePhase::PassAcross | GamePhase::ChargeAcross | GamePhase::PlayAcross => {
                    Seat::South
                },
                _ => Seat::West,
            },
        )
    }

    /// Who receives the cards that `seat` passes in this phase's hand.
    pub fn pass_receiver(&self, seat: Seat) -> (r: Seat)
        ensures
            r == seat.turn(self.pass_offset()),
    {
        match self {
            GamePhase::PassLeft | GamePhase::ChargeLeft | GamePhase::PlayLeft => seat.left(),
            GamePhase::PassRight | GamePhase::ChargeRight | GamePhase::PlayRight => seat.right(),
            GamePhase::PassAcross | GamePhase::ChargeAcross | GamePhase::PlayAcross => {
                seat.across()
            },
            _ => seat,
        }
    }

    /// Who passes cards to `seat` in this phase's hand: the seat as far to the right as cards
    /// go to the left.
    pub open spec fn spec_pass_sender(self, seat: Seat) -> Seat {
        if self.spec_idx() < 3 {
            seat.turn(3)
        } else if self.spec_idx() < 6 {
            seat.turn(1)
        } else if self.spec_idx() < 9 {
            seat.turn(2)
        } else {
            seat
        }
    }

    /// Who passes cards to `seat` in this phase's hand.
    pub fn pass_sender(&self, seat: Seat) -> (r: Seat)
        ensures
            r.turn(self.pass_offset()) == seat,
            r == self.spec_pass_sender(seat),
    {
        match self {
            GamePhase::PassLeft | GamePhase::ChargeLeft | GamePhase::PlayLeft => seat.right(),
            GamePhase::PassRight | GamePhase::ChargeRight | GamePhase::PlayRight => seat.left(),
            GamePhase::PassAcross | GamePhase::ChargeAcross | GamePhase::PlayAcross => {
                seat.across()
            },
            _ => seat,
        }
    }
}

/// In the keeper hand the cards are passed only when nobody charged in the first round of
/// charging: after it, play starts at once exactly when something was charged, and the pass
/// comes exactly when nothing was.
pub proof fn lemma_keeper_pass_only_uncharged(charged: bool)
    ensures
        (GamePhase::ChargeKeeper1.spec_next(charged) == GamePhase::PlayKeeper) == charged,
        (GamePhase::ChargeKeeper1.spec_next(charged) == GamePhase::PassKeeper) == !charged,
{
}

/// A hand goes from passing to charging to playing, and then on to the next hand: every passing
/// phase leads to charging, every charging phase but the first of the keeper hand to playing,
/// every playing phase but the keeper hand's to the next hand's passing (or, before the keeper
/// hand, its first charging), and the keeper hand's play ends the game.
pub proof fn lemma_phase_order(phase: GamePhase, charged: bool)
    ensures
        phase.spec_is_passing() ==> phase.spec_next(charged).spec_is_charging(),
        phase.spec_is_charging() && phase != GamePhase::ChargeKeeper1 ==> phase.spec_next(
            charged,
        ).spec_is_playing(),
        phase.spec_is_playing() && phase != GamePhase::PlayKeeper ==> phase.spec_next(
            charged,
        ).spec_is_passing() || phase.spec_next(charged) == GamePhase::ChargeKeeper1,
        phase == GamePhase::PlayKeeper ==> phase.spec_next(charged) == GamePhase::Complete,
{
}

} // verus!
