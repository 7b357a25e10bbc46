//! The events of a game, as they are stored and sent to subscribers.
use crate::cards::Cards;
use crate::cards::Card;
use crate::ids::UserId;
use crate::player::Player;
use crate::seat::Seat;
use crate::seed::Seed;
use crate::types::{ChargingRules, PassDirection};
use vstd::prelude::*;

verus! {

#[allow(inconsistent_fields)]
#[derive(Debug, PartialEq, Eq)]
pub enum GameEvent {
    Ping,
    EndReplay,
    Chat { user_id: UserId, message: String },
    Sit {
        north: Player,
        east: Player,
        south: Player,
        west: Player,
        rules: ChargingRules,
        created_time: i64,
        created_by: UserId,
        seed: Seed,
    },
    Deal { north: Cards, east: Cards, south: Cards, west: Cards, pass: PassDirection },
    StartPassing,
    PassStatus { north_done: bool, east_done: bool, south_done: bool, west_done: bool },
    SendPass { from: Seat, cards: Cards },
    RecvPass { to: Seat, cards: Cards },
    StartCharging,
    ChargeStatus {
        next_charger: Option<Seat>,
        north_done: bool,
        east_done: bool,
        south_done: bool,
        west_done: bool,
    },
    BlindCharge { seat: Seat, count: usize },
    Charge { seat: Seat, cards: Cards },
    RevealCharges { north: Cards, east: Cards, south: Cards, west: Cards },
    Play { seat: Seat, card: Card },
    PlayStatus { next_player: Seat, legal_plays: Cards },
    StartTrick { leader: Seat },
    EndTrick { winner: Seat },
    Claim { seat: Seat, hand: Cards },
    AcceptClaim { claimer: Seat, acceptor: Seat },
    RejectClaim { claimer: Seat, rejector: Seat },
    HandComplete { north_score: i16, east_score: i16, south_score: i16, west_score: i16 },
    GameComplete { seed: Seed },
}

impl Clone for GameEvent {
    fn clone(&self) -> (r: Self)
        ensures
            r == *self,
    {
        match self {
            GameEvent::Ping => GameEvent::Ping,
            GameEvent::EndReplay => GameEvent::EndReplay,
            GameEvent::Chat { user_id, message } => GameEvent::Chat {
                user_id: *user_id,
                message: message.clone(),
            },
            GameEvent::Sit { north, east, south, west, rules, created_time, created_by, seed } => {
                GameEvent::Sit {
                    north: *north,
                    east: *east,
                    south: *south,
                    west: *west,
                    rules: *rules,
                    created_time: *created_time,
                    created_by: *created_by,
                    seed: seed.clone(),
                }
            },
            GameEvent::Deal { north, east, south, west, pass } => GameEvent::Deal {
                north: *north,
                east: *east,
                south: *south,
                west: *west,
                pass: *pass,
            },
            GameEvent::StartPassing => GameEvent::StartPassing,
            GameEvent::PassStatus { north_done, east_done, south_done, west_done } => {
                GameEvent::PassStatus {
                    north_done: *north_done,
                    east_done: *east_done,
                    south_done: *south_done,
                    west_done: *west_done,
                }
            },
            GameEvent::SendPass { from, cards } => GameEvent::SendPass { from: *from, cards: *cards },
            GameEvent::RecvPass { to, cards } => GameEvent::RecvPass { to: *to, cards: *cards },
            GameEvent::StartCharging => GameEvent::StartCharging,
            GameEvent::ChargeStatus { next_charger, north_done, east_done, south_done, west_done } => {
                GameEvent::ChargeStatus {
                    next_charger: *next_charger,
                    north_done: *north_done,
                    east_done: *east_done,
                    south_done: *south_done,
                    west_done: *west_done,
                }
            },
            GameEvent::BlindCharge { seat, count } => GameEvent::BlindCharge {
                seat: *seat,
                count: *count,
            },
            GameEvent::Charge { seat, cards } => GameEvent::Charge { seat: *seat, cards: *cards },
            GameEvent::RevealCharges { north, east, south, west } => GameEvent::RevealCharges {
                north: *north,
                east: *east,
                south: *south,
                west: *west,
            },
            GameEvent::Play { seat, card } => GameEvent::Play { seat: *seat, card: *card },
            GameEvent::PlayStatus { next_player, legal_plays } => GameEvent::PlayStatus {
                next_player: *next_player,
                legal_plays: *legal_plays,
            },
            GameEvent::StartTrick { leader } => GameEvent::StartTrick { leader: *leader },
            GameEvent::EndTrick { winner } => GameEvent::EndTrick { winner: *winner },
            GameEvent::Claim { seat, hand } => GameEvent::Claim { seat: *seat, hand: *hand },
            GameEvent::AcceptClaim { claimer, acceptor } => GameEvent::AcceptClaim {
                claimer: *claimer,
                acceptor: *acceptor,
            },
            GameEvent::RejectClaim { claimer, rejector } => GameEvent::RejectClaim {
                claimer: *claimer,
                rejector: *rejector,
            },
            GameEvent::HandComplete { north_score, east_score, south_score, west_score } => {
                GameEvent::HandComplete {
                    north_score: *north_score,
                    east_score: *east_score,
                    south_score: *south_score,
                    west_score: *west_score,
                }
            },
            GameEvent::GameComplete { seed } => GameEvent::GameComplete { seed: seed.clone() },
        }
    }
}

/// The deal as `seat` sees it: only its own hand.
pub open spec fn deal_for(
    seat: Seat,
    north: Cards,
    east: Cards,
    south: Cards,
    west: Cards,
    pass: PassDirection,
) -> GameEvent {
    GameEvent::Deal {
        north: if seat == Seat::North { north } else { Cards { bits: 0 } },
        east: if seat == Seat::East { east } else { Cards { bits: 0 } },
        south: if seat == Seat::South { south } else { Cards { bits: 0 } },
        west: if seat == Seat::West { west } else { Cards { bits: 0 } },
        pass,
    }
}

impl GameEvent {
    /// The event as the player in `seat` may see it (`None`: an onlooker, who sees everything
    /// but a random seed). Players see only their own hand and passes, the cards of a blind
    /// charge only when it is their own, and legal plays only when it is their turn.
    pub open spec fn spec_redact(self, seat: Option<Seat>, rules: ChargingRules) -> GameEvent {
        match self {
            GameEvent::Sit { north, east, south, west, rules, created_time, created_by, seed } => {
                GameEvent::Sit {
                    north,
                    east,
                    south,
                    west,
                    rules,
                    created_time,
                    created_by,
                    seed: seed.spec_redact(),
                }
            },
            GameEvent::Deal { north, east, south, west, pass } => match seat {
                Some(s) => deal_for(s, north, east, south, west, pass),
                None => self,
            },
            GameEvent::SendPass { from, cards } => match seat {
                Some(s) if s != from => GameEvent::SendPass { from, cards: Cards { bits: 0 } },
                _ => self,
            },
            GameEvent::RecvPass { to, cards } => match seat {
                Some(s) if s != to => GameEvent::RecvPass { to, cards: Cards { bits: 0 } },
                _ => self,
            },
            GameEvent::Charge { seat: charger, cards } => match seat {
                Some(s) if charger != s && rules.spec_blind() => GameEvent::BlindCharge {
                    seat: charger,
                    count: cards.spec_len() as usize,
                },
                _ => self,
            },
            GameEvent::PlayStatus { next_player, legal_plays } => match seat {
                Some(s) if s != next_player => GameEvent::PlayStatus {
                    next_player,
                    legal_plays: Cards { bits: 0 },
                },
                _ => self,
            },
            _ => self,
        }
    }

    pub fn redact(&self, seat: Option<Seat>, rules: ChargingRules) -> (r: GameEvent)
        ensures
            r == self.spec_redact(seat, rules),
    {
        match self {
            GameEvent::Sit { north, east, south, west, rules, created_time, created_by, seed } => {
                GameEvent::Sit {
                    north: *north,
                    east: *east,
                    south: *south,
                    west: *west,
                    rules: *rules,
                    created_time: *created_time,
                    created_by: *created_by,
                    seed: seed.redact(),
                }
            },
            GameEvent::Deal { north, east, south, west, pass } => match seat {
                Some(Seat::North) => GameEvent::Deal {
                    north: *north,
                    east: Cards::none(),
                    south: Cards::none(),
                    west: Cards::none(),
                    pass: *pass,
                },
                Some(Seat::East) => GameEvent::Deal {
                    north: Cards::none(),
                    east: *east,
                    south: Cards::none(),
                    west: Cards::none(),
                    pass: *pass,
                },
                Some(Seat::South) => GameEvent::Deal {
                    north: Cards::none(),
                    east: Cards::none(),
                    south: *south,
                    west: Cards::none(),
                    pass: *pass,
                },
                Some(Seat::West) => GameEvent::Deal {
                    north: Cards::none(),
                    east: Cards::none(),
                    south: Cards::none(),
                    west: *west,
                    pass: *pass,
                },
                None => self.clone(),
            },
            GameEvent::SendPass { from, cards: _ } => match seat {
                Some(seat) if seat != *from => GameEvent::SendPass {
                    from: *from,
                    cards: Cards::none(),
                },
                _ => self.clone(),
            },
            GameEvent::RecvPass { to, cards: _ } => match seat {
                Some(seat) if seat != *to => GameEvent::RecvPass { to: *to, cards: Cards::none() },
                _ => self.clone(),
            },
            GameEvent::Charge { seat: s, cards } => match seat {
                Some(seat) if *s != seat && rules.blind() => GameEvent::BlindCharge {
                    seat: *s,
                    count: cards.len(),
                },
                _ => self.clone(),
            },
            GameEvent::PlayStatus { next_player, .. } => match seat {
                Some(seat) if seat != *next_player => GameEvent::PlayStatus {
                    next_player: *next_player,
                    legal_plays: Cards::none(),
                },
                _ => self.clone(),
            },
            _ => self.clone(),
        }
    }

    /// An announcement that the game makes of its own accord, as opposed to a stored event:
    /// the start of passing, charging or a trick, the status of charging, the reveal of blind
    /// charges, whose turn it is to play, and the end of a trick.
    pub open spec fn is_notice(self) -> bool {
        ||| self is StartPassing
        ||| self is PassStatus
        ||| self is StartCharging
        ||| self is ChargeStatus
        ||| self is RevealCharges
        ||| self is StartTrick
        ||| self is PlayStatus
        ||| self is EndTrick
        ||| self is HandComplete
        ||| self is GameComplete
    }

    /// Whether the announcement `self`, which is not the end of the game, is the event
    /// `other`.
    pub fn same_notice(&self, other: &GameEvent) -> (r: bool)
        requires
            self.is_notice(),
            !(self is GameComplete),
        ensures
            r == (*self == *other),
    {
        match (self, other) {
            (GameEvent::StartPassing, GameEvent::StartPassing) => true,
            (
                GameEvent::PassStatus { north_done, east_done, south_done, west_done },
                GameEvent::PassStatus { north_done: a, east_done: b, south_done: c, west_done: d },
            ) => *north_done == *a && *east_done == *b && *south_done == *c && *west_done == *d,
            (
                GameEvent::HandComplete { north_score, east_score, south_score, west_score },
                GameEvent::HandComplete {
                    north_score: a,
                    east_score: b,
                    south_score: c,
                    west_score: d,
                },
            ) => *north_score == *a && *east_score == *b && *south_score == *c && *west_score
                == *d,
            (GameEvent::StartCharging, GameEvent::StartCharging) => true,
            (
                GameEvent::ChargeStatus { next_charger, north_done, east_done, south_done, west_done },
                GameEvent::ChargeStatus {
                    next_charger: n,
                    north_done: a,
                    east_done: b,
                    south_done: c,
                    west_done: d,
                },
            ) => {
                let same_charger = match (next_charger, n) {
                    (Some(x), Some(y)) => *x == *y,
                    (None, None) => true,
                    _ => false,
                };
                same_charger && *north_done == *a && *east_done == *b && *south_done == *c
                    && *west_done == *d
            },
            (
                GameEvent::RevealCharges { north, east, south, west },
                GameEvent::RevealCharges { north: a, east: b, south: c, west: d },
            ) => *north == *a && *east == *b && *south == *c && *west == *d,
            (GameEvent::StartTrick { leader }, GameEvent::StartTrick { leader: l }) => *leader == *l,
            (
                GameEvent::PlayStatus { next_player, legal_plays },
                GameEvent::PlayStatus { next_player: n, legal_plays: l },
            ) => *next_player == *n && *legal_plays == *l,
            (GameEvent::EndTrick { winner }, GameEvent::EndTrick { winner: w }) => *winner == *w,
            _ => false,
        }
    }

    pub fn is_hand_complete(&self) -> (r: bool)
        ensures
            r == (*self is HandComplete),
    {
        match self {
            GameEvent::HandComplete { .. } => true,
            _ => false,
        }
    }

    pub fn is_ping(&self) -> (r: bool)
        ensures
            r == (*self is Ping),
    {
        match self {
            GameEvent::Ping => true,
            _ => false,
        }
    }
}

/// What a player in `seat` is shown: its own hand of a deal and none of the others, the
/// cards of its own passes only, the cards of the others' charges only when charges are not
/// blind, and the legal plays only on its own turn.
pub proof fn lemma_player_view(event: GameEvent, seat: Seat, rules: ChargingRules)
    ensures
        event matches GameEvent::Deal { north, east, south, west, pass } ==> event.spec_redact(
            Some(seat),
            rules,
        ) == deal_for(seat, north, east, south, west, pass),
        event matches GameEvent::SendPass { from, cards } ==> event.spec_redact(Some(seat), rules)
            == (GameEvent::SendPass { from, cards: if from == seat { cards } else { Cards { bits: 0 } } }),
        event matches GameEvent::RecvPass { to, cards } ==> event.spec_redact(Some(seat), rules)
            == (GameEvent::RecvPass { to, cards: if to == seat { cards } else { Cards { bits: 0 } } }),
        event matches GameEvent::Charge { seat: charger, cards } ==> event.spec_redact(
            Some(seat),
            rules,
        ) == if charger != seat && rules.spec_blind() {
            GameEvent::BlindCharge { seat: charger, count: cards.spec_len() as usize }
        } else {
            event
        },
        event matches GameEvent::PlayStatus { next_player, legal_plays } ==> event.spec_redact(
            Some(seat),
            rules,
        ) == (GameEvent::PlayStatus {
            next_player,
            legal_plays: if next_player == seat { legal_plays } else { Cards { bits: 0 } },
        }),
{
}

/// An onlooker is shown every event as it is, but for the seed of a game dealt at random.
pub proof fn lemma_onlooker_view(event: GameEvent, rules: ChargingRules)
    ensures
        !(event is Sit) ==> event.spec_redact(None, rules) == event,
        event matches GameEvent::Sit { seed, .. } ==> event.spec_redact(None, rules) matches GameEvent::Sit {
            seed: shown,
            ..
        } && shown == seed.spec_redact(),
{
}

} // verus!
