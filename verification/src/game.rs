//! The state of a game: the flags of each step, the charges, the claims, the tricks; and a
//! game at the table, which checks each request against the rules before it becomes an event.
pub mod charge;
pub mod claim;
pub mod done;
pub mod event;
pub mod state;
pub mod trick;
pub mod won;

use crate::cards::{cards_of, desc_of, lemma_cards_of, Card, Cards, Suit};
use crate::error::CardsError;
use crate::game::event::GameEvent;
use crate::game::state::GameState;
use crate::ids::{GameId, UserId};
use crate::phase::GamePhase;
use crate::player::{Player, PlayerWithOptions};
use crate::seat::Seat;
use crate::seed::Seed;
use crate::seed::{
    deal_of, fresh_deck, is_full_deck, keeper_from, keeper_of, shuffled, word_pos_after, HashedSeed,
    WORD_POS_LIMIT,
};
use crate::types::PassDirection;
use vstd::prelude::*;

verus! {

/// A game at the table: who sits where, the seed of its deals (revealed when the game is
/// over), the hands dealt and the hands after passing, and the state of play.
pub struct Game {
    pub players: [UserId; 4],
    pub seed: Seed,
    pub pre_pass_hand: [Cards; 4],
    pub post_pass_hand: [Cards; 4],
    pub state: GameState,
}

/// The status of passing: who has sent a pass.
pub open spec fn pass_status(st: GameState) -> GameEvent {
    GameEvent::PassStatus {
        north_done: st.done.done(Seat::North),
        east_done: st.done.done(Seat::East),
        south_done: st.done.done(Seat::South),
        west_done: st.done.done(Seat::West),
    }
}

/// The score of `seat` for the hand played in `st`.
pub open spec fn hand_score(st: GameState, seat: Seat) -> i16 {
    st.won.spec_score(seat, st.charges.all_set()) as i16
}

/// The status of charging: who charges next (when charges go in turn) and who is done.
pub open spec fn charge_status(st: GameState) -> GameEvent {
    GameEvent::ChargeStatus {
        next_charger: st.next_actor,
        north_done: st.done.done(Seat::North),
        east_done: st.done.done(Seat::East),
        south_done: st.done.done(Seat::South),
        west_done: st.done.done(Seat::West),
    }
}

/// Whether `other` has sent its pass, or is `seat`.
fn seat_passed(st: &GameState, seat: Seat, other: Seat) -> (r: bool)
    ensures
        r == (st.done.done(other) || other == seat),
{
    other == seat || st.done.sent_pass(other)
}

/// The first seat, from north round to west, whose hand holds `card`.
pub open spec fn first_holder(hands: Seq<Cards>, card: Card) -> Option<Seat> {
    if hands[0]@.contains(card) {
        Some(Seat::North)
    } else if hands[1]@.contains(card) {
        Some(Seat::East)
    } else if hands[2]@.contains(card) {
        Some(Seat::South)
    } else if hands[3]@.contains(card) {
        Some(Seat::West)
    } else {
        None
    }
}

impl Game {
    pub open spec fn pre(self, seat: Seat) -> Cards {
        self.pre_pass_hand@[seat.spec_idx() as int]
    }

    pub open spec fn post(self, seat: Seat) -> Cards {
        self.post_pass_hand@[seat.spec_idx() as int]
    }

    /// Why `seat` may not pass `cards` now, if it may not.
    pub open spec fn pass_error(self, id: GameId, seat: Seat, cards: Cards) -> Option<CardsError> {
        let phase = self.state.phase;
        let pre = self.pre(seat);
        let passed = Cards { bits: pre.bits & !self.post(seat).bits };
        if phase == GamePhase::Complete {
            Some(CardsError::GameComplete(id))
        } else if !phase.spec_is_passing() {
            Some(CardsError::IllegalAction("pass", phase))
        } else if pre.bits != (pre.bits | cards.bits) {
            Some(CardsError::NotYourCards(Cards { bits: cards.bits & !pre.bits }))
        } else if cards.spec_len() != 3 {
            Some(CardsError::IllegalPassSize(cards))
        } else if passed.bits != 0 {
            Some(CardsError::AlreadyPassed(passed))
        } else {
            None
        }
    }

    /// Why `seat` may not charge `cards` now, if it may not.
    pub open spec fn charge_error(self, id: GameId, seat: Seat, cards: Cards) -> Option<
        CardsError,
    > {
        let phase = self.state.phase;
        let hand = self.post(seat);
        let charged = self.state.charges.seat_set(seat);
        if phase == GamePhase::Complete {
            Some(CardsError::GameComplete(id))
        } else if !phase.spec_is_charging() {
            Some(CardsError::IllegalAction("charge", phase))
        } else if hand.bits != (hand.bits | cards.bits) {
            Some(CardsError::NotYourCards(Cards { bits: cards.bits & !hand.bits }))
        } else if Cards::CHARGEABLE_BITS != (Cards::CHARGEABLE_BITS | cards.bits) {
            Some(CardsError::Unchargeable(Cards { bits: cards.bits & !Cards::CHARGEABLE_BITS }))
        } else if !charged.disjoint(cards@) {
            Some(CardsError::AlreadyCharged(cards_of(charged.intersect(cards@))))
        } else {
            match self.state.next_actor {
                Some(s) if s != seat => Some(
                    CardsError::NotYourTurn(self.players@[s.spec_idx() as int], "charge"),
                ),
                _ => None,
            }
        }
    }

    /// Why `seat` may not play `card` now, if it may not: the game must be in a play phase,
    /// the card in the hand and unplayed, and the turn the seat's. On the first trick the two
    /// of clubs must be played when held, and no points unless the hand holds nothing else, in
    /// which case the jack of diamonds, or else the queen of spades, must go. Suit must be
    /// followed, and a charged card of the suit may not be played on the first trick of the
    /// suit unless it is the only card of the suit held. Hearts may not be led before they are
    /// broken unless the hand holds only hearts, nor a charged card of a suit not yet led
    /// unless the hand holds nothing else.
    pub open spec fn play_error(self, id: GameId, seat: Seat, card: Card) -> Option<CardsError> {
        let st = self.state;
        let phase = st.phase;
        let plays = self.post(seat)@.difference(st.played@);
        let points = Cards::points_set();
        let hearts = Cards::suit_set(Suit::Hearts);
        let own_charges = st.charges.seat_set(seat);
        if phase == GamePhase::Complete {
            Some(CardsError::GameComplete(id))
        } else if !phase.spec_is_playing() {
            Some(CardsError::IllegalAction("play", phase))
        } else if !plays.contains(card) {
            Some(CardsError::NotYourCards(Cards { bits: 1u64 << card.spec_index() }))
        } else if st.next_actor != Some(seat) {
            Some(
                CardsError::NotYourTurn(
                    self.players@[st.next_actor.unwrap().spec_idx() as int],
                    "play",
                ),
            )
        } else if st.led_suits.bits == 0 && plays.contains(Card::TwoClubs) && card
            != Card::TwoClubs {
            Some(CardsError::MustPlayTwoOfClubs)
        } else if st.led_suits.bits == 0 && !plays.subset_of(points) && points.contains(card) {
            Some(CardsError::NoPointsOnFirstTrick)
        } else if st.led_suits.bits == 0 && plays.subset_of(points) && plays.contains(
            Card::JackDiamonds,
        ) && card != Card::JackDiamonds {
            Some(CardsError::MustPlayJackOfDiamonds)
        } else if st.led_suits.bits == 0 && plays.subset_of(points) && !plays.contains(
            Card::JackDiamonds,
        ) && plays.contains(Card::QueenSpades) && card != Card::QueenSpades {
            Some(CardsError::MustPlayQueenOfSpades)
        } else {
            let plays = if st.led_suits.bits == 0 && !plays.subset_of(points) {
                plays.difference(points)
            } else {
                plays
            };
            let trick = st.current_trick@;
            if trick.len() > 0 {
                let suit = trick[0].spec_suit();
                let in_suit = plays.intersect(Cards::suit_set(suit));
                if in_suit.is_empty() {
                    None
                } else if !in_suit.contains(card) {
                    Some(CardsError::MustFollowSuit)
                } else if !st.led_suits@.contains(suit) && in_suit.len() > 1 && own_charges.contains(
                    card,
                ) {
                    Some(CardsError::NoChargeOnFirstTrickOfSuit)
                } else {
                    None
                }
            } else {
                let broken = !st.played@.disjoint(hearts);
                if !broken && !plays.subset_of(hearts) && card.spec_suit() == Suit::Hearts {
                    Some(CardsError::HeartsNotBroken)
                } else {
                    let unled = own_charges.difference(
                        Set::new(|c: Card| st.led_suits@.contains(c.spec_suit())),
                    );
                    if !plays.subset_of(unled) && unled.contains(card) {
                        Some(CardsError::NoChargeOnFirstTrickOfSuit)
                    } else {
                        None
                    }
                }
            }
        }
    }

    pub open spec fn as_result(e: Option<CardsError>) -> Result<(), CardsError> {
        match e {
            Some(e) => Err(e),
            None => Ok(()),
        }
    }

    /// Checks that `seat` may pass `cards` now.
    pub fn verify_pass(&self, id: GameId, seat: Seat, cards: Cards) -> (r: Result<(), CardsError>)
        ensures
            r == Game::as_result(self.pass_error(id, seat, cards)),
    {
        let phase = self.state.phase;
        if phase.is_complete() {
            return Err(CardsError::GameComplete(id));
        }
        if !phase.is_passing() {
            return Err(CardsError::IllegalAction("pass", phase));
        }
        let pre = self.pre_pass_hand[seat.idx()];
        if !pre.contains_all(cards) {
            return Err(CardsError::NotYourCards(cards.difference(pre)));
        }
        if cards.len() != 3 {
            return Err(CardsError::IllegalPassSize(cards));
        }
        let passed = pre.difference(self.post_pass_hand[seat.idx()]);
        if !passed.is_empty() {
            return Err(CardsError::AlreadyPassed(passed));
        }
        Ok(())
    }

    /// Checks that `seat` may charge `cards` now.
    pub fn verify_charge(&self, id: GameId, seat: Seat, cards: Cards) -> (r: Result<
        (),
        CardsError,
    >)
        ensures
            r == Game::as_result(self.charge_error(id, seat, cards)),
    {
        let phase = self.state.phase;
        if phase.is_complete() {
            return Err(CardsError::GameComplete(id));
        }
        if !phase.is_charging() {
            return Err(CardsError::IllegalAction("charge", phase));
        }
        let hand = self.post_pass_hand[seat.idx()];
        if !hand.contains_all(cards) {
            return Err(CardsError::NotYourCards(cards.difference(hand)));
        }
        let chargeable = Cards::chargeable();
        if !chargeable.contains_all(cards) {
            return Err(CardsError::Unchargeable(cards.difference(chargeable)));
        }
        let charged = self.state.charges.charges(seat);
        if charged.contains_any(cards) {
            let both = charged.intersect(cards);
            proof {
                lemma_cards_of(both);
                let c = choose|c: Card| charged@.contains(c) && #[trigger] cards@.contains(c);
                assert(self.state.charges.seat_set(seat).contains(c));
            }
            return Err(CardsError::AlreadyCharged(both));
        }
        proof {
            assert(self.state.charges.seat_set(seat).disjoint(cards@)) by {
                assert forall|c: Card| #[trigger] self.state.charges.seat_set(seat).contains(c) implies !cards@.contains(c) by {
                    assert(charged@.contains(c));
                }
            }
        }
        match self.state.next_actor {
            Some(s) => {
                if s != seat {
                    return Err(CardsError::NotYourTurn(self.players[s.idx()], "charge"));
                }
            },
            None => {},
        }
        Ok(())
    }

    /// Checks that `seat` may play `card` now.
    #[verifier::rlimit(40)]
    pub fn verify_play(&self, id: GameId, seat: Seat, card: Card) -> (r: Result<(), CardsError>)
        requires
            self.state.wf(),
            self.state.phase.spec_is_playing() ==> self.state.next_actor is Some,
            self.post(seat).wf(),
        ensures
            r == Game::as_result(self.play_error(id, seat, card)),
    {
        let st = &self.state;
        let phase = st.phase;
        if phase.is_complete() {
            return Err(CardsError::GameComplete(id));
        }
        if !phase.is_playing() {
            return Err(CardsError::IllegalAction("play", phase));
        }
        let mut plays = self.post_pass_hand[seat.idx()].difference(st.played);
        if !plays.contains(card) {
            return Err(CardsError::NotYourCards(Cards::from(card)));
        }
        match st.next_actor {
            Some(s) => {
                if s != seat {
                    return Err(CardsError::NotYourTurn(self.players[s.idx()], "play"));
                }
            },
            None => {
                assert(false);
            },
        }
        let ghost plays0 = plays@;
        let points = Cards::points();
        if st.led_suits.bits == 0 {
            if plays.contains(Card::TwoClubs) && card != Card::TwoClubs {
                return Err(CardsError::MustPlayTwoOfClubs);
            }
            if !points.contains_all(plays) {
                plays = plays.difference(points);
                if !plays.contains(card) {
                    return Err(CardsError::NoPointsOnFirstTrick);
                }
            } else if plays.contains(Card::JackDiamonds) && card != Card::JackDiamonds {
                return Err(CardsError::MustPlayJackOfDiamonds);
            } else if !plays.contains(Card::JackDiamonds) && plays.contains(Card::QueenSpades)
                && card != Card::QueenSpades {
                return Err(CardsError::MustPlayQueenOfSpades);
            }
        }
        let own_charges = st.charges.charges(seat);
        if !st.current_trick.is_empty() {
            let suit = st.current_trick.suit();
            let suit_cards = suit.cards();
            proof {
                st.current_trick.lemma_wf();
            }
            if suit_cards.contains_any(plays) {
                let ghost before = plays@;
                proof {
                    let c = choose|c: Card| suit_cards@.contains(c) && #[trigger] before.contains(c);
                    assert(before.intersect(Cards::suit_set(suit)).contains(c));
                }
                plays = plays.intersect(suit_cards);
                proof {
                    plays.lemma_len();
                }
                if !plays.contains(card) {
                    return Err(CardsError::MustFollowSuit);
                }
                if !st.led_suits.contains(suit) && plays.len() > 1 {
                    plays = plays.difference(own_charges);
                    if !plays.contains(card) {
                        return Err(CardsError::NoChargeOnFirstTrickOfSuit);
                    }
                }
            } else {
                proof {
                    let t = st.current_trick@;
                    assert(plays@.intersect(Cards::suit_set(t[0].spec_suit())) =~= Set::<Card>::empty()) by {
                        assert forall|c: Card| !plays@.intersect(Cards::suit_set(t[0].spec_suit())).contains(c) by {
                            if plays@.contains(c) && Cards::suit_set(t[0].spec_suit()).contains(c) {
                                assert(suit_cards@.contains(c));
                            }
                        }
                    }
                }
            }
        } else {
            let hearts = Cards::hearts();
            if !st.played.contains_any(hearts) && !hearts.contains_all(plays) && card.suit()
                == Suit::Hearts {
                plays = plays.difference(hearts);
                if !plays.contains(card) {
                    return Err(CardsError::HeartsNotBroken);
                }
            }
            let unled = own_charges.difference(st.led_suits.cards());
            if !unled.contains_all(plays) {
                plays = plays.difference(unled);
                if !plays.contains(card) {
                    return Err(CardsError::NoChargeOnFirstTrickOfSuit);
                }
            }
        }
        Ok(())
    }

    /// The hands are sets of cards.
    pub open spec fn wf(self) -> bool {
        &&& self.state.wf()
        &&& forall|i: int| 0 <= i < 4 ==> (#[trigger] self.pre_pass_hand@[i]).wf()
        &&& forall|i: int| 0 <= i < 4 ==> (#[trigger] self.post_pass_hand@[i]).wf()
    }

    pub fn new() -> (r: Game)
        ensures
            r.wf(),
            forall|i: int| 0 <= i < 4 ==> (#[trigger] r.post_pass_hand@[i])@ == Set::<Card>::empty(),
            forall|i: int| 0 <= i < 4 ==> (#[trigger] r.pre_pass_hand@[i])@ == Set::<Card>::empty(),
    {
        let none = Cards::none();
        let nobody = UserId::null();
        Game {
            players: [nobody, nobody, nobody, nobody],
            seed: Seed::Redacted,
            pre_pass_hand: [none, none, none, none],
            post_pass_hand: [none, none, none, none],
            state: GameState::new(),
        }
    }

    /// The seat of `user`, if it plays in this game.
    pub fn seat(&self, user: UserId) -> (r: Option<Seat>)
        ensures
            r == (if self.players@[0] == user {
                Some(Seat::North)
            } else if self.players@[1] == user {
                Some(Seat::East)
            } else if self.players@[2] == user {
                Some(Seat::South)
            } else if self.players@[3] == user {
                Some(Seat::West)
            } else {
                None
            }),
    {
        if self.players[0] == user {
            Some(Seat::North)
        } else if self.players[1] == user {
            Some(Seat::East)
        } else if self.players[2] == user {
            Some(Seat::South)
        } else if self.players[3] == user {
            Some(Seat::West)
        } else {
            None
        }
    }

    /// The seat holding `card` after the pass.
    pub fn owner(&self, card: Card) -> (r: Option<Seat>)
        ensures
            r == first_holder(self.post_pass_hand@, card),
    {
        if self.post_pass_hand[0].contains(card) {
            Some(Seat::North)
        } else if self.post_pass_hand[1].contains(card) {
            Some(Seat::East)
        } else if self.post_pass_hand[2].contains(card) {
            Some(Seat::South)
        } else if self.post_pass_hand[3].contains(card) {
            Some(Seat::West)
        } else {
            None
        }
    }

    /// `after` is `before` with play begun (see `start_play`), which announced `added`.
    pub open spec fn started_play(before: Game, after: Game, added: Seq<GameEvent>) -> bool {
        &&& after.players == before.players
        &&& after.seed == before.seed
        &&& after.pre_pass_hand == before.pre_pass_hand
        &&& after.post_pass_hand == before.post_pass_hand
        &&& match first_holder(before.post_pass_hand@, Card::TwoClubs) {
            Some(leader) => {
                &&& after.state == (GameState {
                    next_actor: Some(leader),
                    charges: after.state.charges,
                    ..before.state
                })
                &&& forall|s: Seat, c: Card| #[trigger]
                    after.state.charges.charged(s, c) == before.state.charges.charged(s, c)
                &&& added == (if before.state.rules.spec_blind() {
                    seq![
                        GameEvent::RevealCharges {
                            north: before.state.charges.charges_of(Seat::North),
                            east: before.state.charges.charges_of(Seat::East),
                            south: before.state.charges.charges_of(Seat::South),
                            west: before.state.charges.charges_of(Seat::West),
                        },
                    ]
                } else {
                    Seq::empty()
                }) + seq![
                    GameEvent::StartTrick { leader },
                    GameEvent::PlayStatus {
                        next_player: leader,
                        legal_plays: cards_of(after.state.spec_legal_plays(before.post(leader)@)),
                    },
                ]
            },
            None => after == before && added == Seq::<GameEvent>::empty(),
        }
    }

    /// The cards an event hands to players are sets of cards.
    pub open spec fn hands_wf(event: GameEvent) -> bool {
        match event {
            GameEvent::Deal { north, east, south, west, .. } => north.wf() && east.wf()
                && south.wf() && west.wf(),
            GameEvent::RecvPass { cards, .. } => cards.wf(),
            _ => true,
        }
    }

    /// The announcements that follow a play: the end of a finished trick and the start of the
    /// next, then the turn of the next player.
    pub open spec fn after_play(after: Game) -> Seq<GameEvent> {
        let st = after.state;
        let playing = st.phase.spec_is_playing();
        let ended = if st.current_trick@.len() == 0 {
            match st.next_actor {
                Some(w) => seq![GameEvent::EndTrick { winner: w }] + if playing {
                    seq![GameEvent::StartTrick { leader: w }]
                } else {
                    Seq::empty()
                },
                None => Seq::empty(),
            }
        } else {
            Seq::empty()
        };
        let prompt = if playing {
            match st.next_actor {
                Some(l) => seq![
                    GameEvent::PlayStatus {
                        next_player: l,
                        legal_plays: cards_of(st.spec_legal_plays(after.post(l)@)),
                    },
                ],
                None => Seq::empty(),
            }
        } else {
            Seq::empty()
        };
        ended + prompt
    }

    /// The announcements when a hand that was being played (`was_playing`) is over in `after`:
    /// the scores of the hand, then, after the last hand, the end of the game with its seed.
    pub open spec fn hand_end(was_playing: bool, after: Game) -> Seq<GameEvent> {
        let st = after.state;
        if was_playing && !st.phase.spec_is_playing() {
            seq![
                GameEvent::HandComplete {
                    north_score: hand_score(st, Seat::North),
                    east_score: hand_score(st, Seat::East),
                    south_score: hand_score(st, Seat::South),
                    west_score: hand_score(st, Seat::West),
                },
            ] + if st.phase == GamePhase::Complete {
                seq![GameEvent::GameComplete { seed: after.seed }]
            } else {
                Seq::empty()
            }
        } else {
            Seq::empty()
        }
    }

    /// `after` is `before` with `event` applied, and `out` is what is announced: the event,
    /// then what follows from it.
    pub open spec fn announced(before: Game, after: Game, event: GameEvent, out: Seq<
        GameEvent,
    >) -> bool {
        let rest = out.subrange(1, out.len() as int);
        &&& out.len() > 0
        &&& out[0] == event
        &&& match event {
            GameEvent::Sit { north, east, south, west, seed, .. } => {
                &&& after.players@ == seq![
                    north.spec_user_id(),
                    east.spec_user_id(),
                    south.spec_user_id(),
                    west.spec_user_id(),
                ]
                &&& after.seed == seed
                &&& after.pre_pass_hand == before.pre_pass_hand
                &&& after.post_pass_hand == before.post_pass_hand
                &&& after.state.applied(before.state, event)
                &&& rest == Seq::<GameEvent>::empty()
            },
            GameEvent::Deal { north, east, south, west, .. } => {
                &&& after.players == before.players
                &&& after.seed == before.seed
                &&& after.pre_pass_hand@ == seq![north, east, south, west]
                &&& after.post_pass_hand@ == seq![north, east, south, west]
                &&& after.state.applied(before.state, event)
                &&& rest == if after.state.phase.spec_is_passing() {
                    seq![GameEvent::StartPassing, pass_status(after.state)]
                } else {
                    seq![GameEvent::StartCharging, charge_status(after.state)]
                }
            },
            GameEvent::SendPass { from, cards } => {
                &&& after.players == before.players
                &&& after.seed == before.seed
                &&& after.pre_pass_hand == before.pre_pass_hand
                &&& after.post_pass_hand@ == before.post_pass_hand@.update(
                    from.spec_idx() as int,
                    Cards { bits: before.post(from).bits & !cards.bits },
                )
                &&& after.state.applied(before.state, event)
                &&& rest == seq![pass_status(after.state)]
            },
            GameEvent::RecvPass { to, cards } => {
                &&& after.players == before.players
                &&& after.seed == before.seed
                &&& after.pre_pass_hand == before.pre_pass_hand
                &&& after.post_pass_hand@ == before.post_pass_hand@.update(
                    to.spec_idx() as int,
                    Cards { bits: before.post(to).bits | cards.bits },
                )
                &&& after.state.applied(before.state, event)
                &&& rest == if after.state.phase.spec_is_charging() {
                    seq![GameEvent::StartCharging, charge_status(after.state)]
                } else {
                    Seq::empty()
                }
            },
            GameEvent::Charge { .. } => {
                &&& after.players == before.players
                &&& after.seed == before.seed
                &&& after.pre_pass_hand == before.pre_pass_hand
                &&& after.post_pass_hand == before.post_pass_hand
                &&& exists|mid: GameState|
                    mid.applied(before.state, event) && if mid.phase.spec_is_playing() {
                        Game::started_play(Game { state: mid, ..before }, after, rest)
                    } else {
                        &&& after.state == mid
                        &&& rest == if mid.phase.spec_is_charging() {
                            seq![charge_status(mid)]
                        } else if mid.phase.spec_is_passing() {
                            seq![GameEvent::StartPassing, pass_status(mid)]
                        } else {
                            Seq::empty()
                        }
                    }
            },
            GameEvent::Play { .. } => {
                &&& after.players == before.players
                &&& after.seed == before.seed
                &&& after.pre_pass_hand == before.pre_pass_hand
                &&& after.post_pass_hand == before.post_pass_hand
                &&& after.state.applied(before.state, event)
                &&& rest == Game::after_play(after) + Game::hand_end(
                    before.state.phase.spec_is_playing(),
                    after,
                )
            },
            GameEvent::AcceptClaim { .. } => {
                &&& after.players == before.players
                &&& after.seed == before.seed
                &&& after.pre_pass_hand == before.pre_pass_hand
                &&& after.post_pass_hand == before.post_pass_hand
                &&& after.state.applied(before.state, event)
                &&& rest == Game::hand_end(before.state.phase.spec_is_playing(), after)
            },
            _ => {
                &&& after.players == before.players
                &&& after.seed == before.seed
                &&& after.pre_pass_hand == before.pre_pass_hand
                &&& after.post_pass_hand == before.post_pass_hand
                &&& after.state.applied(before.state, event)
                &&& rest == Seq::<GameEvent>::empty()
            },
        }
    }

    /// Announces the end of the hand, if `was_playing` and play is over (see `hand_end`).
    fn announce_hand_end(&self, was_playing: bool, out: &mut Vec<GameEvent>)
        requires
            self.state.wf(),
        ensures
            final(out)@ == old(out)@ + Game::hand_end(was_playing, *self),
    {
        let ghost start = out@;
        if was_playing && !self.state.phase.is_playing() {
            let st = &self.state;
            out.push(
                GameEvent::HandComplete {
                    north_score: st.score(Seat::North),
                    east_score: st.score(Seat::East),
                    south_score: st.score(Seat::South),
                    west_score: st.score(Seat::West),
                },
            );
            if self.state.phase.is_complete() {
                out.push(GameEvent::GameComplete { seed: self.seed.clone() });
            }
            proof {
                assert(out@ =~= start + Game::hand_end(was_playing, *self));
            }
        } else {
            proof {
                assert(out@ =~= start + Game::hand_end(was_playing, *self));
            }
        }
    }

    /// Applies `event` to the game and returns what is announced, in order: the event itself,
    /// then the start of passing or charging and its status after a deal, the status of passing
    /// after each pass, the start of charging once passing is over, the status of charging
    /// after each charge, the start of the keeper pass or of play once charging is over, and
    /// after a play the end of the trick, the start of the next and the turn of the next player;
    /// when a play or an accepted claim ends the hand, its scores, and after the last hand the
    /// end of the game.
    pub fn apply(&mut self, event: &GameEvent) -> (out: Vec<GameEvent>)
        requires
            old(self).wf(),
            old(self).state.pre_apply(*event),
            Game::hands_wf(*event),
        ensures
            final(self).wf(),
            Game::announced(*old(self), *final(self), *event, out@),
            forall|i: int| 1 <= i < out@.len() ==> (#[trigger] out@[i]).is_notice(),
            forall|i: int|
                1 <= i < out@.len() && (#[trigger] out@[i]) is GameComplete ==> out@[i - 1] is HandComplete,
    {
        let mut out: Vec<GameEvent> = Vec::new();
        out.push(event.clone());
        let was_playing = self.state.phase.is_playing();
        self.state.apply(event);
        let ghost mid = self.state;
        match event {
            GameEvent::Sit { north, east, south, west, seed, .. } => {
                self.players = [north.user_id(), east.user_id(), south.user_id(), west.user_id()];
                self.seed = seed.clone();
                proof {
                    assert(self.players@ =~= seq![
                        north.spec_user_id(),
                        east.spec_user_id(),
                        south.spec_user_id(),
                        west.spec_user_id(),
                    ]);
                    assert(out@.subrange(1, out@.len() as int) =~= Seq::<GameEvent>::empty());
                }
            },
            GameEvent::Deal { north, east, south, west, .. } => {
                self.pre_pass_hand = [*north, *east, *south, *west];
                self.post_pass_hand = [*north, *east, *south, *west];
                proof {
                    assert(self.pre_pass_hand@ =~= seq![*north, *east, *south, *west]);
                    assert(self.post_pass_hand@ =~= seq![*north, *east, *south, *west]);
                }
                if self.state.phase.is_passing() {
                    out.push(GameEvent::StartPassing);
                    out.push(self.state.pass_status_event());
                    proof {
                        assert(out@.subrange(1, out@.len() as int) =~= seq![
                            GameEvent::StartPassing,
                            pass_status(self.state),
                        ]);
                    }
                } else {
                    out.push(GameEvent::StartCharging);
                    out.push(self.state.charge_status_event());
                    proof {
                        assert(out@.subrange(1, out@.len() as int) =~= seq![
                            GameEvent::StartCharging,
                            charge_status(self.state),
                        ]);
                    }
                }
            },
            GameEvent::SendPass { from, cards } => {
                let hand = self.post_pass_hand[from.idx()].difference(*cards);
                self.post_pass_hand[from.idx()] = hand;
                out.push(self.state.pass_status_event());
                proof {
                    assert(out@.subrange(1, out@.len() as int) =~= seq![pass_status(self.state)]);
                }
            },
            GameEvent::RecvPass { to, cards } => {
                let hand = self.post_pass_hand[to.idx()].union(*cards);
                self.post_pass_hand[to.idx()] = hand;
                if self.state.phase.is_charging() {
                    out.push(GameEvent::StartCharging);
                    out.push(self.state.charge_status_event());
                    proof {
                        assert(out@.subrange(1, out@.len() as int) =~= seq![
                            GameEvent::StartCharging,
                            charge_status(self.state),
                        ]);
                    }
                } else {
                    proof {
                        assert(out@.subrange(1, out@.len() as int) =~= Seq::<GameEvent>::empty());
                    }
                }
            },
            GameEvent::Charge { .. } => {
                if self.state.phase.is_charging() {
                    out.push(self.state.charge_status_event());
                    proof {
                        assert(out@.subrange(1, out@.len() as int) =~= seq![charge_status(mid)]);
                    }
                } else if self.state.phase.is_passing() {
                    out.push(GameEvent::StartPassing);
                    out.push(self.state.pass_status_event());
                    proof {
                        assert(out@.subrange(1, out@.len() as int) =~= seq![
                            GameEvent::StartPassing,
                            pass_status(mid),
                        ]);
                    }
                } else if self.state.phase.is_playing() {
                    let ghost pre = *self;
                    proof {
                        assert(pre == Game { state: mid, ..*old(self) });
                        assert(out@.len() == 1);
                    }
                    self.start_play(&mut out);
                    proof {
                        assert(out@[0] == out@.subrange(0, 1)[0]);
                    }
                } else {
                    proof {
                        assert(out@.subrange(1, out@.len() as int) =~= Seq::<GameEvent>::empty());
                    }
                }
                proof {
                    assert(mid.applied(old(self).state, *event));
                }
            },
            GameEvent::Play { .. } => {
                let ghost after = *self;
                let ghost playing = self.state.phase.spec_is_playing();
                if self.state.current_trick.is_empty() {
                    match self.state.next_actor {
                        Some(winner) => {
                            out.push(GameEvent::EndTrick { winner });
                            if self.state.phase.is_playing() {
                                out.push(GameEvent::StartTrick { leader: winner });
                            }
                        },
                        None => {},
                    }
                }
                if self.state.phase.is_playing() {
                    match self.state.next_actor {
                        Some(leader) => {
                            let status = self.play_status(leader);
                            out.push(status);
                        },
                        None => {},
                    }
                }
                proof {
                    assert(out@.subrange(1, out@.len() as int) =~= Game::after_play(after));
                }
                let ghost played = out@;
                self.announce_hand_end(was_playing, &mut out);
                proof {
                    assert(out@.subrange(1, out@.len() as int) =~= played.subrange(
                        1,
                        played.len() as int,
                    ) + Game::hand_end(was_playing, *self));
                }
            },
            GameEvent::AcceptClaim { .. } => {
                self.announce_hand_end(was_playing, &mut out);
                proof {
                    assert(out@.subrange(1, out@.len() as int) =~= Game::hand_end(was_playing, *self));
                }
            },
            _ => {
                proof {
                    assert(out@.subrange(1, out@.len() as int) =~= Seq::<GameEvent>::empty());
                }
            },
        }
        proof {
            assert forall|i: int| 1 <= i < out@.len() implies (#[trigger] out@[i]).is_notice() by {
                assert(out@[i] == out@.subrange(1, out@.len() as int)[i - 1]);
            }
            assert forall|i: int| 1 <= i < out@.len() && (#[trigger] out@[i]) is GameComplete implies out@[i - 1] is HandComplete by {
                assert(out@[i] == out@.subrange(1, out@.len() as int)[i - 1]);
                if i >= 2 {
                    assert(out@[i - 1] == out@.subrange(1, out@.len() as int)[i - 2]);
                }
            }
        }
        out
    }

    /// The `Sit` event that starts a game of four players: they sit in a random order, and the
    /// rules are those the player in the north seat proposed.
    pub fn sit_event(
        participants: Vec<PlayerWithOptions>,
        created_time: i64,
        created_by: UserId,
        seed: Seed,
    ) -> (r: GameEvent)
        requires
            participants@.len() >= 4,
        ensures
            exists|order: Seq<PlayerWithOptions>|
                order.to_multiset() == participants@.to_multiset() && r == (GameEvent::Sit {
                    north: order[0].player,
                    east: order[1].player,
                    south: order[2].player,
                    west: order[3].player,
                    rules: order[0].rules,
                    created_time,
                    created_by,
                    seed,
                }),
    {
        let mut order = participants;
        let ghost before = order@;
        crate::bot::chance::shuffle(&mut order);
        proof {
            order@.to_multiset_ensures();
            before.to_multiset_ensures();
        }
        GameEvent::Sit {
            north: order[0].player,
            east: order[1].player,
            south: order[2].player,
            west: order[3].player,
            rules: order[0].rules,
            created_time,
            created_by,
            seed,
        }
    }

    /// The cards of the keeper pass once `cards` are passed too: those in no hand.
    pub open spec fn keeper_pool(self, cards: Cards) -> Set<Card> {
        Set::<Card>::full().difference(self.post(Seat::North)@).difference(self.post(Seat::East)@)
            .difference(self.post(Seat::South)@).difference(self.post(Seat::West)@).union(cards@)
    }

    /// The cards of the keeper pass once `cards` are passed too (see `keeper_pool`).
    pub fn keeper_cards(&self, cards: Cards) -> (r: Cards)
        requires
            cards.wf(),
        ensures
            r.wf(),
            r@ == self.keeper_pool(cards),
    {
        Cards::all().difference(self.post_pass_hand[0]).difference(self.post_pass_hand[1])
            .difference(self.post_pass_hand[2]).difference(self.post_pass_hand[3]).union(cards)
    }

    /// Every seat but `seat` has sent its pass.
    pub open spec fn others_sent(self, seat: Seat) -> bool {
        forall|s: Seat| #[trigger] self.state.done.done(s) || s == seat
    }

    /// The events that `seat` passing `cards` brings about, once the pass is allowed: the pass
    /// itself; in a hand with a direction, the pass that `seat` receives if its sender has
    /// already passed, and the receipt of `cards` if their receiver has already passed; in the
    /// keeper hand, once everyone has passed, the twelve cards shuffled at random and handed
    /// out three to each seat.
    pub fn pass_events(&self, seat: Seat, cards: Cards) -> (r: Vec<GameEvent>)
        requires
            cards.wf(),
            self.state.phase == GamePhase::PassKeeper && self.others_sent(seat)
                ==> self.keeper_pool(cards).len() >= 12,
        ensures
            self.state.phase != GamePhase::PassKeeper ==> {
                let sender = self.state.phase.spec_pass_sender(seat);
                let receiver = seat.turn(self.state.phase.pass_offset());
                r@ == seq![GameEvent::SendPass { from: seat, cards }] + (if self.state.done.done(
                    sender,
                ) {
                    seq![
                        GameEvent::RecvPass {
                            to: seat,
                            cards: Cards { bits: self.pre(sender).bits & !self.post(sender).bits },
                        },
                    ]
                } else {
                    Seq::empty()
                }) + (if self.state.done.done(receiver) {
                    seq![GameEvent::RecvPass { to: receiver, cards }]
                } else {
                    Seq::empty()
                })
            },
            self.state.phase == GamePhase::PassKeeper && !self.others_sent(seat) ==> r@ == seq![
                GameEvent::SendPass { from: seat, cards },
            ],
            self.state.phase == GamePhase::PassKeeper && self.others_sent(seat) ==> exists|
                passes: Seq<Card>,
            |
                passes.to_multiset() == desc_of(self.keeper_pool(cards)).to_multiset() && r@
                    == seq![GameEvent::SendPass { from: seat, cards }] + keeper_of(passes),
    {
        let mut events: Vec<GameEvent> = Vec::new();
        events.push(GameEvent::SendPass { from: seat, cards });
        let phase = self.state.phase;
        if phase != GamePhase::PassKeeper {
            let ghost first = events@;
            let sender = phase.pass_sender(seat);
            if self.state.done.sent_pass(sender) {
                let passed = self.pre_pass_hand[sender.idx()].difference(
                    self.post_pass_hand[sender.idx()],
                );
                events.push(GameEvent::RecvPass { to: seat, cards: passed });
            }
            let ghost second = events@;
            let receiver = phase.pass_receiver(seat);
            if self.state.done.sent_pass(receiver) {
                events.push(GameEvent::RecvPass { to: receiver, cards });
            }
            proof {
                let a = if self.state.done.done(sender) {
                    seq![
                        GameEvent::RecvPass {
                            to: seat,
                            cards: Cards { bits: self.pre(sender).bits & !self.post(sender).bits },
                        },
                    ]
                } else {
                    Seq::<GameEvent>::empty()
                };
                assert(second =~= first + a);
            }
            return events;
        }
        let all = seat_passed(&self.state, seat, Seat::North) && seat_passed(
            &self.state,
            seat,
            Seat::East,
        ) && seat_passed(&self.state, seat, Seat::South) && seat_passed(&self.state, seat, Seat::West);
        proof {
            assert(all == self.others_sent(seat)) by {
                if !all {
                    assert(!self.others_sent(seat));
                } else {
                    assert forall|s: Seat| #[trigger] self.state.done.done(s) || s == seat by {
                        match s {
                            Seat::North => {},
                            Seat::East => {},
                            Seat::South => {},
                            Seat::West => {},
                        }
                    }
                }
            }
        }
        if all {
            let pool = self.keeper_cards(cards);
            let mut passes = pool.to_vec();
            let ghost before = passes@;
            crate::bot::chance::shuffle(&mut passes);
            proof {
                passes@.to_multiset_ensures();
                before.to_multiset_ensures();
                pool.lemma_len();
            }
            let scattered = keeper_from(&passes);
            let ghost first = events@;
            let mut i: usize = 0;
            while i < 4
                invariant
                    i <= 4,
                    scattered@.len() == 4,
                    events@ == first + scattered@.subrange(0, i as int),
                decreases 4 - i,
            {
                events.push(scattered[i].clone());
                proof {
                    assert(scattered@.subrange(0, i + 1) =~= scattered@.subrange(0, i as int).push(
                        scattered@[i as int],
                    ));
                }
                i = i + 1;
            }
            proof {
                assert(scattered@.subrange(0, 4) =~= scattered@);
            }
        }
        events
    }

    /// The events that `seat` playing `card` brings about, once the play is allowed: the play
    /// itself and, when it is the last card of a hand but the keeper hand, the deal of the next
    /// hand by the game's seed.
    pub fn play_events(&self, seat: Seat, card: Card, seed: &mut HashedSeed) -> (r: Vec<GameEvent>)
        requires
            self.state.wf(),
            old(seed).key is Some,
            old(seed).word_pos < WORD_POS_LIMIT,
        ensures
            final(seed).key == old(seed).key,
            r@.len() >= 1,
            r@[0] == (GameEvent::Play { seat, card }),
            ({
                let last = self.state.played@.insert(card) == Set::<Card>::full();
                let next = match self.state.phase {
                    GamePhase::PlayLeft => Some(PassDirection::Right),
                    GamePhase::PlayRight => Some(PassDirection::Across),
                    GamePhase::PlayAcross => Some(PassDirection::Keeper),
                    _ => None,
                };
                let deck = shuffled(
                    old(seed).key.unwrap()@,
                    next.unwrap().spec_idx() as u64,
                    old(seed).word_pos,
                    fresh_deck(),
                );
                if last && next is Some {
                    &&& r@.len() == 2
                    &&& r@[1] == deal_of(deck, next.unwrap())
                    &&& is_full_deck(deck)
                    &&& final(seed).word_pos == word_pos_after(
                        old(seed).key.unwrap()@,
                        next.unwrap().spec_idx() as u64,
                        old(seed).word_pos,
                        52,
                    )
                } else {
                    r@.len() == 1 && final(seed).word_pos == old(seed).word_pos
                }
            }),
    {
        let mut events: Vec<GameEvent> = Vec::new();
        events.push(GameEvent::Play { seat, card });
        let played = self.state.played.with(card);
        let all = Cards::all();
        let last = played == all;
        proof {
            if played@ == Set::<Card>::full() {
                Cards::lemma_view_injective(played, all);
            }
        }
        if last {
            let next = match self.state.phase {
                GamePhase::PlayLeft => Some(PassDirection::Right),
                GamePhase::PlayRight => Some(PassDirection::Across),
                GamePhase::PlayAcross => Some(PassDirection::Keeper),
                _ => None,
            };
            match next {
                Some(pass) => {
                    let deal = seed.deal(pass);
                    events.push(deal);
                },
                None => {},
            }
        }
        events
    }

    /// The legal plays of `seat`, to tell it that it is its turn.
    fn play_status(&self, seat: Seat) -> (r: GameEvent)
        requires
            self.wf(),
        ensures
            r == (GameEvent::PlayStatus {
                next_player: seat,
                legal_plays: cards_of(self.state.spec_legal_plays(self.post(seat)@)),
            }),
    {
        let hand = self.post_pass_hand[seat.idx()];
        let legal_plays = self.state.legal_plays(hand);
        proof {
            lemma_cards_of(legal_plays);
        }
        GameEvent::PlayStatus { next_player: seat, legal_plays }
    }

    /// Play begins once charging is over: the holder of the two of clubs leads, charges are
    /// revealed when they were made blind, and the leader is told it is its turn. A deal that
    /// left the two of clubs in no hand starts no trick.
    fn start_play(&mut self, out: &mut Vec<GameEvent>)
        requires
            old(self).wf(),
        ensures
            final(self).wf(),
            Game::started_play(
                *old(self),
                *final(self),
                final(out)@.subrange(old(out)@.len() as int, final(out)@.len() as int),
            ),
            final(out)@.len() >= old(out)@.len(),
            final(out)@.subrange(0, old(out)@.len() as int) == old(out)@,
            forall|i: int| old(out)@.len() <= i < final(out)@.len() ==> (#[trigger] final(out)@[i]).is_notice(),
    {
        let ghost before = out@;
        match self.owner(Card::TwoClubs) {
            Some(leader) => {
                self.state.next_actor = Some(leader);
                let ghost mut reveal_part: Seq<GameEvent> = Seq::empty();
                if self.state.rules.blind() {
                    let reveal = GameEvent::RevealCharges {
                        north: self.state.charges.charges(Seat::North),
                        east: self.state.charges.charges(Seat::East),
                        south: self.state.charges.charges(Seat::South),
                        west: self.state.charges.charges(Seat::West),
                    };
                    out.push(reveal.clone());
                    proof {
                        reveal_part = seq![reveal];
                    }
                    self.state.apply(&reveal);
                }
                out.push(GameEvent::StartTrick { leader });
                let status = self.play_status(leader);
                out.push(status);
                proof {
                    let added = out@.subrange(before.len() as int, out@.len() as int);
                    assert(added =~= reveal_part + seq![GameEvent::StartTrick { leader }, status]);
                    assert(out@.subrange(0, before.len() as int) =~= before);
                }
            },
            None => {
                proof {
                    assert(out@.subrange(0, before.len() as int) =~= before);
                    assert(out@.subrange(before.len() as int, out@.len() as int) =~= Seq::<GameEvent>::empty());
                }
            },
        }
    }
}

/// The suit led must be followed: when a trick is under way and `seat` still holds a card of the
/// suit led (one that counts, which on the first trick means not a point card, since point cards
/// are held back there), playing a card of another suit is refused; once a suit has been led in
/// the hand, with the play otherwise in order, the refusal is `MustFollowSuit`.
pub proof fn lemma_must_follow_suit(game: Game, id: GameId, seat: Seat, card: Card)
    requires
        game.state.current_trick@.len() > 0,
        exists|c: Card|
            #[trigger] game.post(seat)@.contains(c) && !game.state.played@.contains(c)
                && c.spec_suit() == game.state.current_trick@[0].spec_suit() && (
            game.state.led_suits.bits != 0 || !Cards::points_set().contains(c)),
        card.spec_suit() != game.state.current_trick@[0].spec_suit(),
    ensures
        game.play_error(id, seat, card) is Some,
        game.state.phase.spec_is_playing() && game.post(seat)@.contains(card)
            && !game.state.played@.contains(card) && game.state.next_actor == Some(seat)
            && game.state.led_suits.bits != 0 ==> game.play_error(id, seat, card) == Some(
            CardsError::MustFollowSuit,
        ),
{
    let st = game.state;
    let c = choose|c: Card|
        #[trigger] game.post(seat)@.contains(c) && !st.played@.contains(c) && c.spec_suit()
            == st.current_trick@[0].spec_suit() && (st.led_suits.bits != 0 || !Cards::points_set().contains(c));
    let plays = game.post(seat)@.difference(st.played@);
    let suit = st.current_trick@[0].spec_suit();
    assert(plays.contains(c));
    assert(Cards::suit_set(suit).contains(c));
    let points = Cards::points_set();
    if st.led_suits.bits == 0 {
        assert(!plays.subset_of(points));
        assert(plays.difference(points).contains(c));
    }
    let kept = if st.led_suits.bits == 0 && !plays.subset_of(points) {
        plays.difference(points)
    } else {
        plays
    };
    let in_suit = kept.intersect(Cards::suit_set(suit));
    assert(in_suit.contains(c));
    assert(!in_suit.is_empty());
    assert(!in_suit.contains(card));
}

} // verus!
