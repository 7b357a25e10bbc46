//! What the events of a game so far add up to, as far as every player can know it.
use crate::cards::{lemma_suit_len, Card, Cards, Suit};
use crate::game::charge::ChargeState;
use crate::game::claim::ClaimState;
use crate::game::done::DoneState;
use crate::game::event::GameEvent;
use crate::game::trick::{back, seq_complete, trick_winner, winning_position, Trick};
use crate::game::won::WonState;
use crate::phase::GamePhase;
use crate::seat::Seat;
use crate::suits::Suits;
use crate::types::ChargingRules;
use vstd::prelude::*;

verus! {

#[derive(Clone, Copy, Debug)]
pub struct GameState {
    pub rules: ChargingRules,
    pub phase: GamePhase,
    pub done: DoneState,
    pub charge_count: u8,
    pub charges: ChargeState,
    pub next_actor: Option<Seat>,
    pub played: Cards,
    pub claims: ClaimState,
    pub won: WonState,
    pub led_suits: Suits,
    pub current_trick: Trick,
}

/// The seat after `seat`, if there is one.
pub open spec fn turn_opt(seat: Option<Seat>) -> Option<Seat> {
    match seat {
        Some(s) => Some(s.turn(1)),
        None => None,
    }
}

/// The hearts taken by all four seats.
pub open spec fn hearts_taken(won: WonState) -> int {
    (won.spec_hearts(Seat::North) + won.spec_hearts(Seat::East) + won.spec_hearts(Seat::South)
        + won.spec_hearts(Seat::West)) as int
}

impl GameState {
    /// The parts hold well-formed values.
    pub open spec fn wf(self) -> bool {
        &&& self.played.wf()
        &&& self.current_trick.wf()
        &&& self.won.wf()
    }

    /// The state after a charge (of `count` cards, zero for none) by `seat`, from the state
    /// `pre` in which the charge has been counted and recorded: the turn passes on; an empty
    /// charge marks the seat done, and when everyone is done charging is over; a charge of some
    /// cards makes everyone charge again (except the charger, unless the rules chain).
    pub open spec fn charge_step(self, pre: GameState, seat: Seat, count: nat) -> bool {
        &&& self.rules == pre.rules
        &&& self.charge_count == pre.charge_count
        &&& self.charges == pre.charges
        &&& self.played == pre.played
        &&& self.claims == pre.claims
        &&& self.won == pre.won
        &&& self.led_suits == pre.led_suits
        &&& self.current_trick == pre.current_trick
        &&& if count == 0 {
            if forall|s: Seat| #[trigger] pre.done.done(s) || s == seat {
                &&& self.phase == pre.phase.spec_next(pre.charge_count != 0)
                &&& self.done.is_clear()
                &&& self.next_actor is None
            } else {
                &&& self.phase == pre.phase
                &&& self.next_actor == turn_opt(pre.next_actor)
                &&& forall|s: Seat| #[trigger]
                    self.done.done(s) == (pre.done.done(s) || s == seat)
                &&& forall|s: Seat| #[trigger] self.done.received(s) == pre.done.received(s)
            }
        } else {
            &&& self.phase == pre.phase
            &&& self.next_actor == turn_opt(pre.next_actor)
            &&& forall|s: Seat| #[trigger]
                self.done.done(s) == (!pre.rules.spec_chain() && s == seat)
            &&& forall|s: Seat| !#[trigger] self.done.received(s)
        }
    }

    /// The charge of `count` cards by `seat` cannot move the game past its end.
    pub open spec fn charge_ok(self, seat: Seat, count: nat) -> bool {
        (count == 0 && forall|s: Seat| #[trigger] self.done.done(s) || s == seat) ==> self.phase
            != GamePhase::Complete
    }

    /// The cards that a successful claim by `claimer` wins: the unplayed cards and the trick.
    pub open spec fn claimed_cards(self) -> Set<Card> {
        Set::<Card>::full().difference(self.played@).union(self.current_trick@.to_set())
    }

    /// Applying `event` to this state cannot fail: no count overflows, the trick has room,
    /// a seat never takes a counted card twice, and the game does not move past its end.
    pub open spec fn pre_apply(self, event: GameEvent) -> bool {
        match event {
            GameEvent::RecvPass { to, .. } => (forall|s: Seat| #[trigger]
                self.done.received(s) || s == to) ==> self.phase != GamePhase::Complete,
            GameEvent::BlindCharge { seat, count } => self.charge_count + (count as u8) <= 255
                && self.charge_ok(seat, count as nat),
            GameEvent::Charge { seat, cards } => self.charge_count + cards.spec_len() <= 255
                && self.charge_ok(seat, cards.spec_len()),
            GameEvent::Play { seat, card } => {
                let t = self.current_trick@.push(card);
                let p = self.played@.insert(card);
                &&& self.current_trick@.len() < 8
                &&& (seq_complete(t) || p == Set::<Card>::full()) ==> forall|w: int|
                    #[trigger] winning_position(t, w) ==> self.won.can_win(
                        back(seat.turn(1), t.len() - w),
                        t.to_set(),
                    )
                &&& p == Set::<Card>::full() ==> self.phase != GamePhase::Complete
            },
            GameEvent::AcceptClaim { claimer, acceptor } => (forall|s: Seat| #[trigger]
                self.claims.accepted(claimer, s) || s == acceptor) ==> (self.won.can_win(
                claimer,
                self.claimed_cards(),
            ) && self.phase != GamePhase::Complete),
            _ => true,
        }
    }

    /// The state after `seat` plays `card`: the card joins the played cards and the trick, the
    /// turn passes on, and a finished trick is won, cleared and led next by its winner; with
    /// the last card the hand moves on to the next phase.
    pub open spec fn play_result(self, seat: Seat, card: Card) -> GameState {
        let trick = self.current_trick.spec_push(card);
        let played = Cards { bits: self.played.bits | (1u64 << card.spec_index()) };
        let base = GameState {
            played,
            current_trick: trick,
            next_actor: Some(seat.turn(1)),
            ..self
        };
        if seq_complete(self.current_trick@.push(card)) || played.bits == Cards::ALL_BITS {
            let t = self.current_trick@.push(card);
            let winner = trick_winner(t, seat.turn(1));
            let finished = GameState {
                led_suits: Suits {
                    bits: self.led_suits.bits | (1u8 << t[0].spec_suit().spec_idx()),
                },
                won: self.won.spec_win(winner, t.to_set()),
                current_trick: trick.spec_cleared(),
                next_actor: Some(winner),
                ..base
            };
            if played.bits == Cards::ALL_BITS {
                GameState {
                    phase: self.phase.spec_next(self.charge_count != 0),
                    done: DoneState::cleared(),
                    ..finished
                }
            } else {
                finished
            }
        } else {
            base
        }
    }

    /// This state is `pre` with `event` applied.
    pub open spec fn applied(self, pre: GameState, event: GameEvent) -> bool {
        match event {
            GameEvent::Sit { rules, .. } => self == GameState { rules, ..pre },
            GameEvent::Deal { .. } => {
                &&& self.rules == pre.rules
                &&& self.phase == pre.phase
                &&& self.done == pre.done
                &&& self.charge_count == 0
                &&& forall|s: Seat, c: Card| !#[trigger] self.charges.charged(s, c)
                &&& self.next_actor == pre.phase.spec_first_charger(pre.rules)
                &&& self.played@ == Set::<Card>::empty()
                &&& forall|c: Seat, a: Seat| !#[trigger] self.claims.accepted(c, a)
                &&& self.won.is_clear()
                &&& self.led_suits@ == Set::<Suit>::empty()
                &&& self.current_trick@ == Seq::<Card>::empty()
            },
            GameEvent::SendPass { from, .. } => {
                &&& self == GameState { done: self.done, ..pre }
                &&& forall|s: Seat| #[trigger] self.done.done(s) == (pre.done.done(s) || s == from)
                &&& forall|s: Seat| #[trigger] self.done.received(s) == pre.done.received(s)
            },
            GameEvent::RecvPass { to, .. } => {
                &&& self == GameState { done: self.done, phase: self.phase, next_actor: self.next_actor, ..pre }
                &&& if forall|s: Seat| #[trigger] pre.done.received(s) || s == to {
                    &&& self.phase == pre.phase.spec_next(pre.charge_count != 0)
                    &&& self.done.is_clear()
                    &&& self.next_actor == self.phase.spec_first_charger(pre.rules)
                } else {
                    &&& self.phase == pre.phase
                    &&& self.next_actor == pre.next_actor
                    &&& forall|s: Seat| #[trigger]
                        self.done.received(s) == (pre.done.received(s) || s == to)
                    &&& forall|s: Seat| #[trigger] self.done.done(s) == pre.done.done(s)
                }
            },
            GameEvent::BlindCharge { seat, count } => self.charge_step(
                GameState { charge_count: (pre.charge_count + (count as u8)) as u8, ..pre },
                seat,
                count as nat,
            ),
            GameEvent::Charge { seat, cards } => {
                &&& forall|s: Seat, c: Card| #[trigger]
                    self.charges.charged(s, c) == (pre.charges.charged(s, c) || (s == seat
                        && crate::game::charge::is_chargeable(c) && cards@.contains(c)))
                &&& self.charge_step(
                    GameState {
                        charge_count: (pre.charge_count + cards.spec_len()) as u8,
                        charges: self.charges,
                        ..pre
                    },
                    seat,
                    cards.spec_len(),
                )
            },
            GameEvent::RevealCharges { north, east, south, west } => {
                &&& self == GameState { charges: self.charges, ..pre }
                &&& forall|s: Seat, c: Card| #[trigger]
                    self.charges.charged(s, c) == (pre.charges.charged(s, c) || (
                    crate::game::charge::is_chargeable(c) && ((s == Seat::North
                        && north@.contains(c)) || (s == Seat::East && east@.contains(c)) || (s
                        == Seat::South && south@.contains(c)) || (s == Seat::West
                        && west@.contains(c)))))
            },
            GameEvent::Play { seat, card } => {
                let t = pre.current_trick@.push(card);
                let p = pre.played@.insert(card);
                &&& self.rules == pre.rules
                &&& self.charge_count == pre.charge_count
                &&& self.charges == pre.charges
                &&& self.claims == pre.claims
                &&& self.played@ == p
                &&& self.current_trick.lead_slot() == (if pre.current_trick@.len() == 0 {
                    card
                } else {
                    pre.current_trick.lead_slot()
                })
                &&& if seq_complete(t) || p == Set::<Card>::full() {
                    &&& self.led_suits@ == pre.led_suits@.insert(t[0].spec_suit())
                    &&& self.current_trick@ == Seq::<Card>::empty()
                    &&& exists|w: int|
                        #[trigger] winning_position(t, w) && self.next_actor == Some(
                            back(seat.turn(1), t.len() - w),
                        ) && self.won.won_with(
                            pre.won,
                            back(seat.turn(1), t.len() - w),
                            t.to_set(),
                        )
                    &&& if p == Set::<Card>::full() {
                        self.phase == pre.phase.spec_next(pre.charge_count != 0)
                            && self.done.is_clear()
                    } else {
                        self.phase == pre.phase && self.done == pre.done
                    }
                } else {
                    &&& self.led_suits == pre.led_suits
                    &&& self.current_trick@ == t
                    &&& self.next_actor == Some(seat.turn(1))
                    &&& self.won == pre.won
                    &&& self.phase == pre.phase
                    &&& self.done == pre.done
                }
            },
            GameEvent::Claim { seat, .. } => {
                &&& self == GameState { claims: self.claims, ..pre }
                &&& forall|c: Seat, a: Seat| #[trigger]
                    self.claims.accepted(c, a) == (pre.claims.accepted(c, a) || (c == seat && a
                        == seat))
            },
            GameEvent::AcceptClaim { claimer, acceptor } => {
                &&& forall|c: Seat, a: Seat| #[trigger]
                    self.claims.accepted(c, a) == (pre.claims.accepted(c, a) || (c == claimer
                        && a == acceptor))
                &&& if forall|s: Seat| #[trigger] pre.claims.accepted(claimer, s) || s == acceptor {
                    &&& self == GameState {
                        claims: self.claims,
                        won: self.won,
                        current_trick: self.current_trick,
                        phase: self.phase,
                        done: self.done,
                        next_actor: None,
                        ..pre
                    }
                    &&& self.won.won_with(pre.won, claimer, pre.claimed_cards())
                    &&& self.current_trick@ == Seq::<Card>::empty()
                    &&& self.current_trick.lead_slot() == pre.current_trick.lead_slot()
                    &&& self.phase == pre.phase.spec_next(pre.charge_count != 0)
                    &&& self.done.is_clear()
                } else {
                    self == GameState { claims: self.claims, ..pre }
                }
            },
            GameEvent::RejectClaim { claimer, .. } => {
                &&& self == GameState { claims: self.claims, ..pre }
                &&& forall|c: Seat, a: Seat| #[trigger]
                    self.claims.accepted(c, a) == (pre.claims.accepted(c, a) && c != claimer)
            },
            _ => self == pre,
        }
    }

    /// The state of a game before anyone sits: classic rules, the first pass to the left, and
    /// nothing done, charged, played, claimed or taken.
    pub open spec fn is_initial(self) -> bool {
        &&& self.wf()
        &&& self.rules == ChargingRules::Classic
        &&& self.phase == GamePhase::PassLeft
        &&& self.done.is_clear()
        &&& self.charge_count == 0
        &&& forall|s: Seat, c: Card| !#[trigger] self.charges.charged(s, c)
        &&& self.next_actor is None
        &&& self.played@ == Set::<Card>::empty()
        &&& forall|c: Seat, a: Seat| !#[trigger] self.claims.accepted(c, a)
        &&& self.won.is_clear()
        &&& self.led_suits@ == Set::<Suit>::empty()
        &&& self.current_trick@ == Seq::<Card>::empty()
    }

    pub fn new() -> (r: Self)
        ensures
            r.is_initial(),
            r.wf(),
            r.rules == ChargingRules::Classic,
            r.phase == GamePhase::PassLeft,
            r.done.is_clear(),
            r.charge_count == 0,
            forall|s: Seat, c: Card| !#[trigger] r.charges.charged(s, c),
            r.next_actor is None,
            r.played@ == Set::<Card>::empty(),
            forall|c: Seat, a: Seat| !#[trigger] r.claims.accepted(c, a),
            r.won.is_clear(),
            r.led_suits@ == Set::<Suit>::empty(),
            r.current_trick@ == Seq::<Card>::empty(),
    {
        Self {
            rules: ChargingRules::Classic,
            phase: GamePhase::PassLeft,
            done: DoneState::new(),
            charge_count: 0,
            charges: ChargeState::new(),
            next_actor: None,
            played: Cards::none(),
            claims: ClaimState::new(),
            won: WonState::new(),
            led_suits: Suits::none(),
            current_trick: Trick::new(),
        }
    }

    /// Who has sent a pass so far.
    pub fn pass_status_event(&self) -> (r: GameEvent)
        ensures
            r == (GameEvent::PassStatus {
                north_done: self.done.done(Seat::North),
                east_done: self.done.done(Seat::East),
                south_done: self.done.done(Seat::South),
                west_done: self.done.done(Seat::West),
            }),
    {
        GameEvent::PassStatus {
            north_done: self.done.sent_pass(Seat::North),
            east_done: self.done.sent_pass(Seat::East),
            south_done: self.done.sent_pass(Seat::South),
            west_done: self.done.sent_pass(Seat::West),
        }
    }

    /// Who charges next (when charges go in turn) and who is done charging.
    pub fn charge_status_event(&self) -> (r: GameEvent)
        ensures
            r == (GameEvent::ChargeStatus {
                next_charger: self.next_actor,
                north_done: self.done.done(Seat::North),
                east_done: self.done.done(Seat::East),
                south_done: self.done.done(Seat::South),
                west_done: self.done.done(Seat::West),
            }),
    {
        GameEvent::ChargeStatus {
            next_charger: self.next_actor,
            north_done: self.done.charged(Seat::North),
            east_done: self.done.charged(Seat::East),
            south_done: self.done.charged(Seat::South),
            west_done: self.done.charged(Seat::West),
        }
    }

    /// Every card charged in this hand.
    pub fn charged_cards(&self) -> (r: Cards)
        ensures
            r.wf(),
            r@ == self.charges.all_set(),
    {
        self.charges.all_charges()
    }

    /// The score of `seat` for the hand so far.
    pub fn score(&self, seat: Seat) -> (r: i16)
        ensures
            r == self.won.spec_score(seat, self.charges.all_set()),
    {
        self.won.score(seat, self.charges.all_charges())
    }

    /// Whether `seat` may charge now: charges are free, or it is `seat`'s turn.
    pub fn can_charge(&self, seat: Seat) -> (r: bool)
        ensures
            r == match self.next_actor {
                Some(s) => s == seat,
                None => true,
            },
    {
        match self.next_actor {
            Some(s) if s != seat => false,
            _ => true,
        }
    }

    /// Applies `event` to the state.
    pub fn apply(&mut self, event: &GameEvent)
        requires
            old(self).wf(),
            old(self).pre_apply(*event),
        ensures
            final(self).wf(),
            final(self).applied(*old(self), *event),
            match *event {
                GameEvent::Play { seat, card } => *final(self) == old(self).play_result(seat, card),
                _ => true,
            },
    {
        match event {
            GameEvent::Sit { rules, .. } => {
                self.rules = *rules;
            },
            GameEvent::Deal { .. } => {
                self.charge_count = 0;
                self.charges.clear();
                self.next_actor = self.phase.first_charger(self.rules);
                self.played = Cards::none();
                self.claims = ClaimState::new();
                self.won = WonState::new();
                self.led_suits = Suits::none();
                self.current_trick.clear();
            },
            GameEvent::SendPass { from, .. } => {
                self.done.send_pass(*from);
            },
            GameEvent::RecvPass { to, .. } => {
                let ghost pre = *self;
                self.done.recv_pass(*to);
                let all = self.done.all_recv_pass();
                proof {
                    if all {
                        assert forall|s: Seat| #[trigger] pre.done.received(s) || s == *to by {
                            assert(self.done.received(s));
                        }
                    } else {
                        let s = choose|s: Seat| !#[trigger] self.done.received(s);
                        assert(!(pre.done.received(s) || s == *to));
                    }
                }
                if all {
                    self.phase = self.phase.next(self.charge_count != 0);
                    self.done.reset();
                    self.next_actor = self.phase.first_charger(self.rules);
                }
            },
            GameEvent::BlindCharge { seat, count } => {
                self.charge_count = self.charge_count + (*count as u8);
                self.charge(*seat, *count);
            },
            GameEvent::Charge { seat, cards } => {
                let n = cards.len();
                self.charge_count = self.charge_count + (n as u8);
                self.charges.charge(*seat, *cards);
                self.charge(*seat, n);
            },
            GameEvent::RevealCharges { north, east, south, west } => {
                self.charges.charge(Seat::North, *north);
                self.charges.charge(Seat::East, *east);
                self.charges.charge(Seat::South, *south);
                self.charges.charge(Seat::West, *west);
            },
            GameEvent::Play { seat, card } => {
                self.play(*seat, *card);
            },
            GameEvent::Claim { seat, .. } => {
                self.claims.claim(*seat);
            },
            GameEvent::AcceptClaim { claimer, acceptor } => {
                let ghost pre = *self;
                let accepted = self.claims.accept(*claimer, *acceptor);
                proof {
                    if accepted {
                        assert forall|s: Seat| #[trigger] pre.claims.accepted(*claimer, s) || s
                            == *acceptor by {
                            assert(self.claims.accepted(*claimer, s));
                        }
                    } else {
                        let s = choose|s: Seat| !#[trigger] self.claims.accepted(*claimer, s);
                        assert(!(pre.claims.accepted(*claimer, s) || s == *acceptor));
                    }
                }
                if accepted {
                    let rest = Cards::all().difference(self.played).union(
                        self.current_trick.cards(),
                    );
                    self.won.win(*claimer, rest);
                    self.current_trick.clear();
                    self.phase = self.phase.next(self.charge_count != 0);
                    self.done.reset();
                    self.next_actor = None;
                }
            },
            GameEvent::RejectClaim { claimer, .. } => {
                self.claims.reject(*claimer);
            },
            _ => {},
        }
    }

    #[verifier::rlimit(60)]
    fn play(&mut self, seat: Seat, card: Card)
        requires
            old(self).wf(),
            old(self).pre_apply(GameEvent::Play { seat, card }),
        ensures
            final(self).wf(),
            final(self).applied(*old(self), GameEvent::Play { seat, card }),
            *final(self) == old(self).play_result(seat, card),
    {
        self.played.insert(card);
        self.current_trick.push(card);
        self.next_actor = Some(seat.left());
        let all = Cards::all();
        proof {
            if self.played@ == Set::<Card>::full() {
                Cards::lemma_view_injective(self.played, all);
            }
        }
        if self.current_trick.is_complete() || self.played == all {
            self.led_suits.insert(self.current_trick.suit());
            let winner = self.current_trick.winning_seat(seat.left());
            let ghost t = self.current_trick@;
            let ghost w = choose|w: int|
                #[trigger] winning_position(t, w) && winner == back(seat.turn(1), t.len() - w);
            self.won.win(winner, self.current_trick.cards());
            self.current_trick.clear();
            self.next_actor = Some(winner);
            if self.played == all {
                self.phase = self.phase.next(self.charge_count != 0);
                self.done.reset();
            }
            proof {
                assert(winning_position(t, w));
            }
        }
    }

    /// The bookkeeping after `seat` charged `count` cards (or none).
    fn charge(&mut self, seat: Seat, count: usize)
        requires
            old(self).charge_ok(seat, count as nat),
        ensures
            final(self).charge_step(*old(self), seat, count as nat),
    {
        match self.next_actor {
            Some(charger) => {
                self.next_actor = Some(charger.left());
            },
            None => {},
        }
        if count == 0 {
            let ghost pre = *self;
            self.done.charge(seat);
            let all = self.done.all_charge();
            proof {
                if all {
                    assert forall|s: Seat| #[trigger] pre.done.done(s) || s == seat by {
                        assert(self.done.done(s));
                    }
                } else {
                    let s = choose|s: Seat| !#[trigger] self.done.done(s);
                    assert(!(pre.done.done(s) || s == seat));
                }
            }
            if all {
                self.phase = self.phase.next(self.charge_count != 0);
                self.done.reset();
                self.next_actor = None;
            }
        } else {
            self.done.reset();
            if !self.rules.chain() {
                self.done.charge(seat);
            }
        }
    }

    /// The cards of `hand` that may be played now, by the rules of play. A player holding the
    /// two of clubs must play it. On the first trick no points may be played unless the player
    /// has nothing else, and then the jack of diamonds, or else the queen of spades, must go.
    /// A player must follow the suit led if able, and may not play a card of that suit charged
    /// in this hand on the first trick of the suit unless it is the only card of the suit held.
    /// The leader may not lead hearts before they are broken unless holding only hearts, and
    /// may not lead a charged card of a suit not yet led unless holding nothing else.
    pub open spec fn spec_legal_plays(self, hand: Set<Card>) -> Set<Card> {
        let plays = hand.difference(self.played@);
        let trick = self.current_trick@;
        let first_trick = trick.contains(Card::TwoClubs);
        let only_points = plays.subset_of(Cards::points_set());
        if plays.contains(Card::TwoClubs) {
            set![Card::TwoClubs]
        } else if first_trick && only_points && plays.contains(Card::JackDiamonds) {
            set![Card::JackDiamonds]
        } else if first_trick && only_points && plays.contains(Card::QueenSpades) {
            set![Card::QueenSpades]
        } else {
            let plays = if first_trick && !only_points {
                plays.difference(Cards::points_set())
            } else {
                plays
            };
            if trick.len() > 0 {
                let suit = trick[0].spec_suit();
                let in_suit = plays.intersect(Cards::suit_set(suit));
                if in_suit.is_empty() {
                    plays
                } else if !self.led_suits@.contains(suit) && in_suit.len() > 1 {
                    in_suit.difference(self.charges.all_set())
                } else {
                    in_suit
                }
            } else {
                let hearts = Cards::suit_set(Suit::Hearts);
                let plays = if self.played@.disjoint(hearts) && !plays.subset_of(hearts) {
                    plays.difference(hearts)
                } else {
                    plays
                };
                let unled = self.charges.all_set().difference(
                    Set::new(|c: Card| self.led_suits@.contains(c.spec_suit())),
                );
                if !plays.subset_of(unled) {
                    plays.difference(unled)
                } else {
                    plays
                }
            }
        }
    }

    /// The cards of `hand` that may be played now (see `spec_legal_plays`).
    pub fn legal_plays(&self, hand: Cards) -> (r: Cards)
        requires
            self.wf(),
            hand.wf(),
        ensures
            r.wf(),
            r@ == self.spec_legal_plays(hand@),
    {
        let mut plays = hand.difference(self.played);

        if plays.contains(Card::TwoClubs) {
            return Cards::from(Card::TwoClubs);
        }
        let trick_cards = self.current_trick.cards();
        let points = Cards::points();
        if trick_cards.contains(Card::TwoClubs) {
            if !points.contains_all(plays) {
                plays = plays.difference(points);
            } else if plays.contains(Card::JackDiamonds) {
                return Cards::from(Card::JackDiamonds);
            } else if plays.contains(Card::QueenSpades) {
                return Cards::from(Card::QueenSpades);
            }
        }
        let ghost p1 = plays@;
        if !self.current_trick.is_empty() {
            let suit = self.current_trick.suit();
            let suit_cards = suit.cards();
            if suit_cards.contains_any(plays) {
                plays = plays.intersect(suit_cards);
                proof {
                    plays.lemma_len();
                    assert(plays@ == p1.intersect(Cards::suit_set(suit)));
                    assert(!plays@.is_empty()) by {
                        let c = choose|c: Card| suit_cards@.contains(c) && #[trigger] p1.contains(c);
                        assert(plays@.contains(c));
                    }
                }
                if !self.led_suits.contains(suit) && plays.len() > 1 {
                    plays = plays.difference(self.charges.all_charges());
                }
            } else {
                proof {
                    assert(p1.intersect(Cards::suit_set(suit)) =~= Set::<Card>::empty()) by {
                        assert forall|c: Card| !p1.intersect(Cards::suit_set(suit)).contains(c) by {
                            if p1.contains(c) && c.spec_suit() == suit {
                                assert(suit_cards@.contains(c));
                            }
                        }
                    }
                }
            }
        } else {
            let hearts = Cards::hearts();
            if !self.played.contains_any(hearts) && !hearts.contains_all(plays) {
                plays = plays.difference(hearts);
            }
            let unled_charges = self.charges.all_charges().difference(self.led_suits.cards());
            if !unled_charges.contains_all(plays) {
                plays = plays.difference(unled_charges);
            }
        }
        plays
    }

    /// Every legal play is a card of the hand that has not been played.
    pub proof fn lemma_legal_plays_in_hand(self, hand: Set<Card>)
        ensures
            self.spec_legal_plays(hand).subset_of(hand.difference(self.played@)),
    {
    }

    /// A player with a card left always has a legal play.
    pub proof fn lemma_legal_plays_nonempty(self, hand: Set<Card>)
        requires
            !hand.difference(self.played@).is_empty(),
        ensures
            !self.spec_legal_plays(hand).is_empty(),
    {
        let plays = hand.difference(self.played@);
        let c0 = choose|c: Card| plays.contains(c);
        assert(plays.contains(c0));
        let r = self.spec_legal_plays(hand);
        let trick = self.current_trick@;
        let first_trick = trick.contains(Card::TwoClubs);
        let only_points = plays.subset_of(Cards::points_set());
        if plays.contains(Card::TwoClubs) {
            assert(r.contains(Card::TwoClubs));
        } else if first_trick && only_points && plays.contains(Card::JackDiamonds) {
            assert(r.contains(Card::JackDiamonds));
        } else if first_trick && only_points && plays.contains(Card::QueenSpades) {
            assert(r.contains(Card::QueenSpades));
        } else {
            let p1 = if first_trick && !only_points {
                plays.difference(Cards::points_set())
            } else {
                plays
            };
            let c1 = if first_trick && !only_points {
                choose|c: Card| plays.contains(c) && !Cards::points_set().contains(c)
            } else {
                c0
            };
            assert(p1.contains(c1));
            if trick.len() > 0 {
                let suit = trick[0].spec_suit();
                let in_suit = p1.intersect(Cards::suit_set(suit));
                if in_suit.is_empty() {
                    assert(r.contains(c1));
                } else if !self.led_suits@.contains(suit) && in_suit.len() > 1 {
                    let a = choose|c: Card| in_suit.contains(c);
                    assert(in_suit.contains(a));
                    if !in_suit.difference(self.charges.all_set()).contains(a) {
                        let b = choose|c: Card| in_suit.remove(a).contains(c);
                        if !in_suit.remove(a).contains(b) {
                            assert(in_suit.remove(a) =~= Set::<Card>::empty());
                            assert(in_suit =~= set![a]);
                        }
                        assert(in_suit.contains(b) && b != a);
                        let sa = choose|s: crate::seat::Seat| #[trigger] self.charges.charged(s, a);
                        self.charges.lemma_charged_chargeable(sa, a);
                        if !in_suit.difference(self.charges.all_set()).contains(b) {
                            let sb = choose|s: crate::seat::Seat| #[trigger] self.charges.charged(s, b);
                            self.charges.lemma_charged_chargeable(sb, b);
                        }
                        assert(r.contains(b));
                    } else {
                        assert(r.contains(a));
                    }
                } else {
                    let a = choose|c: Card| in_suit.contains(c);
                    assert(in_suit.contains(a));
                    assert(r.contains(a));
                }
            } else {
                let hearts = Cards::suit_set(Suit::Hearts);
                let p2 = if self.played@.disjoint(hearts) && !p1.subset_of(hearts) {
                    p1.difference(hearts)
                } else {
                    p1
                };
                let c2 = if self.played@.disjoint(hearts) && !p1.subset_of(hearts) {
                    choose|c: Card| p1.contains(c) && !hearts.contains(c)
                } else {
                    c1
                };
                assert(p2.contains(c2));
                let unled = self.charges.all_set().difference(
                    Set::new(|c: Card| self.led_suits@.contains(c.spec_suit())),
                );
                if !p2.subset_of(unled) {
                    let c3 = choose|c: Card| p2.contains(c) && !unled.contains(c);
                    assert(r.contains(c3));
                } else {
                    assert(r.contains(c2));
                }
            }
        }
    }

    /// The state of a hand being played agrees with itself: the trick in progress is not
    /// over, holds no card twice and only played cards; the hearts taken and the hearts in the
    /// trick are the hearts played; and a special card taken has been played and is not in the
    /// trick.
    pub open spec fn consistent(self) -> bool {
        let trick = self.current_trick@;
        &&& self.wf()
        &&& !seq_complete(trick)
        &&& trick.no_duplicates()
        &&& forall|i: int| 0 <= i < trick.len() ==> self.played@.contains(#[trigger] trick[i])
        &&& hearts_taken(self.won) + Cards::hearts_in(trick.to_set()) == Cards::hearts_in(
            self.played@,
        )
        &&& forall|s: Seat| #[trigger]
            self.won.spec_queen(s) ==> self.played@.contains(Card::QueenSpades)
                && !trick.contains(Card::QueenSpades)
        &&& forall|s: Seat| #[trigger]
            self.won.spec_jack(s) ==> self.played@.contains(Card::JackDiamonds)
                && !trick.contains(Card::JackDiamonds)
        &&& forall|s: Seat| #[trigger]
            self.won.spec_ten(s) ==> self.played@.contains(Card::TenClubs)
                && !trick.contains(Card::TenClubs)
    }

    proof fn lemma_hearts_insert(a: Set<Card>, c: Card)
        requires
            a.finite(),
            !a.contains(c),
        ensures
            Cards::hearts_in(a.insert(c)) == Cards::hearts_in(a) + if c.spec_suit() == Suit::Hearts {
                1int
            } else {
                0int
            },
    {
        let h = Cards::suit_set(Suit::Hearts);
        if c.spec_suit() == Suit::Hearts {
            assert(a.insert(c).intersect(h) =~= a.intersect(h).insert(c));
        } else {
            assert(a.insert(c).intersect(h) =~= a.intersect(h));
        }
    }

    proof fn lemma_hearts_bound(a: Set<Card>)
        ensures
            Cards::hearts_in(a) <= 13,
    {
        lemma_suit_len(Suit::Hearts);
        vstd::set_lib::lemma_len_subset(
            a.intersect(Cards::suit_set(Suit::Hearts)),
            Cards::suit_set(Suit::Hearts),
        );
    }

    proof fn lemma_push_to_set(t: Seq<Card>, c: Card)
        ensures
            t.push(c).to_set() == t.to_set().insert(c),
    {
        assert forall|x: Card| t.push(c).to_set().contains(x) == t.to_set().insert(c).contains(x) by {
            if t.push(c).contains(x) {
                let i = choose|i: int| 0 <= i < t.push(c).len() && t.push(c)[i] == x;
                if i < t.len() {
                    assert(t[i] == x);
                }
            }
            if t.contains(x) {
                let i = choose|i: int| 0 <= i < t.len() && t[i] == x;
                assert(t.push(c)[i] == x);
            }
            if x == c {
                assert(t.push(c)[t.len() as int] == x);
            }
        }
        assert(t.push(c).to_set() =~= t.to_set().insert(c));
    }

    /// In a consistent state of a hand being played, any card not yet played can be played:
    /// applying the play cannot fail.
    pub proof fn lemma_play_applies(self, seat: Seat, card: Card)
        requires
            self.consistent(),
            self.phase != GamePhase::Complete,
            !self.played@.contains(card),
        ensures
            self.pre_apply(GameEvent::Play { seat, card }),
    {
        let trick = self.current_trick@;
        let t = trick.push(card);
        self.played.lemma_len();
        self.current_trick.lemma_wf();
        Self::lemma_push_to_set(trick, card);
        assert(!trick.to_set().contains(card)) by {
            if trick.contains(card) {
                let i = choose|i: int| 0 <= i < trick.len() && trick[i] == card;
                assert(self.played@.contains(trick[i]));
            }
        }
        assert(trick.to_set().subset_of(self.played@)) by {
            assert forall|x: Card| trick.to_set().contains(x) implies self.played@.contains(x) by {
                let i = choose|i: int| 0 <= i < trick.len() && trick[i] == x;
                assert(self.played@.contains(trick[i]));
            }
        }
        vstd::seq_lib::seq_to_set_is_finite(trick);
        Self::lemma_hearts_insert(trick.to_set(), card);
        Self::lemma_hearts_insert(self.played@, card);
        Self::lemma_hearts_bound(self.played@.insert(card));
        assert forall|w: int| #[trigger] winning_position(t, w) implies self.won.can_win(
            back(seat.turn(1), t.len() - w),
            t.to_set(),
        ) by {
            let s = back(seat.turn(1), t.len() - w);
            assert(self.won.spec_hearts(s) <= hearts_taken(self.won));
            if t.to_set().contains(Card::QueenSpades) && self.won.spec_queen(s) {
                if card == Card::QueenSpades {
                } else {
                    assert(trick.to_set().contains(Card::QueenSpades));
                }
            }
            if t.to_set().contains(Card::JackDiamonds) && self.won.spec_jack(s) {
                if card != Card::JackDiamonds {
                    assert(trick.to_set().contains(Card::JackDiamonds));
                }
            }
            if t.to_set().contains(Card::TenClubs) && self.won.spec_ten(s) {
                if card != Card::TenClubs {
                    assert(trick.to_set().contains(Card::TenClubs));
                }
            }
        }
    }

    /// Playing a card not yet played keeps the state of the hand consistent.
    pub proof fn lemma_play_consistent(self, next: GameState, seat: Seat, card: Card)
        requires
            self.consistent(),
            self.phase != GamePhase::Complete,
            !self.played@.contains(card),
            next.wf(),
            next.applied(self, GameEvent::Play { seat, card }),
        ensures
            next.consistent(),
    {
        let trick = self.current_trick@;
        let t = trick.push(card);
        self.played.lemma_len();
        Self::lemma_push_to_set(trick, card);
        assert(!trick.to_set().contains(card)) by {
            if trick.contains(card) {
                let i = choose|i: int| 0 <= i < trick.len() && trick[i] == card;
                assert(self.played@.contains(trick[i]));
            }
        }
        vstd::seq_lib::seq_to_set_is_finite(trick);
        Self::lemma_hearts_insert(trick.to_set(), card);
        Self::lemma_hearts_insert(self.played@, card);
        if seq_complete(t) || self.played@.insert(card) == Set::<Card>::full() {
            let w = choose|w: int|
                #[trigger] winning_position(t, w) && next.next_actor == Some(
                    back(seat.turn(1), t.len() - w),
                ) && next.won.won_with(self.won, back(seat.turn(1), t.len() - w), t.to_set());
            let winner = back(seat.turn(1), t.len() - w);
            assert(next.current_trick@ == Seq::<Card>::empty());
            assert(next.current_trick@.to_set() =~= Set::<Card>::empty());
            assert(next.current_trick@.to_set().intersect(Cards::suit_set(Suit::Hearts))
                =~= Set::<Card>::empty());
            assert(Cards::hearts_in(next.current_trick@.to_set()) == 0);
            assert(Cards::hearts_in(next.played@) == Cards::hearts_in(self.played@.insert(card)));
            assert(hearts_taken(next.won) == hearts_taken(self.won) + Cards::hearts_in(t.to_set()))
                by {
                assert(next.won.same_seat(self.won, Seat::North) || winner == Seat::North);
                assert(next.won.same_seat(self.won, Seat::East) || winner == Seat::East);
                assert(next.won.same_seat(self.won, Seat::South) || winner == Seat::South);
                assert(next.won.same_seat(self.won, Seat::West) || winner == Seat::West);
            }
            assert forall|s: Seat| #[trigger] next.won.spec_queen(s) implies next.played@.contains(
                Card::QueenSpades,
            ) && !next.current_trick@.contains(Card::QueenSpades) by {
                if s != winner {
                    assert(next.won.same_seat(self.won, s));
                } else if !self.won.spec_queen(s) {
                    assert(t.to_set().contains(Card::QueenSpades));
                    if card != Card::QueenSpades {
                        let i = choose|i: int| 0 <= i < t.len() && t[i] == Card::QueenSpades;
                        assert(trick[i] == Card::QueenSpades);
                    }
                }
            }
            assert forall|s: Seat| #[trigger] next.won.spec_jack(s) implies next.played@.contains(
                Card::JackDiamonds,
            ) && !next.current_trick@.contains(Card::JackDiamonds) by {
                if s != winner {
                    assert(next.won.same_seat(self.won, s));
                } else if !self.won.spec_jack(s) {
                    assert(t.to_set().contains(Card::JackDiamonds));
                    if card != Card::JackDiamonds {
                        let i = choose|i: int| 0 <= i < t.len() && t[i] == Card::JackDiamonds;
                        assert(trick[i] == Card::JackDiamonds);
                    }
                }
            }
            assert forall|s: Seat| #[trigger] next.won.spec_ten(s) implies next.played@.contains(
                Card::TenClubs,
            ) && !next.current_trick@.contains(Card::TenClubs) by {
                if s != winner {
                    assert(next.won.same_seat(self.won, s));
                } else if !self.won.spec_ten(s) {
                    assert(t.to_set().contains(Card::TenClubs));
                    if card != Card::TenClubs {
                        let i = choose|i: int| 0 <= i < t.len() && t[i] == Card::TenClubs;
                        assert(trick[i] == Card::TenClubs);
                    }
                }
            }
        } else {
            assert(next.current_trick@ == t);
            assert(next.won == self.won);
            assert(Cards::hearts_in(next.played@) == Cards::hearts_in(self.played@.insert(card)));
            assert(Cards::hearts_in(next.current_trick@.to_set()) == Cards::hearts_in(
                trick.to_set().insert(card),
            ));
            assert(t.no_duplicates()) by {
                assert forall|i: int, j: int| 0 <= i < j < t.len() implies t[i] != t[j] by {
                    if j == trick.len() {
                        assert(self.played@.contains(trick[i]));
                    }
                }
            }
            assert forall|s: Seat| #[trigger] next.won.spec_queen(s) implies next.played@.contains(
                Card::QueenSpades,
            ) && !next.current_trick@.contains(Card::QueenSpades) by {
                assert(self.won.spec_queen(s));
                if t.contains(Card::QueenSpades) {
                    let i = choose|i: int| 0 <= i < t.len() && t[i] == Card::QueenSpades;
                    if i < trick.len() {
                        assert(trick[i] == Card::QueenSpades);
                    }
                }
            }
            assert forall|s: Seat| #[trigger] next.won.spec_jack(s) implies next.played@.contains(
                Card::JackDiamonds,
            ) && !next.current_trick@.contains(Card::JackDiamonds) by {
                assert(self.won.spec_jack(s));
                if t.contains(Card::JackDiamonds) {
                    let i = choose|i: int| 0 <= i < t.len() && t[i] == Card::JackDiamonds;
                    if i < trick.len() {
                        assert(trick[i] == Card::JackDiamonds);
                    }
                }
            }
            assert forall|s: Seat| #[trigger] next.won.spec_ten(s) implies next.played@.contains(
                Card::TenClubs,
            ) && !next.current_trick@.contains(Card::TenClubs) by {
                assert(self.won.spec_ten(s));
                if t.contains(Card::TenClubs) {
                    let i = choose|i: int| 0 <= i < t.len() && t[i] == Card::TenClubs;
                    if i < trick.len() {
                        assert(trick[i] == Card::TenClubs);
                    }
                }
            }
        }
    }

    /// A deal starts a consistent hand.
    /// Once every card of a hand has been played and the last trick taken, the thirteen hearts
    /// have all been taken.
    pub proof fn lemma_all_hearts_taken(self)
        requires
            self.consistent(),
            self.played@ == Set::<Card>::full(),
            self.current_trick@.len() == 0,
        ensures
            hearts_taken(self.won) == 13,
    {
        let h = Cards::suit_set(Suit::Hearts);
        crate::cards::lemma_suit_len(Suit::Hearts);
        assert(self.played@.intersect(h) =~= h);
        assert(self.current_trick@.to_set().intersect(h) =~= Set::<Card>::empty());
    }

    pub proof fn lemma_deal_consistent(self, next: GameState, event: GameEvent)
        requires
            event is Deal,
            next.wf(),
            next.applied(self, event),
        ensures
            next.consistent(),
    {
        assert(next.current_trick@.to_set() =~= Set::<Card>::empty());
        assert(next.played@.intersect(Cards::suit_set(Suit::Hearts)) =~= Set::<Card>::empty());
        assert(next.current_trick@.to_set().intersect(Cards::suit_set(Suit::Hearts))
            =~= Set::<Card>::empty());
    }

    /// Whether a charge of `count` cards by `seat` keeps the game from moving past its end.
    fn charge_allowed(&self, seat: Seat, count: usize) -> (r: bool)
        ensures
            r == self.charge_ok(seat, count as nat),
    {
        let mut done = self.done;
        done.charge(seat);
        let all = done.all_charge();
        proof {
            if all {
                assert forall|s: Seat| #[trigger] self.done.done(s) || s == seat by {
                    assert(done.done(s));
                }
            } else {
                let s = choose|s: Seat| !#[trigger] done.done(s);
                assert(!(self.done.done(s) || s == seat));
            }
        }
        !(count == 0 && all) || !self.phase.is_complete()
    }

    /// Whether `event` can be applied to this state (see `pre_apply`).
    #[verifier::rlimit(60)]
    pub fn can_apply(&self, event: &GameEvent) -> (r: bool)
        requires
            self.wf(),
        ensures
            r == self.pre_apply(*event),
    {
        match event {
            GameEvent::RecvPass { to, .. } => {
                let mut done = self.done;
                done.recv_pass(*to);
                let all = done.all_recv_pass();
                proof {
                    if all {
                        assert forall|s: Seat| #[trigger] self.done.received(s) || s == *to by {
                            assert(done.received(s));
                        }
                    } else {
                        let s = choose|s: Seat| !#[trigger] done.received(s);
                        assert(!(self.done.received(s) || s == *to));
                    }
                }
                !all || !self.phase.is_complete()
            },
            GameEvent::BlindCharge { seat, count } => {
                (self.charge_count as usize) + ((*count as u8) as usize) <= 255
                    && self.charge_allowed(*seat, *count)
            },
            GameEvent::Charge { seat, cards } => {
                let n = cards.len();
                (self.charge_count as usize) + n <= 255 && self.charge_allowed(*seat, n)
            },
            GameEvent::Play { seat, card } => {
                proof {
                    self.current_trick.lemma_wf();
                }
                if self.current_trick.len() >= 8 {
                    return false;
                }
                let mut trick = self.current_trick;
                trick.push(*card);
                let played = self.played.with(*card);
                let all = Cards::all();
                proof {
                    if played@ == Set::<Card>::full() {
                        Cards::lemma_view_injective(played, all);
                    }
                }
                let ends = trick.is_complete() || played == all;
                if ends {
                    let winner = trick.winning_seat(seat.left());
                    let taken = self.won.can_take(winner, trick.cards());
                    proof {
                        let t = self.current_trick@.push(*card);
                        let w = choose|w: int| winning_position(t, w) && winner == back(seat.turn(1), t.len() - w);
                        assert(winning_position(t, w));
                        if taken {
                            assert forall|v: int| #[trigger] winning_position(t, v) implies self.won.can_win(
                                back(seat.turn(1), t.len() - v),
                                t.to_set(),
                            ) by {
                                crate::game::trick::lemma_winning_position_unique(t, v, w);
                            }
                        }
                    }
                    if !taken {
                        return false;
                    }
                }
                !(played == all) || !self.phase.is_complete()
            },
            GameEvent::AcceptClaim { claimer, acceptor } => {
                let mut claims = self.claims;
                let accepted = claims.accept(*claimer, *acceptor);
                proof {
                    if accepted {
                        assert forall|s: Seat| #[trigger] self.claims.accepted(*claimer, s) || s
                            == *acceptor by {
                            assert(claims.accepted(*claimer, s));
                        }
                    } else {
                        let s = choose|s: Seat| !#[trigger] claims.accepted(*claimer, s);
                        assert(!(self.claims.accepted(*claimer, s) || s == *acceptor));
                    }
                }
                if !accepted {
                    return true;
                }
                let rest = Cards::all().difference(self.played).union(self.current_trick.cards());
                self.won.can_take(*claimer, rest) && !self.phase.is_complete()
            },
            _ => true,
        }
    }

    /// Each special card `seat` has taken has been played and is not in the trick.
    pub open spec fn specials_ok(self, seat: Seat) -> bool {
        &&& self.won.spec_queen(seat) ==> self.played@.contains(Card::QueenSpades)
            && !self.current_trick@.contains(Card::QueenSpades)
        &&& self.won.spec_jack(seat) ==> self.played@.contains(Card::JackDiamonds)
            && !self.current_trick@.contains(Card::JackDiamonds)
        &&& self.won.spec_ten(seat) ==> self.played@.contains(Card::TenClubs)
            && !self.current_trick@.contains(Card::TenClubs)
    }

    /// Whether `card`, if taken by a seat, has been played and is not in the trick.
    fn special_ok(&self, taken: bool, card: Card, trick: Cards) -> (r: bool)
        requires
            trick@ == self.current_trick@.to_set(),
        ensures
            r == (taken ==> self.played@.contains(card) && !self.current_trick@.contains(card)),
    {
        !taken || (self.played.contains(card) && !trick.contains(card))
    }

    /// Whether the state agrees with itself (see `consistent`).
    pub fn is_consistent(&self) -> (r: bool)
        requires
            self.wf(),
        ensures
            r == self.consistent(),
    {
        proof {
            self.current_trick.lemma_wf();
        }
        if self.current_trick.is_complete() {
            return false;
        }
        let n = self.current_trick.len();
        let mut i: usize = 0;
        while i < n
            invariant
                i <= n,
                n == self.current_trick@.len(),
                self.wf(),
                forall|k: int| 0 <= k < i ==> self.played@.contains(#[trigger] self.current_trick@[k]),
                forall|a: int, b: int| 0 <= a < b < i ==> self.current_trick@[a] != self.current_trick@[b],
            decreases n - i,
        {
            let card = self.current_trick.get(i);
            if !self.played.contains(card) {
                return false;
            }
            let mut j: usize = 0;
            while j < i
                invariant
                    j <= i,
                    i < n,
                    n == self.current_trick@.len(),
                    self.wf(),
                    card == self.current_trick@[i as int],
                    forall|a: int| 0 <= a < j ==> self.current_trick@[a] != card,
                decreases i - j,
            {
                if self.current_trick.get(j) == card {
                    proof {
                        assert(!self.current_trick@.no_duplicates());
                    }
                    return false;
                }
                j = j + 1;
            }
            i = i + 1;
        }
        let trick = self.current_trick.cards();
        let hearts = Cards::hearts();
        let trick_hearts = trick.intersect(hearts);
        let played_hearts = self.played.intersect(hearts);
        proof {
            trick_hearts.lemma_len();
            played_hearts.lemma_len();
        }
        let taken = (self.won.hearts(Seat::North) as usize) + (self.won.hearts(Seat::East) as usize)
            + (self.won.hearts(Seat::South) as usize) + (self.won.hearts(Seat::West) as usize);
        if taken + trick_hearts.len() != played_hearts.len() {
            return false;
        }
        let mut k: u8 = 0;
        while k < 4
            invariant
                k <= 4,
                self.wf(),
                trick@ == self.current_trick@.to_set(),
                forall|s: Seat| s.spec_idx() < k ==> #[trigger] self.specials_ok(s),
            decreases 4 - k,
        {
            let seat = Seat::from(k);
            if !self.special_ok(self.won.queen(seat), Card::QueenSpades, trick) || !self.special_ok(
                self.won.jack(seat),
                Card::JackDiamonds,
                trick,
            ) || !self.special_ok(self.won.ten(seat), Card::TenClubs, trick) {
                proof {
                    assert(!self.specials_ok(seat));
                }
                return false;
            }
            proof {
                assert(self.specials_ok(seat));
                assert forall|s: Seat| s.spec_idx() < k + 1 implies #[trigger] self.specials_ok(s) by {
                    if s.spec_idx() == k {
                        s.lemma_idx();
                        assert(s == seat);
                    }
                }
            }
            k = k + 1;
        }
        proof {
            assert forall|s: Seat| #[trigger] self.won.spec_queen(s) implies self.played@.contains(
                Card::QueenSpades,
            ) && !self.current_trick@.contains(Card::QueenSpades) by {
                s.lemma_idx();
                assert(self.specials_ok(s));
            }
            assert forall|s: Seat| #[trigger] self.won.spec_jack(s) implies self.played@.contains(
                Card::JackDiamonds,
            ) && !self.current_trick@.contains(Card::JackDiamonds) by {
                s.lemma_idx();
                assert(self.specials_ok(s));
            }
            assert forall|s: Seat| #[trigger] self.won.spec_ten(s) implies self.played@.contains(
                Card::TenClubs,
            ) && !self.current_trick@.contains(Card::TenClubs) by {
                s.lemma_idx();
                assert(self.specials_ok(s));
            }
        }
        true
    }
}

impl GameState {
    /// Every player but `acceptor` has accepted the claim of `claimer`.
    pub open spec fn accepted_but(self, claimer: Seat, acceptor: Seat) -> bool {
        forall|s: Seat| #[trigger] self.claims.accepted(claimer, s) || s == acceptor
    }

    /// Everyone but `seat` is done (with passing or charging).
    pub open spec fn done_but(self, seat: Seat) -> bool {
        forall|s: Seat| #[trigger] self.done.done(s) || s == seat
    }

    /// `self` differs from `other` at most in its claims.
    pub open spec fn same_but_claims(self, other: GameState) -> bool {
        self == (GameState { claims: self.claims, ..other })
    }
}

/// A claim that is rejected leaves the game as it was before the claim was made: play goes on
/// as if it had never occurred.
pub proof fn lemma_rejected_claim_undone(
    pre: GameState,
    mid: GameState,
    post: GameState,
    seat: Seat,
    hand: Cards,
    rejector: Seat,
)
    requires
        !pre.claims.spec_is_claiming(seat),
        mid.applied(pre, GameEvent::Claim { seat, hand }),
        post.applied(mid, GameEvent::RejectClaim { claimer: seat, rejector }),
    ensures
        post.same_but_claims(pre),
        forall|c: Seat, a: Seat| #[trigger] post.claims.accepted(c, a) == pre.claims.accepted(c, a),
{
    assert forall|c: Seat, a: Seat| #[trigger] post.claims.accepted(c, a) == pre.claims.accepted(
        c,
        a,
    ) by {
        if c == seat {
            assert(!pre.claims.accepted(seat, a));
        }
    }
}

/// When the last of the other players accepts a claim, the claimer takes every card not yet
/// won and the hand ends; until then, play goes on with only the acceptance noted.
pub proof fn lemma_accepted_claim(pre: GameState, post: GameState, claimer: Seat, acceptor: Seat)
    requires
        post.applied(pre, GameEvent::AcceptClaim { claimer, acceptor }),
    ensures
        pre.accepted_but(claimer, acceptor) ==> post.won.won_with(
            pre.won,
            claimer,
            pre.claimed_cards(),
        ),
        pre.accepted_but(claimer, acceptor) ==> post.phase == pre.phase.spec_next(
            pre.charge_count != 0,
        ),
        pre.accepted_but(claimer, acceptor) ==> post.current_trick@.len() == 0,
        !pre.accepted_but(claimer, acceptor) ==> post.same_but_claims(pre),
{
}

/// Charging ends only with an empty charge once everyone else is done. A charge of some cards
/// makes everyone charge again, except the charger unless the rules chain; an empty charge
/// before that marks the charger done.
pub proof fn lemma_charging_ends(pre: GameState, post: GameState, seat: Seat, cards: Cards)
    requires
        post.applied(pre, GameEvent::Charge { seat, cards }),
    ensures
        cards.spec_len() > 0 ==> post.phase == pre.phase,
        cards.spec_len() > 0 ==> forall|s: Seat| #[trigger]
            post.done.done(s) == (!pre.rules.spec_chain() && s == seat),
        cards.spec_len() == 0 && pre.done_but(seat) ==> post.phase == pre.phase.spec_next(
            pre.charge_count != 0,
        ),
        cards.spec_len() == 0 && !pre.done_but(seat) ==> post.phase == pre.phase,
        cards.spec_len() == 0 && !pre.done_but(seat) ==> post.done.done(seat),
{
    let mid = GameState {
        charge_count: (pre.charge_count + cards.spec_len()) as u8,
        charges: post.charges,
        ..pre
    };
    if !pre.done_but(seat) {
        let s0 = choose|s: Seat| !(#[trigger] pre.done.done(s) || s == seat);
        assert(!(mid.done.done(s0) || s0 == seat));
    }
}

/// Hearts are not led before they are broken: when the trick is empty, no heart has been
/// played, and the cards of `hand` still unplayed include one that is not a heart, no heart is a
/// legal play.
pub proof fn lemma_no_heart_lead_unbroken(state: GameState, hand: Set<Card>)
    requires
        state.current_trick@.len() == 0,
        forall|c: Card| #[trigger] state.played@.contains(c) ==> c.spec_suit() != Suit::Hearts,
        exists|c: Card| #[trigger] hand.contains(c) && !state.played@.contains(c) && c.spec_suit() != Suit::Hearts,
    ensures
        forall|c: Card| #[trigger] state.spec_legal_plays(hand).contains(c) ==> c.spec_suit() != Suit::Hearts,
{
    let plays = hand.difference(state.played@);
    let hearts = Cards::suit_set(Suit::Hearts);
    let other = choose|c: Card| #[trigger] hand.contains(c) && !state.played@.contains(c) && c.spec_suit() != Suit::Hearts;
    assert(plays.contains(other));
    assert(!plays.subset_of(hearts));
    assert(!state.current_trick@.contains(Card::TwoClubs));
    assert(state.played@.disjoint(hearts));
}

/// The holder of the two of clubs must play it: while it is unplayed in `hand`, it is the only
/// legal play.
pub proof fn lemma_two_of_clubs_first(state: GameState, hand: Set<Card>)
    requires
        hand.contains(Card::TwoClubs),
        !state.played@.contains(Card::TwoClubs),
    ensures
        state.spec_legal_plays(hand) == set![Card::TwoClubs],
{
    assert(hand.difference(state.played@).contains(Card::TwoClubs));
}

/// Suit is followed: after the first trick (the two of clubs played and not in the trick), a
/// player following to a trick who still holds a card of the suit led may only play cards of
/// that suit.
pub proof fn lemma_follow_suit(state: GameState, hand: Set<Card>)
    requires
        state.current_trick@.len() > 0,
        state.played@.contains(Card::TwoClubs),
        !state.current_trick@.contains(Card::TwoClubs),
        exists|c: Card|
            #[trigger] hand.contains(c) && !state.played@.contains(c) && c.spec_suit()
                == state.current_trick@[0].spec_suit(),
    ensures
        forall|c: Card| #[trigger] state.spec_legal_plays(hand).contains(c) ==> c.spec_suit()
            == state.current_trick@[0].spec_suit(),
{
    let suit = state.current_trick@[0].spec_suit();
    let plays = hand.difference(state.played@);
    let c = choose|c: Card|
        #[trigger] hand.contains(c) && !state.played@.contains(c) && c.spec_suit() == suit;
    assert(plays.contains(c));
    assert(plays.intersect(Cards::suit_set(suit)).contains(c));
    assert(!plays.contains(Card::TwoClubs));
}

} // verus!
