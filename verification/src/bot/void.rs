//! Which players have shown out of which suits in the current hand.
use crate::bits::{bit16, lemma_bit16_or, lemma_bit16_single, lemma_bit16_test, lemma_bit16_zero};
use crate::cards::Suit;
use crate::game::event::GameEvent;
use crate::game::state::GameState;
use crate::seat::Seat;
use vstd::prelude::*;

verus! {

/// One bit per seat and suit: the seat has failed to follow that suit.
#[derive(Clone, Copy, Debug)]
pub struct VoidState {
    state: u16,
}

pub open spec fn void_bit(seat: Seat, suit: Suit) -> u16 {
    (4 * seat.spec_idx() + suit.spec_idx()) as u16
}

impl VoidState {
    /// `seat` is known to hold no card of `suit`.
    pub closed spec fn void(self, seat: Seat, suit: Suit) -> bool {
        bit16(self.state, void_bit(seat, suit))
    }

    pub fn new() -> (r: Self)
        ensures
            forall|seat: Seat, suit: Suit| !#[trigger] r.void(seat, suit),
    {
        let r = Self { state: 0 };
        proof {
            assert forall|seat: Seat, suit: Suit| !#[trigger] r.void(seat, suit) by {
                lemma_bit16_zero(void_bit(seat, suit));
            }
        }
        r
    }

    pub fn is_void(&self, seat: Seat, suit: Suit) -> (r: bool)
        ensures
            r == self.void(seat, suit),
    {
        proof {
            seat.lemma_idx();
            suit.lemma_idx();
            lemma_bit16_test(self.state, void_bit(seat, suit));
        }
        self.state & (1 << (4 * seat.idx() + suit.idx()) as u16) != 0
    }

    /// `self` is `before` once `event` has been seen in `state`: a player failing to follow
    /// the suit led is void in it; the end of a hand forgets everything; nothing else changes.
    pub open spec fn noted(self, before: VoidState, state: GameState, event: GameEvent) -> bool {
        match event {
            GameEvent::Play { seat, card } => {
                let trick = state.current_trick@;
                forall|s: Seat, u: Suit| #[trigger]
                    self.void(s, u) == (before.void(s, u) || (trick.len() > 0 && s == seat && u
                        == trick[0].spec_suit() && card.spec_suit() != u))
            },
            GameEvent::HandComplete { .. } => forall|s: Seat, u: Suit| !#[trigger] self.void(s, u),
            _ => self == before,
        }
    }

    /// Notes a player failing to follow suit; a new hand forgets everything.
    pub fn on_event(&mut self, state: &GameState, event: &GameEvent)
        requires
            state.wf(),
        ensures
            final(self).noted(*old(self), *state, *event),
    {
        match event {
            GameEvent::Play { seat, card } => {
                if !state.current_trick.is_empty() {
                    let suit = state.current_trick.suit();
                    if card.suit() != suit {
                        proof {
                            seat.lemma_idx();
                            suit.lemma_idx();
                        }
                        let old_state = self.state;
                        let j: u16 = (4 * seat.idx() + suit.idx()) as u16;
                        self.state = self.state | (1u16 << j);
                        proof {
                            assert forall|s: Seat, u: Suit| #[trigger] final(self).void(s, u) == (
                            old(self).void(s, u) || (s == *seat && u == suit)) by {
                                s.lemma_idx();
                                u.lemma_idx();
                                lemma_bit16_or(old_state, 1u16 << j, void_bit(s, u));
                                lemma_bit16_single(j, void_bit(s, u));
                            }
                        }
                    }
                }
            },
            GameEvent::HandComplete { .. } => {
                *self = VoidState::new();
            },
            _ => {},
        }
    }
}

} // verus!
