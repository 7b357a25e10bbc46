//! Claims: a player claims the rest of the tricks; the claim succeeds when all four players
//! have accepted it (the claimer counts as accepting their own claim).
use crate::bits::{
    bit16, lemma_bit16_clear_nibble, lemma_bit16_nibble, lemma_bit16_or,
    lemma_bit16_single, lemma_bit16_test, lemma_bit16_zero,
};
use crate::seat::Seat;
use vstd::prelude::*;

verus! {

#[derive(Clone, Copy, Debug)]
pub struct ClaimState {
    accepts: u16,
}

pub open spec fn claim_bit(claimer: Seat, acceptor: Seat) -> u16 {
    (4 * claimer.spec_idx() + acceptor.spec_idx()) as u16
}

impl ClaimState {
    /// `acceptor` has accepted the claim that `claimer` is making.
    pub closed spec fn accepted(self, claimer: Seat, acceptor: Seat) -> bool {
        bit16(self.accepts, claim_bit(claimer, acceptor))
    }

    pub open spec fn spec_successfully_claimed(self, claimer: Seat) -> bool {
        forall|s: Seat| #[trigger] self.accepted(claimer, s)
    }

    pub open spec fn spec_is_claiming(self, seat: Seat) -> bool {
        exists|s: Seat| #[trigger] self.accepted(seat, s)
    }

    proof fn lemma_bits(claimer: Seat, acceptor: Seat)
        ensures
            claim_bit(claimer, acceptor) < 16,
            claim_bit(claimer, acceptor) / 4 == claimer.spec_idx(),
            claim_bit(claimer, acceptor) % 4 == acceptor.spec_idx(),
    {
        claimer.lemma_idx();
        acceptor.lemma_idx();
    }

    proof fn lemma_row(self, claimer: Seat)
        ensures
            self.accepted(claimer, Seat::North) == bit16(
                self.accepts,
                (4 * claimer.spec_idx()) as u16,
            ),
            self.accepted(claimer, Seat::East) == bit16(
                self.accepts,
                (4 * claimer.spec_idx() + 1) as u16,
            ),
            self.accepted(claimer, Seat::South) == bit16(
                self.accepts,
                (4 * claimer.spec_idx() + 2) as u16,
            ),
            self.accepted(claimer, Seat::West) == bit16(
                self.accepts,
                (4 * claimer.spec_idx() + 3) as u16,
            ),
    {
    }

    pub fn new() -> (r: Self)
        ensures
            forall|c: Seat, a: Seat| !#[trigger] r.accepted(c, a),
    {
        let r = Self { accepts: 0 };
        proof {
            assert forall|c: Seat, a: Seat| !#[trigger] r.accepted(c, a) by {
                lemma_bit16_zero(claim_bit(c, a));
            }
        }
        r
    }

    /// Whether the claim would succeed once `acceptor` accepts it.
    pub fn will_successfully_claim(&self, claimer: Seat, acceptor: Seat) -> (r: bool)
        ensures
            r == forall|s: Seat| #[trigger] self.accepted(claimer, s) || s == acceptor,
    {
        proof {
            claimer.lemma_idx();
            acceptor.lemma_idx();
            lemma_bit16_nibble(self.accepts, claimer.spec_idx() as u16, acceptor.spec_idx() as u16);
            self.lemma_row(claimer);
        }
        let mut accepts = self.accepts >> (4 * claimer.idx() as u16);
        accepts |= 1 << (acceptor.idx() as u16);
        accepts & 0xf == 0xf
    }

    pub fn successfully_claimed(&self, claimer: Seat) -> (r: bool)
        ensures
            r == self.spec_successfully_claimed(claimer),
    {
        proof {
            claimer.lemma_idx();
            lemma_bit16_nibble(self.accepts, claimer.spec_idx() as u16, 0);
            self.lemma_row(claimer);
        }
        let accepts = self.accepts >> (4 * claimer.idx() as u16);
        accepts & 0xf == 0xf
    }

    pub fn is_claiming(&self, seat: Seat) -> (r: bool)
        ensures
            r == self.spec_is_claiming(seat),
    {
        proof {
            seat.lemma_idx();
            lemma_bit16_nibble(self.accepts, seat.spec_idx() as u16, 0);
            self.lemma_row(seat);
        }
        let accepts = self.accepts >> (4 * seat.idx() as u16);
        accepts & 0xf != 0
    }

    pub fn has_accepted(&self, claimer: Seat, acceptor: Seat) -> (r: bool)
        ensures
            r == self.accepted(claimer, acceptor),
    {
        proof {
            ClaimState::lemma_bits(claimer, acceptor);
            lemma_bit16_test(self.accepts, claim_bit(claimer, acceptor));
        }
        let idx = 4 * claimer.idx() + acceptor.idx();
        self.accepts & (1 << idx as u16) != 0
    }

    proof fn lemma_set(old_accepts: u16, new_accepts: u16, j: u16)
        requires
            j < 16,
            new_accepts == old_accepts | (1u16 << j),
        ensures
            forall|i: u16| i < 16 ==> #[trigger] bit16(new_accepts, i) == (bit16(old_accepts, i)
                || i == j),
    {
        assert forall|i: u16| i < 16 implies #[trigger] bit16(new_accepts, i) == (bit16(
            old_accepts,
            i,
        ) || i == j) by {
            lemma_bit16_or(old_accepts, 1u16 << j, i);
            lemma_bit16_single(j, i);
        }
    }

    /// `seat` claims the rest of the tricks; the claimer accepts their own claim.
    pub fn claim(&mut self, seat: Seat)
        ensures
            forall|c: Seat, a: Seat| #[trigger]
                final(self).accepted(c, a) == (old(self).accepted(c, a) || (c == seat && a
                    == seat)),
    {
        proof {
            ClaimState::lemma_bits(seat, seat);
        }
        let old_accepts = self.accepts;
        let idx = 5 * seat.idx();
        self.accepts |= 1 << idx as u16;
        proof {
            ClaimState::lemma_set(old_accepts, self.accepts, claim_bit(seat, seat));
            assert forall|c: Seat, a: Seat| #[trigger] final(self).accepted(c, a) == (old(self).accepted(c, a) || (c == seat && a == seat)) by {
                ClaimState::lemma_bits(c, a);
                if claim_bit(c, a) == claim_bit(seat, seat) {
                    c.lemma_idx();
                    a.lemma_idx();
                    seat.lemma_idx();
                }
            }
        }
    }

    /// `acceptor` accepts the claim of `claimer`; returns whether the claim has now succeeded.
    pub fn accept(&mut self, claimer: Seat, acceptor: Seat) -> (r: bool)
        ensures
            forall|c: Seat, a: Seat| #[trigger]
                final(self).accepted(c, a) == (old(self).accepted(c, a) || (c == claimer && a
                    == acceptor)),
            r == final(self).spec_successfully_claimed(claimer),
    {
        proof {
            ClaimState::lemma_bits(claimer, acceptor);
        }
        let old_accepts = self.accepts;
        let idx = 4 * claimer.idx() + acceptor.idx();
        self.accepts |= 1 << idx as u16;
        proof {
            ClaimState::lemma_set(old_accepts, self.accepts, claim_bit(claimer, acceptor));
            assert forall|c: Seat, a: Seat| #[trigger] final(self).accepted(c, a) == (old(self).accepted(c, a) || (c == claimer && a == acceptor)) by {
                ClaimState::lemma_bits(c, a);
                if claim_bit(c, a) == claim_bit(claimer, acceptor) {
                    c.lemma_idx();
                    a.lemma_idx();
                    claimer.lemma_idx();
                    acceptor.lemma_idx();
                }
            }
        }
        self.successfully_claimed(claimer)
    }

    /// `claimer`'s claim is rejected: every acceptance of it is forgotten.
    pub fn reject(&mut self, claimer: Seat)
        ensures
            forall|c: Seat, a: Seat| #[trigger]
                final(self).accepted(c, a) == (old(self).accepted(c, a) && c != claimer),
    {
        proof {
            claimer.lemma_idx();
        }
        let old_accepts = self.accepts;
        let mask: u16 = 0xf << (4 * claimer.idx() as u16);
        self.accepts &= !mask;
        proof {
            assert forall|c: Seat, a: Seat| #[trigger] final(self).accepted(c, a) == (old(self).accepted(c, a) && c != claimer) by {
                ClaimState::lemma_bits(c, a);
                lemma_bit16_clear_nibble(old_accepts, claimer.spec_idx() as u16, claim_bit(c, a));
                c.lemma_idx();
            }
        }
    }
}

} // verus!
