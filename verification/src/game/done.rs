//! Who is done with the current step of a hand: who has sent and received a pass, and who
//! has finished charging. Four flags for sending or charging, four for receiving.
use crate::bits::{bit8, lemma_bit8_nibbles, lemma_bit8_test, lemma_bit8_or, lemma_bit8_single, lemma_bit8_zero};
use crate::seat::Seat;
use vstd::prelude::*;

verus! {

#[derive(Clone, Copy, Debug)]
pub struct DoneState {
    state: u8,
}

impl DoneState {
    /// The seat has sent its pass, or is done charging: the two share a flag, since a hand
    /// passes and charges in separate phases and the flags are reset in between.
    pub closed spec fn done(self, seat: Seat) -> bool {
        bit8(self.state, seat.spec_idx())
    }

    /// The seat has received its pass.
    pub closed spec fn received(self, seat: Seat) -> bool {
        bit8(self.state, (4 + seat.spec_idx()) as u8)
    }

    /// The state with no flag set.
    pub closed spec fn cleared() -> DoneState {
        DoneState { state: 0 }
    }

    pub open spec fn is_clear(self) -> bool {
        forall|s: Seat| !self.done(s) && !self.received(s)
    }

    pub fn new() -> (r: Self)
        ensures
            r.is_clear(),
            r == DoneState::cleared(),
    {
        let r = Self { state: 0 };
        proof {
            assert forall|s: Seat| !r.done(s) && !r.received(s) by {
                lemma_bit8_zero(s.spec_idx());
                lemma_bit8_zero((4 + s.spec_idx()) as u8);
            }
        }
        r
    }

    pub fn reset(&mut self)
        ensures
            final(self).is_clear(),
            *final(self) == DoneState::cleared(),
    {
        *self = Self::new();
    }

    proof fn lemma_set(old_state: u8, new_state: u8, j: u8)
        requires
            j < 8,
            new_state == old_state | (1u8 << j),
        ensures
            forall|i: u8| i < 8 ==> #[trigger] bit8(new_state, i) == (bit8(old_state, i) || i == j),
    {
        assert forall|i: u8| i < 8 implies #[trigger] bit8(new_state, i) == (bit8(old_state, i)
            || i == j) by {
            lemma_bit8_or(old_state, 1u8 << j, i);
            lemma_bit8_single(j, i);
        }
    }

    pub fn send_pass(&mut self, seat: Seat)
        ensures
            forall|s: Seat| #[trigger]
                final(self).done(s) == (old(self).done(s) || s == seat),
            forall|s: Seat| #[trigger] final(self).received(s) == old(self).received(s),
    {
        let old_state = self.state;
        self.state = self.state | (1 << seat.idx() as u8);
        proof {
            DoneState::lemma_set(old_state, self.state, seat.spec_idx());
            assert forall|s: Seat| #[trigger] final(self).done(s) == (old(self).done(s) || s
                == seat) by {
                s.lemma_idx();
                seat.lemma_idx();
            }
            assert forall|s: Seat| #[trigger] final(self).received(s) == old(self).received(s) by {
                s.lemma_idx();
            }
        }
    }

    pub fn sent_pass(&self, seat: Seat) -> (r: bool)
        ensures
            r == self.done(seat),
    {
        proof {
            seat.lemma_idx();
            lemma_bit8_test(self.state, seat.spec_idx());
        }
        self.state & (1 << seat.idx() as u8) != 0
    }

    pub fn recv_pass(&mut self, seat: Seat)
        ensures
            forall|s: Seat| #[trigger]
                final(self).received(s) == (old(self).received(s) || s == seat),
            forall|s: Seat| #[trigger] final(self).done(s) == old(self).done(s),
    {
        let old_state = self.state;
        self.state = self.state | (1 << (4 + seat.idx() as u8));
        proof {
            DoneState::lemma_set(old_state, self.state, (4 + seat.spec_idx()) as u8);
            assert forall|s: Seat| #[trigger] final(self).received(s) == (old(self).received(s)
                || s == seat) by {
                s.lemma_idx();
                seat.lemma_idx();
            }
            assert forall|s: Seat| #[trigger] final(self).done(s) == old(self).done(s) by {
                s.lemma_idx();
            }
        }
    }

    pub fn all_recv_pass(&self) -> (r: bool)
        ensures
            r == forall|s: Seat| #[trigger] self.received(s),
    {
        proof {
            lemma_bit8_nibbles(self.state);
            assert(self.received(Seat::North) == bit8(self.state, 4));
            assert(self.received(Seat::East) == bit8(self.state, 5));
            assert(self.received(Seat::South) == bit8(self.state, 6));
            assert(self.received(Seat::West) == bit8(self.state, 7));
        }
        self.state & 0xf0 == 0xf0
    }

    pub fn charge(&mut self, seat: Seat)
        ensures
            forall|s: Seat| #[trigger]
                final(self).done(s) == (old(self).done(s) || s == seat),
            forall|s: Seat| #[trigger] final(self).received(s) == old(self).received(s),
    {
        self.send_pass(seat);
    }

    pub fn charged(&self, seat: Seat) -> (r: bool)
        ensures
            r == self.done(seat),
    {
        self.sent_pass(seat)
    }

    pub fn all_charge(&self) -> (r: bool)
        ensures
            r == forall|s: Seat| #[trigger] self.done(s),
    {
        proof {
            lemma_bit8_nibbles(self.state);
            assert(self.done(Seat::North) == bit8(self.state, 0));
            assert(self.done(Seat::East) == bit8(self.state, 1));
            assert(self.done(Seat::South) == bit8(self.state, 2));
            assert(self.done(Seat::West) == bit8(self.state, 3));
        }
        self.state & 0x0f == 0x0f
    }
}

/// One of the calls that change who is done: `send_pass`, `recv_pass`, `charge` or `reset`.
pub enum DoneStep {
    SendPass { seat: Seat },
    RecvPass { seat: Seat },
    Charge { seat: Seat },
    Reset,
}

/// `after` is `before` after `step`, as the calls state it.
pub open spec fn stepped(before: DoneState, step: DoneStep, after: DoneState) -> bool {
    match step {
        DoneStep::SendPass { seat } | DoneStep::Charge { seat } => {
            &&& forall|s: Seat| #[trigger] after.done(s) == (before.done(s) || s == seat)
            &&& forall|s: Seat| #[trigger] after.received(s) == before.received(s)
        },
        DoneStep::RecvPass { seat } => {
            &&& forall|s: Seat| #[trigger] after.received(s) == (before.received(s) || s == seat)
            &&& forall|s: Seat| #[trigger] after.done(s) == before.done(s)
        },
        DoneStep::Reset => after.is_clear(),
    }
}

/// `seat` has sent a pass or charged since the last reset among `steps`.
pub open spec fn done_since_reset(steps: Seq<DoneStep>, seat: Seat) -> bool
    decreases steps.len(),
{
    if steps.len() == 0 {
        false
    } else {
        match steps.last() {
            DoneStep::Reset => false,
            DoneStep::SendPass { seat: s } | DoneStep::Charge { seat: s } => s == seat
                || done_since_reset(steps.drop_last(), seat),
            DoneStep::RecvPass { .. } => done_since_reset(steps.drop_last(), seat),
        }
    }
}

/// `seat` has received a pass since the last reset among `steps`.
pub open spec fn received_since_reset(steps: Seq<DoneStep>, seat: Seat) -> bool
    decreases steps.len(),
{
    if steps.len() == 0 {
        false
    } else {
        match steps.last() {
            DoneStep::Reset => false,
            DoneStep::RecvPass { seat: s } => s == seat || received_since_reset(steps.drop_last(), seat),
            _ => received_since_reset(steps.drop_last(), seat),
        }
    }
}

/// Passing and charging share one flag per seat: from a clear state, after any calls of
/// `send_pass`, `recv_pass`, `charge` and `reset`, `sent_pass(seat)` and `charged(seat)` both
/// tell whether `seat` sent a pass or charged since the last reset, and a seat counts as having
/// received a pass exactly when it received one since then.
pub proof fn lemma_done_flags(states: Seq<DoneState>, steps: Seq<DoneStep>)
    requires
        states.len() == steps.len() + 1,
        states[0].is_clear(),
        forall|i: int| 0 <= i < steps.len() ==> stepped(states[i], #[trigger] steps[i], states[i + 1]),
    ensures
        forall|seat: Seat| #[trigger] states.last().done(seat) == done_since_reset(steps, seat),
        forall|seat: Seat| #[trigger] states.last().received(seat) == received_since_reset(steps, seat),
    decreases steps.len(),
{
    if steps.len() > 0 {
        let n = steps.len() - 1;
        let front = states.drop_last();
        let rest = steps.drop_last();
        assert forall|i: int| 0 <= i < rest.len() implies stepped(front[i], #[trigger] rest[i], front[i + 1]) by {
            assert(rest[i] == steps[i]);
            assert(stepped(states[i], steps[i], states[i + 1]));
        }
        lemma_done_flags(front, rest);
        assert(front.last() == states[n]);
        assert(steps.last() == steps[n]);
        assert(stepped(states[n], steps[n], states[n + 1]));
        assert(states.last() == states[n + 1]);
    }
}

} // verus!
