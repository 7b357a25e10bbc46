//! A bot that plays each legal card in many random deals of the unseen cards, finishing each
//! hand with heuristic play, and keeps the card that did best.
use crate::bot::chance::shuffle;
use crate::bot::random::lemma_rearranged;
use crate::bot::heuristic::HeuristicBot;
use crate::bot::void::VoidState;
use crate::bot::BotState;
use crate::cards::{desc_of, Card, Cards, Suit};
use crate::game::event::GameEvent;
use crate::game::state::GameState;
use crate::seat::Seat;
use std::time::Instant;
use vstd::prelude::*;

verus! {

#[verifier::external_type_specification]
#[verifier::external_body]
pub struct ExInstant(Instant);

/// `std::time::Instant::now()`: the current time, which nothing here can predict.
#[verifier::external_body]
fn now() -> (r: Instant) {
    Instant::now()
}

/// `std::time::Instant::elapsed` on `start`, in whole seconds (`as_secs`): it depends on the
/// clock, so nothing is promised of it.
#[verifier::external_body]
fn seconds_since(start: &Instant) -> (r: u64) {
    start.elapsed().as_secs()
}

/// How long the bot thinks about a play, in seconds.
pub const THINKING_SECONDS: u64 = 3;

/// At most this many rounds of deals are tried for one play, so that the thinking loop ends by
/// its count as well as by the clock: the clock alone promises no end.
pub const MAX_ROUNDS: u64 = 10000;

/// The deal of the unseen cards being built: the hands so far, the number of cards each
/// hand must end with, who is known to be void in what, the cards still to give out (in the
/// order they will be tried) and the same cards as a set.
pub struct Deal {
    pub hands: [Cards; 4],
    pub sizes: [usize; 4],
    pub void: VoidState,
    pub cards: Vec<Card>,
    pub unassigned: Cards,
}

impl Deal {
    /// The cards to give out are the unassigned ones, each once, and in no hand.
    pub open spec fn wf(self) -> bool {
        &&& self.unassigned.wf()
        &&& forall|i: int| 0 <= i < 4 ==> (#[trigger] self.hands@[i]).wf()
        &&& self.cards@.no_duplicates()
        &&& self.cards@.to_set() == self.unassigned@
        &&& forall|i: int, c: Card|
            0 <= i < 4 && #[trigger] self.hands@[i]@.contains(c) ==> !self.unassigned@.contains(c)
    }

    /// `self` is `old` with the cards handed out: every hand kept its cards, took only cards
    /// of suits its holder may hold, and stayed within its size, and no card is left.
    pub open spec fn dealt_from(self, old: Deal) -> bool {
        &&& self.unassigned@ == Set::<Card>::empty()
        &&& self.sizes == old.sizes
        &&& forall|i: int| 0 <= i < 4 ==> old.hands@[i]@.subset_of(#[trigger] self.hands@[i]@)
        &&& forall|i: int, c: Card|
            0 <= i < 4 && #[trigger] self.hands@[i]@.contains(c) ==> old.hands@[i]@.contains(c)
                || (old.unassigned@.contains(c) && !old.void.void(
                Seat::spec_from(i as u8),
                c.spec_suit(),
            ))
        &&& forall|i: int|
            0 <= i < 4 ==> (#[trigger] self.hands@[i]@).len() <= self.sizes@[i]
                || self.hands@[i]@ == old.hands@[i]@
        &&& forall|c: Card|
            #[trigger] old.unassigned@.contains(c) ==> exists|i: int|
                0 <= i < 4 && #[trigger] self.hands@[i]@.contains(c)
    }

    /// The cards still to give out that the holder of seat `i` may hold.
    pub open spec fn open_to(self, i: int) -> Set<Card> {
        Set::new(
            |c: Card|
                self.unassigned@.contains(c) && !self.void.void(Seat::spec_from(i as u8), c.spec_suit()),
        )
    }

    /// `f` is a way to finish the deal: each hand keeps its cards, takes only cards still to
    /// give out of suits its holder may hold, and stays within its size; no card goes to two
    /// hands, and every card still to give out goes to one.
    pub open spec fn fills(self, f: Seq<Set<Card>>) -> bool {
        &&& f.len() == 4
        &&& forall|i: int| 0 <= i < 4 ==> self.hands@[i]@.subset_of(#[trigger] f[i])
        &&& forall|i: int|
            0 <= i < 4 ==> (#[trigger] f[i]).subset_of(self.hands@[i]@.union(self.open_to(i)))
        &&& forall|i: int| 0 <= i < 4 ==> (#[trigger] f[i]).len() <= self.sizes@[i]
        &&& forall|i: int, j: int|
            0 <= i < 4 && 0 <= j < 4 && i != j ==> (#[trigger] f[i]).disjoint(#[trigger] f[j])
        &&& forall|c: Card|
            #[trigger] self.unassigned@.contains(c) ==> exists|i: int|
                0 <= i < 4 && #[trigger] f[i].contains(c)
    }

    /// The deal can be finished (see `fills`).
    pub open spec fn completable(self) -> bool {
        exists|f: Seq<Set<Card>>| self.fills(f)
    }

    /// The hands share no card, and the sizes add up to the cards held and still to give out,
    /// so that a finished deal fills every hand to its size.
    pub open spec fn balanced(self) -> bool {
        &&& forall|i: int, j: int|
            0 <= i < 4 && 0 <= j < 4 && i != j ==> (#[trigger] self.hands@[i]@).disjoint(
                #[trigger] self.hands@[j]@,
            )
        &&& self.sizes@[0] + self.sizes@[1] + self.sizes@[2] + self.sizes@[3] == self.hands@[0]@.len()
            + self.hands@[1]@.len() + self.hands@[2]@.len() + self.hands@[3]@.len()
            + self.unassigned@.len()
    }

    /// In a balanced deal, any way to finish it fills every hand exactly to its size, so each
    /// hand is within its size and can be filled from the cards its holder may hold.
    proof fn lemma_fills_full(self, f: Seq<Set<Card>>)
        requires
            self.wf(),
            self.balanced(),
            self.fills(f),
        ensures
            forall|i: int| 0 <= i < 4 ==> (#[trigger] f[i]).len() == self.sizes@[i],
            forall|i: int|
                0 <= i < 4 ==> (#[trigger] self.hands@[i]@).len() <= self.sizes@[i]
                    && self.sizes@[i] - self.hands@[i]@.len() <= self.open_to(i).len(),
    {
        broadcast use vstd::set_lib::lemma_set_disjoint_lens;

        let h0 = self.hands@[0]@;
        let h1 = self.hands@[1]@;
        let h2 = self.hands@[2]@;
        let h3 = self.hands@[3]@;
        let un = self.unassigned@;
        self.hands@[0].lemma_len();
        self.hands@[1].lemma_len();
        self.hands@[2].lemma_len();
        self.hands@[3].lemma_len();
        self.unassigned.lemma_len();
        assert forall|i: int| 0 <= i < 4 implies (#[trigger] f[i]).finite() && self.open_to(
            i,
        ).finite() by {
            self.hands@[i].lemma_len();
            vstd::set_lib::lemma_len_subset(self.open_to(i), un);
            vstd::set_lib::lemma_len_subset(f[i], self.hands@[i]@.union(self.open_to(i)));
        }
        let u = f[0] + f[1] + f[2] + f[3];
        assert((f[0] + f[1]).disjoint(f[2]));
        assert((f[0] + f[1] + f[2]).disjoint(f[3]));
        assert(u.len() == f[0].len() + f[1].len() + f[2].len() + f[3].len());
        let held = h0 + h1 + h2 + h3 + un;
        assert((h0 + h1).disjoint(h2));
        assert((h0 + h1 + h2).disjoint(h3));
        assert((h0 + h1 + h2 + h3).disjoint(un));
        assert(held.len() == h0.len() + h1.len() + h2.len() + h3.len() + un.len());
        assert(held.subset_of(u)) by {
            assert forall|c: Card| #[trigger] held.contains(c) implies u.contains(c) by {
                if un.contains(c) {
                    let i = choose|i: int| 0 <= i < 4 && #[trigger] f[i].contains(c);
                }
            }
        }
        vstd::set_lib::lemma_len_subset(held, u);
        assert forall|i: int|
            0 <= i < 4 implies #[trigger] f[i].len() == self.sizes@[i] && self.hands@[i]@.len()
                <= self.sizes@[i] && self.sizes@[i] - self.hands@[i]@.len() <= self.open_to(
                i,
            ).len() by {
            assert(f[0].len() <= self.sizes@[0]);
            assert(f[1].len() <= self.sizes@[1]);
            assert(f[2].len() <= self.sizes@[2]);
            assert(f[3].len() <= self.sizes@[3]);
            let hi = self.hands@[i]@;
            let rest = f[i].difference(hi);
            assert(hi + rest =~= f[i]);
            assert(hi.disjoint(rest));
            assert(rest.subset_of(self.open_to(i)));
            vstd::set_lib::lemma_len_subset(rest, self.open_to(i));
            vstd::set_lib::lemma_len_subset(hi, f[i]);
        }
    }

    /// Handing a card to a seat that takes it in some way `f` to finish a balanced deal: the
    /// seat has room for it and may hold its suit, and the deal left is balanced and finished by
    /// `f` still.
    proof fn lemma_step_fills(start: Deal, mid: Deal, f: Seq<Set<Card>>, s: int, card: Card)
        requires
            start.wf(),
            start.balanced(),
            start.fills(f),
            0 <= s < 4,
            f[s].contains(card),
            start.unassigned@.contains(card),
            mid.sizes == start.sizes,
            mid.void == start.void,
            mid.unassigned@ == start.unassigned@.remove(card),
            forall|i: int| 0 <= i < 4 && i != s ==> mid.hands@[i] == #[trigger] start.hands@[i],
            mid.hands@[s]@ == start.hands@[s]@.insert(card),
        ensures
            start.hands@[s]@.len() < start.sizes@[s],
            !start.void.void(Seat::spec_from(s as u8), card.spec_suit()),
            mid.balanced(),
            mid.fills(f),
    {
        let hs = start.hands@[s]@;
        start.hands@[s].lemma_len();
        start.unassigned.lemma_len();
        assert(!hs.contains(card));
        vstd::set_lib::lemma_len_subset(start.open_to(s), start.unassigned@);
        vstd::set_lib::lemma_len_subset(f[s], hs.union(start.open_to(s)));
        vstd::set_lib::lemma_len_subset(hs.insert(card), f[s]);
        assert(start.open_to(s).contains(card));
        assert forall|i: int| 0 <= i < 4 implies mid.hands@[i]@.len() == start.hands@[i]@.len() + if i
            == s {
            1int
        } else {
            0int
        } by {
            if i != s {
                assert(mid.hands@[i] == start.hands@[i]);
            }
        }
        assert forall|i: int, j: int|
            0 <= i < 4 && 0 <= j < 4 && i != j implies (#[trigger] mid.hands@[i]@).disjoint(
            #[trigger] mid.hands@[j]@,
        ) by {
            if i != s {
                assert(mid.hands@[i] == start.hands@[i]);
            }
            if j != s {
                assert(mid.hands@[j] == start.hands@[j]);
            }
            assert(!start.hands@[i]@.contains(card));
            assert(!start.hands@[j]@.contains(card));
            assert(start.hands@[i]@.disjoint(start.hands@[j]@));
        }
        assert forall|i: int| 0 <= i < 4 implies mid.hands@[i]@.subset_of(#[trigger] f[i]) by {
            if i != s {
                assert(mid.hands@[i] == start.hands@[i]);
            }
        }
        assert forall|i: int|
            0 <= i < 4 implies (#[trigger] f[i]).subset_of(mid.hands@[i]@.union(mid.open_to(i))) by {
            if i != s {
                assert(mid.hands@[i] == start.hands@[i]);
            }
            assert forall|c: Card| #[trigger] f[i].contains(c) implies mid.hands@[i]@.union(
                mid.open_to(i),
            ).contains(c) by {
                if c == card && i != s {
                    assert(f[i].disjoint(f[s]));
                }
                assert(start.hands@[i]@.union(start.open_to(i)).contains(c));
            }
        }
        assert forall|c: Card| #[trigger] mid.unassigned@.contains(c) implies exists|i: int|
            0 <= i < 4 && #[trigger] f[i].contains(c) by {
            assert(start.unassigned@.contains(c));
        }
    }

    /// The cards still to give out, of suits below the `u`-th, that the holder of seat `i` may
    /// hold.
    pub open spec fn open_below(self, i: int, u: int) -> Set<Card> {
        Set::new(
            |c: Card|
                self.unassigned@.contains(c) && !self.void.void(Seat::spec_from(i as u8), c.spec_suit())
                    && c.spec_suit().spec_idx() < u,
        )
    }

    /// A seat that takes a card in some way `f` to finish the deal has room for it and may
    /// hold its suit.
    proof fn lemma_room(self, f: Seq<Set<Card>>, s: int, card: Card)
        requires
            self.wf(),
            self.fills(f),
            0 <= s < 4,
            f[s].contains(card),
            self.unassigned@.contains(card),
        ensures
            self.hands@[s]@.len() < self.sizes@[s],
            !self.void.void(Seat::spec_from(s as u8), card.spec_suit()),
    {
        let hs = self.hands@[s]@;
        self.hands@[s].lemma_len();
        self.unassigned.lemma_len();
        assert(!hs.contains(card));
        vstd::set_lib::lemma_len_subset(self.open_to(s), self.unassigned@);
        vstd::set_lib::lemma_len_subset(f[s], hs.union(self.open_to(s)));
        vstd::set_lib::lemma_len_subset(hs.insert(card), f[s]);
        assert(self.open_to(s).contains(card));
    }

    /// The two deals hold the same hands, cards to give out, sizes and voids.
    pub open spec fn same_as(self, other: Deal) -> bool {
        &&& self.hands == other.hands
        &&& self.sizes == other.sizes
        &&& self.void == other.void
        &&& self.cards@ == other.cards@
        &&& self.unassigned == other.unassigned
    }

    proof fn lemma_dealt_step(start: Deal, mid: Deal, fin: Deal, s: int, card: Card)
        requires
            0 <= s < 4,
            start.wf(),
            start.unassigned@.contains(card),
            !start.void.void(Seat::spec_from(s as u8), card.spec_suit()),
            mid.sizes == start.sizes,
            mid.void == start.void,
            mid.unassigned@ == start.unassigned@.remove(card),
            forall|i: int| 0 <= i < 4 && i != s ==> mid.hands@[i] == #[trigger] start.hands@[i],
            mid.hands@[s]@ == start.hands@[s]@.insert(card),
            mid.hands@[s]@.len() <= mid.sizes@[s],
            fin.dealt_from(mid),
        ensures
            fin.dealt_from(start),
    {
        assert forall|i: int|
            0 <= i < 4 implies (#[trigger] fin.hands@[i]@).len() <= fin.sizes@[i]
                || fin.hands@[i]@ == start.hands@[i]@ by {
            if i != s {
                assert(mid.hands@[i] == start.hands@[i]);
            }
        }
        assert forall|i: int| 0 <= i < 4 implies start.hands@[i]@.subset_of(#[trigger] fin.hands@[i]@) by {
            assert(mid.hands@[i]@.subset_of(fin.hands@[i]@));
            if i != s {
                assert(mid.hands@[i] == start.hands@[i]);
            }
        }
        assert forall|i: int, c: Card|
            0 <= i < 4 && #[trigger] fin.hands@[i]@.contains(c) implies start.hands@[i]@.contains(c)
                || (start.unassigned@.contains(c) && !start.void.void(
                Seat::spec_from(i as u8),
                c.spec_suit(),
            )) by {
            if mid.hands@[i]@.contains(c) {
                if i != s {
                    assert(mid.hands@[i] == start.hands@[i]);
                }
            }
        }
        assert forall|c: Card| #[trigger] start.unassigned@.contains(c) implies exists|i: int|
            0 <= i < 4 && #[trigger] fin.hands@[i]@.contains(c) by {
            if c == card {
                assert(mid.hands@[s]@.subset_of(fin.hands@[s]@));
                assert(fin.hands@[s]@.contains(c));
            } else {
                assert(mid.unassigned@.contains(c));
            }
        }
    }

    /// Hands out the remaining cards, trying them from the last and each seat in turn, going
    /// back when some hand can no longer be filled with the suits its holder may hold. It
    /// succeeds whenever the deal is balanced and can be finished at all; on failure the deal
    /// is left as it was.
    pub fn assign(&mut self) -> (r: bool)
        requires
            old(self).wf(),
        ensures
            final(self).wf(),
            r ==> final(self).dealt_from(*old(self)),
            !r ==> final(self).same_as(*old(self)),
            old(self).balanced() && old(self).completable() ==> r,
        decreases old(self).cards@.len(),
    {
        let ghost start = *self;
        let ghost can = start.balanced() && start.completable();
        let ghost f = choose|f: Seq<Set<Card>>| start.fills(f);
        proof {
            self.unassigned.lemma_len();
            self.cards@.unique_seq_to_set();
            if can {
                start.lemma_fills_full(f);
            }
        }
        if self.cards.len() == 0 {
            proof {
                assert(self.unassigned@ =~= Set::<Card>::empty());
            }
            return true;
        }
        let mut s: usize = 0;
        while s < 4
            invariant
                s <= 4,
                start == *old(self),
                can == (start.balanced() && start.completable()),
                self.same_as(start),
                self.wf(),
                start.wf(),
                forall|i: int| 0 <= i < s ==> (#[trigger] self.hands@[i]@).len() <= self.sizes@[i],
                can ==> forall|i: int|
                    0 <= i < 4 ==> (#[trigger] start.hands@[i]@).len() <= start.sizes@[i]
                        && start.sizes@[i] - start.hands@[i]@.len() <= start.open_to(i).len(),
            decreases 4 - s,
        {
            let seat = Seat::from(s as u8);
            let mut available: usize = 0;
            let mut u: usize = 0;
            proof {
                self.unassigned.lemma_len();
                assert(self.open_below(s as int, 0) =~= Set::<Card>::empty());
            }
            while u < 4
                invariant
                    u <= 4,
                    available <= 13 * u,
                    self.unassigned.wf(),
                    seat == Seat::spec_from(s as u8),
                    self.open_below(s as int, u as int).finite(),
                    available == self.open_below(s as int, u as int).len(),
                decreases 4 - u,
            {
                let suit = Suit::from(u as u8);
                let ghost below = self.open_below(s as int, u as int);
                let ghost next = self.open_below(s as int, u + 1);
                if !self.void.is_void(seat, suit) {
                    let of_suit = self.unassigned.intersect(suit.cards());
                    proof {
                        of_suit.lemma_len();
                        crate::cards::lemma_suit_len(suit);
                        vstd::set_lib::lemma_len_subset(of_suit@, Cards::suit_set(suit));
                        assert(next =~= below + of_suit@) by {
                            assert forall|c: Card| #[trigger] next.contains(c) == (below
                                + of_suit@).contains(c) by {
                                c.spec_suit().lemma_idx();
                                if c.spec_suit().spec_idx() == u {
                                    c.spec_suit().lemma_idx();
                                    Suit::lemma_from(u as u8);
                                }
                            }
                        }
                        assert(below.disjoint(of_suit@));
                        vstd::set_lib::lemma_set_disjoint_lens(below, of_suit@);
                    }
                    available = available + of_suit.len();
                } else {
                    proof {
                        assert(next =~= below) by {
                            assert forall|c: Card| #[trigger] next.contains(c) == below.contains(c) by {
                                if c.spec_suit().spec_idx() == u {
                                    c.spec_suit().lemma_idx();
                                    Suit::lemma_from(u as u8);
                                }
                            }
                        }
                    }
                }
                u = u + 1;
            }
            proof {
                assert(self.open_below(s as int, 4) =~= self.open_to(s as int)) by {
                    assert forall|c: Card| #[trigger] self.open_to(s as int).contains(c) implies self.open_below(
                        s as int,
                        4,
                    ).contains(c) by {
                        c.spec_suit().lemma_idx();
                    }
                }
            }
            let held = self.hands[s].len();
            proof {
                self.hands@[s as int].lemma_len();
                if can {
                    assert(self.hands@[s as int] == start.hands@[s as int]);
                    assert(self.open_to(s as int) =~= start.open_to(s as int));
                    assert(start.hands@[s as int]@.len() <= start.sizes@[s as int]);
                }
            }
            if held > self.sizes[s] || available < self.sizes[s] - held {
                return false;
            }
            s = s + 1;
        }
        let card = self.cards.pop().unwrap();
        self.unassigned.remove(card);
        proof {
            let n = start.cards@.len() - 1;
            assert(start.cards@ == self.cards@.push(card));
            assert(start.cards@[n] == card);
            assert(start.cards@.contains(card));
            assert(start.unassigned@.contains(card));
            assert(self.cards@.no_duplicates()) by {
                assert forall|i: int, j: int| 0 <= i < self.cards@.len() && 0 <= j < self.cards@.len() && i != j implies self.cards@[i] != self.cards@[j] by {
                    assert(start.cards@[i] == self.cards@[i]);
                    assert(start.cards@[j] == self.cards@[j]);
                }
            }
            assert(self.cards@.to_set() =~= self.unassigned@) by {
                assert forall|c: Card| self.cards@.to_set().contains(c) == self.unassigned@.contains(c) by {
                    if self.cards@.contains(c) {
                        let k = choose|k: int| 0 <= k < self.cards@.len() && self.cards@[k] == c;
                        assert(start.cards@[k] == c);
                        assert(k != n);
                        assert(start.cards@.contains(c));
                    }
                    if start.cards@.contains(c) && c != card {
                        let k = choose|k: int| 0 <= k < start.cards@.len() && start.cards@[k] == c;
                        assert(k != n);
                        assert(self.cards@[k] == c);
                    }
                }
            }
        }
        let ghost s0: int = if can {
            choose|i: int| 0 <= i < 4 && #[trigger] f[i].contains(card)
        } else {
            4
        };
        proof {
            if can {
                assert(start.unassigned@.contains(card));
                assert(exists|i: int| 0 <= i < 4 && #[trigger] f[i].contains(card));
            }
        }
        let mut s: usize = 0;
        while s < 4
            invariant
                s <= 4,
                can ==> start.balanced() && start.fills(f) && 0 <= s0 < 4 && f[s0].contains(card)
                    && s <= s0,
                self.wf(),
                start.wf(),
                start.unassigned@.contains(card),
                self.unassigned@ == start.unassigned@.remove(card),
                self.cards@.push(card) == start.cards@,
                self.sizes == start.sizes,
                self.void == start.void,
                self.hands == start.hands,
                start == *old(self),
                can == (start.balanced() && start.completable()),
                forall|i: int| 0 <= i < 4 ==> (#[trigger] self.hands@[i]@).len() <= self.sizes@[i],
            decreases 4 - s,
        {
            let seat = Seat::from(s as u8);
            let saved = self.hands[s];
            proof {
                saved.lemma_len();
                if can && s == s0 {
                    start.lemma_room(f, s0, card);
                }
            }
            if saved.len() < self.sizes[s] && !self.void.is_void(seat, card.suit()) {
                let ghost before = *self;
                let grown = saved.with(card);
                self.hands[s] = grown;
                let ghost mid = *self;
                proof {
                    assert(!saved@.contains(card));
                    assert forall|i: int, c: Card|
                        0 <= i < 4 && #[trigger] self.hands@[i]@.contains(c) implies !self.unassigned@.contains(c) by {
                        if i != s {
                            assert(before.hands@[i] == self.hands@[i]);
                        }
                    }
                    assert forall|i: int| 0 <= i < 4 implies (#[trigger] self.hands@[i]).wf() by {
                        if i != s {
                            assert(before.hands@[i] == self.hands@[i]);
                        }
                    }
                }
                proof {
                    if can && s == s0 {
                        assert forall|i: int| 0 <= i < 4 && i != s0 implies mid.hands@[i]
                            == #[trigger] start.hands@[i] by {
                            assert(before.hands@[i] == mid.hands@[i]);
                        }
                        Deal::lemma_step_fills(start, mid, f, s0, card);
                        assert(mid.completable());
                    }
                }
                if self.assign() {
                    proof {
                        assert forall|i: int| 0 <= i < 4 && i != s implies mid.hands@[i] == #[trigger] start.hands@[i] by {
                            assert(before.hands@[i] == mid.hands@[i]);
                        }
                        Deal::lemma_dealt_step(start, mid, *self, s as int, card);
                    }
                    return true;
                }
                self.hands[s] = saved;
                proof {
                    assert(self.hands =~= start.hands);
                }
            }
            s = s + 1;
        }
        self.cards.push(card);
        self.unassigned.insert(card);
        proof {
            assert(self.unassigned@ =~= start.unassigned@);
            Cards::lemma_view_injective(self.unassigned, start.unassigned);
        }
        false
    }
}

/// `i` is the position of the largest of `totals`, the first of them where several are
/// equal.
pub open spec fn is_best(totals: Seq<i64>, i: int) -> bool {
    &&& 0 <= i < totals.len()
    &&& forall|j: int| 0 <= j < totals.len() ==> totals[j] <= totals[i]
    &&& forall|j: int| 0 <= j < i ==> totals[j] < totals[i]
}

/// The position of the largest total, the first of them where several are equal.
pub fn best_index(totals: &Vec<i64>) -> (i: usize)
    requires
        totals@.len() > 0,
    ensures
        is_best(totals@, i as int),
{
    let mut best: usize = 0;
    let mut k: usize = 1;
    while k < totals.len()
        invariant
            1 <= k <= totals@.len(),
            is_best(totals@.subrange(0, k as int), best as int),
        decreases totals@.len() - k,
    {
        if totals[best] < totals[k] {
            best = k;
        }
        k = k + 1;
    }
    proof {
        assert(totals@.subrange(0, k as int) =~= totals@);
    }
    best
}

/// The cards unseen by the bot, dealt at random to the others: its own hand is what it holds,
/// the player it passed to holds the cards it passed, and everyone holds what they charged;
/// the rest go out at random in the sizes the hands must have, respecting known voids.
pub fn make_hands(bot_state: &BotState, game_state: &GameState, void: VoidState) -> (hands: [Cards;
    4])
    requires
        bot_state.wf(),
        game_state.wf(),
    ensures
        forall|i: int| 0 <= i < 4 ==> (#[trigger] hands@[i]).wf(),
        forall|i: int, c: Card|
            0 <= i < 4 && #[trigger] hands@[i]@.contains(c) ==> !game_state.played@.contains(c),
        bot_state.post_pass_hand@.difference(game_state.played@).subset_of(
            hands@[bot_state.seat.spec_idx() as int]@,
        ),
{
    let me = bot_state.seat;
    let none = Cards::none();
    let mut hands: [Cards; 4] = [none, none, none, none];
    hands[me.idx()] = bot_state.post_pass_hand;
    let receiver = game_state.phase.pass_receiver(me);
    if receiver != me {
        let passed = bot_state.pre_pass_hand.difference(bot_state.post_pass_hand);
        hands[receiver.idx()] = hands[receiver.idx()].union(passed);
    }
    let mut i: usize = 0;
    while i < 4
        invariant
            i <= 4,
            game_state.wf(),
            forall|k: int| 0 <= k < 4 ==> (#[trigger] hands@[k]).wf(),
            forall|k: int, c: Card|
                0 <= k < i && #[trigger] hands@[k]@.contains(c) ==> !game_state.played@.contains(c),
            bot_state.post_pass_hand@.difference(game_state.played@).subset_of(
                hands@[me.spec_idx() as int]@.difference(game_state.played@),
            ),
        decreases 4 - i,
    {
        let seat = Seat::from(i as u8);
        hands[i] = hands[i].union(game_state.charges.charges(seat)).difference(game_state.played);
        i = i + 1;
    }
    let unplayed = Cards::all().difference(game_state.played);
    let n = unplayed.len();
    let mut sizes: [usize; 4] = [n / 4, n / 4, n / 4, n / 4];
    let additions = n % 4;
    if additions >= 1 {
        sizes[me.idx()] = sizes[me.idx()] + 1;
    }
    if additions >= 2 {
        sizes[me.left().idx()] = sizes[me.left().idx()] + 1;
    }
    if additions >= 3 {
        sizes[me.across().idx()] = sizes[me.across().idx()] + 1;
    }
    let unassigned = Cards::all().difference(hands[0]).difference(hands[1]).difference(
        hands[2],
    ).difference(hands[3]).difference(game_state.played);
    let mut cards = unassigned.to_vec();
    let ghost ordered = cards@;
    proof {
        assert(ordered.no_duplicates()) by {
            assert forall|j: int, k: int| 0 <= j < ordered.len() && 0 <= k < ordered.len() && j
                != k implies ordered[j] != ordered[k] by {
                if j < k {
                    assert(ordered[k].spec_index() < ordered[j].spec_index());
                } else {
                    assert(ordered[j].spec_index() < ordered[k].spec_index());
                }
            }
        }
    }
    shuffle(&mut cards);
    proof {
        lemma_rearranged(ordered, cards@);
        lemma_rearranged(cards@, ordered);
        assert(cards@.to_set() =~= unassigned@) by {
            assert forall|c: Card| cards@.to_set().contains(c) == unassigned@.contains(c) by {
                if unassigned@.contains(c) {
                    assert(ordered.contains(c));
                }
                if cards@.contains(c) {
                    assert(ordered.contains(c));
                    let k = choose|k: int| 0 <= k < ordered.len() && ordered[k] == c;
                    assert(unassigned@.contains(ordered[k]));
                }
            }
        }
    }
    let mut deal = Deal { hands, sizes, void, cards, unassigned };
    deal.assign();
    deal.hands
}

pub struct SimulateBot {
    pub void: VoidState,
}

/// The most that one simulated hand can move a card's total.
pub const MONEY_BOUND: i64 = 262144;

/// The hand in `st` cannot go on with the hands dealt: play is over, nobody is to play, or
/// the player to play holds no legal card.
pub open spec fn stuck(st: GameState, hands: [Cards; 4]) -> bool {
    !st.phase.spec_is_playing() || match st.next_actor {
        None => true,
        Some(s) => st.spec_legal_plays(hands@[s.spec_idx() as int]@).is_empty(),
    }
}

/// `fin` is where the hand from `start` ended after `card` was played: a consistent state in
/// which `card` and every card played before have been played, and play cannot go on.
pub open spec fn played_out(start: GameState, card: Card, hands: [Cards; 4], fin: GameState) -> bool {
    &&& fin.consistent()
    &&& fin.played@.contains(card)
    &&& start.played@.subset_of(fin.played@)
    &&& stuck(fin, hands)
}

/// What the hand in `st` is worth to `seat`: the others' scores less three times its own.
pub open spec fn worth(st: GameState, seat: Seat) -> int {
    let all = st.charges.all_set();
    st.won.spec_score(Seat::North, all) + st.won.spec_score(Seat::East, all)
        + st.won.spec_score(Seat::South, all) + st.won.spec_score(Seat::West, all) - 4
        * st.won.spec_score(seat, all)
}

/// Hands that `make_hands` may deal: sets of cards not yet played, the bot's own holding what
/// it still holds.
pub open spec fn may_deal(bot_state: BotState, game_state: GameState, hands: [Cards; 4]) -> bool {
    &&& forall|i: int| 0 <= i < 4 ==> (#[trigger] hands@[i]).wf()
    &&& forall|i: int, c: Card|
        0 <= i < 4 && #[trigger] hands@[i]@.contains(c) ==> !game_state.played@.contains(c)
    &&& bot_state.post_pass_hand@.difference(game_state.played@).subset_of(
        hands@[bot_state.seat.spec_idx() as int]@,
    )
}

/// `value` is what `seat` makes of one simulation of `card` on the dealt `hands`: the hand played
/// out after `card` (see `played_out`, `worth`).
pub open spec fn result_on(game_state: GameState, seat: Seat, card: Card, hands: [Cards; 4], value: i64) -> bool {
    exists|fin: GameState| #[trigger]
        played_out(game_state, card, hands, fin) && value == worth(fin, seat)
}

/// The sum of `values`.
pub open spec fn sum_of(values: Seq<i64>) -> int
    decreases values.len(),
{
    if values.len() == 0 {
        0
    } else {
        sum_of(values.drop_last()) + values.last()
    }
}

/// The total of each list of outcomes.
pub open spec fn totals_of(runs: Seq<Seq<i64>>) -> Seq<i64> {
    Seq::new(runs.len(), |j: int| sum_of(runs[j]) as i64)
}

/// The tally of the simulations so far: every deal is one `make_hands` may deal; each card of
/// `cards` has one result per deal, but for the last deal, which the cards from the `k`-th on
/// have yet to be tried on; each result is that of its card on its deal; and `dist` holds the
/// totals.
#[verifier::opaque]
spec fn tallied(
    bot_state: BotState,
    game_state: GameState,
    cards: Seq<Card>,
    runs: Seq<Seq<i64>>,
    deals: Seq<[Cards; 4]>,
    dist: Seq<i64>,
    k: int,
) -> bool {
    &&& runs.len() == cards.len()
    &&& dist.len() == cards.len()
    &&& 0 <= k <= cards.len()
    &&& forall|j: int| 0 <= j < cards.len() ==> dist[j] == sum_of(#[trigger] runs[j])
    &&& forall|r: int| 0 <= r < deals.len() ==> may_deal(bot_state, game_state, #[trigger] deals[r])
    &&& forall|j: int| 0 <= j < runs.len() ==> (#[trigger] runs[j]).len() == if j < k {
        deals.len() as int
    } else {
        deals.len() - 1
    }
    &&& k < cards.len() ==> deals.len() > 0
    &&& forall|j: int, r: int|
        0 <= j < runs.len() && 0 <= r < runs[j].len() ==> result_on(
            game_state,
            bot_state.seat,
            cards[j],
            deals[r],
            #[trigger] runs[j][r],
        )
}

/// A new deal starts a round in which no card has been tried yet.
proof fn lemma_new_deal(
    bot_state: BotState,
    game_state: GameState,
    cards: Seq<Card>,
    runs: Seq<Seq<i64>>,
    deals: Seq<[Cards; 4]>,
    dist: Seq<i64>,
    hands: [Cards; 4],
)
    requires
        tallied(bot_state, game_state, cards, runs, deals, dist, cards.len() as int),
        may_deal(bot_state, game_state, hands),
    ensures
        tallied(bot_state, game_state, cards, runs, deals.push(hands), dist, 0),
{
    reveal(tallied);
    let dealt = deals.push(hands);
    assert forall|r: int| 0 <= r < dealt.len() implies may_deal(bot_state, game_state, #[trigger] dealt[r]) by {
        if r < deals.len() {
            assert(dealt[r] == deals[r]);
        }
    }
    assert forall|j: int, r: int| 0 <= j < runs.len() && 0 <= r < runs[j].len() implies result_on(
        game_state,
        bot_state.seat,
        cards[j],
        dealt[r],
        #[trigger] runs[j][r],
    ) by {
        assert(dealt[r] == deals[r]);
    }
}

/// Trying the `k`-th card on the last deal adds its result to its list and its total.
proof fn lemma_tally(
    bot_state: BotState,
    game_state: GameState,
    cards: Seq<Card>,
    runs: Seq<Seq<i64>>,
    deals: Seq<[Cards; 4]>,
    dist: Seq<i64>,
    k: int,
    money: i64,
)
    requires
        tallied(bot_state, game_state, cards, runs, deals, dist, k),
        0 <= k < cards.len(),
        deals.len() > 0,
        result_on(game_state, bot_state.seat, cards[k], deals.last(), money),
        i64::MIN <= dist[k] + money <= i64::MAX,
    ensures
        tallied(
            bot_state,
            game_state,
            cards,
            runs.update(k, runs[k].push(money)),
            deals,
            dist.update(k, (dist[k] + money) as i64),
            k + 1,
        ),
{
    reveal(tallied);
    let grown = runs[k].push(money);
    let after = runs.update(k, grown);
    let totals = dist.update(k, (dist[k] + money) as i64);
    assert(grown.drop_last() =~= runs[k]);
    assert(deals.last() == deals[deals.len() - 1]);
    assert forall|j: int| 0 <= j < cards.len() implies totals[j] == sum_of(#[trigger] after[j]) by {
        if j != k {
            assert(after[j] == runs[j]);
        }
    }
    assert forall|j: int| 0 <= j < after.len() implies (#[trigger] after[j]).len() == if j < k + 1 {
        deals.len() as int
    } else {
        deals.len() - 1
    } by {
        if j != k {
            assert(after[j] == runs[j]);
        }
    }
    assert forall|j: int, r: int| 0 <= j < after.len() && 0 <= r < after[j].len() implies result_on(
        game_state,
        bot_state.seat,
        cards[j],
        deals[r],
        #[trigger] after[j][r],
    ) by {
        if j != k {
            assert(after[j] == runs[j]);
        } else if r < runs[j].len() {
            assert(after[j][r] == runs[j][r]);
        }
    }
}

impl SimulateBot {
    pub fn new() -> (r: Self)
        ensures
            forall|seat: Seat, suit: Suit| !#[trigger] r.void.void(seat, suit),
    {
        Self { void: VoidState::new() }
    }

    /// Passes as the heuristic bot does.
    pub fn pass(&mut self, bot_state: &BotState, game_state: &GameState) -> (r: Cards)
        requires
            bot_state.pre_pass_hand.wf(),
        ensures
            r.wf(),
            r@ == crate::bot::heuristic::heuristic_pass(bot_state.pre_pass_hand@),
    {
        HeuristicBot::new().pass(bot_state, game_state)
    }

    /// Charges as the heuristic bot does.
    pub fn charge(&mut self, bot_state: &BotState, game_state: &GameState) -> (r: Cards)
        requires
            bot_state.post_pass_hand.wf(),
        ensures
            r.wf(),
            r@ == crate::bot::heuristic::heuristic_charge(
                bot_state.post_pass_hand@,
                game_state.charges.seat_set(bot_state.seat),
            ),
    {
        HeuristicBot::new().charge(bot_state, game_state)
    }

    /// Finishes the hand from `game_state` after `seat` plays `card`, every player playing as
    /// the heuristic bot would with the hands dealt, and returns what the hand is worth to
    /// `seat`: the other players' scores less three times its own.
    fn simulate(game_state: &GameState, seat: Seat, card: Card, hands: &[Cards; 4]) -> (money: i64)
        requires
            game_state.consistent(),
            game_state.phase.spec_is_playing(),
            !game_state.played@.contains(card),
            forall|i: int| 0 <= i < 4 ==> (#[trigger] hands@[i]).wf(),
        ensures
            -MONEY_BOUND <= money <= MONEY_BOUND,
            exists|fin: GameState| #[trigger]
                played_out(*game_state, card, *hands, fin) && money == worth(fin, seat),
    {
        let mut game = *game_state;
        proof {
            game_state.lemma_play_applies(seat, card);
        }
        game.apply(&GameEvent::Play { seat, card });
        proof {
            game_state.lemma_play_consistent(game, seat, card);
        }
        let mut n = game.played.len();
        while game.phase.is_playing()
            invariant
                game.consistent(),
                forall|i: int| 0 <= i < 4 ==> (#[trigger] hands@[i]).wf(),
                n == game.played@.len(),
                n <= 64,
                game.played@.contains(card),
                game_state.played@.subset_of(game.played@),
            ensures
                game.consistent(),
                game.played@.contains(card),
                game_state.played@.subset_of(game.played@),
                stuck(game, *hands),
            decreases 64 - n,
        {
            let next = match game.next_actor {
                Some(s) => s,
                None => break,
            };
            let hand = hands[next.idx()];
            let plays = game.legal_plays(hand);
            if plays.is_empty() {
                break;
            }
            proof {
                Cards::lemma_empty(plays);
                game.lemma_legal_plays_in_hand(hand@);
            }
            let bot = BotState { seat: next, pre_pass_hand: hand, post_pass_hand: hand };
            let played = HeuristicBot::new().play(&bot, &game);
            proof {
                assert(game.spec_legal_plays(hand@) == plays@);
                crate::bot::heuristic::lemma_options_legal(bot, game);
                game.lemma_play_applies(next, played);
            }
            let ghost before = game;
            game.apply(&GameEvent::Play { seat: next, card: played });
            proof {
                before.lemma_play_consistent(game, next, played);
                before.played.lemma_len();
                assert(game.played@ == before.played@.insert(played));
            }
            n = game.played.len();
        }
        let north = game.score(Seat::North) as i64;
        let east = game.score(Seat::East) as i64;
        let south = game.score(Seat::South) as i64;
        let west = game.score(Seat::West) as i64;
        let mine = game.score(seat) as i64;
        let money = north + east + south + west - 4 * mine;
        proof {
            assert(played_out(*game_state, card, *hands, game));
            assert(money == worth(game, seat));
        }
        money
    }

    /// The legal play that did best, over as many rounds of random deals as the time for
    /// thinking allows: each round deals the unseen cards and plays each legal card a hundred
    /// times on that deal, so every card is tried the same number of times on the same deals.
    /// Thinking stops when the time is up or after `MAX_ROUNDS` rounds, whichever comes first.
    pub fn play(&mut self, bot_state: &BotState, game_state: &GameState) -> (c: Card)
        requires
            game_state.consistent(),
            game_state.phase.spec_is_playing(),
            bot_state.wf(),
            !game_state.spec_legal_plays(bot_state.post_pass_hand@).is_empty(),
        ensures
            game_state.spec_legal_plays(bot_state.post_pass_hand@).contains(c),
            ({
                let legal = desc_of(game_state.spec_legal_plays(bot_state.post_pass_hand@));
                exists|runs: Seq<Seq<i64>>, deals: Seq<[Cards; 4]>, i: int|
                    #![trigger is_best(totals_of(runs), i), deals.len()]
                    runs.len() == legal.len() && (forall|r: int|
                        0 <= r < deals.len() ==> may_deal(*bot_state, *game_state, #[trigger] deals[r]))
                        && (forall|j: int| 0 <= j < runs.len() ==> (#[trigger] runs[j]).len() == deals.len())
                        && (forall|j: int, r: int|
                        0 <= j < runs.len() && 0 <= r < deals.len() ==> result_on(
                            *game_state,
                            bot_state.seat,
                            legal[j],
                            deals[r],
                            #[trigger] runs[j][r],
                        )) && is_best(totals_of(runs), i) && c == legal[i]
            }),
    {
        let cards = game_state.legal_plays(bot_state.post_pass_hand);
        let v = cards.to_vec();
        proof {
            cards.lemma_len();
            vstd::set_lib::lemma_set_empty_equivalency_len(cards@);
            game_state.lemma_legal_plays_in_hand(bot_state.post_pass_hand@);
        }
        let mut dist: Vec<i64> = Vec::new();
        let mut k: usize = 0;
        while k < v.len()
            invariant
                k <= v@.len(),
                dist@.len() == k,
                forall|j: int| 0 <= j < k ==> dist@[j] == 0,
            decreases v@.len() - k,
        {
            dist.push(0);
            k = k + 1;
        }
        let ghost mut runs: Seq<Seq<i64>> = Seq::new(v@.len(), |j: int| Seq::<i64>::empty());
        let ghost mut deals: Seq<[Cards; 4]> = Seq::empty();
        proof {
            reveal(tallied);
        }
        let start = now();
        let mut rounds: u64 = 0;
        while seconds_since(&start) < THINKING_SECONDS && rounds < MAX_ROUNDS
            invariant
                rounds <= MAX_ROUNDS,
                game_state.consistent(),
                game_state.phase.spec_is_playing(),
                bot_state.wf(),
                forall|j: int| 0 <= j < v@.len() ==> #[trigger] cards@.contains(v@[j]),
                cards@.subset_of(bot_state.post_pass_hand@.difference(game_state.played@)),
                dist@.len() == v@.len(),
                tallied(*bot_state, *game_state, v@, runs, deals, dist@, v@.len() as int),
                forall|j: int| 0 <= j < dist@.len() ==> -MONEY_BOUND * (100 * rounds) <= #[trigger] dist@[j]
                    <= MONEY_BOUND * (100 * rounds),
            decreases MAX_ROUNDS - rounds,
        {
            let hands = make_hands(bot_state, game_state, self.void);
            let mut t: u64 = 0;
            while t < 100
                invariant
                    t <= 100,
                    rounds < MAX_ROUNDS,
                    game_state.consistent(),
                    game_state.phase.spec_is_playing(),
                    forall|i: int| 0 <= i < 4 ==> (#[trigger] hands@[i]).wf(),
                    forall|j: int| 0 <= j < v@.len() ==> #[trigger] cards@.contains(v@[j]),
                    cards@.subset_of(bot_state.post_pass_hand@.difference(game_state.played@)),
                    dist@.len() == v@.len(),
                    bot_state.wf(),
                    may_deal(*bot_state, *game_state, hands),
                    tallied(*bot_state, *game_state, v@, runs, deals, dist@, v@.len() as int),
                    forall|j: int| 0 <= j < dist@.len() ==> -MONEY_BOUND * (100 * rounds + t) <= #[trigger] dist@[j]
                        <= MONEY_BOUND * (100 * rounds + t),
                decreases 100 - t,
            {
                proof {
                    lemma_new_deal(*bot_state, *game_state, v@, runs, deals, dist@, hands);
                    deals = deals.push(hands);
                }
                let mut k: usize = 0;
                while k < v.len()
                    invariant
                        k <= v@.len(),
                        t < 100,
                        rounds < MAX_ROUNDS,
                        game_state.consistent(),
                        game_state.phase.spec_is_playing(),
                        forall|i: int| 0 <= i < 4 ==> (#[trigger] hands@[i]).wf(),
                        forall|j: int| 0 <= j < v@.len() ==> #[trigger] cards@.contains(v@[j]),
                        cards@.subset_of(bot_state.post_pass_hand@.difference(game_state.played@)),
                        dist@.len() == v@.len(),
                        bot_state.wf(),
                        deals.len() > 0,
                        deals.last() == hands,
                        tallied(*bot_state, *game_state, v@, runs, deals, dist@, k as int),
                        forall|j: int| 0 <= j < k ==> -MONEY_BOUND * (100 * rounds + t + 1) <= #[trigger] dist@[j]
                            <= MONEY_BOUND * (100 * rounds + t + 1),
                        forall|j: int| k <= j < dist@.len() ==> -MONEY_BOUND * (100 * rounds + t) <= #[trigger] dist@[j]
                            <= MONEY_BOUND * (100 * rounds + t),
                    decreases v@.len() - k,
                {
                    let card = v[k];
                    proof {
                        assert(cards@.contains(card));
                    }
                    let money = SimulateBot::simulate(game_state, bot_state.seat, card, &hands);
                    let ghost before = dist@;
                    let total = dist[k] + money;
                    dist.set(k, total);
                    proof {
                        let fin = choose|fin: GameState|
                            #[trigger] played_out(*game_state, card, hands, fin) && money == worth(
                                fin,
                                bot_state.seat,
                            );
                        assert(result_on(*game_state, bot_state.seat, card, hands, money));
                        lemma_tally(*bot_state, *game_state, v@, runs, deals, before, k as int, money);
                        assert(dist@ == before.update(k as int, (before[k as int] + money) as i64));
                        runs = runs.update(k as int, runs[k as int].push(money));
                    }
                    k = k + 1;
                }
                t = t + 1;
            }
            rounds = rounds + 1;
        }
        let best = best_index(&dist);
        proof {
            reveal(tallied);
            assert(cards@.contains(v@[best as int]));
            assert(totals_of(runs) =~= dist@);
            assert(is_best(totals_of(runs), best as int));
            assert(deals.len() >= 0);
            assert(v@ == desc_of(game_state.spec_legal_plays(bot_state.post_pass_hand@)));
        }
        v[best]
    }

    /// Notes who has shown out of which suit (see `VoidState::on_event`).
    pub fn on_event(&mut self, _bot_state: &BotState, game_state: &GameState, event: &GameEvent)
        requires
            game_state.wf(),
        ensures
            final(self).void.noted(old(self).void, *game_state, *event),
    {
        self.void.on_event(game_state, event);
    }
}

} // verus!
