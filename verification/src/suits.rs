//! Sets of suits, one bit per suit.
use crate::bits::{bit8, lemma_bit8_or, lemma_bit8_single, lemma_bit8_zero};
use crate::cards::{Card, Cards, Suit};
use vstd::prelude::*;

verus! {

/// A set of suits: bit `i` for the suit of position `i`.
#[derive(Clone, Copy, Debug, PartialEq, Eq, Hash, Structural)]
pub struct Suits {
    pub bits: u8,
}

impl View for Suits {
    type V = Set<Suit>;

    open spec fn view(&self) -> Set<Suit> {
        Set::new(|s: Suit| bit8(self.bits, s.spec_idx()))
    }
}

impl Suits {
    pub fn none() -> (r: Suits)
        ensures
            r@ == Set::<Suit>::empty(),
    {
        let r = Suits { bits: 0 };
        proof {
            assert forall|s: Suit| !r@.contains(s) by {
                lemma_bit8_zero(s.spec_idx());
            }
            assert(r@ =~= Set::<Suit>::empty());
        }
        r
    }

    pub fn contains(self, suit: Suit) -> (r: bool)
        ensures
            r == self@.contains(suit),
    {
        proof {
            suit.lemma_idx();
        }
        (self.bits >> (suit.idx() as u8)) & 1 == 1
    }

    pub fn insert(&mut self, suit: Suit)
        ensures
            final(self)@ == old(self)@.insert(suit),
            final(self).bits == old(self).bits | (1u8 << suit.spec_idx()),
    {
        proof {
            suit.lemma_idx();
        }
        let old_bits = self.bits;
        self.bits = self.bits | (1u8 << (suit.idx() as u8));
        proof {
            assert forall|s: Suit| final(self)@.contains(s) == old(self)@.insert(suit).contains(s)
                by {
                s.lemma_idx();
                lemma_bit8_or(old_bits, 1u8 << suit.spec_idx(), s.spec_idx());
                lemma_bit8_single(suit.spec_idx(), s.spec_idx());
            }
            assert(final(self)@ =~= old(self)@.insert(suit));
        }
    }

    /// Every card of every suit in the set.
    pub fn cards(self) -> (r: Cards)
        ensures
            r.wf(),
            r@ == Set::new(|c: Card| self@.contains(c.spec_suit())),
    {
        let mut r = Cards::none();
        let mut i: usize = 0;
        while i < 4
            invariant
                i <= 4,
                r.wf(),
                r@ == Set::new(|c: Card| self@.contains(c.spec_suit()) && c.spec_suit().spec_idx() < i),
            decreases 4 - i,
        {
            let suit = Suit::VALUES[i];
            assert(suit.spec_idx() == i);
            if self.contains(suit) {
                r = r.union(suit.cards());
            }
            proof {
                assert forall|c: Card| r@.contains(c) == (self@.contains(c.spec_suit())
                    && c.spec_suit().spec_idx() < i + 1) by {
                    c.spec_suit().lemma_idx();
                    suit.lemma_idx();
                    if c.spec_suit().spec_idx() == i {
                        assert(c.spec_suit() == suit);
                    }
                }
                assert(r@ =~= Set::new(|c: Card| self@.contains(c.spec_suit()) && c.spec_suit().spec_idx() < i + 1));
            }
            i = i + 1;
        }
        proof {
            assert forall|c: Card| r@.contains(c) == self@.contains(c.spec_suit()) by {
                c.spec_suit().lemma_idx();
            }
            assert(r@ =~= Set::new(|c: Card| self@.contains(c.spec_suit())));
        }
        r
    }
}

} // verus!
