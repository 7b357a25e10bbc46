//! The trick in progress: up to eight cards. A trick ends after four cards unless one of them
//! is the nine of the suit led, in which case it goes around twice.
use crate::cards::{Card, Cards, Rank, Suit};
use crate::seat::Seat;
use vstd::prelude::*;

verus! {

#[derive(Clone, Copy, Debug)]
pub struct Trick {
    cards: [Card; 8],
    len: u8,
}

impl View for Trick {
    type V = Seq<Card>;

    closed spec fn view(&self) -> Seq<Card> {
        self.cards@.take(self.len as int)
    }
}

/// The nine of the suit of the first card.
pub open spec fn nine_of(s: Seq<Card>) -> Card {
    Card::spec_new(Rank::Nine, s[0].spec_suit())
}

/// The nine of the suit led has been played to the trick `s`.
pub open spec fn seq_nined(s: Seq<Card>) -> bool {
    s.len() > 0 && s.contains(nine_of(s))
}

/// The trick `s` is over: eight cards, or four without the nine of the suit led.
pub open spec fn seq_complete(s: Seq<Card>) -> bool {
    s.len() == 8 || (s.len() == 4 && !seq_nined(s))
}

/// Position `w` of the trick `s` holds the highest card of the suit led, and no earlier position
/// holds a card of that suit that ranks as high.
pub open spec fn winning_position(s: Seq<Card>, w: int) -> bool {
    &&& 0 <= w < s.len()
    &&& s[w].spec_suit() == s[0].spec_suit()
    &&& forall|j: int|
        0 <= j < s.len() && #[trigger] s[j].spec_suit() == s[0].spec_suit() ==> (s[j].spec_index()
            <= s[w].spec_index() && (j < w ==> s[j].spec_index() < s[w].spec_index()))
}

/// A trick has at most one winning position.
pub proof fn lemma_winning_position_unique(s: Seq<Card>, a: int, b: int)
    requires
        winning_position(s, a),
        winning_position(s, b),
    ensures
        a == b,
{
    assert(s[a].spec_suit() == s[0].spec_suit());
    assert(s[b].spec_suit() == s[0].spec_suit());
}

/// The seat winning the trick `s`, given the seat that plays next.
pub open spec fn trick_winner(s: Seq<Card>, next: Seat) -> Seat {
    back(next, s.len() - choose|w: int| winning_position(s, w))
}

/// The seat `k` places to the right of `seat`.
pub open spec fn back(seat: Seat, k: int) -> Seat {
    seat.turn(((4 - k % 4) % 4) as u8)
}

impl Trick {
    /// At most eight cards are held.
    pub closed spec fn wf(self) -> bool {
        self.len <= 8 && self.cards@.len() == 8
    }

    /// The card in the first place of the trick; after a trick is cleared it still holds the
    /// lead of the trick before, which is what `suit` reports for an empty trick.
    pub closed spec fn lead_slot(self) -> Card {
        self.cards@[0]
    }

    pub proof fn lemma_wf(self)
        requires
            self.wf(),
        ensures
            self@.len() <= 8,
            self@.len() > 0 ==> self@[0] == self.lead_slot(),
    {
    }

    /// The trick with `card` added.
    pub closed spec fn spec_push(self, card: Card) -> Trick {
        Trick {
            cards: vstd::array::spec_array_update(self.cards, self.len as int, card),
            len: (self.len + 1) as u8,
        }
    }

    /// The trick emptied; its places keep their cards.
    pub closed spec fn spec_cleared(self) -> Trick {
        Trick { len: 0, ..self }
    }

    /// The nine of the suit led.
    pub open spec fn nine(self) -> Card {
        Card::spec_new(Rank::Nine, self.lead_slot().spec_suit())
    }

    pub open spec fn spec_nined(self) -> bool {
        seq_nined(self@)
    }

    pub open spec fn spec_is_complete(self) -> bool {
        seq_complete(self@)
    }

    pub open spec fn is_winning_position(self, w: int) -> bool {
        winning_position(self@, w)
    }

    pub fn new() -> (r: Self)
        ensures
            r.wf(),
            r@ == Seq::<Card>::empty(),
            r.lead_slot() == Card::TwoClubs,
    {
        let r = Self { cards: [Card::TwoClubs; 8], len: 0 };
        proof {
            assert(r@ =~= Seq::<Card>::empty());
        }
        r
    }

    pub fn is_empty(&self) -> (r: bool)
        requires
            self.wf(),
        ensures
            r == (self@.len() == 0),
    {
        self.len == 0
    }

    /// The number of cards in the trick.
    pub fn len(&self) -> (r: usize)
        requires
            self.wf(),
        ensures
            r == self@.len(),
    {
        self.len as usize
    }

    /// The suit of the first card (of the last trick's first card when the trick is empty).
    pub fn suit(&self) -> (r: Suit)
        requires
            self.wf(),
        ensures
            r == self.lead_slot().spec_suit(),
            self@.len() > 0 ==> r == self@[0].spec_suit(),
    {
        self.cards[0].suit()
    }

    /// The card at place `i` of the trick.
    pub fn get(&self, i: usize) -> (c: Card)
        requires
            self.wf(),
            i < self@.len(),
        ensures
            c == self@[i as int],
    {
        self.cards[i]
    }

    /// Whether the nine of the suit led has been played to the trick.
    pub fn nined(&self) -> (r: bool)
        requires
            self.wf(),
        ensures
            r == self.spec_nined(),
    {
        let nine = self.suit().with_rank(Rank::Nine);
        proof {
            Card::lemma_new(Rank::Nine, self.lead_slot().spec_suit());
            Card::lemma_parts(nine);
        }
        let mut i: usize = 0;
        while i < self.len as usize
            invariant
                self.wf(),
                i <= self.len,
                nine == self.nine(),
                forall|j: int| 0 <= j < i ==> self@[j] != nine,
            decreases self.len - i,
        {
            if self.cards[i] == nine {
                proof {
                    assert(self@[i as int] == nine);
                }
                return true;
            }
            i = i + 1;
        }
        proof {
            assert(!self@.contains(nine)) by {
                if self@.contains(nine) {
                    let j = choose|j: int| 0 <= j < self@.len() && self@[j] == nine;
                    assert(self@[j] != nine);
                }
            }
        }
        false
    }

    pub fn is_complete(&self) -> (r: bool)
        requires
            self.wf(),
        ensures
            r == self.spec_is_complete(),
    {
        self.len == 8 || (self.len == 4 && !self.nined())
    }

    /// The set of cards in the trick.
    pub fn cards(&self) -> (r: Cards)
        requires
            self.wf(),
        ensures
            r.wf(),
            r@ == self@.to_set(),
    {
        let mut r = Cards::none();
        let mut i: usize = 0;
        while i < self.len as usize
            invariant
                self.wf(),
                i <= self.len,
                r.wf(),
                r@ == self@.take(i as int).to_set(),
            decreases self.len - i,
        {
            proof {
                assert(self@.take(i + 1) =~= self@.take(i as int).push(self@[i as int]));
                let a = self@.take(i as int);
                let b = self@.take(i + 1);
                assert forall|x: Card| b.contains(x) == (a.contains(x) || x == self@[i as int]) by {
                    if b.contains(x) {
                        let j = choose|j: int| 0 <= j < b.len() && b[j] == x;
                        if j < i {
                            assert(a[j] == x);
                        }
                    }
                    if a.contains(x) {
                        let j = choose|j: int| 0 <= j < a.len() && a[j] == x;
                        assert(b[j] == x);
                    }
                    if x == self@[i as int] {
                        assert(b[i as int] == x);
                    }
                }
                assert(b.to_set() =~= a.to_set().insert(self@[i as int]));
            }
            r.insert(self.cards[i]);
            i = i + 1;
        }
        proof {
            assert(self@.take(self.len as int) =~= self@);
        }
        r
    }

    /// The highest card of the suit led.
    pub fn winning_card(&self) -> (c: Card)
        requires
            self.wf(),
            self@.len() > 0,
        ensures
            exists|w: int| self.is_winning_position(w) && self@[w] == c,
    {
        let w = self.winning_position();
        self.cards[w]
    }

    fn winning_position(&self) -> (w: usize)
        requires
            self.wf(),
            self@.len() > 0,
        ensures
            self.is_winning_position(w as int),
    {
        let mut index: usize = 0;
        let mut max = self.cards[0];
        let mut i: usize = 1;
        while i < self.len as usize
            invariant
                self.wf(),
                1 <= i <= self.len,
                index < i,
                max == self@[index as int],
                max.spec_suit() == self@[0].spec_suit(),
                forall|j: int|
                    0 <= j < i && #[trigger] self@[j].spec_suit() == self@[0].spec_suit() ==> (
                    self@[j].spec_index() <= max.spec_index() && (j < index ==> self@[j].spec_index()
                        < max.spec_index())),
            decreases self.len - i,
        {
            let card = self.cards[i];
            if card.suit() == max.suit() && card.gt(max) {
                max = card;
                index = i;
            }
            i = i + 1;
        }
        index
    }

    /// The seat that is winning the trick, given the seat that plays next.
    pub fn winning_seat(&self, next: Seat) -> (r: Seat)
        requires
            self.wf(),
            self@.len() > 0,
        ensures
            exists|w: int| self.is_winning_position(w) && r == back(next, self@.len() - w),
            r == trick_winner(self@, next),
    {
        let index = self.winning_position();
        proof {
            let w = choose|w: int| winning_position(self@, w);
            lemma_winning_position_unique(self@, w, index as int);
        }
        let k = (self.len - index as u8) % 4;
        let r = match k {
            0 => next,
            1 => next.right(),
            2 => next.across(),
            _ => next.left(),
        };
        proof {
            next.lemma_idx();
            assert(r == back(next, self@.len() - index));
        }
        r
    }

    pub fn push(&mut self, card: Card)
        requires
            old(self).wf(),
            old(self)@.len() < 8,
        ensures
            final(self).wf(),
            final(self)@ == old(self)@.push(card),
            old(self)@.len() > 0 ==> final(self).lead_slot() == old(self).lead_slot(),
            old(self)@.len() == 0 ==> final(self).lead_slot() == card,
            *final(self) == old(self).spec_push(card),
    {
        self.cards[self.len as usize] = card;
        self.len = self.len + 1;
        proof {
            assert(final(self)@ =~= old(self)@.push(card));
            assert(self.cards =~= vstd::array::spec_array_update(old(self).cards, old(self).len as int, card));
        }
    }

    /// Empties the trick; the first place keeps its card.
    pub fn clear(&mut self)
        requires
            old(self).wf(),
        ensures
            final(self).wf(),
            final(self)@ == Seq::<Card>::empty(),
            final(self).lead_slot() == old(self).lead_slot(),
            *final(self) == old(self).spec_cleared(),
    {
        self.len = 0;
        proof {
            assert(final(self)@ =~= Seq::<Card>::empty());
        }
    }
}

} // verus!
