//! The charges made in a hand: which of the four chargeable cards each seat has charged.
//! One nibble per seat: the queen of spades, ace of hearts, jack of diamonds and ten of clubs
//! from the high bit down.
use crate::bits::{
    bit16, lemma_bit16_clear_nibble, lemma_bit16_column, lemma_bit16_or,
    lemma_bit16_single, lemma_bit16_zero,
};
use crate::cards::{cards_of, lemma_cards_of, Card, Cards};
use crate::seat::Seat;
use vstd::prelude::*;

verus! {

#[derive(Clone, Copy, Debug)]
pub struct ChargeState {
    charges: u16,
}

/// The place of a chargeable card within a seat's nibble.
pub open spec fn charge_slot(card: Card) -> u16 {
    if card == Card::QueenSpades {
        3
    } else if card == Card::AceHearts {
        2
    } else if card == Card::JackDiamonds {
        1
    } else {
        0
    }
}

pub open spec fn is_chargeable(card: Card) -> bool {
    card == Card::QueenSpades || card == Card::AceHearts || card == Card::JackDiamonds || card
        == Card::TenClubs
}

impl ChargeState {
    /// `seat` has charged `card`.
    pub closed spec fn charged(self, seat: Seat, card: Card) -> bool {
        is_chargeable(card) && bit16(self.charges, (4 * seat.spec_idx() + charge_slot(card)) as u16)
    }

    /// Only the four chargeable cards are ever charged.
    pub proof fn lemma_charged_chargeable(self, seat: Seat, card: Card)
        ensures
            self.charged(seat, card) ==> is_chargeable(card),
    {
    }

    pub open spec fn seat_set(self, seat: Seat) -> Set<Card> {
        Set::new(|c: Card| self.charged(seat, c))
    }

    /// The cards charged by `seat`, as a set of cards.
    pub open spec fn charges_of(self, seat: Seat) -> Cards {
        cards_of(self.seat_set(seat))
    }

    pub open spec fn all_set(self) -> Set<Card> {
        Set::new(|c: Card| exists|s: Seat| #[trigger] self.charged(s, c))
    }

    pub fn new() -> (r: Self)
        ensures
            forall|s: Seat, c: Card| !#[trigger] r.charged(s, c),
    {
        let r = Self { charges: 0 };
        proof {
            assert forall|s: Seat, c: Card| !#[trigger] r.charged(s, c) by {
                lemma_bit16_zero((4 * s.spec_idx() + charge_slot(c)) as u16);
            }
        }
        r
    }

    pub fn clear(&mut self)
        ensures
            forall|s: Seat, c: Card| !#[trigger] final(self).charged(s, c),
    {
        self.charges = 0;
        proof {
            assert forall|s: Seat, c: Card| !#[trigger] final(self).charged(s, c) by {
                lemma_bit16_zero((4 * s.spec_idx() + charge_slot(c)) as u16);
            }
        }
    }

    /// `seat` charges `cards`; the cards that cannot be charged are ignored.
    pub fn charge(&mut self, seat: Seat, cards: Cards)
        ensures
            forall|s: Seat, c: Card| #[trigger]
                final(self).charged(s, c) == (old(self).charged(s, c) || (s == seat
                    && is_chargeable(c) && cards@.contains(c))),
    {
        if !cards.is_empty() {
            let mut mask: u16 = 0;
            if cards.contains(Card::QueenSpades) {
                mask += 8;
            }
            if cards.contains(Card::AceHearts) {
                mask += 4;
            }
            if cards.contains(Card::JackDiamonds) {
                mask += 2;
            }
            if cards.contains(Card::TenClubs) {
                mask += 1;
            }
            proof {
                seat.lemma_idx();
            }
            let old_charges = self.charges;
            let shifted: u16 = mask << (4 * seat.idx() as u16);
            self.charges |= shifted;
            proof {
                let n = seat.spec_idx() as u16;
                assert forall|s: Seat, c: Card| #[trigger] final(self).charged(s, c) == (old(self).charged(s, c) || (s == seat && is_chargeable(c) && cards@.contains(c))) by {
                    s.lemma_idx();
                    let i = (4 * s.spec_idx() + charge_slot(c)) as u16;
                    lemma_bit16_or(old_charges, shifted, i);
                    ChargeState::lemma_mask_bit(
                        mask,
                        n,
                        i,
                        cards@.contains(Card::QueenSpades),
                        cards@.contains(Card::AceHearts),
                        cards@.contains(Card::JackDiamonds),
                        cards@.contains(Card::TenClubs),
                    );
                }
            }
        } else {
            proof {
                Cards::lemma_empty_bits(cards);
            }
        }
    }

    proof fn lemma_mask_bit(mask: u16, n: u16, i: u16, q: bool, a: bool, j: bool, t: bool)
        by (bit_vector)
        requires
            n < 4,
            i < 16,
            mask == (if q { 8u16 } else { 0u16 }) + (if a { 4u16 } else { 0u16 }) + (if j {
                2u16
            } else {
                0u16
            }) + (if t { 1u16 } else { 0u16 }),
        ensures
            bit16(mask << (4 * n) as u16, i) == ((i == (4 * n + 3) as u16 && q) || (i == (4 * n
                + 2) as u16 && a) || (i == (4 * n + 1) as u16 && j) || (i == (4 * n) as u16 && t)),
    {
    }

    pub fn is_charged(&self, card: Card) -> (r: bool)
        ensures
            r == exists|s: Seat| #[trigger] self.charged(s, card),
    {
        let r = match card {
            Card::QueenSpades => self.charges & 0x8888 != 0,
            Card::AceHearts => self.charges & 0x4444 != 0,
            Card::JackDiamonds => self.charges & 0x2222 != 0,
            Card::TenClubs => self.charges & 0x1111 != 0,
            _ => false,
        };
        proof {
            if is_chargeable(card) {
                ChargeState::lemma_column(self.charges, charge_slot(card));
                self.lemma_column_seats(card);
            }
        }
        r
    }

    proof fn lemma_column(x: u16, k: u16)
        requires
            k < 4,
        ensures
            (x & (0x1111u16 << k) != 0u16) == (bit16(x, k) || bit16(x, (4 + k) as u16) || bit16(
                x,
                (8 + k) as u16,
            ) || bit16(x, (12 + k) as u16)),
            k == 3 ==> 0x1111u16 << k == 0x8888u16,
            k == 2 ==> 0x1111u16 << k == 0x4444u16,
            k == 1 ==> 0x1111u16 << k == 0x2222u16,
            k == 0 ==> 0x1111u16 << k == 0x1111u16,
    {
        lemma_bit16_column(x, k);
        assert(0x1111u16 << 3u16 == 0x8888u16) by (bit_vector);
        assert(0x1111u16 << 2u16 == 0x4444u16) by (bit_vector);
        assert(0x1111u16 << 1u16 == 0x2222u16) by (bit_vector);
        assert(0x1111u16 << 0u16 == 0x1111u16) by (bit_vector);
    }

    proof fn lemma_column_seats(self, card: Card)
        requires
            is_chargeable(card),
        ensures
            (exists|s: Seat| #[trigger] self.charged(s, card)) == (bit16(
                self.charges,
                charge_slot(card),
            ) || bit16(self.charges, (4 + charge_slot(card)) as u16) || bit16(
                self.charges,
                (8 + charge_slot(card)) as u16,
            ) || bit16(self.charges, (12 + charge_slot(card)) as u16)),
    {
        assert(self.charged(Seat::North, card) == bit16(self.charges, charge_slot(card)));
        assert(self.charged(Seat::East, card) == bit16(
            self.charges,
            (4 + charge_slot(card)) as u16,
        ));
        assert(self.charged(Seat::South, card) == bit16(
            self.charges,
            (8 + charge_slot(card)) as u16,
        ));
        assert(self.charged(Seat::West, card) == bit16(
            self.charges,
            (12 + charge_slot(card)) as u16,
        ));
    }

    /// The cards that `seat` has charged.
    pub fn charges(&self, seat: Seat) -> (r: Cards)
        ensures
            r.wf(),
            r@ == self.seat_set(seat),
            r == self.charges_of(seat),
    {
        proof {
            seat.lemma_idx();
        }
        let mask = self.charges & (0xf << (4 * seat.idx() as u16));
        let r = self.charges_from_mask(mask);
        proof {
            let n = seat.spec_idx() as u16;
            assert forall|c: Card| r@.contains(c) == self.seat_set(seat).contains(c) by {
                if is_chargeable(c) {
                    let k = charge_slot(c);
                    assert forall|j: u16| j < 16 implies #[trigger] bit16(mask, j) == (bit16(
                        self.charges,
                        j,
                    ) && (4 * n) as u16 <= j && j < (4 * n + 4) as u16) by {
                        lemma_bit16_clear_nibble(self.charges, n, j);
                    }
                    assert(bit16(mask, k) == (bit16(self.charges, k) && n == 0));
                    assert(bit16(mask, (4 + k) as u16) == (bit16(self.charges, (4 + k) as u16)
                        && n == 1));
                    assert(bit16(mask, (8 + k) as u16) == (bit16(self.charges, (8 + k) as u16)
                        && n == 2));
                    assert(bit16(mask, (12 + k) as u16) == (bit16(self.charges, (12 + k) as u16)
                        && n == 3));
                }
            }
            assert(r@ =~= self.seat_set(seat));
            lemma_cards_of(r);
        }
        r
    }

    /// Every card that has been charged, by anyone.
    pub fn all_charges(&self) -> (r: Cards)
        ensures
            r.wf(),
            r@ == self.all_set(),
    {
        let r = self.charges_from_mask(self.charges);
        proof {
            assert forall|c: Card| r@.contains(c) == self.all_set().contains(c) by {
                if is_chargeable(c) {
                    self.lemma_column_seats(c);
                }
            }
            assert(r@ =~= self.all_set());
        }
        r
    }

    /// The chargeable cards whose place is set in some nibble of `mask`.
    fn charges_from_mask(&self, mask: u16) -> (r: Cards)
        ensures
            r.wf(),
            forall|c: Card| #[trigger]
                r@.contains(c) == (is_chargeable(c) && (bit16(mask, charge_slot(c)) || bit16(
                    mask,
                    (4 + charge_slot(c)) as u16,
                ) || bit16(mask, (8 + charge_slot(c)) as u16) || bit16(
                    mask,
                    (12 + charge_slot(c)) as u16,
                ))),
    {
        let mut charges = Cards::none();
        proof {
            ChargeState::lemma_column(mask, 3);
            ChargeState::lemma_column(mask, 2);
            ChargeState::lemma_column(mask, 1);
            ChargeState::lemma_column(mask, 0);
        }
        if mask & 0x8888 != 0 {
            charges.insert(Card::QueenSpades);
        }
        if mask & 0x4444 != 0 {
            charges.insert(Card::AceHearts);
        }
        if mask & 0x2222 != 0 {
            charges.insert(Card::JackDiamonds);
        }
        if mask & 0x1111 != 0 {
            charges.insert(Card::TenClubs);
        }
        charges
    }
}

} // verus!
