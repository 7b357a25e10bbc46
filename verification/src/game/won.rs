//! What each seat has won in the current hand: one byte per seat holding the number of hearts
//! (low four bits) and whether it took the queen of spades, jack of diamonds and ten of clubs.
use crate::bits::bit32;
use crate::cards::{lemma_suit_len, Card, Cards, Suit};
use crate::seat::Seat;
use vstd::prelude::*;
use vstd::std_specs::bits::{axiom_u32_trailing_zeros, u32_trailing_zeros};

verus! {

#[derive(Clone, Copy, Debug)]
pub struct WonState {
    state: u32,
}

pub open spec fn shift_of(seat: Seat) -> u32 {
    (8 * seat.spec_idx()) as u32
}

impl WonState {
    pub closed spec fn spec_hearts(self, seat: Seat) -> nat {
        ((self.state >> shift_of(seat)) & 0xfu32) as nat
    }

    pub closed spec fn spec_queen(self, seat: Seat) -> bool {
        bit32(self.state, (shift_of(seat) + 4) as u32)
    }

    pub closed spec fn spec_jack(self, seat: Seat) -> bool {
        bit32(self.state, (shift_of(seat) + 5) as u32)
    }

    pub closed spec fn spec_ten(self, seat: Seat) -> bool {
        bit32(self.state, (shift_of(seat) + 6) as u32)
    }

    /// The top bit of every seat's byte is clear, so a byte never carries into the next one.
    pub closed spec fn wf(self) -> bool {
        forall|s: Seat| !#[trigger] bit32(self.state, (shift_of(s) + 7) as u32)
    }

    /// `seat` has won the same in both states.
    pub open spec fn same_seat(self, other: WonState, seat: Seat) -> bool {
        &&& self.spec_hearts(seat) == other.spec_hearts(seat)
        &&& self.spec_queen(seat) == other.spec_queen(seat)
        &&& self.spec_jack(seat) == other.spec_jack(seat)
        &&& self.spec_ten(seat) == other.spec_ten(seat)
    }

    /// `seat` can win `cards` without overflowing its count of hearts or taking a card twice.
    pub open spec fn can_win(self, seat: Seat, cards: Set<Card>) -> bool {
        &&& self.wf()
        &&& self.spec_hearts(seat) + Cards::hearts_in(cards) <= 15
        &&& cards.contains(Card::QueenSpades) ==> !self.spec_queen(seat)
        &&& cards.contains(Card::JackDiamonds) ==> !self.spec_jack(seat)
        &&& cards.contains(Card::TenClubs) ==> !self.spec_ten(seat)
    }

    /// This state is `old` after `seat` won `cards`.
    pub open spec fn won_with(self, old: WonState, seat: Seat, cards: Set<Card>) -> bool {
        &&& self.wf()
        &&& self.spec_hearts(seat) == old.spec_hearts(seat) + Cards::hearts_in(cards)
        &&& self.spec_queen(seat) == (old.spec_queen(seat) || cards.contains(Card::QueenSpades))
        &&& self.spec_jack(seat) == (old.spec_jack(seat) || cards.contains(Card::JackDiamonds))
        &&& self.spec_ten(seat) == (old.spec_ten(seat) || cards.contains(Card::TenClubs))
        &&& forall|s: Seat| s != seat ==> #[trigger] self.same_seat(old, s)
    }

    /// `seat` has taken a card that scores.
    pub open spec fn took(self, seat: Seat) -> bool {
        self.spec_hearts(seat) > 0 || self.spec_queen(seat) || self.spec_jack(seat)
    }

    /// What `update` adds to the byte of a seat that wins `cards`: the hearts, then a flag
    /// each for the queen, the jack and the ten.
    pub open spec fn update_for(cards: Set<Card>) -> u32 {
        (Cards::hearts_in(cards) + (if cards.contains(Card::QueenSpades) {
            16int
        } else {
            0int
        }) + (if cards.contains(Card::JackDiamonds) {
            32int
        } else {
            0int
        }) + (if cards.contains(Card::TenClubs) {
            64int
        } else {
            0int
        })) as u32
    }

    /// The state after `seat` wins `cards`.
    pub closed spec fn spec_win(self, seat: Seat, cards: Set<Card>) -> WonState {
        WonState {
            state: (self.state + (WonState::update_for(cards) << shift_of(seat))) as u32,
        }
    }

    pub open spec fn is_clear(self) -> bool {
        forall|s: Seat|
            #![trigger self.spec_hearts(s)]
            self.spec_hearts(s) == 0 && !self.spec_queen(s) && !self.spec_jack(s)
                && !self.spec_ten(s)
    }

    /// The score of `seat` for the hand, given the cards charged in it. Hearts count one point
    /// each, the queen of spades thirteen, the jack of diamonds minus ten, and the ten of clubs
    /// doubles the total; a charged card counts double. Taking all hearts and the queen
    /// (shooting the moon) turns the hearts and the queen negative.
    pub open spec fn spec_score(self, seat: Seat, charged: Set<Card>) -> int {
        let hearts: int = if charged.contains(Card::AceHearts) {
            2 * self.spec_hearts(seat) as int
        } else {
            self.spec_hearts(seat) as int
        };
        let queen: int = if self.spec_queen(seat) {
            if charged.contains(Card::QueenSpades) {
                26
            } else {
                13
            }
        } else {
            0
        };
        let jack: int = if self.spec_jack(seat) {
            if charged.contains(Card::JackDiamonds) {
                -20
            } else {
                -10
            }
        } else {
            0
        };
        let ten: int = if self.spec_ten(seat) {
            if charged.contains(Card::TenClubs) {
                4
            } else {
                2
            }
        } else {
            1
        };
        if self.spec_queen(seat) && self.spec_hearts(seat) == 13 {
            ten * (jack - hearts - queen)
        } else {
            ten * (jack + hearts + queen)
        }
    }

    proof fn lemma_fields(x: u32, j: u32)
        by (bit_vector)
        requires
            j < 4,
        ensures
            (x >> (8 * j) as u32) & 0xfu32 <= 15,
    {
    }

    #[verifier::spinoff_prover]
    pub fn new() -> (r: Self)
        ensures
            r.wf(),
            r.is_clear(),
    {
        let r = Self { state: 0 };
        proof {
            assert forall|s: Seat| !#[trigger] bit32(r.state, (shift_of(s) + 7) as u32) by {
                s.lemma_idx();
                WonState::lemma_zero(shift_of(s));
            }
            assert forall|s: Seat|
                #![trigger r.spec_hearts(s)]
                r.spec_hearts(s) == 0 && !r.spec_queen(s) && !r.spec_jack(s) && !r.spec_ten(
                    s,
                ) by {
                s.lemma_idx();
                WonState::lemma_zero(shift_of(s));
                assert(r.spec_hearts(s) == (0u32 >> shift_of(s)) & 0xfu32);
            }
            assert(r.is_clear());
        }
        r
    }

    proof fn lemma_zero(i: u32)
        by (bit_vector)
        requires
            i < 32,
        ensures
            (0u32 >> i) & 0xfu32 == 0,
            !bit32(0u32, (i + 4) as u32),
            !bit32(0u32, (i + 5) as u32),
            !bit32(0u32, (i + 6) as u32),
            !bit32(0u32, (i + 7) as u32),
    {
    }

    proof fn lemma_add(state: u32, u: u32, i: u32)
        by (bit_vector)
        requires
            i < 4,
            u < 0x80,
            ((state >> (8 * i) as u32) & 0xfu32) + (u & 0xfu32) <= 0xf,
            (u & 0x10u32) != 0 ==> !bit32(state, (8 * i + 4) as u32),
            (u & 0x20u32) != 0 ==> !bit32(state, (8 * i + 5) as u32),
            (u & 0x40u32) != 0 ==> !bit32(state, (8 * i + 6) as u32),
            !bit32(state, (8 * i + 7) as u32),
        ensures
            state + (u << (8 * i) as u32) <= 0xffff_ffffu32,
    {
    }

    proof fn lemma_add_fields(state: u32, u: u32, i: u32, n: u32, j: u32)
        by (bit_vector)
        requires
            i < 4,
            j < 4,
            u < 0x80,
            ((state >> (8 * i) as u32) & 0xfu32) + (u & 0xfu32) <= 0xf,
            (u & 0x10u32) != 0 ==> !bit32(state, (8 * i + 4) as u32),
            (u & 0x20u32) != 0 ==> !bit32(state, (8 * i + 5) as u32),
            (u & 0x40u32) != 0 ==> !bit32(state, (8 * i + 6) as u32),
            !bit32(state, (8 * i + 7) as u32),
            n == state + (u << (8 * i) as u32),
        ensures
            i == j ==> (n >> (8 * j) as u32) & 0xfu32 == ((state >> (8 * j) as u32) & 0xfu32) + (u
                & 0xfu32),
            i != j ==> (n >> (8 * j) as u32) & 0xfu32 == (state >> (8 * j) as u32) & 0xfu32,
            bit32(n, (8 * j + 4) as u32) == (bit32(state, (8 * j + 4) as u32) || (i == j && (u
                & 0x10u32) != 0)),
            bit32(n, (8 * j + 5) as u32) == (bit32(state, (8 * j + 5) as u32) || (i == j && (u
                & 0x20u32) != 0)),
            bit32(n, (8 * j + 6) as u32) == (bit32(state, (8 * j + 6) as u32) || (i == j && (u
                & 0x40u32) != 0)),
            bit32(n, (8 * j + 7) as u32) == bit32(state, (8 * j + 7) as u32),
    {
    }

    proof fn lemma_update(h: u32, q: bool, jk: bool, t: bool, u: u32)
        by (bit_vector)
        requires
            h <= 15,
            u == h + (if q { 16u32 } else { 0u32 }) + (if jk { 32u32 } else { 0u32 }) + (if t {
                64u32
            } else {
                0u32
            }),
        ensures
            u < 0x80,
            u & 0xfu32 == h,
            ((u & 0x10u32) != 0) == q,
            ((u & 0x20u32) != 0) == jk,
            ((u & 0x40u32) != 0) == t,
    {
    }

    /// `seat` wins `cards`: its hearts are counted and the three special cards noted.
    pub fn win(&mut self, seat: Seat, cards: Cards)
        requires
            old(self).can_win(seat, cards@),
        ensures
            final(self).won_with(*old(self), seat, cards@),
            *final(self) == old(self).spec_win(seat, cards@),
    {
        let mut update: u32 = 0;
        let hs = cards.intersect(Cards::hearts());
        let h = hs.len();
        proof {
            hs.lemma_len();
        }
        update += h as u32;
        if cards.contains(Card::QueenSpades) {
            update += 16;
        }
        if cards.contains(Card::JackDiamonds) {
            update += 32;
        }
        if cards.contains(Card::TenClubs) {
            update += 64;
        }
        proof {
            seat.lemma_idx();
            let i = seat.spec_idx() as u32;
            WonState::lemma_update(
                h as u32,
                cards@.contains(Card::QueenSpades),
                cards@.contains(Card::JackDiamonds),
                cards@.contains(Card::TenClubs),
                update,
            );
            assert(!bit32(self.state, (8 * i + 7) as u32));
            WonState::lemma_add(self.state, update, i);
        }
        let old_state = self.state;
        self.state = self.state + (update << (8 * seat.idx() as u32));
        proof {
            let i = seat.spec_idx() as u32;
            assert forall|s: Seat| !#[trigger] bit32(self.state, (shift_of(s) + 7) as u32) by {
                s.lemma_idx();
                WonState::lemma_add_fields(old_state, update, i, self.state, s.spec_idx() as u32);
                assert(!bit32(old_state, (shift_of(s) + 7) as u32));
            }
            assert forall|s: Seat| s != seat implies #[trigger] self.same_seat(*old(self), s) by {
                s.lemma_idx();
                WonState::lemma_add_fields(old_state, update, i, self.state, s.spec_idx() as u32);
            }
            WonState::lemma_add_fields(old_state, update, i, self.state, i);
        }
    }

    /// Winning what `can_win` admits gives the state that `won_with` describes.
    proof fn lemma_spec_win(self, seat: Seat, cards: Set<Card>)
        requires
            self.can_win(seat, cards),
        ensures
            self.spec_win(seat, cards).won_with(self, seat, cards),
    {
        let h = Cards::hearts_in(cards);
        let q = cards.contains(Card::QueenSpades);
        let jk = cards.contains(Card::JackDiamonds);
        let tc = cards.contains(Card::TenClubs);
        let update = WonState::update_for(cards);
        seat.lemma_idx();
        let i = seat.spec_idx() as u32;
        WonState::lemma_fields(self.state, i);
        WonState::lemma_update(h as u32, q, jk, tc, update);
        assert(!bit32(self.state, (8 * i + 7) as u32));
        WonState::lemma_add(self.state, update, i);
        let n = self.spec_win(seat, cards);
        assert(n.state == self.state + (update << (8 * i) as u32));
        assert forall|s: Seat| !#[trigger] bit32(n.state, (shift_of(s) + 7) as u32) by {
            s.lemma_idx();
            WonState::lemma_add_fields(self.state, update, i, n.state, s.spec_idx() as u32);
            assert(!bit32(self.state, (shift_of(s) + 7) as u32));
        }
        assert forall|s: Seat| s != seat implies #[trigger] n.same_seat(self, s) by {
            s.lemma_idx();
            WonState::lemma_add_fields(self.state, update, i, n.state, s.spec_idx() as u32);
        }
        WonState::lemma_add_fields(self.state, update, i, n.state, i);
    }

    /// Whether `seat` can win `cards` without overflowing its count of hearts or taking a
    /// card twice.
    pub fn can_take(&self, seat: Seat, cards: Cards) -> (r: bool)
        requires
            self.wf(),
        ensures
            r == self.can_win(seat, cards@),
    {
        let h = cards.intersect(Cards::hearts());
        proof {
            h.lemma_len();
        }
        (self.hearts(seat) as usize) + h.len() <= 15 && (!cards.contains(Card::QueenSpades)
            || !self.queen(seat)) && (!cards.contains(Card::JackDiamonds) || !self.jack(seat)) && (
        !cards.contains(Card::TenClubs) || !self.ten(seat))
    }

    proof fn lemma_broken(x: u32)
        by (bit_vector)
        ensures
            (x & 0x0f0f_0f0fu32 != 0) == ((x >> 0u32) & 0xfu32 != 0 || (x >> 8u32) & 0xfu32 != 0
                || (x >> 16u32) & 0xfu32 != 0 || (x >> 24u32) & 0xfu32 != 0),
    {
    }

    /// Whether anyone has won a heart in this hand.
    pub fn hearts_broken(&self) -> (r: bool)
        ensures
            r == exists|s: Seat| #[trigger] self.spec_hearts(s) > 0,
    {
        proof {
            WonState::lemma_broken(self.state);
            assert(self.spec_hearts(Seat::North) == (self.state >> 0u32) & 0xfu32);
            assert(self.spec_hearts(Seat::East) == (self.state >> 8u32) & 0xfu32);
            assert(self.spec_hearts(Seat::South) == (self.state >> 16u32) & 0xfu32);
            assert(self.spec_hearts(Seat::West) == (self.state >> 24u32) & 0xfu32);
        }
        self.state & 0x0f_0f_0f_0f != 0
    }

    proof fn lemma_run(x: u32, i: u32)
        by (bit_vector)
        requires
            i < 4,
        ensures
            (x & (0x1f1f_1f1fu32 ^ (0x1fu32 << (8 * i) as u32)) == 0) == ((i == 0 || ((x >> 0u32)
                & 0xfu32 == 0 && !bit32(x, 4))) && (i == 1 || ((x >> 8u32) & 0xfu32 == 0 && !bit32(
                x,
                12,
            ))) && (i == 2 || ((x >> 16u32) & 0xfu32 == 0 && !bit32(x, 20))) && (i == 3 || ((x
                >> 24u32) & 0xfu32 == 0 && !bit32(x, 28)))),
    {
    }

    /// Whether `seat` can still take every point: nobody else has won a heart or the queen.
    pub fn can_run(&self, seat: Seat) -> (r: bool)
        ensures
            r == forall|s: Seat|
                s != seat ==> #[trigger] self.spec_hearts(s) == 0 && !self.spec_queen(s),
    {
        proof {
            seat.lemma_idx();
            WonState::lemma_run(self.state, seat.spec_idx() as u32);
            assert(self.spec_hearts(Seat::North) == (self.state >> 0u32) & 0xfu32);
            assert(self.spec_hearts(Seat::East) == (self.state >> 8u32) & 0xfu32);
            assert(self.spec_hearts(Seat::South) == (self.state >> 16u32) & 0xfu32);
            assert(self.spec_hearts(Seat::West) == (self.state >> 24u32) & 0xfu32);
        }
        self.state & (0x1f_1f_1f_1f ^ (0x1f << (8 * seat.idx() as u32))) == 0
    }

    pub fn hearts(&self, seat: Seat) -> (r: u8)
        ensures
            r == self.spec_hearts(seat),
    {
        proof {
            seat.lemma_idx();
            WonState::lemma_fields(self.state, seat.spec_idx() as u32);
        }
        ((self.state >> (8 * seat.idx() as u32)) & 0xf) as u8
    }

    proof fn lemma_test(x: u32, i: u32, k: u32)
        by (bit_vector)
        requires
            i < 4,
            k < 8,
        ensures
            (x & ((1u32 << k) << (8 * i) as u32) != 0) == bit32(x, (8 * i + k) as u32),
            (1u32 << 4u32) == 0x10u32,
            (1u32 << 5u32) == 0x20u32,
            (1u32 << 6u32) == 0x40u32,
    {
    }

    pub fn queen(&self, seat: Seat) -> (r: bool)
        ensures
            r == self.spec_queen(seat),
    {
        proof {
            seat.lemma_idx();
            WonState::lemma_test(self.state, seat.spec_idx() as u32, 4);
        }
        self.state & (0x10 << (8 * seat.idx() as u32)) != 0
    }

    pub fn jack(&self, seat: Seat) -> (r: bool)
        ensures
            r == self.spec_jack(seat),
    {
        proof {
            seat.lemma_idx();
            WonState::lemma_test(self.state, seat.spec_idx() as u32, 5);
        }
        self.state & (0x20 << (8 * seat.idx() as u32)) != 0
    }

    pub fn ten(&self, seat: Seat) -> (r: bool)
        ensures
            r == self.spec_ten(seat),
    {
        proof {
            seat.lemma_idx();
            WonState::lemma_test(self.state, seat.spec_idx() as u32, 6);
        }
        self.state & (0x40 << (8 * seat.idx() as u32)) != 0
    }

    proof fn lemma_winner_bits(x: u32, m: u32, t: u32, k: u32)
        by (bit_vector)
        requires
            t < 32,
            k < 8,
            m == (0x0101_0101u32 << k),
        ensures
            bit32(x & m, t) ==> t % 8 == k,
            bit32(x & m, t) == (bit32(x, t) && t % 8 == k),
    {
    }

    /// The first seat, in the order north, east, south, west, whose byte has bit `k` set.
    fn winner(&self, k: u32) -> (r: Option<Seat>)
        requires
            4 <= k < 7,
        ensures
            match r {
                Some(s) => bit32(self.state, (shift_of(s) + k) as u32) && forall|o: Seat|
                    o.spec_idx() < s.spec_idx() ==> !#[trigger] bit32(
                        self.state,
                        (shift_of(o) + k) as u32,
                    ),
                None => forall|o: Seat| !#[trigger] bit32(self.state, (shift_of(o) + k) as u32),
            },
    {
        let m: u32 = 0x01_01_01_01 << k;
        let x = self.state & m;
        let tz = x.trailing_zeros();
        proof {
            axiom_u32_trailing_zeros(x);
        }
        let i = (tz / 8) as usize;
        let r = if i < 4 {
            Some(Seat::VALUES[i])
        } else {
            None
        };
        proof {
            assert forall|o: Seat| #[trigger] bit32(self.state, (shift_of(o) + k) as u32) implies (8
                * o.spec_idx() + k) >= tz by {
                o.lemma_idx();
                let p = (shift_of(o) + k) as u32;
                WonState::lemma_winner_bits(self.state, m, p, k);
                if p < tz {
                    assert((x >> p) & 1u32 == 0u32);
                }
            }
            if tz < 32 {
                assert((x >> tz) & 1u32 == 1u32);
                WonState::lemma_winner_bits(self.state, m, tz, k);
                assert(tz % 8 == k);
                let s = Seat::VALUES[i as int];
                assert(s.spec_idx() == i);
                assert(shift_of(s) + k == tz);
            } else {
                assert(x == 0);
                assert forall|o: Seat| !#[trigger] bit32(self.state, (shift_of(o) + k) as u32) by {
                    o.lemma_idx();
                    WonState::lemma_winner_bits(self.state, m, (shift_of(o) + k) as u32, k);
                    let p = (shift_of(o) + k) as u32;
                    assert(!bit32(0u32, p)) by (bit_vector)
                        requires
                            p < 32,
                    ;
                }
            }
        }
        r
    }

    /// The seat that won the queen of spades, if anyone has.
    pub fn queen_winner(&self) -> (r: Option<Seat>)
        ensures
            match r {
                Some(s) => self.spec_queen(s) && forall|o: Seat|
                    o.spec_idx() < s.spec_idx() ==> !#[trigger] self.spec_queen(o),
                None => forall|o: Seat| !#[trigger] self.spec_queen(o),
            },
    {
        self.winner(4)
    }

    /// The seat that won the jack of diamonds, if anyone has.
    pub fn jack_winner(&self) -> (r: Option<Seat>)
        ensures
            match r {
                Some(s) => self.spec_jack(s) && forall|o: Seat|
                    o.spec_idx() < s.spec_idx() ==> !#[trigger] self.spec_jack(o),
                None => forall|o: Seat| !#[trigger] self.spec_jack(o),
            },
    {
        self.winner(5)
    }

    /// The seat that won the ten of clubs, if anyone has.
    pub fn ten_winner(&self) -> (r: Option<Seat>)
        ensures
            match r {
                Some(s) => self.spec_ten(s) && forall|o: Seat|
                    o.spec_idx() < s.spec_idx() ==> !#[trigger] self.spec_ten(o),
                None => forall|o: Seat| !#[trigger] self.spec_ten(o),
            },
    {
        self.winner(6)
    }

    /// The score of `seat` for the hand, given the cards charged in it.
    pub fn score(&self, seat: Seat, charged: Cards) -> (r: i16)
        ensures
            r == self.spec_score(seat, charged@),
    {
        let h = self.hearts(seat) as i16;
        let hearts: i16 = if charged.contains(Card::AceHearts) {
            2 * h
        } else {
            h
        };
        let queen: i16 = match (self.queen(seat), charged.contains(Card::QueenSpades)) {
            (true, true) => 26,
            (true, false) => 13,
            _ => 0,
        };
        let jack: i16 = match (self.jack(seat), charged.contains(Card::JackDiamonds)) {
            (true, true) => -20,
            (true, false) => -10,
            _ => 0,
        };
        let ten: i16 = match (self.ten(seat), charged.contains(Card::TenClubs)) {
            (true, true) => 4,
            (true, false) => 2,
            _ => 1,
        };
        if self.queen(seat) && self.hearts(seat) == 13 {
            ten * (jack - hearts - queen)
        } else {
            ten * (jack + hearts + queen)
        }
    }
}


/// What the seats have won after taking the card sets of `wins` in turn, starting from `start`.
pub open spec fn after_wins(start: WonState, wins: Seq<(Seat, Set<Card>)>) -> WonState
    decreases wins.len(),
{
    if wins.len() == 0 {
        start
    } else {
        after_wins(start, wins.drop_last()).spec_win(wins.last().0, wins.last().1)
    }
}

/// The cards that `seat` took in `wins`.
pub open spec fn taken_in(wins: Seq<(Seat, Set<Card>)>, seat: Seat) -> Set<Card>
    decreases wins.len(),
{
    if wins.len() == 0 {
        Set::empty()
    } else if wins.last().0 == seat {
        taken_in(wins.drop_last(), seat) + wins.last().1
    } else {
        taken_in(wins.drop_last(), seat)
    }
}

/// Every card is won at most once: no two of the sets share a card.
pub open spec fn each_won_once(wins: Seq<(Seat, Set<Card>)>) -> bool {
    &&& forall|k: int| 0 <= k < wins.len() ==> (#[trigger] wins[k]).1.finite()
    &&& forall|j: int, k: int|
        0 <= j < k < wins.len() ==> (#[trigger] wins[j]).1.disjoint((#[trigger] wins[k]).1)
}

/// Every card `seat` took in `wins` came in one of its sets.
proof fn lemma_taken_in(wins: Seq<(Seat, Set<Card>)>, seat: Seat)
    requires
        forall|k: int| 0 <= k < wins.len() ==> (#[trigger] wins[k]).1.finite(),
    ensures
        taken_in(wins, seat).finite(),
        forall|c: Card| #[trigger] taken_in(wins, seat).contains(c) ==> exists|k: int|
            0 <= k < wins.len() && (#[trigger] wins[k]).1.contains(c),
    decreases wins.len(),
{
    if wins.len() > 0 {
        let rest = wins.drop_last();
        assert forall|k: int| 0 <= k < rest.len() implies (#[trigger] rest[k]).1.finite() by {
            assert(rest[k] == wins[k]);
        }
        lemma_taken_in(rest, seat);
        assert(wins.last() == wins[wins.len() - 1]);
        assert forall|c: Card| #[trigger] taken_in(wins, seat).contains(c) implies exists|k: int|
            0 <= k < wins.len() && (#[trigger] wins[k]).1.contains(c) by {
            if taken_in(rest, seat).contains(c) {
                let k = choose|k: int| 0 <= k < rest.len() && (#[trigger] rest[k]).1.contains(c);
                assert(wins[k] == rest[k]);
            } else {
                assert(wins[wins.len() - 1].1.contains(c));
            }
        }
    }
}

/// The hearts of two sets that share no card add up.
proof fn lemma_hearts_add(a: Set<Card>, b: Set<Card>)
    requires
        a.finite(),
        b.finite(),
        a.disjoint(b),
    ensures
        Cards::hearts_in(a + b) == Cards::hearts_in(a) + Cards::hearts_in(b),
        Cards::hearts_in(a + b) <= 13,
{
    let h = Cards::suit_set(Suit::Hearts);
    lemma_suit_len(Suit::Hearts);
    assert((a + b).intersect(h) =~= a.intersect(h) + b.intersect(h));
    vstd::set_lib::lemma_set_disjoint_lens(a.intersect(h), b.intersect(h));
    vstd::set_lib::lemma_len_subset((a + b).intersect(h), h);
}

/// From a clear state, with each card won once, every seat has won exactly the hearts of the
/// cards it took, and the queen of spades, jack of diamonds and ten of clubs if it took them.
pub proof fn lemma_after_wins(start: WonState, wins: Seq<(Seat, Set<Card>)>)
    requires
        start.wf(),
        start.is_clear(),
        each_won_once(wins),
    ensures
        after_wins(start, wins).wf(),
        forall|s: Seat|
            #![trigger after_wins(start, wins).spec_hearts(s)]
            after_wins(start, wins).spec_hearts(s) == Cards::hearts_in(taken_in(wins, s))
                && after_wins(start, wins).spec_queen(s) == taken_in(wins, s).contains(
                Card::QueenSpades,
            ) && after_wins(start, wins).spec_jack(s) == taken_in(wins, s).contains(
                Card::JackDiamonds,
            ) && after_wins(start, wins).spec_ten(s) == taken_in(wins, s).contains(Card::TenClubs),
    decreases wins.len(),
{
    if wins.len() == 0 {
        assert(after_wins(start, wins) == start);
        assert forall|s: Seat| #[trigger] after_wins(start, wins).spec_hearts(s) == Cards::hearts_in(
            taken_in(wins, s),
        ) && !start.spec_queen(s) && !start.spec_jack(s) && !start.spec_ten(s) by {
            assert(start.spec_hearts(s) == 0);
            assert(taken_in(wins, s).intersect(Cards::suit_set(Suit::Hearts)) =~= Set::empty());
        }
    } else {
        let rest = wins.drop_last();
        let seat = wins.last().0;
        let cards = wins.last().1;
        let n = wins.len() - 1;
        assert(wins.last() == wins[n]);
        assert forall|k: int| 0 <= k < rest.len() implies (#[trigger] rest[k]).1.finite() by {
            assert(rest[k] == wins[k]);
        }
        assert forall|j: int, k: int| 0 <= j < k < rest.len() implies (#[trigger] rest[j]).1.disjoint(
            (#[trigger] rest[k]).1,
        ) by {
            assert(rest[j] == wins[j]);
            assert(rest[k] == wins[k]);
        }
        lemma_after_wins(start, rest);
        let o = after_wins(start, rest);
        lemma_taken_in(rest, seat);
        assert(cards.finite());
        assert(taken_in(rest, seat).disjoint(cards)) by {
            assert forall|c: Card| #[trigger] taken_in(rest, seat).contains(c) implies !cards.contains(
                c,
            ) by {
                let k = choose|k: int| 0 <= k < rest.len() && (#[trigger] rest[k]).1.contains(c);
                assert(rest[k] == wins[k]);
                assert(wins[k].1.disjoint(wins[n].1));
            }
        }
        lemma_hearts_add(taken_in(rest, seat), cards);
        assert(o.spec_hearts(seat) == Cards::hearts_in(taken_in(rest, seat)));
        o.lemma_spec_win(seat, cards);
        let a = after_wins(start, wins);
        assert(a == o.spec_win(seat, cards));
        assert forall|s: Seat|
            #![trigger a.spec_hearts(s)]
            a.spec_hearts(s) == Cards::hearts_in(taken_in(wins, s)) && a.spec_queen(s)
                == taken_in(wins, s).contains(Card::QueenSpades) && a.spec_jack(s) == taken_in(
                wins,
                s,
            ).contains(Card::JackDiamonds) && a.spec_ten(s) == taken_in(wins, s).contains(
                Card::TenClubs,
            ) by {
            assert(o.spec_hearts(s) == Cards::hearts_in(taken_in(rest, s)));
            if s != seat {
                assert(a.same_seat(o, s));
            }
        }
    }
}

/// Each card is won once: when the seats have taken the card sets of `wins` from a clear state
/// (such as `WonState::new()`; `after_wins` is what the calls of `win` leave, since each ends in
/// `spec_win`) and `seat` now takes `cards`, none of them taken before, `win` admits it, and the
/// winner gains the hearts among `cards` and the queen, jack and ten among them, while the other
/// seats keep what they had (`won_with`).
pub proof fn lemma_win_once(start: WonState, wins: Seq<(Seat, Set<Card>)>, seat: Seat, cards: Set<Card>)
    requires
        start.wf(),
        start.is_clear(),
        each_won_once(wins.push((seat, cards))),
    ensures
        after_wins(start, wins).can_win(seat, cards),
        after_wins(start, wins.push((seat, cards))).won_with(after_wins(start, wins), seat, cards),
{
    let all = wins.push((seat, cards));
    assert(all.drop_last() =~= wins);
    assert forall|k: int| 0 <= k < wins.len() implies (#[trigger] wins[k]).1.finite() by {
        assert(all[k] == wins[k]);
    }
    assert forall|j: int, k: int| 0 <= j < k < wins.len() implies (#[trigger] wins[j]).1.disjoint(
        (#[trigger] wins[k]).1,
    ) by {
        assert(all[j] == wins[j]);
        assert(all[k] == wins[k]);
    }
    lemma_after_wins(start, wins);
    let o = after_wins(start, wins);
    assert(o.spec_hearts(seat) == Cards::hearts_in(taken_in(wins, seat)));
    assert(o.wf());
    lemma_taken_in(wins, seat);
    assert(all[wins.len() as int] == (seat, cards));
    assert(taken_in(wins, seat).disjoint(cards)) by {
        assert forall|c: Card| #[trigger] taken_in(wins, seat).contains(c) implies !cards.contains(c) by {
            let k = choose|k: int| 0 <= k < wins.len() && (#[trigger] wins[k]).1.contains(c);
            assert(all[k] == wins[k]);
            assert(all[k].1.disjoint(all[wins.len() as int].1));
        }
    }
    lemma_hearts_add(taken_in(wins, seat), cards);
    o.lemma_spec_win(seat, cards);
}

/// The jack of diamonds counts against its taker: a seat whose only scoring card is the jack
/// (no heart, no queen of spades, no ten of clubs) scores minus ten, or minus twenty when the
/// jack was charged, whatever else was charged.
pub proof fn lemma_jack_alone_scores_minus_ten(won: WonState, seat: Seat, charged: Set<Card>)
    requires
        won.spec_jack(seat),
        won.spec_hearts(seat) == 0,
        !won.spec_queen(seat),
        !won.spec_ten(seat),
    ensures
        won.spec_score(seat, charged) == if charged.contains(Card::JackDiamonds) {
            -20int
        } else {
            -10int
        },
        won.spec_score(seat, charged) < 0,
{
}

/// Hearts count a point each against their taker, two when the ace of hearts was charged: a
/// seat that took `h` hearts and none of the queen, jack and ten scores `h`, or `2h`.
pub proof fn lemma_hearts_alone_score(won: WonState, seat: Seat, charged: Set<Card>)
    requires
        !won.spec_jack(seat),
        !won.spec_queen(seat),
        !won.spec_ten(seat),
    ensures
        won.spec_score(seat, charged) == if charged.contains(Card::AceHearts) {
            2 * won.spec_hearts(seat) as int
        } else {
            won.spec_hearts(seat) as int
        },
        won.spec_score(seat, charged) >= 0,
{
}

/// The queen of spades counts thirteen against its taker, twenty-six when charged: a seat whose
/// only scoring card is the queen scores that.
pub proof fn lemma_queen_alone_score(won: WonState, seat: Seat, charged: Set<Card>)
    requires
        won.spec_queen(seat),
        won.spec_hearts(seat) == 0,
        !won.spec_jack(seat),
        !won.spec_ten(seat),
    ensures
        won.spec_score(seat, charged) == if charged.contains(Card::QueenSpades) {
            26int
        } else {
            13int
        },
{
}

/// Shooting the moon: a seat that took every heart and the queen of spades, and neither the jack
/// nor the ten, with nothing charged, scores minus twenty-six.
pub proof fn lemma_shooting_the_moon(won: WonState, seat: Seat, charged: Set<Card>)
    requires
        won.spec_queen(seat),
        won.spec_hearts(seat) == 13,
        !won.spec_jack(seat),
        !won.spec_ten(seat),
        !charged.contains(Card::AceHearts),
        !charged.contains(Card::QueenSpades),
    ensures
        won.spec_score(seat, charged) == -26,
{
}

/// The ten of clubs doubles the rest of the score, and quadruples it when charged: a seat that
/// took the ten and only the jack besides scores minus twenty (minus forty when the ten was
/// charged), nothing else charged.
pub proof fn lemma_ten_doubles(won: WonState, seat: Seat, charged: Set<Card>)
    requires
        won.spec_ten(seat),
        won.spec_jack(seat),
        won.spec_hearts(seat) == 0,
        !won.spec_queen(seat),
        !charged.contains(Card::JackDiamonds),
    ensures
        won.spec_score(seat, charged) == if charged.contains(Card::TenClubs) {
            -40int
        } else {
            -20int
        },
{
}

} // verus!
