//! Ranks, suits, cards, and sets of cards.
//!
//! A set of cards is a 64-bit word: the card of rank `r` (two is 0, ace is 12) and suit `s`
//! (clubs 0, diamonds 1, hearts 2, spades 3) is bit `16 * s + r`. The bits `13..16` of every
//! group of sixteen stand for no card; a well-formed set leaves them clear.
use crate::bits::{
    lemma_bit64_shl_bounds,
    bit64, lemma_bit64_absorbs, lemma_bit64_all_cards, lemma_bit64_and, lemma_bit64_and_not,
    lemma_bit64_below, lemma_bit64_ext, lemma_bit64_nonzero, lemma_bit64_or, lemma_bit64_single,
    lemma_bit64_suit_mask, lemma_bit64_up_to, lemma_bit64_zero,
};
use vstd::prelude::*;
use vstd::std_specs::bits::{
    axiom_u64_leading_zeros, axiom_u64_trailing_zeros, u64_leading_zeros, u64_trailing_zeros,
};

verus! {

/// The rank of a card, from two up to ace.
#[derive(Clone, Copy, Debug, PartialEq, Eq, Hash, Structural)]
pub enum Rank {
    Two,
    Three,
    Four,
    Five,
    Six,
    Seven,
    Eight,
    Nine,
    Ten,
    Jack,
    Queen,
    King,
    Ace,
}

impl Rank {
    /// The position of the rank: two is 0, ace is 12.
    pub open spec fn spec_idx(self) -> u8 {
        match self {
            Rank::Two => 0,
            Rank::Three => 1,
            Rank::Four => 2,
            Rank::Five => 3,
            Rank::Six => 4,
            Rank::Seven => 5,
            Rank::Eight => 6,
            Rank::Nine => 7,
            Rank::Ten => 8,
            Rank::Jack => 9,
            Rank::Queen => 10,
            Rank::King => 11,
            Rank::Ace => 12,
        }
    }

    /// The rank at position `n` (meaningful for `n < 13`).
    pub open spec fn spec_from(n: u8) -> Rank {
        if n == 0 {
            Rank::Two
        } else if n == 1 {
            Rank::Three
        } else if n == 2 {
            Rank::Four
        } else if n == 3 {
            Rank::Five
        } else if n == 4 {
            Rank::Six
        } else if n == 5 {
            Rank::Seven
        } else if n == 6 {
            Rank::Eight
        } else if n == 7 {
            Rank::Nine
        } else if n == 8 {
            Rank::Ten
        } else if n == 9 {
            Rank::Jack
        } else if n == 10 {
            Rank::Queen
        } else if n == 11 {
            Rank::King
        } else {
            Rank::Ace
        }
    }

    /// The character that names the rank.
    pub open spec fn spec_char(self) -> char {
        match self {
            Rank::Two => '2',
            Rank::Three => '3',
            Rank::Four => '4',
            Rank::Five => '5',
            Rank::Six => '6',
            Rank::Seven => '7',
            Rank::Eight => '8',
            Rank::Nine => '9',
            Rank::Ten => 'T',
            Rank::Jack => 'J',
            Rank::Queen => 'Q',
            Rank::King => 'K',
            Rank::Ace => 'A',
        }
    }

    pub proof fn lemma_idx(self)
        ensures
            self.spec_idx() < 13,
            Rank::spec_from(self.spec_idx()) == self,
    {
    }

    pub proof fn lemma_from(n: u8)
        requires
            n < 13,
        ensures
            Rank::spec_from(n).spec_idx() == n,
    {
    }

    pub fn idx(self) -> (r: u8)
        ensures
            r == self.spec_idx(),
    {
        match self {
            Rank::Two => 0,
            Rank::Three => 1,
            Rank::Four => 2,
            Rank::Five => 3,
            Rank::Six => 4,
            Rank::Seven => 5,
            Rank::Eight => 6,
            Rank::Nine => 7,
            Rank::Ten => 8,
            Rank::Jack => 9,
            Rank::Queen => 10,
            Rank::King => 11,
            Rank::Ace => 12,
        }
    }

    /// The rank at position `n`; positions run from 0 (two) to 12 (ace).
    pub fn from(n: u8) -> (r: Rank)
        requires
            n < 13,
        ensures
            r.spec_idx() == n,
            r == Rank::spec_from(n),
    {
        match n {
            0 => Rank::Two,
            1 => Rank::Three,
            2 => Rank::Four,
            3 => Rank::Five,
            4 => Rank::Six,
            5 => Rank::Seven,
            6 => Rank::Eight,
            7 => Rank::Nine,
            8 => Rank::Ten,
            9 => Rank::Jack,
            10 => Rank::Queen,
            11 => Rank::King,
            _ => Rank::Ace,
        }
    }

    pub fn char(self) -> (c: char)
        ensures
            c == self.spec_char(),
    {
        match self {
            Rank::Two => '2',
            Rank::Three => '3',
            Rank::Four => '4',
            Rank::Five => '5',
            Rank::Six => '6',
            Rank::Seven => '7',
            Rank::Eight => '8',
            Rank::Nine => '9',
            Rank::Ten => 'T',
            Rank::Jack => 'J',
            Rank::Queen => 'Q',
            Rank::King => 'K',
            Rank::Ace => 'A',
        }
    }

    /// The rank named by a character, or the character back when it names no rank.
    pub fn try_from(c: char) -> (r: Result<Rank, char>)
        ensures
            r matches Ok(rank) ==> rank.spec_char() == c,
            r matches Err(e) ==> e == c && forall|rank: Rank| rank.spec_char() != c,
    {
        match c {
            '2' => Ok(Rank::Two),
            '3' => Ok(Rank::Three),
            '4' => Ok(Rank::Four),
            '5' => Ok(Rank::Five),
            '6' => Ok(Rank::Six),
            '7' => Ok(Rank::Seven),
            '8' => Ok(Rank::Eight),
            '9' => Ok(Rank::Nine),
            'T' => Ok(Rank::Ten),
            'J' => Ok(Rank::Jack),
            'Q' => Ok(Rank::Queen),
            'K' => Ok(Rank::King),
            'A' => Ok(Rank::Ace),
            _ => Err(c),
        }
    }

    pub fn with_suit(self, suit: Suit) -> (c: Card)
        ensures
            c.spec_rank() == self,
            c.spec_suit() == suit,
    {
        Card::new(self, suit)
    }

    pub(crate) fn text(self) -> (s: &'static str)
        ensures
            s@ == seq![self.spec_char()],
    {
        match self {
            Rank::Two => {
                proof {
                    reveal_strlit("2");
                }
                "2"
            },
            Rank::Three => {
                proof {
                    reveal_strlit("3");
                }
                "3"
            },
            Rank::Four => {
                proof {
                    reveal_strlit("4");
                }
                "4"
            },
            Rank::Five => {
                proof {
                    reveal_strlit("5");
                }
                "5"
            },
            Rank::Six => {
                proof {
                    reveal_strlit("6");
                }
                "6"
            },
            Rank::Seven => {
                proof {
                    reveal_strlit("7");
                }
                "7"
            },
            Rank::Eight => {
                proof {
                    reveal_strlit("8");
                }
                "8"
            },
            Rank::Nine => {
                proof {
                    reveal_strlit("9");
                }
                "9"
            },
            Rank::Ten => {
                proof {
                    reveal_strlit("T");
                }
                "T"
            },
            Rank::Jack => {
                proof {
                    reveal_strlit("J");
                }
                "J"
            },
            Rank::Queen => {
                proof {
                    reveal_strlit("Q");
                }
                "Q"
            },
            Rank::King => {
                proof {
                    reveal_strlit("K");
                }
                "K"
            },
            Rank::Ace => {
                proof {
                    reveal_strlit("A");
                }
                "A"
            },
        }
    }
}

/// A suit, in the order clubs, diamonds, hearts, spades.
#[derive(Clone, Copy, Debug, PartialEq, Eq, Hash, Structural)]
pub enum Suit {
    Clubs,
    Diamonds,
    Hearts,
    Spades,
}

impl Suit {
    pub const VALUES: [Suit; 4] = [Suit::Clubs, Suit::Diamonds, Suit::Hearts, Suit::Spades];

    pub open spec fn spec_idx(self) -> u8 {
        match self {
            Suit::Clubs => 0,
            Suit::Diamonds => 1,
            Suit::Hearts => 2,
            Suit::Spades => 3,
        }
    }

    pub open spec fn spec_from(n: u8) -> Suit {
        if n == 0 {
            Suit::Clubs
        } else if n == 1 {
            Suit::Diamonds
        } else if n == 2 {
            Suit::Hearts
        } else {
            Suit::Spades
        }
    }

    pub open spec fn spec_char(self) -> char {
        match self {
            Suit::Clubs => 'C',
            Suit::Diamonds => 'D',
            Suit::Hearts => 'H',
            Suit::Spades => 'S',
        }
    }

    pub proof fn lemma_idx(self)
        ensures
            self.spec_idx() < 4,
            Suit::spec_from(self.spec_idx()) == self,
    {
    }

    pub proof fn lemma_from(n: u8)
        requires
            n < 4,
        ensures
            Suit::spec_from(n).spec_idx() == n,
    {
    }

    pub fn idx(self) -> (r: usize)
        ensures
            r == self.spec_idx(),
    {
        match self {
            Suit::Clubs => 0,
            Suit::Diamonds => 1,
            Suit::Hearts => 2,
            Suit::Spades => 3,
        }
    }

    /// The suit at position `n`: clubs 0, diamonds 1, hearts 2, spades 3.
    pub fn from(n: u8) -> (r: Suit)
        requires
            n < 4,
        ensures
            r.spec_idx() == n,
            r == Suit::spec_from(n),
    {
        match n {
            0 => Suit::Clubs,
            1 => Suit::Diamonds,
            2 => Suit::Hearts,
            _ => Suit::Spades,
        }
    }

    pub fn char(self) -> (c: char)
        ensures
            c == self.spec_char(),
    {
        match self {
            Suit::Clubs => 'C',
            Suit::Diamonds => 'D',
            Suit::Hearts => 'H',
            Suit::Spades => 'S',
        }
    }

    /// The suit named by a character, or the character back when it names no suit.
    pub fn try_from(c: char) -> (r: Result<Suit, char>)
        ensures
            r matches Ok(suit) ==> suit.spec_char() == c,
            r matches Err(e) ==> e == c && forall|suit: Suit| suit.spec_char() != c,
    {
        match c {
            'C' => Ok(Suit::Clubs),
            'D' => Ok(Suit::Diamonds),
            'H' => Ok(Suit::Hearts),
            'S' => Ok(Suit::Spades),
            _ => Err(c),
        }
    }

    pub fn with_rank(self, rank: Rank) -> (c: Card)
        ensures
            c.spec_rank() == rank,
            c.spec_suit() == self,
    {
        Card::new(rank, self)
    }

    /// All thirteen cards of the suit.
    pub fn cards(self) -> (r: Cards)
        ensures
            r.wf(),
            r@ == Cards::suit_set(self),
    {
        let r = Cards { bits: 0x1fff << (16 * self.idx() as u64) };
        proof {
            self.lemma_idx();
            Cards::lemma_suit_bits(r.bits, self);
        }
        r
    }

    pub(crate) fn text(self) -> (s: &'static str)
        ensures
            s@ == seq![self.spec_char()],
    {
        match self {
            Suit::Clubs => {
                proof {
                    reveal_strlit("C");
                }
                "C"
            },
            Suit::Diamonds => {
                proof {
                    reveal_strlit("D");
                }
                "D"
            },
            Suit::Hearts => {
                proof {
                    reveal_strlit("H");
                }
                "H"
            },
            Suit::Spades => {
                proof {
                    reveal_strlit("S");
                }
                "S"
            },
        }
    }
}

/// One of the fifty-two cards, named by rank and suit.
#[derive(Clone, Copy, Debug, PartialEq, Eq, Hash, Structural)]
pub enum Card {
    TwoClubs,
    ThreeClubs,
    FourClubs,
    FiveClubs,
    SixClubs,
    SevenClubs,
    EightClubs,
    NineClubs,
    TenClubs,
    JackClubs,
    QueenClubs,
    KingClubs,
    AceClubs,
    TwoDiamonds,
    ThreeDiamonds,
    FourDiamonds,
    FiveDiamonds,
    SixDiamonds,
    SevenDiamonds,
    EightDiamonds,
    NineDiamonds,
    TenDiamonds,
    JackDiamonds,
    QueenDiamonds,
    KingDiamonds,
    AceDiamonds,
    TwoHearts,
    ThreeHearts,
    FourHearts,
    FiveHearts,
    SixHearts,
    SevenHearts,
    EightHearts,
    NineHearts,
    TenHearts,
    JackHearts,
    QueenHearts,
    KingHearts,
    AceHearts,
    TwoSpades,
    ThreeSpades,
    FourSpades,
    FiveSpades,
    SixSpades,
    SevenSpades,
    EightSpades,
    NineSpades,
    TenSpades,
    JackSpades,
    QueenSpades,
    KingSpades,
    AceSpades,
}

impl Card {
    pub open spec fn spec_rank(self) -> Rank {
        match self {
            Card::TwoClubs => Rank::Two,
            Card::ThreeClubs => Rank::Three,
            Card::FourClubs => Rank::Four,
            Card::FiveClubs => Rank::Five,
            Card::SixClubs => Rank::Six,
            Card::SevenClubs => Rank::Seven,
            Card::EightClubs => Rank::Eight,
            Card::NineClubs => Rank::Nine,
            Card::TenClubs => Rank::Ten,
            Card::JackClubs => Rank::Jack,
            Card::QueenClubs => Rank::Queen,
            Card::KingClubs => Rank::King,
            Card::AceClubs => Rank::Ace,
            Card::TwoDiamonds => Rank::Two,
            Card::ThreeDiamonds => Rank::Three,
            Card::FourDiamonds => Rank::Four,
            Card::FiveDiamonds => Rank::Five,
            Card::SixDiamonds => Rank::Six,
            Card::SevenDiamonds => Rank::Seven,
            Card::EightDiamonds => Rank::Eight,
            Card::NineDiamonds => Rank::Nine,
            Card::TenDiamonds => Rank::Ten,
            Card::JackDiamonds => Rank::Jack,
            Card::QueenDiamonds => Rank::Queen,
            Card::KingDiamonds => Rank::King,
            Card::AceDiamonds => Rank::Ace,
            Card::TwoHearts => Rank::Two,
            Card::ThreeHearts => Rank::Three,
            Card::FourHearts => Rank::Four,
            Card::FiveHearts => Rank::Five,
            Card::SixHearts => Rank::Six,
            Card::SevenHearts => Rank::Seven,
            Card::EightHearts => Rank::Eight,
            Card::NineHearts => Rank::Nine,
            Card::TenHearts => Rank::Ten,
            Card::JackHearts => Rank::Jack,
            Card::QueenHearts => Rank::Queen,
            Card::KingHearts => Rank::King,
            Card::AceHearts => Rank::Ace,
            Card::TwoSpades => Rank::Two,
            Card::ThreeSpades => Rank::Three,
            Card::FourSpades => Rank::Four,
            Card::FiveSpades => Rank::Five,
            Card::SixSpades => Rank::Six,
            Card::SevenSpades => Rank::Seven,
            Card::EightSpades => Rank::Eight,
            Card::NineSpades => Rank::Nine,
            Card::TenSpades => Rank::Ten,
            Card::JackSpades => Rank::Jack,
            Card::QueenSpades => Rank::Queen,
            Card::KingSpades => Rank::King,
            Card::AceSpades => Rank::Ace,
        }
    }

    pub open spec fn spec_suit(self) -> Suit {
        match self {
            Card::TwoClubs => Suit::Clubs,
            Card::ThreeClubs => Suit::Clubs,
            Card::FourClubs => Suit::Clubs,
            Card::FiveClubs => Suit::Clubs,
            Card::SixClubs => Suit::Clubs,
            Card::SevenClubs => Suit::Clubs,
            Card::EightClubs => Suit::Clubs,
            Card::NineClubs => Suit::Clubs,
            Card::TenClubs => Suit::Clubs,
            Card::JackClubs => Suit::Clubs,
            Card::QueenClubs => Suit::Clubs,
            Card::KingClubs => Suit::Clubs,
            Card::AceClubs => Suit::Clubs,
            Card::TwoDiamonds => Suit::Diamonds,
            Card::ThreeDiamonds => Suit::Diamonds,
            Card::FourDiamonds => Suit::Diamonds,
            Card::FiveDiamonds => Suit::Diamonds,
            Card::SixDiamonds => Suit::Diamonds,
            Card::SevenDiamonds => Suit::Diamonds,
            Card::EightDiamonds => Suit::Diamonds,
            Card::NineDiamonds => Suit::Diamonds,
            Card::TenDiamonds => Suit::Diamonds,
            Card::JackDiamonds => Suit::Diamonds,
            Card::QueenDiamonds => Suit::Diamonds,
            Card::KingDiamonds => Suit::Diamonds,
            Card::AceDiamonds => Suit::Diamonds,
            Card::TwoHearts => Suit::Hearts,
            Card::ThreeHearts => Suit::Hearts,
            Card::FourHearts => Suit::Hearts,
            Card::FiveHearts => Suit::Hearts,
            Card::SixHearts => Suit::Hearts,
            Card::SevenHearts => Suit::Hearts,
            Card::EightHearts => Suit::Hearts,
            Card::NineHearts => Suit::Hearts,
            Card::TenHearts => Suit::Hearts,
            Card::JackHearts => Suit::Hearts,
            Card::QueenHearts => Suit::Hearts,
            Card::KingHearts => Suit::Hearts,
            Card::AceHearts => Suit::Hearts,
            Card::TwoSpades => Suit::Spades,
            Card::ThreeSpades => Suit::Spades,
            Card::FourSpades => Suit::Spades,
            Card::FiveSpades => Suit::Spades,
            Card::SixSpades => Suit::Spades,
            Card::SevenSpades => Suit::Spades,
            Card::EightSpades => Suit::Spades,
            Card::NineSpades => Suit::Spades,
            Card::TenSpades => Suit::Spades,
            Card::JackSpades => Suit::Spades,
            Card::QueenSpades => Suit::Spades,
            Card::KingSpades => Suit::Spades,
            Card::AceSpades => Suit::Spades,
        }
    }

    /// The card of the given rank and suit.
    pub open spec fn spec_new(rank: Rank, suit: Suit) -> Card {
        match (suit, rank) {
            (Suit::Clubs, Rank::Two) => Card::TwoClubs,
            (Suit::Clubs, Rank::Three) => Card::ThreeClubs,
            (Suit::Clubs, Rank::Four) => Card::FourClubs,
            (Suit::Clubs, Rank::Five) => Card::FiveClubs,
            (Suit::Clubs, Rank::Six) => Card::SixClubs,
            (Suit::Clubs, Rank::Seven) => Card::SevenClubs,
            (Suit::Clubs, Rank::Eight) => Card::EightClubs,
            (Suit::Clubs, Rank::Nine) => Card::NineClubs,
            (Suit::Clubs, Rank::Ten) => Card::TenClubs,
            (Suit::Clubs, Rank::Jack) => Card::JackClubs,
            (Suit::Clubs, Rank::Queen) => Card::QueenClubs,
            (Suit::Clubs, Rank::King) => Card::KingClubs,
            (Suit::Clubs, Rank::Ace) => Card::AceClubs,
            (Suit::Diamonds, Rank::Two) => Card::TwoDiamonds,
            (Suit::Diamonds, Rank::Three) => Card::ThreeDiamonds,
            (Suit::Diamonds, Rank::Four) => Card::FourDiamonds,
            (Suit::Diamonds, Rank::Five) => Card::FiveDiamonds,
            (Suit::Diamonds, Rank::Six) => Card::SixDiamonds,
            (Suit::Diamonds, Rank::Seven) => Card::SevenDiamonds,
            (Suit::Diamonds, Rank::Eight) => Card::EightDiamonds,
            (Suit::Diamonds, Rank::Nine) => Card::NineDiamonds,
            (Suit::Diamonds, Rank::Ten) => Card::TenDiamonds,
            (Suit::Diamonds, Rank::Jack) => Card::JackDiamonds,
            (Suit::Diamonds, Rank::Queen) => Card::QueenDiamonds,
            (Suit::Diamonds, Rank::King) => Card::KingDiamonds,
            (Suit::Diamonds, Rank::Ace) => Card::AceDiamonds,
            (Suit::Hearts, Rank::Two) => Card::TwoHearts,
            (Suit::Hearts, Rank::Three) => Card::ThreeHearts,
            (Suit::Hearts, Rank::Four) => Card::FourHearts,
            (Suit::Hearts, Rank::Five) => Card::FiveHearts,
            (Suit::Hearts, Rank::Six) => Card::SixHearts,
            (Suit::Hearts, Rank::Seven) => Card::SevenHearts,
            (Suit::Hearts, Rank::Eight) => Card::EightHearts,
            (Suit::Hearts, Rank::Nine) => Card::NineHearts,
            (Suit::Hearts, Rank::Ten) => Card::TenHearts,
            (Suit::Hearts, Rank::Jack) => Card::JackHearts,
            (Suit::Hearts, Rank::Queen) => Card::QueenHearts,
            (Suit::Hearts, Rank::King) => Card::KingHearts,
            (Suit::Hearts, Rank::Ace) => Card::AceHearts,
            (Suit::Spades, Rank::Two) => Card::TwoSpades,
            (Suit::Spades, Rank::Three) => Card::ThreeSpades,
            (Suit::Spades, Rank::Four) => Card::FourSpades,
            (Suit::Spades, Rank::Five) => Card::FiveSpades,
            (Suit::Spades, Rank::Six) => Card::SixSpades,
            (Suit::Spades, Rank::Seven) => Card::SevenSpades,
            (Suit::Spades, Rank::Eight) => Card::EightSpades,
            (Suit::Spades, Rank::Nine) => Card::NineSpades,
            (Suit::Spades, Rank::Ten) => Card::TenSpades,
            (Suit::Spades, Rank::Jack) => Card::JackSpades,
            (Suit::Spades, Rank::Queen) => Card::QueenSpades,
            (Suit::Spades, Rank::King) => Card::KingSpades,
            (Suit::Spades, Rank::Ace) => Card::AceSpades,
        }
    }

    /// The bit that stands for the card in a set of cards.
    pub open spec fn spec_index(self) -> u64 {
        (16 * self.spec_suit().spec_idx() + self.spec_rank().spec_idx()) as u64
    }

    /// The card that bit `i` stands for (meaningful when `i < 64` and `i % 16 < 13`).
    pub open spec fn at_index(i: u64) -> Card {
        Card::spec_new(Rank::spec_from((i % 16) as u8), Suit::spec_from((i / 16) as u8))
    }

    /// Cards compare by rank within a suit and by suit first: the order of their bits.
    pub open spec fn spec_lt(self, other: Card) -> bool {
        self.spec_index() < other.spec_index()
    }

    pub proof fn lemma_new(rank: Rank, suit: Suit)
        ensures
            Card::spec_new(rank, suit).spec_rank() == rank,
            Card::spec_new(rank, suit).spec_suit() == suit,
    {
    }

    pub proof fn lemma_parts(self)
        ensures
            Card::spec_new(self.spec_rank(), self.spec_suit()) == self,
            self.spec_index() < 64,
            self.spec_index() % 16 < 13,
            self.spec_index() % 16 == self.spec_rank().spec_idx(),
            self.spec_index() / 16 == self.spec_suit().spec_idx(),
            Card::at_index(self.spec_index()) == self,
    {
        self.spec_rank().lemma_idx();
        self.spec_suit().lemma_idx();
    }

    pub proof fn lemma_at_index(i: u64)
        requires
            i < 64,
            i % 16 < 13,
        ensures
            Card::at_index(i).spec_index() == i,
            Card::at_index(i).spec_rank() == Rank::spec_from((i % 16) as u8),
            Card::at_index(i).spec_suit() == Suit::spec_from((i / 16) as u8),
    {
        Rank::lemma_from((i % 16) as u8);
        Suit::lemma_from((i / 16) as u8);
        Card::lemma_new(Rank::spec_from((i % 16) as u8), Suit::spec_from((i / 16) as u8));
    }

    /// Distinct cards stand for distinct bits.
    pub proof fn lemma_index_injective(a: Card, b: Card)
        ensures
            a.spec_index() == b.spec_index() ==> a == b,
    {
        a.lemma_parts();
        b.lemma_parts();
    }

    pub fn new(rank: Rank, suit: Suit) -> (c: Card)
        ensures
            c == Card::spec_new(rank, suit),
            c.spec_rank() == rank,
            c.spec_suit() == suit,
    {
        match (suit, rank) {
            (Suit::Clubs, Rank::Two) => Card::TwoClubs,
            (Suit::Clubs, Rank::Three) => Card::ThreeClubs,
            (Suit::Clubs, Rank::Four) => Card::FourClubs,
            (Suit::Clubs, Rank::Five) => Card::FiveClubs,
            (Suit::Clubs, Rank::Six) => Card::SixClubs,
            (Suit::Clubs, Rank::Seven) => Card::SevenClubs,
            (Suit::Clubs, Rank::Eight) => Card::EightClubs,
            (Suit::Clubs, Rank::Nine) => Card::NineClubs,
            (Suit::Clubs, Rank::Ten) => Card::TenClubs,
            (Suit::Clubs, Rank::Jack) => Card::JackClubs,
            (Suit::Clubs, Rank::Queen) => Card::QueenClubs,
            (Suit::Clubs, Rank::King) => Card::KingClubs,
            (Suit::Clubs, Rank::Ace) => Card::AceClubs,
            (Suit::Diamonds, Rank::Two) => Card::TwoDiamonds,
            (Suit::Diamonds, Rank::Three) => Card::ThreeDiamonds,
            (Suit::Diamonds, Rank::Four) => Card::FourDiamonds,
            (Suit::Diamonds, Rank::Five) => Card::FiveDiamonds,
            (Suit::Diamonds, Rank::Six) => Card::SixDiamonds,
            (Suit::Diamonds, Rank::Seven) => Card::SevenDiamonds,
            (Suit::Diamonds, Rank::Eight) => Card::EightDiamonds,
            (Suit::Diamonds, Rank::Nine) => Card::NineDiamonds,
            (Suit::Diamonds, Rank::Ten) => Card::TenDiamonds,
            (Suit::Diamonds, Rank::Jack) => Card::JackDiamonds,
            (Suit::Diamonds, Rank::Queen) => Card::QueenDiamonds,
            (Suit::Diamonds, Rank::King) => Card::KingDiamonds,
            (Suit::Diamonds, Rank::Ace) => Card::AceDiamonds,
            (Suit::Hearts, Rank::Two) => Card::TwoHearts,
            (Suit::Hearts, Rank::Three) => Card::ThreeHearts,
            (Suit::Hearts, Rank::Four) => Card::FourHearts,
            (Suit::Hearts, Rank::Five) => Card::FiveHearts,
            (Suit::Hearts, Rank::Six) => Card::SixHearts,
            (Suit::Hearts, Rank::Seven) => Card::SevenHearts,
            (Suit::Hearts, Rank::Eight) => Card::EightHearts,
            (Suit::Hearts, Rank::Nine) => Card::NineHearts,
            (Suit::Hearts, Rank::Ten) => Card::TenHearts,
            (Suit::Hearts, Rank::Jack) => Card::JackHearts,
            (Suit::Hearts, Rank::Queen) => Card::QueenHearts,
            (Suit::Hearts, Rank::King) => Card::KingHearts,
            (Suit::Hearts, Rank::Ace) => Card::AceHearts,
            (Suit::Spades, Rank::Two) => Card::TwoSpades,
            (Suit::Spades, Rank::Three) => Card::ThreeSpades,
            (Suit::Spades, Rank::Four) => Card::FourSpades,
            (Suit::Spades, Rank::Five) => Card::FiveSpades,
            (Suit::Spades, Rank::Six) => Card::SixSpades,
            (Suit::Spades, Rank::Seven) => Card::SevenSpades,
            (Suit::Spades, Rank::Eight) => Card::EightSpades,
            (Suit::Spades, Rank::Nine) => Card::NineSpades,
            (Suit::Spades, Rank::Ten) => Card::TenSpades,
            (Suit::Spades, Rank::Jack) => Card::JackSpades,
            (Suit::Spades, Rank::Queen) => Card::QueenSpades,
            (Suit::Spades, Rank::King) => Card::KingSpades,
            (Suit::Spades, Rank::Ace) => Card::AceSpades,
        }
    }

    pub fn rank(self) -> (r: Rank)
        ensures
            r == self.spec_rank(),
    {
        match self {
            Card::TwoClubs => Rank::Two,
            Card::ThreeClubs => Rank::Three,
            Card::FourClubs => Rank::Four,
            Card::FiveClubs => Rank::Five,
            Card::SixClubs => Rank::Six,
            Card::SevenClubs => Rank::Seven,
            Card::EightClubs => Rank::Eight,
            Card::NineClubs => Rank::Nine,
            Card::TenClubs => Rank::Ten,
            Card::JackClubs => Rank::Jack,
            Card::QueenClubs => Rank::Queen,
            Card::KingClubs => Rank::King,
            Card::AceClubs => Rank::Ace,
            Card::TwoDiamonds => Rank::Two,
            Card::ThreeDiamonds => Rank::Three,
            Card::FourDiamonds => Rank::Four,
            Card::FiveDiamonds => Rank::Five,
            Card::SixDiamonds => Rank::Six,
            Card::SevenDiamonds => Rank::Seven,
            Card::EightDiamonds => Rank::Eight,
            Card::NineDiamonds => Rank::Nine,
            Card::TenDiamonds => Rank::Ten,
            Card::JackDiamonds => Rank::Jack,
            Card::QueenDiamonds => Rank::Queen,
            Card::KingDiamonds => Rank::King,
            Card::AceDiamonds => Rank::Ace,
            Card::TwoHearts => Rank::Two,
            Card::ThreeHearts => Rank::Three,
            Card::FourHearts => Rank::Four,
            Card::FiveHearts => Rank::Five,
            Card::SixHearts => Rank::Six,
            Card::SevenHearts => Rank::Seven,
            Card::EightHearts => Rank::Eight,
            Card::NineHearts => Rank::Nine,
            Card::TenHearts => Rank::Ten,
            Card::JackHearts => Rank::Jack,
            Card::QueenHearts => Rank::Queen,
            Card::KingHearts => Rank::King,
            Card::AceHearts => Rank::Ace,
            Card::TwoSpades => Rank::Two,
            Card::ThreeSpades => Rank::Three,
            Card::FourSpades => Rank::Four,
            Card::FiveSpades => Rank::Five,
            Card::SixSpades => Rank::Six,
            Card::SevenSpades => Rank::Seven,
            Card::EightSpades => Rank::Eight,
            Card::NineSpades => Rank::Nine,
            Card::TenSpades => Rank::Ten,
            Card::JackSpades => Rank::Jack,
            Card::QueenSpades => Rank::Queen,
            Card::KingSpades => Rank::King,
            Card::AceSpades => Rank::Ace,
        }
    }

    pub fn suit(self) -> (s: Suit)
        ensures
            s == self.spec_suit(),
    {
        match self {
            Card::TwoClubs => Suit::Clubs,
            Card::ThreeClubs => Suit::Clubs,
            Card::FourClubs => Suit::Clubs,
            Card::FiveClubs => Suit::Clubs,
            Card::SixClubs => Suit::Clubs,
            Card::SevenClubs => Suit::Clubs,
            Card::EightClubs => Suit::Clubs,
            Card::NineClubs => Suit::Clubs,
            Card::TenClubs => Suit::Clubs,
            Card::JackClubs => Suit::Clubs,
            Card::QueenClubs => Suit::Clubs,
            Card::KingClubs => Suit::Clubs,
            Card::AceClubs => Suit::Clubs,
            Card::TwoDiamonds => Suit::Diamonds,
            Card::ThreeDiamonds => Suit::Diamonds,
            Card::FourDiamonds => Suit::Diamonds,
            Card::FiveDiamonds => Suit::Diamonds,
            Card::SixDiamonds => Suit::Diamonds,
            Card::SevenDiamonds => Suit::Diamonds,
            Card::EightDiamonds => Suit::Diamonds,
            Card::NineDiamonds => Suit::Diamonds,
            Card::TenDiamonds => Suit::Diamonds,
            Card::JackDiamonds => Suit::Diamonds,
            Card::QueenDiamonds => Suit::Diamonds,
            Card::KingDiamonds => Suit::Diamonds,
            Card::AceDiamonds => Suit::Diamonds,
            Card::TwoHearts => Suit::Hearts,
            Card::ThreeHearts => Suit::Hearts,
            Card::FourHearts => Suit::Hearts,
            Card::FiveHearts => Suit::Hearts,
            Card::SixHearts => Suit::Hearts,
            Card::SevenHearts => Suit::Hearts,
            Card::EightHearts => Suit::Hearts,
            Card::NineHearts => Suit::Hearts,
            Card::TenHearts => Suit::Hearts,
            Card::JackHearts => Suit::Hearts,
            Card::QueenHearts => Suit::Hearts,
            Card::KingHearts => Suit::Hearts,
            Card::AceHearts => Suit::Hearts,
            Card::TwoSpades => Suit::Spades,
            Card::ThreeSpades => Suit::Spades,
            Card::FourSpades => Suit::Spades,
            Card::FiveSpades => Suit::Spades,
            Card::SixSpades => Suit::Spades,
            Card::SevenSpades => Suit::Spades,
            Card::EightSpades => Suit::Spades,
            Card::NineSpades => Suit::Spades,
            Card::TenSpades => Suit::Spades,
            Card::JackSpades => Suit::Spades,
            Card::QueenSpades => Suit::Spades,
            Card::KingSpades => Suit::Spades,
            Card::AceSpades => Suit::Spades,
        }
    }

    pub fn with_rank(self, rank: Rank) -> (c: Card)
        ensures
            c.spec_rank() == rank,
            c.spec_suit() == self.spec_suit(),
    {
        Card::new(rank, self.suit())
    }

    pub fn with_suit(self, suit: Suit) -> (c: Card)
        ensures
            c.spec_rank() == self.spec_rank(),
            c.spec_suit() == suit,
    {
        Card::new(self.rank(), suit)
    }

    /// The bit that stands for the card: `16 * suit + rank`.
    pub fn index(self) -> (i: u8)
        ensures
            i as u64 == self.spec_index(),
            i < 64,
    {
        proof {
            self.lemma_parts();
        }
        16 * (self.suit().idx() as u8) + self.rank().idx()
    }

    /// The card that bit `n` stands for.
    pub fn from(n: u8) -> (c: Card)
        requires
            n < 64,
            n % 16 < 13,
        ensures
            c.spec_index() == n as u64,
            c == Card::at_index(n as u64),
    {
        proof {
            Card::lemma_at_index(n as u64);
        }
        Card::new(Rank::from(n % 16), Suit::from(n / 16))
    }

    /// Whether this card sorts after `other`.
    pub fn gt(self, other: Card) -> (r: bool)
        ensures
            r == other.spec_lt(self),
    {
        self.index() > other.index()
    }

    /// Whether this card sorts before `other`.
    pub fn lt(self, other: Card) -> (r: bool)
        ensures
            r == self.spec_lt(other),
    {
        self.index() < other.index()
    }

    /// The set holding this card and `other`.
    pub fn or(self, other: Card) -> (r: Cards)
        ensures
            r.wf(),
            r@ == set![self, other],
    {
        Cards::from(self).with(other)
    }

    /// The two characters naming the card, rank first: `9S`, `TD`, `AH`.
    pub fn to_string(self) -> (s: String)
        ensures
            s@ == seq![self.spec_rank().spec_char(), self.spec_suit().spec_char()],
    {
        let mut s = String::new();
        s.append(self.rank().text());
        s.append(self.suit().text());
        s
    }

    /// Reads a card from its rank and suit characters, as `to_string` writes them.
    pub fn from_str(s: &str) -> (c: Card)
        requires
            s@.len() >= 2,
            exists|r: Rank| r.spec_char() == s@[0],
            exists|u: Suit| u.spec_char() == s@[1],
        ensures
            c.spec_rank().spec_char() == s@[0],
            c.spec_suit().spec_char() == s@[1],
    {
        let r = s.get_char(0);
        let u = s.get_char(1);
        let rank = match Rank::try_from(r) {
            Ok(rank) => rank,
            Err(_) => {
                assert(false);
                Rank::Two
            },
        };
        let suit = match Suit::try_from(u) {
            Ok(suit) => suit,
            Err(_) => {
                assert(false);
                Suit::Clubs
            },
        };
        Card::new(rank, suit)
    }
}

/// The number of set bits of `b` below bit `n`.
pub open spec fn count_below(b: u64, n: nat) -> nat
    decreases n,
{
    if n == 0 {
        0
    } else {
        count_below(b, (n - 1) as nat) + if bit64(b, (n - 1) as u64) {
            1nat
        } else {
            0nat
        }
    }
}

/// A set of cards.
#[derive(Clone, Copy, Debug, PartialEq, Eq, Hash, Structural)]
pub struct Cards {
    pub bits: u64,
}

impl View for Cards {
    type V = Set<Card>;

    open spec fn view(&self) -> Set<Card> {
        Set::new(|c: Card| self.has(c))
    }
}

impl Cards {
    pub const NONE_BITS: u64 = 0x0000_0000_0000_0000;

    pub const CHARGEABLE_BITS: u64 = 0x0400_1000_0200_0100;

    pub const CLUBS_BITS: u64 = 0x0000_0000_0000_1fff;

    pub const DIAMONDS_BITS: u64 = 0x0000_0000_1fff_0000;

    pub const HEARTS_BITS: u64 = 0x0000_1fff_0000_0000;

    pub const SPADES_BITS: u64 = 0x1fff_0000_0000_0000;

    pub const JACK_DIAMONDS_BITS: u64 = 0x0000_0000_0200_0000;

    pub const QUEEN_SPADES_BITS: u64 = 0x0400_0000_0000_0000;

    pub const POINTS_BITS: u64 = 0x0400_1fff_0200_0000;

    pub const ALL_BITS: u64 = 0x1fff_1fff_1fff_1fff;

    pub open spec fn has(self, c: Card) -> bool {
        bit64(self.bits, c.spec_index())
    }

    /// No bit is set that stands for no card.
    pub open spec fn wf(self) -> bool {
        forall|i: u64| i < 64 && #[trigger] bit64(self.bits, i) ==> i % 16 < 13
    }

    /// The number of cards in the set.
    pub open spec fn spec_len(self) -> nat {
        count_below(self.bits, 64)
    }

    /// The number of hearts in a set of cards.
    pub open spec fn hearts_in(cards: Set<Card>) -> nat {
        cards.intersect(Cards::suit_set(Suit::Hearts)).len()
    }

    pub open spec fn suit_set(suit: Suit) -> Set<Card> {
        Set::new(|c: Card| c.spec_suit() == suit)
    }

    pub open spec fn chargeable_set() -> Set<Card> {
        set![Card::QueenSpades, Card::AceHearts, Card::JackDiamonds, Card::TenClubs]
    }

    /// The cards that score: every heart, the queen of spades and the jack of diamonds.
    pub open spec fn points_set() -> Set<Card> {
        Cards::suit_set(Suit::Hearts).insert(Card::QueenSpades).insert(Card::JackDiamonds)
    }

    proof fn lemma_literals()
        ensures
            Cards::CLUBS_BITS == 0x1fffu64 << 0 * 16u64,
            Cards::DIAMONDS_BITS == 0x1fffu64 << 1 * 16u64,
            Cards::HEARTS_BITS == 0x1fffu64 << 2 * 16u64,
            Cards::SPADES_BITS == 0x1fffu64 << 3 * 16u64,
            Cards::QUEEN_SPADES_BITS == 1u64 << 58u64,
            Cards::JACK_DIAMONDS_BITS == 1u64 << 25u64,
            Cards::CHARGEABLE_BITS == (1u64 << 58u64) | (1u64 << 44u64) | (1u64 << 25u64) | (
            1u64 << 8u64),
            Cards::POINTS_BITS == (0x1fffu64 << 2 * 16u64) | (1u64 << 58u64) | (1u64
                << 25u64),
    {
        assert(0x0000_0000_0000_1fffu64 == 0x1fffu64 << 0 * 16u64) by (bit_vector);
        assert(0x0000_0000_1fff_0000u64 == 0x1fffu64 << 1 * 16u64) by (bit_vector);
        assert(0x0000_1fff_0000_0000u64 == 0x1fffu64 << 2 * 16u64) by (bit_vector);
        assert(0x1fff_0000_0000_0000u64 == 0x1fffu64 << 3 * 16u64) by (bit_vector);
        assert(0x0400_0000_0000_0000u64 == 1u64 << 58u64) by (bit_vector);
        assert(0x0000_0000_0200_0000u64 == 1u64 << 25u64) by (bit_vector);
        assert(0x0400_1000_0200_0100u64 == (1u64 << 58u64) | (1u64 << 44u64) | (1u64 << 25u64)
            | (1u64 << 8u64)) by (bit_vector);
        assert(0x0400_1fff_0200_0000u64 == (0x1fffu64 << 2 * 16u64) | (1u64 << 58u64) | (
        1u64 << 25u64)) by (bit_vector);
    }

    proof fn lemma_suit_bits(bits: u64, suit: Suit)
        requires
            bits == 0x1fffu64 << (16 * suit.spec_idx()) as u64,
        ensures
            (Cards { bits }).wf(),
            (Cards { bits })@ == Cards::suit_set(suit),
    {
        let r = Cards { bits };
        let s = suit.spec_idx() as u64;
        suit.lemma_idx();
        assert forall|i: u64| i < 64 && #[trigger] bit64(bits, i) implies i % 16 < 13 by {
            lemma_bit64_suit_mask(s, i);
        }
        assert forall|c: Card| r@.contains(c) == Cards::suit_set(suit).contains(c) by {
            c.lemma_parts();
            lemma_bit64_suit_mask(s, c.spec_index());
        }
        assert(r@ =~= Cards::suit_set(suit));
    }

    pub fn none() -> (r: Cards)
        ensures
            r.wf(),
            r@ == Set::<Card>::empty(),
            r.bits == 0,
    {
        let r = Cards { bits: Self::NONE_BITS };
        proof {
            assert forall|i: u64| i < 64 && #[trigger] bit64(r.bits, i) implies i % 16 < 13 by {
                lemma_bit64_zero(i);
            }
            assert forall|c: Card| !r@.contains(c) by {
                lemma_bit64_zero(c.spec_index());
            }
            assert(r@ =~= Set::<Card>::empty());
        }
        r
    }

    pub fn all() -> (r: Cards)
        ensures
            r.wf(),
            r.bits == Self::ALL_BITS,
            r@ == Set::<Card>::full(),
    {
        let r = Cards { bits: Self::ALL_BITS };
        proof {
            assert forall|i: u64| i < 64 && #[trigger] bit64(r.bits, i) implies i % 16 < 13 by {
                lemma_bit64_all_cards(i);
            }
            assert forall|c: Card| r@.contains(c) by {
                c.lemma_parts();
                lemma_bit64_all_cards(c.spec_index());
            }
            assert(r@ =~= Set::<Card>::full());
        }
        r
    }

    pub fn clubs() -> (r: Cards)
        ensures
            r.wf(),
            r.bits == Self::CLUBS_BITS,
            r@ == Cards::suit_set(Suit::Clubs),
    {
        proof {
            Cards::lemma_literals();
            Cards::lemma_suit_bits(Self::CLUBS_BITS, Suit::Clubs);
        }
        Cards { bits: Self::CLUBS_BITS }
    }

    pub fn diamonds() -> (r: Cards)
        ensures
            r.wf(),
            r.bits == Self::DIAMONDS_BITS,
            r@ == Cards::suit_set(Suit::Diamonds),
    {
        proof {
            Cards::lemma_literals();
            Cards::lemma_suit_bits(Self::DIAMONDS_BITS, Suit::Diamonds);
        }
        Cards { bits: Self::DIAMONDS_BITS }
    }

    pub fn hearts() -> (r: Cards)
        ensures
            r.wf(),
            r.bits == Self::HEARTS_BITS,
            r@ == Cards::suit_set(Suit::Hearts),
    {
        proof {
            Cards::lemma_literals();
            Cards::lemma_suit_bits(Self::HEARTS_BITS, Suit::Hearts);
        }
        Cards { bits: Self::HEARTS_BITS }
    }

    pub fn spades() -> (r: Cards)
        ensures
            r.wf(),
            r.bits == Self::SPADES_BITS,
            r@ == Cards::suit_set(Suit::Spades),
    {
        proof {
            Cards::lemma_literals();
            Cards::lemma_suit_bits(Self::SPADES_BITS, Suit::Spades);
        }
        Cards { bits: Self::SPADES_BITS }
    }

    pub fn queen_spades() -> (r: Cards)
        ensures
            r.wf(),
            r.bits == Self::QUEEN_SPADES_BITS,
            r@ == set![Card::QueenSpades],
    {
        let r = Cards { bits: Self::QUEEN_SPADES_BITS };
        proof {
            Cards::lemma_literals();
            Cards::lemma_single_bits(Card::QueenSpades);
        }
        r
    }

    pub fn jack_diamonds() -> (r: Cards)
        ensures
            r.wf(),
            r.bits == Self::JACK_DIAMONDS_BITS,
            r@ == set![Card::JackDiamonds],
    {
        let r = Cards { bits: Self::JACK_DIAMONDS_BITS };
        proof {
            Cards::lemma_literals();
            Cards::lemma_single_bits(Card::JackDiamonds);
        }
        r
    }

    /// The four cards that can be charged.
    pub fn chargeable() -> (r: Cards)
        ensures
            r.wf(),
            r.bits == Self::CHARGEABLE_BITS,
            r@ == Cards::chargeable_set(),
    {
        let r = Cards { bits: Self::CHARGEABLE_BITS };
        proof {
            Cards::lemma_literals();
            let a = 1u64 << 58u64;
            let b = 1u64 << 44u64;
            let c = 1u64 << 25u64;
            let d = 1u64 << 8u64;
            assert forall|i: u64| i < 64 implies #[trigger] bit64(r.bits, i) == (i == 58 || i
                == 44 || i == 25 || i == 8) by {
                lemma_bit64_or(a | b | c, d, i);
                lemma_bit64_or(a | b, c, i);
                lemma_bit64_or(a, b, i);
                lemma_bit64_single(58, i);
                lemma_bit64_single(44, i);
                lemma_bit64_single(25, i);
                lemma_bit64_single(8, i);
            }
            assert forall|x: Card| r@.contains(x) == Cards::chargeable_set().contains(x) by {
                x.lemma_parts();
                Card::lemma_index_injective(x, Card::QueenSpades);
                Card::lemma_index_injective(x, Card::AceHearts);
                Card::lemma_index_injective(x, Card::JackDiamonds);
                Card::lemma_index_injective(x, Card::TenClubs);
            }
            assert(r@ =~= Cards::chargeable_set());
        }
        r
    }

    /// The cards that score.
    pub fn points() -> (r: Cards)
        ensures
            r.wf(),
            r.bits == Self::POINTS_BITS,
            r@ == Cards::points_set(),
    {
        let r = Cards { bits: Self::POINTS_BITS };
        proof {
            Cards::lemma_literals();
            let h = 0x1fffu64 << 2 * 16u64;
            let a = 1u64 << 58u64;
            let c = 1u64 << 25u64;
            assert forall|i: u64| i < 64 implies #[trigger] bit64(r.bits, i) == ((32 <= i && i
                < 45) || i == 58 || i == 25) by {
                lemma_bit64_or(h | a, c, i);
                lemma_bit64_or(h, a, i);
                lemma_bit64_suit_mask(2, i);
                lemma_bit64_single(58, i);
                lemma_bit64_single(25, i);
            }
            assert forall|x: Card| r@.contains(x) == Cards::points_set().contains(x) by {
                x.lemma_parts();
                Card::lemma_index_injective(x, Card::QueenSpades);
                Card::lemma_index_injective(x, Card::JackDiamonds);
            }
            assert(r@ =~= Cards::points_set());
        }
        r
    }

    proof fn lemma_single_bits(c: Card)
        ensures
            (Cards { bits: 1u64 << c.spec_index() }).wf(),
            (Cards { bits: 1u64 << c.spec_index() })@ == set![c],
    {
        let r = Cards { bits: 1u64 << c.spec_index() };
        c.lemma_parts();
        assert forall|i: u64| i < 64 && #[trigger] bit64(r.bits, i) implies i % 16 < 13 by {
            lemma_bit64_single(c.spec_index(), i);
        }
        assert forall|x: Card| r@.contains(x) == set![c].contains(x) by {
            x.lemma_parts();
            lemma_bit64_single(c.spec_index(), x.spec_index());
            Card::lemma_index_injective(x, c);
        }
        assert(r@ =~= set![c]);
    }

    /// The set holding just `card`.
    pub fn from(card: Card) -> (r: Cards)
        ensures
            r.wf(),
            r@ == set![card],
            r.bits == 1u64 << card.spec_index(),
    {
        proof {
            Cards::lemma_single_bits(card);
        }
        Cards { bits: 1u64 << (card.index() as u64) }
    }

    /// The cards of either set.
    pub fn union(self, other: Cards) -> (r: Cards)
        ensures
            r@ == self@.union(other@),
            self.wf() && other.wf() ==> r.wf(),
            r.bits == self.bits | other.bits,
    {
        let r = Cards { bits: self.bits | other.bits };
        proof {
            assert forall|i: u64| i < 64 && #[trigger] bit64(r.bits, i) && self.wf() && other.wf()
                implies i % 16 < 13 by {
                lemma_bit64_or(self.bits, other.bits, i);
            }
            assert forall|c: Card| r@.contains(c) == (self@.contains(c) || other@.contains(c)) by {
                c.lemma_parts();
                lemma_bit64_or(self.bits, other.bits, c.spec_index());
            }
            assert(r@ =~= self@.union(other@));
        }
        r
    }

    /// The cards of both sets.
    pub fn intersect(self, other: Cards) -> (r: Cards)
        ensures
            r@ == self@.intersect(other@),
            self.wf() || other.wf() ==> r.wf(),
            r.bits == self.bits & other.bits,
    {
        let r = Cards { bits: self.bits & other.bits };
        proof {
            assert forall|i: u64| i < 64 && #[trigger] bit64(r.bits, i) && (self.wf()
                || other.wf()) implies i % 16 < 13 by {
                lemma_bit64_and(self.bits, other.bits, i);
            }
            assert forall|c: Card| r@.contains(c) == (self@.contains(c) && other@.contains(c)) by {
                c.lemma_parts();
                lemma_bit64_and(self.bits, other.bits, c.spec_index());
            }
            assert(r@ =~= self@.intersect(other@));
        }
        r
    }

    /// The cards of this set that are not in `other`.
    pub fn difference(self, other: Cards) -> (r: Cards)
        ensures
            r@ == self@.difference(other@),
            self.wf() ==> r.wf(),
            r.bits == self.bits & !other.bits,
    {
        let r = Cards { bits: self.bits & !other.bits };
        proof {
            assert forall|i: u64| i < 64 && #[trigger] bit64(r.bits, i) && self.wf() implies i
                % 16 < 13 by {
                lemma_bit64_and_not(self.bits, other.bits, i);
            }
            assert forall|c: Card| r@.contains(c) == (self@.contains(c) && !other@.contains(c)) by {
                c.lemma_parts();
                lemma_bit64_and_not(self.bits, other.bits, c.spec_index());
            }
            assert(r@ =~= self@.difference(other@));
        }
        r
    }

    /// This set with `card` added.
    pub fn with(self, card: Card) -> (r: Cards)
        ensures
            r@ == self@.insert(card),
            self.wf() ==> r.wf(),
            r.bits == self.bits | (1u64 << card.spec_index()),
    {
        let r = self.union(Cards::from(card));
        proof {
            assert(r@ =~= self@.insert(card));
        }
        r
    }

    /// This set with `card` taken out.
    pub fn without(self, card: Card) -> (r: Cards)
        ensures
            r@ == self@.remove(card),
            self.wf() ==> r.wf(),
    {
        let r = self.difference(Cards::from(card));
        proof {
            assert(r@ =~= self@.remove(card));
        }
        r
    }

    pub fn insert(&mut self, card: Card)
        ensures
            final(self)@ == old(self)@.insert(card),
            old(self).wf() ==> final(self).wf(),
            final(self).bits == old(self).bits | (1u64 << card.spec_index()),
    {
        *self = self.with(card);
    }

    pub fn remove(&mut self, card: Card)
        ensures
            final(self)@ == old(self)@.remove(card),
            old(self).wf() ==> final(self).wf(),
    {
        *self = self.without(card);
    }

    pub fn insert_all(&mut self, other: Cards)
        ensures
            final(self)@ == old(self)@.union(other@),
            old(self).wf() && other.wf() ==> final(self).wf(),
    {
        *self = self.union(other);
    }

    pub fn remove_all(&mut self, other: Cards)
        ensures
            final(self)@ == old(self)@.difference(other@),
            old(self).wf() ==> final(self).wf(),
    {
        *self = self.difference(other);
    }

    pub fn retain_all(&mut self, other: Cards)
        ensures
            final(self)@ == old(self)@.intersect(other@),
            old(self).wf() || other.wf() ==> final(self).wf(),
    {
        *self = self.intersect(other);
    }

    /// Two well-formed sets with the same cards are the same value.
    pub proof fn lemma_view_injective(a: Cards, b: Cards)
        requires
            a.wf(),
            b.wf(),
            a@ == b@,
        ensures
            a == b,
    {
        assert forall|i: u64| i < 64 implies #[trigger] bit64(a.bits, i) == bit64(b.bits, i) by {
            if bit64(a.bits, i) || bit64(b.bits, i) {
                assert(i % 16 < 13);
                Card::lemma_at_index(i);
                let c = Card::at_index(i);
                assert(a@.contains(c) == a.has(c));
                assert(b@.contains(c) == b.has(c));
                assert(a@.contains(c) == b@.contains(c));
            }
        }
        lemma_bit64_ext(a.bits, b.bits);
    }

    /// A set with no bit set holds no card.
    pub proof fn lemma_empty_bits(a: Cards)
        requires
            a.bits == 0,
        ensures
            a@ == Set::<Card>::empty(),
    {
        assert forall|c: Card| !a@.contains(c) by {
            lemma_bit64_zero(c.spec_index());
        }
        assert(a@ =~= Set::<Card>::empty());
    }

    /// A well-formed nonzero set holds a card.
    pub proof fn lemma_some_card(a: Cards) -> (c: Card)
        requires
            a.wf(),
            a.bits != 0,
        ensures
            a@.contains(c),
    {
        let t = lemma_bit64_nonzero(a.bits);
        Card::lemma_at_index(t);
        Card::at_index(t)
    }

    /// A well-formed set with no card is the empty word.
    pub proof fn lemma_empty(a: Cards)
        requires
            a.wf(),
        ensures
            (a@ == Set::<Card>::empty()) == (a.bits == 0),
    {
        if a.bits != 0 {
            let t = lemma_bit64_nonzero(a.bits);
            Card::lemma_at_index(t);
            assert(a@.contains(Card::at_index(t)));
        } else {
            assert forall|c: Card| !a@.contains(c) by {
                lemma_bit64_zero(c.spec_index());
            }
            assert(a@ =~= Set::<Card>::empty());
        }
    }

    proof fn lemma_count_below_zero(b: u64, n: nat)
        requires
            n <= 64,
        ensures
            (count_below(b, n) == 0) == (forall|i: u64| i < n ==> !#[trigger] bit64(b, i)),
        decreases n,
    {
        if n > 0 {
            Cards::lemma_count_below_zero(b, (n - 1) as nat);
        }
    }

    proof fn lemma_count_below_bound(b: u64, n: nat)
        ensures
            count_below(b, n) <= n,
        decreases n,
    {
        if n > 0 {
            Cards::lemma_count_below_bound(b, (n - 1) as nat);
        }
    }

    /// The empty set, and only it, has length zero.
    pub proof fn lemma_len_zero(a: Cards)
        ensures
            (a.spec_len() == 0) == (a.bits == 0),
            a.spec_len() <= 64,
    {
        Cards::lemma_count_below_zero(a.bits, 64);
        Cards::lemma_count_below_bound(a.bits, 64);
        if a.bits == 0 {
            assert forall|i: u64| i < 64 implies !#[trigger] bit64(a.bits, i) by {
                lemma_bit64_zero(i);
            }
        } else {
            let t = lemma_bit64_nonzero(a.bits);
        }
    }

    /// The cards of the set whose bit is below `n`.
    pub open spec fn below_set(self, n: nat) -> Set<Card> {
        self@.filter(|c: Card| c.spec_index() < n)
    }

    proof fn lemma_len_below(self, n: nat)
        requires
            self.wf(),
            n <= 64,
        ensures
            self.below_set(n).finite(),
            self.below_set(n).len() == count_below(self.bits, n),
        decreases n,
    {
        if n == 0 {
            assert(self.below_set(0) =~= Set::<Card>::empty());
        } else {
            let m = (n - 1) as nat;
            self.lemma_len_below(m);
            let i = m as u64;
            if bit64(self.bits, i) {
                Card::lemma_at_index(i);
                let c = Card::at_index(i);
                assert forall|x: Card| self.below_set(n).contains(x) == (self.below_set(
                    m,
                ).contains(x) || x == c) by {
                    x.lemma_parts();
                    Card::lemma_index_injective(x, c);
                }
                assert(self.below_set(n) =~= self.below_set(m).insert(c));
                assert(!self.below_set(m).contains(c));
            } else {
                assert forall|x: Card| self.below_set(n).contains(x) == self.below_set(
                    m,
                ).contains(x) by {
                    x.lemma_parts();
                }
                assert(self.below_set(n) =~= self.below_set(m));
            }
        }
    }

    /// The length of a well-formed set is the number of its cards.
    pub proof fn lemma_len(self)
        requires
            self.wf(),
        ensures
            self@.finite(),
            self@.len() == self.spec_len(),
    {
        self.lemma_len_below(64);
        assert forall|x: Card| self.below_set(64).contains(x) == self@.contains(x) by {
            x.lemma_parts();
        }
        assert(self.below_set(64) =~= self@);
    }

    /// The number of cards in the set.
    pub fn len(self) -> (n: usize)
        ensures
            n == self.spec_len(),
            n <= 64,
            self.wf() ==> n == self@.len(),
    {
        proof {
            if self.wf() {
                self.lemma_len();
            }
        }
        let mut n: usize = 0;
        let mut i: u64 = 0;
        while i < 64
            invariant
                i <= 64,
                n == count_below(self.bits, i as nat),
                n <= i,
            decreases 64 - i,
        {
            if (self.bits >> i) & 1 == 1 {
                n = n + 1;
            }
            i = i + 1;
        }
        n
    }

    pub fn is_empty(self) -> (r: bool)
        ensures
            r == (self.bits == 0),
            self.wf() ==> (r == (self@ == Set::<Card>::empty())),
    {
        proof {
            Cards::lemma_len_zero(self);
            if self.wf() {
                Cards::lemma_empty(self);
            }
        }
        self.len() == 0
    }

    /// The highest card of a nonempty set.
    pub fn max(self) -> (c: Card)
        requires
            self.wf(),
            self.bits != 0,
        ensures
            self@.contains(c),
            forall|x: Card| #[trigger] self@.contains(x) ==> x.spec_index() <= c.spec_index(),
            c == max_of(self@),
    {
        let lz = self.bits.leading_zeros();
        proof {
            axiom_u64_leading_zeros(self.bits);
            let t = (63 - lz) as u64;
            let b = self.bits;
            assert((b >> (63 - lz) as u64) & 1u64 != 0u64 ==> bit64(b, t)) by (bit_vector)
                requires
                    t == (63 - lz) as u64,
            ;
            assert(t % 16 < 13);
            Card::lemma_at_index(t);
            assert forall|x: Card| #[trigger] self@.contains(x) implies x.spec_index() <= t by {
                x.lemma_parts();
            }
        }
        let c = Card::from((63 - lz) as u8);
        proof {
            lemma_max_of(self@, c);
        }
        c
    }

    /// The lowest card of a nonempty set.
    pub fn min(self) -> (c: Card)
        requires
            self.wf(),
            self.bits != 0,
        ensures
            self@.contains(c),
            forall|x: Card| #[trigger] self@.contains(x) ==> c.spec_index() <= x.spec_index(),
            c == min_of(self@),
    {
        let tz = self.bits.trailing_zeros();
        proof {
            let t = lemma_bit64_nonzero(self.bits);
            axiom_u64_trailing_zeros(self.bits);
            Card::lemma_at_index(t);
            assert forall|x: Card| #[trigger] self@.contains(x) implies t <= x.spec_index() by {
                x.lemma_parts();
            }
        }
        let c = Card::from(tz as u8);
        proof {
            lemma_min_of(self@, c);
        }
        c
    }

    pub fn contains(self, other: Card) -> (r: bool)
        ensures
            r == self@.contains(other),
    {
        proof {
            other.lemma_parts();
            lemma_bit64_absorbs(self.bits, 1u64 << other.spec_index());
        }
        let m = Cards::from(other);
        let r = self.bits == (self.bits | m.bits);
        proof {
            assert(r == ((1u64 << other.spec_index()) & !self.bits == 0u64));
            if r {
                if !self@.contains(other) {
                    lemma_bit64_and_not(1u64 << other.spec_index(), self.bits, other.spec_index());
                    lemma_bit64_single(other.spec_index(), other.spec_index());
                    lemma_bit64_zero(other.spec_index());
                }
            } else {
                let x = (1u64 << other.spec_index()) & !self.bits;
                let t = lemma_bit64_nonzero(x);
                lemma_bit64_and_not(1u64 << other.spec_index(), self.bits, t);
                lemma_bit64_single(other.spec_index(), t);
            }
        }
        r
    }

    pub fn contains_any(self, other: Cards) -> (r: bool)
        ensures
            r == (self.bits & other.bits != 0),
            self.wf() || other.wf() ==> (r == exists|c: Card|
                self@.contains(c) && #[trigger] other@.contains(c)),
    {
        let x = self.intersect(other);
        let r = x.bits != 0;
        proof {
            if self.wf() || other.wf() {
                if r {
                    let c = Cards::lemma_some_card(x);
                    assert(self@.contains(c) && other@.contains(c));
                } else {
                    Cards::lemma_empty(x);
                    assert forall|c: Card| !(self@.contains(c) && #[trigger] other@.contains(c))
                        by {
                        assert(!x@.contains(c));
                    }
                }
            }
        }
        r
    }

    pub fn contains_all(self, other: Cards) -> (r: bool)
        ensures
            r == (self.bits == (self.bits | other.bits)),
            other.wf() ==> (r == other@.subset_of(self@)),
    {
        let r = self.bits == (self.bits | other.bits);
        let d = other.difference(self);
        proof {
            if other.wf() {
                lemma_bit64_absorbs(self.bits, other.bits);
                Cards::lemma_empty(d);
                if r {
                    assert forall|c: Card| other@.contains(c) implies #[trigger] self@.contains(c)
                        by {
                        assert(!d@.contains(c));
                    }
                } else {
                    let c = Cards::lemma_some_card(d);
                    assert(other@.contains(c) && !self@.contains(c));
                }
            }
        }
        r
    }

    /// The cards of `card`'s suit in this set that rank above it.
    pub fn above(self, card: Card) -> (r: Cards)
        ensures
            r.wf(),
            r@ == self@.filter(|c: Card| c.spec_suit() == card.spec_suit() && card.spec_lt(c)),
    {
        let s = self.intersect(card.suit().cards());
        proof {
            card.lemma_parts();
            lemma_bit64_shl_bounds(card.spec_index());
        }
        let m = 2 * Cards::from(card).bits - 1;
        let r = Cards { bits: s.bits & !m };
        proof {
            assert(s.wf());
            card.lemma_parts();
            let j = card.spec_index();
            assert(m == (2 * (1u64 << j) - 1) as u64);
            assert forall|i: u64| i < 64 && #[trigger] bit64(r.bits, i) implies i % 16 < 13 by {
                lemma_bit64_and_not(s.bits, m, i);
                assert(bit64(s.bits, i));
            }
            assert forall|c: Card| r@.contains(c) == (self@.contains(c) && c.spec_suit()
                == card.spec_suit() && card.spec_lt(c)) by {
                c.lemma_parts();
                assert(s@.contains(c) == s.has(c));
                lemma_bit64_and_not(s.bits, m, c.spec_index());
                lemma_bit64_up_to(j, c.spec_index());
            }
            assert(r@ =~= self@.filter(
                |c: Card| c.spec_suit() == card.spec_suit() && card.spec_lt(c),
            ));
        }
        r
    }

    /// The cards of `card`'s suit in this set that rank below it.
    pub fn below(self, card: Card) -> (r: Cards)
        ensures
            r.wf(),
            r@ == self@.filter(|c: Card| c.spec_suit() == card.spec_suit() && c.spec_lt(card)),
    {
        let s = self.intersect(card.suit().cards());
        proof {
            card.lemma_parts();
            lemma_bit64_shl_bounds(card.spec_index());
        }
        let m = Cards::from(card).bits - 1;
        let r = Cards { bits: s.bits & m };
        proof {
            assert(s.wf());
            card.lemma_parts();
            let j = card.spec_index();
            assert(m == ((1u64 << j) - 1) as u64);
            assert forall|i: u64| i < 64 && #[trigger] bit64(r.bits, i) implies i % 16 < 13 by {
                lemma_bit64_and(s.bits, m, i);
                assert(bit64(s.bits, i));
            }
            assert forall|c: Card| r@.contains(c) == (self@.contains(c) && c.spec_suit()
                == card.spec_suit() && c.spec_lt(card)) by {
                c.lemma_parts();
                assert(s@.contains(c) == s.has(c));
                lemma_bit64_and(s.bits, m, c.spec_index());
                lemma_bit64_below(j, c.spec_index());
            }
            assert(r@ =~= self@.filter(
                |c: Card| c.spec_suit() == card.spec_suit() && c.spec_lt(card),
            ));
        }
        r
    }

    /// The cards of the set lower than `card`, of any suit.
    pub fn lower(self, card: Card) -> (r: Cards)
        ensures
            self.wf() ==> r.wf(),
            r@ == self@.filter(|c: Card| c.spec_lt(card)),
    {
        proof {
            card.lemma_parts();
            lemma_bit64_shl_bounds(card.spec_index());
        }
        let m = Cards::from(card).bits - 1;
        let r = Cards { bits: self.bits & m };
        proof {
            let j = card.spec_index();
            assert(m == ((1u64 << j) - 1) as u64);
            assert forall|i: u64| i < 64 && #[trigger] bit64(r.bits, i) && self.wf() implies i % 16
                < 13 by {
                lemma_bit64_and(self.bits, m, i);
            }
            let f = self@.filter(|c: Card| c.spec_lt(card));
            assert forall|c: Card| r@.contains(c) == f.contains(c) by {
                c.lemma_parts();
                lemma_bit64_and(self.bits, m, c.spec_index());
                lemma_bit64_below(j, c.spec_index());
                assert(r@.contains(c) == bit64(r.bits, c.spec_index()));
                assert(self@.contains(c) == bit64(self.bits, c.spec_index()));
            }
            assert(r@ =~= f);
        }
        r
    }

    /// The cards of the set that play differently once `played` is gone (see
    /// `spec_distinct_plays`).
    pub fn distinct_plays(self, played: Cards) -> (r: Cards)
        requires
            self.wf(),
        ensures
            r.wf(),
            r@ == spec_distinct_plays(self@, played@),
    {
        let v = self.to_vec();
        let mut r = Cards::none();
        let mut i: usize = 0;
        while i < v.len()
            invariant
                i <= v@.len(),
                self.wf(),
                r.wf(),
                forall|k: int| 0 <= k < v@.len() ==> #[trigger] self@.contains(v@[k]),
                forall|c: Card| #[trigger] r@.contains(c) <==> (exists|k: int| 0 <= k < i && v@[k] == c)
                    && !plays_as_next(self@, played@, c),
            decreases v@.len() - i,
        {
            let c = v[i];
            let up = c.suit().cards().difference(played).above(c);
            proof {
                assert(up@ =~= unplayed_above(c, played@));
                Cards::lemma_empty(up);
            }
            let mut keep = true;
            if !up.is_empty() {
                let next = up.min();
                if self.contains(next) && c.rank() != Rank::Nine && next.rank() != Rank::Nine {
                    keep = false;
                }
            }
            proof {
                assert(keep == !plays_as_next(self@, played@, c));
            }
            if keep {
                r.insert(c);
            }
            proof {
                assert forall|d: Card| #[trigger] r@.contains(d) <==> (exists|k: int| 0 <= k < i + 1 && v@[k] == d)
                    && !plays_as_next(self@, played@, d) by {
                    if exists|k: int| 0 <= k < i + 1 && v@[k] == d {
                        let k = choose|k: int| 0 <= k < i + 1 && v@[k] == d;
                        if k < i {
                            assert(exists|k: int| 0 <= k < i && v@[k] == d);
                        }
                    }
                    if d == c {
                        assert(v@[i as int] == d);
                    }
                }
            }
            i = i + 1;
        }
        proof {
            assert forall|c: Card| r@.contains(c) == spec_distinct_plays(self@, played@).contains(c) by {
                if self@.contains(c) {
                    assert(v@.contains(c));
                }
            }
            assert(r@ =~= spec_distinct_plays(self@, played@));
        }
        r
    }

    /// Whether every bit of the set stands for a card.
    pub fn is_valid(self) -> (r: bool)
        ensures
            r == self.wf(),
    {
        let r = self.intersect(Cards::all());
        proof {
            if self.wf() {
                assert(r@ =~= self@);
                Cards::lemma_view_injective(self, r);
            }
        }
        self.bits == r.bits
    }

    /// The set written out: by suit from the highest card down, each suit's ranks followed by
    /// the suit, suits separated by spaces (`Q9S JD`).
    pub fn to_string(self) -> (s: String)
        requires
            self.wf(),
        ensures
            s@ == cards_text(desc_of(self@)),
    {
        let v = self.to_vec();
        let mut s = String::new();
        if v.len() == 0 {
            return s;
        }
        s.append(v[0].rank().text());
        let mut i: usize = 1;
        while i < v.len()
            invariant
                1 <= i <= v@.len(),
                s@ == text_prefix(v@, i as nat),
            decreases v@.len() - i,
        {
            let prev = v[i - 1].suit();
            let card = v[i];
            if card.suit() != prev {
                s.append(prev.text());
                let space = " ";
                proof {
                    reveal_strlit(" ");
                }
                s.append(space);
                proof {
                    assert(s@ == text_prefix(v@, i as nat) + seq![prev.spec_char(), ' ']);
                }
            }
            s.append(card.rank().text());
            proof {
                assert(s@ =~= text_prefix(v@, (i + 1) as nat));
            }
            i = i + 1;
        }
        s.append(v[v.len() - 1].suit().text());
        s
    }

    /// The cards named in `s`, read from the end: a rank names a card of the suit named last
    /// (clubs before any suit is named); other characters are skipped.
    pub fn parse(s: &str) -> (r: Cards)
        ensures
            r.wf(),
            r@ == parse_cards(s@, s@.len(), Suit::Clubs),
    {
        let n = s.unicode_len();
        let mut cards = Cards::none();
        let mut suit = Suit::Clubs;
        let mut i: usize = n;
        while i > 0
            invariant
                i <= n,
                n == s@.len(),
                cards.wf(),
                cards@.union(parse_cards(s@, i as nat, suit)) == parse_cards(s@, n as nat, Suit::Clubs),
            decreases i,
        {
            let c = s.get_char(i - 1);
            let ghost before = cards@;
            let ghost old_suit = suit;
            match Rank::try_from(c) {
                Ok(rank) => {
                    proof {
                        assert(rank_named(c) == Some(rank));
                    }
                    cards.insert(Card::new(rank, suit));
                    proof {
                        assert(cards@.union(parse_cards(s@, (i - 1) as nat, suit)) =~= before.union(
                            parse_cards(s@, i as nat, suit),
                        ));
                    }
                },
                Err(_) => {
                    proof {
                        assert(rank_named(c) is None);
                    }
                    match Suit::try_from(c) {
                        Ok(named) => {
                            proof {
                                assert(suit_named(c) == Some(named));
                            }
                            suit = named;
                        },
                        Err(_) => {
                            proof {
                                assert(suit_named(c) is None);
                            }
                        },
                    }
                },
            }
            i = i - 1;
        }
        proof {
            assert(cards@.union(Set::<Card>::empty()) =~= cards@);
        }
        cards
    }

    /// The cards of the set, highest first.
    pub fn to_vec(self) -> (v: Vec<Card>)
        requires
            self.wf(),
        ensures
            v@.len() == self@.len(),
            forall|k: int| 0 <= k < v@.len() ==> #[trigger] self@.contains(v@[k]),
            forall|c: Card| #[trigger] self@.contains(c) ==> v@.contains(c),
            forall|j: int, k: int|
                0 <= j < k < v@.len() ==> #[trigger] v@[k].spec_index() < #[trigger] v@[j].spec_index(),
            v@ == desc_of(self@),
    {
        let mut v: Vec<Card> = Vec::new();
        let mut i: u64 = 64;
        while i > 0
            invariant
                i <= 64,
                self.wf(),
                forall|k: int| 0 <= k < v@.len() ==> #[trigger] self@.contains(v@[k]),
                forall|k: int| 0 <= k < v@.len() ==> #[trigger] v@[k].spec_index() >= i,
                forall|c: Card| #[trigger] self@.contains(c) && c.spec_index() >= i ==> v@.contains(c),
                forall|j: int, k: int|
                    0 <= j < k < v@.len() ==> #[trigger] v@[k].spec_index() < #[trigger] v@[j].spec_index(),
            decreases i,
        {
            i = i - 1;
            if (self.bits >> i) & 1 == 1 {
                proof {
                    assert(bit64(self.bits, i));
                    assert(i % 16 < 13);
                    Card::lemma_at_index(i);
                }
                let c = Card::from(i as u8);
                proof {
                    assert(c.spec_index() == i);
                    assert(self@.contains(c));
                }
                let ghost old_v = v@;
                v.push(c);
                proof {
                    assert(v@ == old_v.push(c));
                    assert forall|d: Card| #[trigger] self@.contains(d) && d.spec_index() >= i implies v@.contains(d) by {
                        if d.spec_index() == i {
                            Card::lemma_index_injective(d, c);
                            assert(v@[v@.len() - 1] == c);
                        } else {
                            assert(old_v.contains(d));
                            let k = choose|k: int| 0 <= k < old_v.len() && old_v[k] == d;
                            assert(v@[k] == d);
                        }
                    }
                }
            } else {
                proof {
                    assert forall|d: Card| #[trigger] self@.contains(d) && d.spec_index() >= i implies v@.contains(d) by {
                        if d.spec_index() == i {
                            assert(bit64(self.bits, i));
                        }
                    }
                }
            }
        }
        proof {
            assert(v@.no_duplicates()) by {
                assert forall|j: int, k: int| 0 <= j < v@.len() && 0 <= k < v@.len() && j != k implies v@[j] != v@[k] by {
                    if j < k {
                        assert(v@[k].spec_index() < v@[j].spec_index());
                    } else {
                        assert(v@[j].spec_index() < v@[k].spec_index());
                    }
                }
            }
            v@.unique_seq_to_set();
            assert(v@.to_set() =~= self@);
            let d = desc_of(self@);
            assert(is_desc(v@) && v@.to_set() == self@);
            assert(is_desc(d) && d.to_set() == self@);
            lemma_desc_unique(v@, d);
        }
        v
    }

    /// The cards gathered from `v`.
    pub fn from_vec(v: &Vec<Card>) -> (r: Cards)
        ensures
            r.wf(),
            r@ == v@.to_set(),
    {
        let mut r = Cards::none();
        let mut i: usize = 0;
        while i < v.len()
            invariant
                i <= v@.len(),
                r.wf(),
                r@ == v@.take(i as int).to_set(),
            decreases v@.len() - i,
        {
            proof {
                assert(v@.take(i + 1) =~= v@.take(i as int).push(v@[i as int]));
                assert(v@.take(i + 1).to_set() =~= v@.take(i as int).to_set().insert(v@[i as int])) by {
                    let a = v@.take(i as int);
                    let b = v@.take(i + 1);
                    assert forall|x: Card| b.contains(x) == (a.contains(x) || x == v@[i as int]) by {
                        if b.contains(x) {
                            let j = choose|j: int| 0 <= j < b.len() && b[j] == x;
                            if j < i {
                                assert(a[j] == x);
                            }
                        }
                        if a.contains(x) {
                            let j = choose|j: int| 0 <= j < a.len() && a[j] == x;
                            assert(b[j] == x);
                        }
                        if x == v@[i as int] {
                            assert(b[i as int] == x);
                        }
                    }
                }
            }
            r.insert(v[i]);
            i = i + 1;
        }
        proof {
            assert(v@.take(v@.len() as int) =~= v@);
        }
        r
    }

    /// The card of the set with exactly `n` cards of the set above it.
    pub fn nth(self, n: usize) -> (c: Card)
        requires
            self.wf(),
            n < self@.len(),
        ensures
            self@.contains(c),
            self@.filter(|x: Card| c.spec_lt(x)).len() == n,
    {
        let v = self.to_vec();
        let c = v[n];
        proof {
            let above = self@.filter(|x: Card| c.spec_lt(x));
            let front = v@.take(n as int);
            assert(front.no_duplicates()) by {
                assert forall|j: int, k: int| 0 <= j < front.len() && 0 <= k < front.len() && j != k implies front[j] != front[k] by {
                    if j < k {
                        assert(front[k].spec_index() < front[j].spec_index());
                    } else {
                        assert(front[j].spec_index() < front[k].spec_index());
                    }
                }
            }
            assert forall|x: Card| above.contains(x) == front.to_set().contains(x) by {
                if above.contains(x) {
                    let k = choose|k: int| 0 <= k < v@.len() && v@[k] == x;
                    if k >= n {
                        if k > n {
                            assert(v@[k].spec_index() < v@[n as int].spec_index());
                        }
                    }
                    assert(front[k] == x);
                    assert(front.contains(x));
                }
                if front.to_set().contains(x) {
                    let k = choose|k: int| 0 <= k < front.len() && front[k] == x;
                    assert(v@[k] == x);
                    assert(v@[n as int].spec_index() < v@[k].spec_index());
                }
            }
            assert(above =~= front.to_set());
            front.unique_seq_to_set();
        }
        c
    }
}

impl std::str::FromStr for Cards {
    type Err = std::convert::Infallible;

    /// The cards named in `s` (see `Cards::parse`); reading never fails.
    fn from_str(s: &str) -> (r: Result<Cards, std::convert::Infallible>)
        ensures
            r matches Ok(cards) && cards.wf() && cards@ == parse_cards(s@, s@.len(), Suit::Clubs),
    {
        Ok(Cards::parse(s))
    }
}

/// The set of cards holding exactly the cards of `s` and nothing else.
pub open spec fn cards_of(s: Set<Card>) -> Cards {
    choose|c: Cards| c.wf() && c@ == s
}

/// A well-formed set is the one `cards_of` gives for its cards.
pub proof fn lemma_cards_of(c: Cards)
    requires
        c.wf(),
    ensures
        cards_of(c@) == c,
{
    let d = cards_of(c@);
    assert(d.wf() && d@ == c@);
    Cards::lemma_view_injective(c, d);
}

/// `c` is the highest card of `s`.
pub open spec fn is_max(s: Set<Card>, c: Card) -> bool {
    s.contains(c) && forall|x: Card| #[trigger] s.contains(x) ==> x.spec_index() <= c.spec_index()
}

/// `c` is the lowest card of `s`.
pub open spec fn is_min(s: Set<Card>, c: Card) -> bool {
    s.contains(c) && forall|x: Card| #[trigger] s.contains(x) ==> c.spec_index() <= x.spec_index()
}

/// The highest card of a nonempty set.
pub open spec fn max_of(s: Set<Card>) -> Card {
    choose|c: Card| is_max(s, c)
}

/// The lowest card of a nonempty set.
pub open spec fn min_of(s: Set<Card>) -> Card {
    choose|c: Card| is_min(s, c)
}

/// A set has at most one highest card.
pub proof fn lemma_max_of(s: Set<Card>, c: Card)
    requires
        is_max(s, c),
    ensures
        max_of(s) == c,
{
    let m = max_of(s);
    assert(is_max(s, m));
    Card::lemma_index_injective(m, c);
}

/// A finite set with a card in it has a highest card.
pub proof fn lemma_max_exists(s: Set<Card>, c: Card)
    requires
        s.finite(),
        s.contains(c),
    ensures
        is_max(s, max_of(s)),
    decreases s.len(),
{
    let r = s.remove(c);
    if exists|y: Card| r.contains(y) {
        let y = choose|y: Card| r.contains(y);
        lemma_max_exists(r, y);
        let m = max_of(r);
        if m.spec_index() <= c.spec_index() {
            assert(is_max(s, c));
        } else {
            assert(is_max(s, m));
        }
    } else {
        assert(is_max(s, c));
    }
}

/// A set has at most one lowest card.
pub proof fn lemma_min_of(s: Set<Card>, c: Card)
    requires
        is_min(s, c),
    ensures
        min_of(s) == c,
{
    let m = min_of(s);
    assert(is_min(s, m));
    Card::lemma_index_injective(m, c);
}

/// The cards of a suit are thirteen.
pub proof fn lemma_suit_len(suit: Suit)
    ensures
        Cards::suit_set(suit).finite(),
        Cards::suit_set(suit).len() == 13,
{
    match suit {
        Suit::Clubs => {
            assert(Cards::suit_set(suit) =~= set![Card::TwoClubs, Card::ThreeClubs, Card::FourClubs, Card::FiveClubs, Card::SixClubs, Card::SevenClubs, Card::EightClubs, Card::NineClubs, Card::TenClubs, Card::JackClubs, Card::QueenClubs, Card::KingClubs, Card::AceClubs]);
        },
        Suit::Diamonds => {
            assert(Cards::suit_set(suit) =~= set![Card::TwoDiamonds, Card::ThreeDiamonds, Card::FourDiamonds, Card::FiveDiamonds, Card::SixDiamonds, Card::SevenDiamonds, Card::EightDiamonds, Card::NineDiamonds, Card::TenDiamonds, Card::JackDiamonds, Card::QueenDiamonds, Card::KingDiamonds, Card::AceDiamonds]);
        },
        Suit::Hearts => {
            assert(Cards::suit_set(suit) =~= set![Card::TwoHearts, Card::ThreeHearts, Card::FourHearts, Card::FiveHearts, Card::SixHearts, Card::SevenHearts, Card::EightHearts, Card::NineHearts, Card::TenHearts, Card::JackHearts, Card::QueenHearts, Card::KingHearts, Card::AceHearts]);
        },
        Suit::Spades => {
            assert(Cards::suit_set(suit) =~= set![Card::TwoSpades, Card::ThreeSpades, Card::FourSpades, Card::FiveSpades, Card::SixSpades, Card::SevenSpades, Card::EightSpades, Card::NineSpades, Card::TenSpades, Card::JackSpades, Card::QueenSpades, Card::KingSpades, Card::AceSpades]);
        },
    }
}

/// There are fifty-two cards.
pub proof fn lemma_full_len()
    ensures
        Set::<Card>::full().finite(),
        Set::<Card>::full().len() == 52,
{
    let c = Cards::suit_set(Suit::Clubs);
    let d = Cards::suit_set(Suit::Diamonds);
    let h = Cards::suit_set(Suit::Hearts);
    let s = Cards::suit_set(Suit::Spades);
    lemma_suit_len(Suit::Clubs);
    lemma_suit_len(Suit::Diamonds);
    lemma_suit_len(Suit::Hearts);
    lemma_suit_len(Suit::Spades);
    vstd::set_lib::lemma_set_disjoint_lens(c, d);
    vstd::set_lib::lemma_set_disjoint_lens(c + d, h);
    vstd::set_lib::lemma_set_disjoint_lens(c + d + h, s);
    assert(Set::<Card>::full() =~= c + d + h + s) by {
        assert forall|x: Card| (c + d + h + s).contains(x) by {
            match x.spec_suit() {
                Suit::Clubs => {},
                Suit::Diamonds => {},
                Suit::Hearts => {},
                Suit::Spades => {},
            }
        }
    }
}

/// The cards of `c`'s suit above it that have not been played.
pub open spec fn unplayed_above(c: Card, played: Set<Card>) -> Set<Card> {
    Cards::suit_set(c.spec_suit()).filter(|x: Card| c.spec_lt(x) && !played.contains(x))
}

/// With `played` gone, `c` plays no differently from the next card above it in its suit, which
/// is also in `s`. The nine of a suit, which lets a trick go round again, plays like no other
/// card.
pub open spec fn plays_as_next(s: Set<Card>, played: Set<Card>, c: Card) -> bool {
    let up = unplayed_above(c, played);
    !up.is_empty() && s.contains(min_of(up)) && c.spec_rank() != Rank::Nine && min_of(
        up,
    ).spec_rank() != Rank::Nine
}

/// The cards of `s` that play differently, with `played` gone: of cards that play alike, only
/// the highest.
pub open spec fn spec_distinct_plays(s: Set<Card>, played: Set<Card>) -> Set<Card> {
    s.filter(|c: Card| !plays_as_next(s, played, c))
}

/// The cards of `v` run from the highest down.
pub open spec fn is_desc(v: Seq<Card>) -> bool {
    forall|a: int, b: int| 0 <= a < b < v.len() ==> #[trigger] v[b].spec_index() < #[trigger] v[a].spec_index()
}

/// The cards of `s`, highest first.
pub open spec fn desc_of(s: Set<Card>) -> Seq<Card> {
    choose|v: Seq<Card>| is_desc(v) && v.to_set() == s
}

/// Counting the bits of a union and of an intersection counts each bit of the two words as
/// often as counting the two words does.
proof fn lemma_count_or_and(a: u64, b: u64, n: nat)
    requires
        n <= 64,
    ensures
        count_below(a | b, n) + count_below(a & b, n) == count_below(a, n) + count_below(b, n),
    decreases n,
{
    if n > 0 {
        lemma_count_or_and(a, b, (n - 1) as nat);
        lemma_bit64_or(a, b, (n - 1) as u64);
        lemma_bit64_and(a, b, (n - 1) as u64);
    }
}

/// What `len` counts: `a.union(b).len() + a.intersect(b).len() == a.len() + b.len()` (the
/// union and the intersection have the bits `a.bits | b.bits` and `a.bits & b.bits`); `len` is
/// zero exactly when `is_empty` holds; the cards that `to_vec` lists, from the highest down, are
/// as many as `len` says; and `Cards::all().len()` is fifty-two.
pub proof fn lemma_len_law(a: Cards, b: Cards)
    ensures
        (Cards { bits: a.bits | b.bits }).spec_len() + (Cards { bits: a.bits & b.bits }).spec_len()
            == a.spec_len() + b.spec_len(),
        (a.spec_len() == 0) == (a.bits == 0),
        a.wf() ==> (a.spec_len() == 0) == (a@ == Set::<Card>::empty()),
        a.wf() ==> desc_of(a@).len() == a.spec_len(),
        (Cards { bits: Cards::ALL_BITS }).spec_len() == 52,
{
    lemma_count_or_and(a.bits, b.bits, 64);
    Cards::lemma_len_zero(a);
    if a.wf() {
        a.lemma_len();
        lemma_desc_of(a@);
        let v = desc_of(a@);
        assert(v.no_duplicates()) by {
            assert forall|i: int, j: int| 0 <= i < v.len() && 0 <= j < v.len() && i != j implies v[i]
                != v[j] by {
                if i < j {
                    assert(v[j].spec_index() < v[i].spec_index());
                } else {
                    assert(v[i].spec_index() < v[j].spec_index());
                }
            }
        }
        v.unique_seq_to_set();
        if a.spec_len() == 0 {
            assert(a@ =~= Set::<Card>::empty());
        }
    }
    let all = Cards { bits: Cards::ALL_BITS };
    assert forall|i: u64| i < 64 && #[trigger] bit64(all.bits, i) implies i % 16 < 13 by {
        lemma_bit64_all_cards(i);
    }
    assert forall|c: Card| all@.contains(c) by {
        c.lemma_parts();
        lemma_bit64_all_cards(c.spec_index());
    }
    assert(all@ =~= Set::<Card>::full());
    all.lemma_len();
    lemma_full_len();
}

/// A set has one list of its cards from the highest down.
pub proof fn lemma_desc_unique(a: Seq<Card>, b: Seq<Card>)
    requires
        is_desc(a),
        is_desc(b),
        a.to_set() == b.to_set(),
    ensures
        a == b,
    decreases a.len(),
{
    if a.len() == 0 {
        if b.len() > 0 {
            assert(b.to_set().contains(b[0]));
        }
        assert(a =~= b);
    } else {
        assert(a.to_set().contains(a[0]));
        assert(b.len() > 0);
        assert(b.to_set().contains(b[0]));
        let ja = choose|j: int| 0 <= j < b.len() && b[j] == a[0];
        let jb = choose|j: int| 0 <= j < a.len() && a[j] == b[0];
        if ja > 0 {
            assert(b[ja].spec_index() < b[0].spec_index());
        }
        if jb > 0 {
            assert(a[jb].spec_index() < a[0].spec_index());
        }
        assert(a[0] == b[0]);
        let ra = a.drop_first();
        let rb = b.drop_first();
        assert(ra.to_set() =~= rb.to_set()) by {
            assert forall|x: Card| ra.to_set().contains(x) == rb.to_set().contains(x) by {
                if ra.contains(x) {
                    let j = choose|j: int| 0 <= j < ra.len() && ra[j] == x;
                    assert(a[j + 1] == x);
                    assert(a.to_set().contains(x));
                    let k = choose|k: int| 0 <= k < b.len() && b[k] == x;
                    assert(x.spec_index() < a[0].spec_index());
                    assert(k != 0);
                    assert(rb[k - 1] == x);
                }
                if rb.contains(x) {
                    let j = choose|j: int| 0 <= j < rb.len() && rb[j] == x;
                    assert(b[j + 1] == x);
                    assert(b.to_set().contains(x));
                    let k = choose|k: int| 0 <= k < a.len() && a[k] == x;
                    assert(x.spec_index() < b[0].spec_index());
                    assert(k != 0);
                    assert(ra[k - 1] == x);
                }
            }
        }
        lemma_desc_unique(ra, rb);
        assert(a =~= b) by {
            assert forall|i: int| 0 <= i < a.len() implies a[i] == b[i] by {
                if i > 0 {
                    assert(ra[i - 1] == rb[i - 1]);
                }
            }
        }
    }
}

/// The text of the cards of `v[..n]`, without the suit of the last: ranks, with each change
/// of suit marked by the suit left behind and a space.
pub open spec fn text_prefix(v: Seq<Card>, n: nat) -> Seq<char>
    decreases n,
{
    if n == 0 {
        Seq::<char>::empty()
    } else if n == 1 {
        seq![v[0].spec_rank().spec_char()]
    } else {
        let t = text_prefix(v, (n - 1) as nat);
        let prev = v[n - 2].spec_suit();
        if v[n - 1].spec_suit() != prev {
            t + seq![prev.spec_char(), ' ', v[n - 1].spec_rank().spec_char()]
        } else {
            t.push(v[n - 1].spec_rank().spec_char())
        }
    }
}

/// The text of the cards of `v`: by suit, each suit's ranks followed by the suit, suits
/// separated by spaces (`Q9S JD`).
pub open spec fn cards_text(v: Seq<Card>) -> Seq<char> {
    if v.len() == 0 {
        Seq::<char>::empty()
    } else {
        text_prefix(v, v.len()) + seq![v[v.len() - 1].spec_suit().spec_char()]
    }
}

/// The rank a character names, if any.
pub open spec fn rank_named(c: char) -> Option<Rank> {
    if exists|r: Rank| r.spec_char() == c {
        Some(choose|r: Rank| r.spec_char() == c)
    } else {
        None
    }
}

/// The suit a character names, if any.
pub open spec fn suit_named(c: char) -> Option<Suit> {
    if exists|u: Suit| u.spec_char() == c {
        Some(choose|u: Suit| u.spec_char() == c)
    } else {
        None
    }
}

/// The cards named by `s[..n]`, read from the end: a rank names a card of the suit named last
/// (clubs before any), a suit sets the suit, and anything else is skipped.
pub open spec fn parse_cards(s: Seq<char>, n: nat, suit: Suit) -> Set<Card>
    decreases n,
{
    if n == 0 {
        Set::<Card>::empty()
    } else {
        let c = s[n - 1];
        match rank_named(c) {
            Some(r) => parse_cards(s, (n - 1) as nat, suit).insert(Card::spec_new(r, suit)),
            None => match suit_named(c) {
                Some(u) => parse_cards(s, (n - 1) as nat, u),
                None => parse_cards(s, (n - 1) as nat, suit),
            },
        }
    }
}


/// The cards of a set, handed out from the highest down.
pub struct CardsIter(pub Cards);

impl Cards {
    pub fn iter(self) -> (r: CardsIter)
        ensures
            r.0 == self,
    {
        CardsIter(self)
    }
}

impl CardsIter {
    /// The highest card left, which is then taken out; `None` once no card is left.
    pub fn next(&mut self) -> (r: Option<Card>)
        requires
            old(self).0.wf(),
        ensures
            final(self).0.wf(),
            match r {
                None => old(self).0@ == Set::<Card>::empty() && final(self).0 == old(self).0,
                Some(c) => c == max_of(old(self).0@) && old(self).0@.contains(c) && final(self).0@
                    == old(self).0@.remove(c),
            },
    {
        if self.0.is_empty() {
            None
        } else {
            let card = self.0.max();
            self.0 = self.0.without(card);
            Some(card)
        }
    }

    /// How many cards are left, as a lower and an upper bound.
    pub fn size_hint(&self) -> (r: (usize, Option<usize>))
        requires
            self.0.wf(),
        ensures
            r == (self.0@.len() as usize, Some(self.0@.len() as usize)),
    {
        let size = self.0.len();
        (size, Some(size))
    }
}

/// The cards of `s` with a bit below `n`, highest first.
pub open spec fn desc_below(s: Set<Card>, n: nat) -> Seq<Card>
    decreases n,
{
    if n == 0 {
        Seq::<Card>::empty()
    } else {
        let i = (n - 1) as u64;
        let rest = desc_below(s, (n - 1) as nat);
        if i % 16 < 13 && s.contains(Card::at_index(i)) {
            seq![Card::at_index(i)] + rest
        } else {
            rest
        }
    }
}

proof fn lemma_desc_below(s: Set<Card>, n: nat)
    requires
        n <= 64,
    ensures
        is_desc(desc_below(s, n)),
        forall|k: int| 0 <= k < desc_below(s, n).len() ==> #[trigger] desc_below(s, n)[k].spec_index() < n,
        desc_below(s, n).to_set() == s.filter(|c: Card| c.spec_index() < n),
    decreases n,
{
    if n == 0 {
        assert(s.filter(|c: Card| c.spec_index() < n) =~= Set::<Card>::empty());
        assert(desc_below(s, n).to_set() =~= Set::<Card>::empty());
    } else {
        let i = (n - 1) as u64;
        let rest = desc_below(s, (n - 1) as nat);
        lemma_desc_below(s, (n - 1) as nat);
        let below = s.filter(|c: Card| c.spec_index() < n);
        let lower = s.filter(|c: Card| c.spec_index() < (n - 1) as nat);
        if i % 16 < 13 && s.contains(Card::at_index(i)) {
            let x = Card::at_index(i);
            Card::lemma_at_index(i);
            let d = seq![x] + rest;
            assert forall|a: int, b: int| 0 <= a < b < d.len() implies #[trigger] d[b].spec_index()
                < #[trigger] d[a].spec_index() by {
                if a == 0 {
                    assert(d[b] == rest[b - 1]);
                } else {
                    assert(d[a] == rest[a - 1] && d[b] == rest[b - 1]);
                }
            }
            assert forall|k: int| 0 <= k < d.len() implies #[trigger] d[k].spec_index() < n by {
                if k > 0 {
                    assert(d[k] == rest[k - 1]);
                }
            }
            assert(d.to_set() =~= below) by {
                assert forall|c: Card| #[trigger] d.to_set().contains(c) == below.contains(c) by {
                    c.lemma_parts();
                    if d.to_set().contains(c) {
                        let k = choose|k: int| 0 <= k < d.len() && d[k] == c;
                        if k > 0 {
                            assert(rest[k - 1] == c);
                            assert(rest.to_set().contains(c));
                        }
                    }
                    if below.contains(c) {
                        if c.spec_index() == i {
                            assert(d[0] == c);
                        } else {
                            assert(lower.contains(c));
                            assert(rest.to_set().contains(c));
                            let k = choose|k: int| 0 <= k < rest.len() && rest[k] == c;
                            assert(d[k + 1] == c);
                        }
                    }
                }
            }
        } else {
            assert(rest.to_set() =~= below) by {
                assert forall|c: Card| #[trigger] below.contains(c) implies lower.contains(c) by {
                    c.lemma_parts();
                }
            }
        }
    }
}

/// Every set of cards can be listed from the highest down.
pub proof fn lemma_desc_of(s: Set<Card>)
    ensures
        is_desc(desc_of(s)),
        desc_of(s).to_set() == s,
{
    lemma_desc_below(s, 64);
    assert(s.filter(|c: Card| c.spec_index() < 64nat) =~= s) by {
        assert forall|c: Card| #[trigger] s.contains(c) implies c.spec_index() < 64nat by {
            c.lemma_parts();
        }
    }
    let w = desc_below(s, 64);
    assert(is_desc(w) && w.to_set() == s);
}

proof fn lemma_rank_char(r: Rank)
    ensures
        rank_named(r.spec_char()) == Some(r),
        suit_named(r.spec_char()) is None,
{
    assert(forall|a: Rank| #[trigger] a.spec_char() == r.spec_char() ==> a == r);
    assert(forall|u: Suit| #[trigger] u.spec_char() != r.spec_char());
}

proof fn lemma_suit_char(u: Suit)
    ensures
        rank_named(u.spec_char()) is None,
        suit_named(u.spec_char()) == Some(u),
{
    assert(forall|a: Rank| #[trigger] a.spec_char() != u.spec_char());
    assert(forall|b: Suit| #[trigger] b.spec_char() == u.spec_char() ==> b == u);
}

proof fn lemma_space_char()
    ensures
        rank_named(' ') is None,
        suit_named(' ') is None,
{
    assert(forall|a: Rank| #[trigger] a.spec_char() != ' ');
    assert(forall|b: Suit| #[trigger] b.spec_char() != ' ');
}

/// Reading back the text of the first `n` cards of `v`, as the start of `s`, from the suit of
/// the `n`-th card, gives those cards.
proof fn lemma_read_prefix(v: Seq<Card>, n: nat, s: Seq<char>)
    requires
        1 <= n <= v.len(),
        text_prefix(v, n).len() <= s.len(),
        s.subrange(0, text_prefix(v, n).len() as int) == text_prefix(v, n),
    ensures
        parse_cards(s, text_prefix(v, n).len(), v[n - 1].spec_suit()) == v.subrange(
            0,
            n as int,
        ).to_set(),
    decreases n,
{
    let t = text_prefix(v, n);
    let x = v[n - 1];
    lemma_rank_char(x.spec_rank());
    x.lemma_parts();
    assert(s[t.len() - 1] == t[t.len() - 1]);
    if n == 1 {
        assert(v.subrange(0, 1).to_set() =~= Set::<Card>::empty().insert(x)) by {
            assert(v.subrange(0, 1)[0] == x);
            assert(v.subrange(0, 1) =~= seq![x]);
            assert(seq![x] =~= Seq::<Card>::empty().push(x));
            Seq::<Card>::empty().lemma_push_to_set_commute(x);
            assert(Seq::<Card>::empty().to_set() =~= Set::<Card>::empty());
        }
        assert(parse_cards(s, 1, x.spec_suit()) == parse_cards(s, 0, x.spec_suit()).insert(x));
    } else {
        let tp = text_prefix(v, (n - 1) as nat);
        let prev = v[n - 2].spec_suit();
        assert(s.subrange(0, tp.len() as int) =~= tp) by {
            assert forall|k: int| 0 <= k < tp.len() implies s[k] == tp[k] by {
                assert(s[k] == t[k]);
            }
        }
        lemma_read_prefix(v, (n - 1) as nat, s);
        let l = tp.len();
        if x.spec_suit() != prev {
            lemma_suit_char(prev);
            lemma_space_char();
            assert(t =~= tp + seq![prev.spec_char(), ' ', x.spec_rank().spec_char()]);
            assert(s[l + 1int] == t[l + 1int]);
            assert(s[l as int] == t[l as int]);
            assert(parse_cards(s, l + 1, x.spec_suit()) == parse_cards(s, l, prev));
            assert(parse_cards(s, l + 2, x.spec_suit()) == parse_cards(s, l + 1, x.spec_suit()));
            assert(parse_cards(s, l + 3, x.spec_suit()) == parse_cards(s, l + 2, x.spec_suit()).insert(x));
        } else {
            assert(t =~= tp.push(x.spec_rank().spec_char()));
            assert(parse_cards(s, l + 1, x.spec_suit()) == parse_cards(s, l, prev).insert(x));
        }
        assert(v.subrange(0, n as int).to_set() =~= v.subrange(0, n - 1).to_set().insert(x)) by {
            assert(v.subrange(0, n as int) =~= v.subrange(0, n - 1).push(x));
            v.subrange(0, n - 1).lemma_push_to_set_commute(x);
        }
    }
}

/// Reading back the text of a list of cards gives the cards of the list.
pub proof fn lemma_read_back(v: Seq<Card>)
    ensures
        parse_cards(cards_text(v), cards_text(v).len(), Suit::Clubs) == v.to_set(),
{
    if v.len() == 0 {
        assert(v.to_set() =~= Set::<Card>::empty());
    } else {
        let text = cards_text(v);
        let t = text_prefix(v, v.len());
        let u = v[v.len() - 1].spec_suit();
        lemma_suit_char(u);
        assert(text[t.len() as int] == u.spec_char());
        assert(text.subrange(0, t.len() as int) =~= t);
        lemma_read_prefix(v, v.len(), text);
        assert(v.subrange(0, v.len() as int) =~= v);
    }
}

/// Parsing the text of a set of cards gives back the set.
pub proof fn lemma_parse_text(c: Cards)
    ensures
        parse_cards(cards_text(desc_of(c@)), cards_text(desc_of(c@)).len(), Suit::Clubs) == c@,
{
    lemma_desc_of(c@);
    lemma_read_back(desc_of(c@));
}

} // verus!
