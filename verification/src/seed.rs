//! The seed a game's deals are drawn from: chosen by the players, or random and kept secret
//! until the game is over; and the generator seeded by it, which deals each hand and scatters
//! the keeper pass.
use crate::cards::{cards_of, desc_of, lemma_cards_of, Card, Cards};
use crate::game::event::GameEvent;
use crate::seat::Seat;
use crate::types::PassDirection;
use rand::seq::SliceRandom;
use rand::SeedableRng;
use rand_chacha::ChaCha20Rng;
use sha2::Digest;
use vstd::prelude::*;

verus! {

/// The SHA-256 digest of a byte string.
pub uninterp spec fn sha256(bytes: Seq<u8>) -> Seq<u8>;

/// `sha2::Sha256::digest(bytes)`, as an array of 32 bytes: the digest of `bytes`.
#[verifier::external_body]
fn digest(bytes: &[u8]) -> (r: [u8; 32])
    ensures
        r@ == sha256(bytes@),
{
    sha2::Sha256::digest(bytes).into()
}

/// The generator positions, in 32-bit words, from which a shuffle is drawn. Its block counter
/// (a sixteenth of the position) is then below 2^60, far from the end of its 64-bit range.
pub const WORD_POS_LIMIT: u128 = 0x1_0000_0000_0000_0000u128;

/// The order into which `rand`'s `shuffle` puts `items`, drawing from ChaCha20 keyed by `key`
/// on stream `stream` from word `word_pos` onwards.
pub uninterp spec fn shuffled(key: Seq<u8>, stream: u64, word_pos: u128, items: Seq<Card>) -> Seq<Card>;

/// The word position that ChaCha20 keyed by `key` on stream `stream` has reached after the
/// shuffle of `len` items drawn from word `word_pos` onwards.
pub uninterp spec fn word_pos_after(key: Seq<u8>, stream: u64, word_pos: u128, len: nat) -> u128;

/// Shuffles `items` with `rand_chacha::ChaCha20Rng` keyed by `key` (`from_seed`), moved to
/// stream `stream` (`set_stream`) and to word `word_pos` (`set_word_pos`), by
/// `rand::seq::SliceRandom::shuffle`; returns the shuffled items and the generator's word
/// position after it (`get_word_pos`).
///
/// The generator's output is fixed by its key, stream and word position, so the order that
/// comes out and the position reached are named as functions of these and of the items (the
/// shuffle draws depend on their number only). `shuffle` only swaps items, so the same items
/// come out. The block counter would overflow, and panic, only past 2^64 blocks; from a
/// position below `WORD_POS_LIMIT` no bound on the words a shuffle draws is stated (its
/// rejection sampling has none), so the position after the call is left unbounded.
#[verifier::external_body]
fn chacha_shuffle(key: [u8; 32], stream: u64, word_pos: u128, items: Vec<Card>) -> (r: (
    Vec<Card>,
    u128,
))
    requires
        word_pos < WORD_POS_LIMIT,
    ensures
        r.0@ == shuffled(key@, stream, word_pos, items@),
        r.0@.to_multiset() == items@.to_multiset(),
        r.1 == word_pos_after(key@, stream, word_pos, items@.len()),
{
    let mut rng = ChaCha20Rng::from_seed(key);
    rng.set_stream(stream);
    rng.set_word_pos(word_pos);
    let mut items = items;
    items.shuffle(&mut rng);
    (items, rng.get_word_pos())
}

/// A lower-case hexadecimal digit.
pub open spec fn is_hex_digit(c: char) -> bool {
    ('0' <= c && c <= '9') || ('a' <= c && c <= 'f')
}

/// The hyphenated text of a random version-4 UUID: thirty-two lower-case hexadecimal digits in
/// groups of 8, 4, 4, 4 and 12 separated by hyphens, the first digit of the third group being
/// the version 4 and the first of the fourth group the variant (`8`, `9`, `a` or `b`).
pub open spec fn is_uuid_text(text: Seq<char>) -> bool {
    &&& text.len() == 36
    &&& forall|i: int|
        0 <= i < 36 ==> if i == 8 || i == 13 || i == 18 || i == 23 {
            #[trigger] text[i] == '-'
        } else {
            is_hex_digit(text[i])
        }
    &&& text[14] == '4'
    &&& (text[19] == '8' || text[19] == '9' || text[19] == 'a' || text[19] == 'b')
}

/// A random seed text: the hyphenated form of a random UUID.
///
/// Calls `uuid::Uuid::new_v4` and its `to_string`, which writes the sixteen bytes as lower-case
/// hexadecimal in groups of 8, 4, 4, 4 and 12 digits separated by hyphens. `new_v4` draws the
/// bytes from the operating system's random source and sets the version nibble to 4 and the
/// variant bits to `10`; that much is stated, and the other digits are random.
#[verifier::external_body]
fn random_seed_text() -> (r: String)
    ensures
        is_uuid_text(r@),
{
    uuid::Uuid::new_v4().to_string()
}

#[derive(Debug, PartialEq, Eq)]
pub enum Seed {
    Chosen { value: String },
    Random { value: String },
    Redacted,
}

impl Clone for Seed {
    fn clone(&self) -> (r: Self)
        ensures
            r == *self,
    {
        match self {
            Seed::Chosen { value } => Seed::Chosen { value: value.clone() },
            Seed::Random { value } => Seed::Random { value: value.clone() },
            Seed::Redacted => Seed::Redacted,
        }
    }
}

impl Seed {
    /// A random seed: the text of a fresh random UUID.
    pub fn random() -> (r: Self)
        ensures
            r matches Seed::Random { value } && is_uuid_text(value@),
    {
        Seed::Random { value: random_seed_text() }
    }

    pub open spec fn spec_redact(self) -> Seed {
        match self {
            Seed::Random { .. } => Seed::Redacted,
            _ => self,
        }
    }

    /// The seed as other players may see it: a random seed is hidden.
    pub fn redact(&self) -> (r: Self)
        ensures
            r == self.spec_redact(),
    {
        match self {
            Seed::Random { .. } => Seed::Redacted,
            _ => self.clone(),
        }
    }
}

/// The cards at positions `lo..hi` of `deck`, as a hand.
pub open spec fn hand_at(deck: Seq<Card>, lo: int, hi: int) -> Cards {
    cards_of(deck.subrange(lo, hi).to_set())
}

/// The deal of `deck` for the hand passed in direction `pass`: north takes the first thirteen
/// cards, east the next thirteen, then south, then west.
pub open spec fn deal_of(deck: Seq<Card>, pass: PassDirection) -> GameEvent {
    GameEvent::Deal {
        north: hand_at(deck, 0, 13),
        east: hand_at(deck, 13, 26),
        south: hand_at(deck, 26, 39),
        west: hand_at(deck, 39, 52),
        pass,
    }
}

/// The keeper pass scattered in the order of `passes`: north receives the first three cards,
/// east the next three, then south, then west.
pub open spec fn keeper_of(passes: Seq<Card>) -> Seq<GameEvent> {
    seq![
        GameEvent::RecvPass { to: Seat::North, cards: hand_at(passes, 0, 3) },
        GameEvent::RecvPass { to: Seat::East, cards: hand_at(passes, 3, 6) },
        GameEvent::RecvPass { to: Seat::South, cards: hand_at(passes, 6, 9) },
        GameEvent::RecvPass { to: Seat::West, cards: hand_at(passes, 9, 12) },
    ]
}

/// `deck` holds every card once.
pub open spec fn is_full_deck(deck: Seq<Card>) -> bool {
    &&& deck.len() == 52
    &&& deck.no_duplicates()
    &&& deck.to_set() == Set::<Card>::full()
}

/// The four hands share no card, hold thirteen cards each, and together hold every card.
pub open spec fn partitions_deck(north: Cards, east: Cards, south: Cards, west: Cards) -> bool {
    &&& north@.len() == 13 && east@.len() == 13 && south@.len() == 13 && west@.len() == 13
    &&& north@.disjoint(east@) && north@.disjoint(south@) && north@.disjoint(west@)
    &&& east@.disjoint(south@) && east@.disjoint(west@) && south@.disjoint(west@)
    &&& north@ + east@ + south@ + west@ == Set::<Card>::full()
}

/// The cards of `lo..hi` in a list with no card twice are `hi - lo` different cards.
proof fn lemma_range_len(deck: Seq<Card>, lo: int, hi: int)
    requires
        0 <= lo <= hi <= deck.len(),
        deck.no_duplicates(),
    ensures
        deck.subrange(lo, hi).to_set().len() == hi - lo,
        deck.subrange(lo, hi).to_set().finite(),
{
    let sub = deck.subrange(lo, hi);
    assert(sub.no_duplicates());
    sub.unique_seq_to_set();
}

/// Two ranges that do not overlap, of a list with no card twice, share no card.
proof fn lemma_ranges_disjoint(deck: Seq<Card>, a: int, b: int, c: int, d: int)
    requires
        0 <= a <= b <= c <= d <= deck.len(),
        deck.no_duplicates(),
    ensures
        deck.subrange(a, b).to_set().disjoint(deck.subrange(c, d).to_set()),
{
    assert forall|x: Card| #[trigger] deck.subrange(a, b).to_set().contains(x) implies !deck.subrange(
        c,
        d,
    ).to_set().contains(x) by {
        let i = choose|i: int| 0 <= i < b - a && deck.subrange(a, b)[i] == x;
        if deck.subrange(c, d).to_set().contains(x) {
            let j = choose|j: int| 0 <= j < d - c && deck.subrange(c, d)[j] == x;
            assert(deck[a + i] == deck[c + j]);
        }
    }
}

/// The cards of a full deck cut at thirteen, twenty-six and thirty-nine: four parts of
/// thirteen cards that share no card and together hold every card.
pub open spec fn splits_deck(deck: Seq<Card>) -> bool {
    let n = deck.subrange(0, 13).to_set();
    let e = deck.subrange(13, 26).to_set();
    let s = deck.subrange(26, 39).to_set();
    let w = deck.subrange(39, 52).to_set();
    &&& n.len() == 13 && e.len() == 13 && s.len() == 13 && w.len() == 13
    &&& n.disjoint(e) && n.disjoint(s) && n.disjoint(w)
    &&& e.disjoint(s) && e.disjoint(w) && s.disjoint(w)
    &&& n + e + s + w == Set::<Card>::full()
}

/// A full deck cut in four gives each seat thirteen cards, no card to two seats, and every
/// card to some seat.
pub proof fn lemma_deck_splits(deck: Seq<Card>)
    requires
        is_full_deck(deck),
    ensures
        splits_deck(deck),
{
    let n = deck.subrange(0, 13).to_set();
    let e = deck.subrange(13, 26).to_set();
    let s = deck.subrange(26, 39).to_set();
    let w = deck.subrange(39, 52).to_set();
    lemma_range_len(deck, 0, 13);
    lemma_range_len(deck, 13, 26);
    lemma_range_len(deck, 26, 39);
    lemma_range_len(deck, 39, 52);
    lemma_ranges_disjoint(deck, 0, 13, 13, 26);
    lemma_ranges_disjoint(deck, 0, 13, 26, 39);
    lemma_ranges_disjoint(deck, 0, 13, 39, 52);
    lemma_ranges_disjoint(deck, 13, 26, 26, 39);
    lemma_ranges_disjoint(deck, 13, 26, 39, 52);
    lemma_ranges_disjoint(deck, 26, 39, 39, 52);
    assert(n + e + s + w =~= deck.to_set()) by {
        assert forall|x: Card| #[trigger] deck.to_set().contains(x) implies (n + e + s
            + w).contains(x) by {
            let i = choose|i: int| 0 <= i < 52 && deck[i] == x;
            if i < 13 {
                assert(deck.subrange(0, 13)[i] == x);
            } else if i < 26 {
                assert(deck.subrange(13, 26)[i - 13] == x);
            } else if i < 39 {
                assert(deck.subrange(26, 39)[i - 26] == x);
            } else {
                assert(deck.subrange(39, 52)[i - 39] == x);
            }
        }
        assert forall|x: Card| #[trigger] (n + e + s + w).contains(x) implies deck.to_set().contains(
            x,
        ) by {
            if n.contains(x) {
                let i = choose|i: int| 0 <= i < 13 && deck.subrange(0, 13)[i] == x;
                assert(deck[i] == x);
            } else if e.contains(x) {
                let i = choose|i: int| 0 <= i < 13 && deck.subrange(13, 26)[i] == x;
                assert(deck[13 + i] == x);
            } else if s.contains(x) {
                let i = choose|i: int| 0 <= i < 13 && deck.subrange(26, 39)[i] == x;
                assert(deck[26 + i] == x);
            } else {
                let i = choose|i: int| 0 <= i < 13 && deck.subrange(39, 52)[i] == x;
                assert(deck[39 + i] == x);
            }
        }
    }
}

/// The hand of the cards at positions `lo..hi` of `deck`.
fn hand_from(deck: &Vec<Card>, lo: usize, hi: usize) -> (r: Cards)
    requires
        lo <= hi <= deck@.len(),
    ensures
        r.wf(),
        r@ == deck@.subrange(lo as int, hi as int).to_set(),
        r == hand_at(deck@, lo as int, hi as int),
{
    let mut r = Cards::none();
    let mut i = lo;
    proof {
        assert(deck@.subrange(lo as int, lo as int).to_set() =~= Set::<Card>::empty());
    }
    while i < hi
        invariant
            lo <= i <= hi,
            hi <= deck@.len(),
            r.wf(),
            r@ == deck@.subrange(lo as int, i as int).to_set(),
        decreases hi - i,
    {
        proof {
            let sub = deck@.subrange(lo as int, i as int);
            assert(deck@.subrange(lo as int, i + 1) =~= sub.push(deck@[i as int]));
            sub.lemma_push_to_set_commute(deck@[i as int]);
        }
        r = r.with(deck[i]);
        i = i + 1;
    }
    proof {
        lemma_cards_of(r);
    }
    r
}

/// The deal of `deck` (see `deal_of`).
pub fn deal_from(deck: &Vec<Card>, pass: PassDirection) -> (r: GameEvent)
    requires
        deck@.len() >= 52,
    ensures
        r == deal_of(deck@, pass),
        r matches GameEvent::Deal { north, east, south, west, .. } && north.wf() && east.wf()
            && south.wf() && west.wf() && north@ == deck@.subrange(0, 13).to_set() && east@
            == deck@.subrange(13, 26).to_set() && south@ == deck@.subrange(26, 39).to_set() && west@
            == deck@.subrange(39, 52).to_set(),
{
    let north = hand_from(deck, 0, 13);
    let east = hand_from(deck, 13, 26);
    let south = hand_from(deck, 26, 39);
    let west = hand_from(deck, 39, 52);
    GameEvent::Deal { north, east, south, west, pass }
}

/// The keeper pass scattered in the order of `passes` (see `keeper_of`).
pub fn keeper_from(passes: &Vec<Card>) -> (r: [GameEvent; 4])
    requires
        passes@.len() >= 12,
    ensures
        r@ == keeper_of(passes@),
{
    let r = [
        GameEvent::RecvPass { to: Seat::North, cards: hand_from(passes, 0, 3) },
        GameEvent::RecvPass { to: Seat::East, cards: hand_from(passes, 3, 6) },
        GameEvent::RecvPass { to: Seat::South, cards: hand_from(passes, 6, 9) },
        GameEvent::RecvPass { to: Seat::West, cards: hand_from(passes, 9, 12) },
    ];
    proof {
        assert(r@ =~= keeper_of(passes@));
    }
    r
}

/// The text of a seed that has one.
pub open spec fn seed_text(seed: Seed) -> Seq<char> {
    match seed {
        Seed::Chosen { value } => value@,
        Seed::Random { value } => value@,
        Seed::Redacted => Seq::empty(),
    }
}

/// The key a seed gives the generator: the SHA-256 hash of its text in UTF-8.
pub open spec fn key_of(seed: Seed) -> Seq<u8> {
    sha256(vstd::utf8::encode_utf8(seed_text(seed)))
}

/// The deck before it is shuffled: every card, highest first.
pub open spec fn fresh_deck() -> Seq<Card> {
    desc_of(Set::<Card>::full())
}

/// The generator of a game's deals: the ChaCha20 key taken from the seed, and how far into
/// its output the game has drawn, in 32-bit words.
pub struct HashedSeed {
    pub key: Option<[u8; 32]>,
    pub word_pos: u128,
}

impl HashedSeed {
    /// A generator not yet keyed.
    pub fn new() -> (r: Self)
        ensures
            r.key is None,
            r.word_pos == 0,
    {
        HashedSeed { key: None, word_pos: 0 }
    }

    /// The generator keyed by the SHA-256 hash of the seed's text, at the start of its
    /// output. A redacted seed has no text.
    pub fn from(seed: &Seed) -> (r: Self)
        requires
            !(seed is Redacted),
        ensures
            r.key is Some,
            r.key.unwrap()@ == key_of(*seed),
            r.word_pos == 0,
    {
        let value = match seed {
            Seed::Chosen { value } => value,
            Seed::Random { value } => value,
            Seed::Redacted => {
                proof {
                    assert(false);
                }
                return HashedSeed::new();
            },
        };
        let hash = digest(value.as_str().as_bytes());
        HashedSeed { key: Some(hash), word_pos: 0 }
    }

    /// Deals the hand passed in direction `pass`: the deck, highest card first, is shuffled by
    /// the generator on the stream of the direction, from where the game's draws have reached,
    /// and split in four (see `deal_of`). The generator moves on past the draws; each seat gets
    /// thirteen cards and every card goes to one seat.
    pub fn deal(&mut self, pass: PassDirection) -> (r: GameEvent)
        requires
            old(self).key is Some,
            old(self).word_pos < WORD_POS_LIMIT,
        ensures
            final(self).key == old(self).key,
            final(self).word_pos == word_pos_after(
                old(self).key.unwrap()@,
                pass.spec_idx() as u64,
                old(self).word_pos,
                52,
            ),
            r == deal_of(
                shuffled(old(self).key.unwrap()@, pass.spec_idx() as u64, old(self).word_pos, fresh_deck()),
                pass,
            ),
            is_full_deck(
                shuffled(old(self).key.unwrap()@, pass.spec_idx() as u64, old(self).word_pos, fresh_deck()),
            ),
            r matches GameEvent::Deal { north, east, south, west, pass: p } && p == pass
                && partitions_deck(north, east, south, west),
    {
        let key = self.key.unwrap();
        let all = Cards::all();
        let fresh = all.to_vec();
        let ghost before = fresh@;
        proof {
            crate::cards::lemma_full_len();
            assert(before.no_duplicates()) by {
                assert forall|j: int, k: int| 0 <= j < before.len() && 0 <= k < before.len() && j
                    != k implies before[j] != before[k] by {
                    if j < k {
                        assert(before[k].spec_index() < before[j].spec_index());
                    } else {
                        assert(before[j].spec_index() < before[k].spec_index());
                    }
                }
            }
            assert(before.to_set() =~= Set::<Card>::full());
        }
        let (deck, pos) = chacha_shuffle(key, pass.idx(), self.word_pos, fresh);
        self.word_pos = pos;
        proof {
            lemma_same_cards(before, deck@);
        }
        let r = deal_from(&deck, pass);
        proof {
            lemma_deck_splits(deck@);
        }
        r
    }

    /// Scatters the twelve cards of the keeper pass: they are shuffled, highest first, by the
    /// generator on stream four, from where the game's draws have reached, and handed out three
    /// to each seat (see `keeper_of`). The generator moves on past the draws.
    pub fn keeper_pass(&mut self, cards: Cards) -> (r: [GameEvent; 4])
        requires
            old(self).key is Some,
            old(self).word_pos < WORD_POS_LIMIT,
            cards.wf(),
            cards@.len() >= 12,
        ensures
            final(self).key == old(self).key,
            final(self).word_pos == word_pos_after(old(self).key.unwrap()@, 4, old(self).word_pos, cards@.len()),
            r@ == keeper_of(shuffled(old(self).key.unwrap()@, 4, old(self).word_pos, desc_of(cards@))),
            shuffled(old(self).key.unwrap()@, 4, old(self).word_pos, desc_of(cards@)).to_multiset()
                == desc_of(cards@).to_multiset(),
    {
        let key = self.key.unwrap();
        let cards_in_order = cards.to_vec();
        let ghost before = cards_in_order@;
        let (passes, pos) = chacha_shuffle(key, 4, self.word_pos, cards_in_order);
        self.word_pos = pos;
        proof {
            assert(passes@.len() == before.len()) by {
                passes@.to_multiset_ensures();
                before.to_multiset_ensures();
            }
        }
        keeper_from(&passes)
    }
}

/// A rearrangement of a list with no card twice has no card twice and the same cards.
proof fn lemma_same_cards(a: Seq<Card>, b: Seq<Card>)
    requires
        a.no_duplicates(),
        a.to_multiset() == b.to_multiset(),
        a.to_set() == Set::<Card>::full(),
        a.len() == 52,
    ensures
        is_full_deck(b),
{
    a.to_multiset_ensures();
    b.to_multiset_ensures();
    a.lemma_multiset_has_no_duplicates();
    b.lemma_multiset_has_no_duplicates_conv();
    assert(b.to_set() =~= a.to_set()) by {
        assert forall|x: Card| #[trigger] b.to_set().contains(x) == a.to_set().contains(x) by {
            vstd::seq_lib::to_multiset_contains(a, x);
            vstd::seq_lib::to_multiset_contains(b, x);
            assert(a.to_set().contains(x) == a.contains(x));
            assert(b.to_set().contains(x) == b.contains(x));
        }
    }
}

} // verus!
