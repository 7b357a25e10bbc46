//! What bots know of a hand, and how they decide whether to claim the rest of the tricks.
use crate::cards::{lemma_full_len, lemma_suit_len, max_of, min_of, spec_distinct_plays, Card, Cards, Rank, Suit};
use crate::game::event::GameEvent;
use crate::game::charge::is_chargeable;
use crate::game::state::GameState;
use crate::phase::GamePhase;
use crate::seat::Seat;
use vstd::prelude::*;

pub mod chance;
pub mod duck;
pub mod gottatry;
pub mod heuristic;
pub mod random;
pub mod runner;
pub mod simulate;
pub mod void;

verus! {

/// What a bot knows of its own hand: its seat, the hand it was dealt, and the hand it holds
/// after the pass.
#[derive(Clone, Copy, Debug)]
pub struct BotState {
    pub seat: Seat,
    pub pre_pass_hand: Cards,
    pub post_pass_hand: Cards,
}

impl BotState {
    pub open spec fn wf(self) -> bool {
        self.pre_pass_hand.wf() && self.post_pass_hand.wf()
    }
}

/// How a bot weighs a card: fourteen points a rank, plus a bonus that depends on the suit.
pub open spec fn card_key(c: Card, bonus: Seq<usize>) -> int {
    14 * c.spec_rank().spec_idx() + bonus[c.spec_suit().spec_idx() as int]
}

/// `c` has the greatest key in `s`; among equals, the lowest card (the last of them in the
/// order of iteration, which runs from the highest card down).
pub open spec fn picks_max(s: Set<Card>, bonus: Seq<usize>, c: Card) -> bool {
    &&& s.contains(c)
    &&& forall|x: Card| #[trigger] s.contains(x) ==> card_key(x, bonus) <= card_key(c, bonus)
    &&& forall|x: Card|
        #[trigger] s.contains(x) && card_key(x, bonus) == card_key(c, bonus) ==> c.spec_index()
            <= x.spec_index()
}

/// `c` has the smallest key in `s`; among equals, the highest card (the first of them in
/// the order of iteration).
pub open spec fn picks_min(s: Set<Card>, bonus: Seq<usize>, c: Card) -> bool {
    &&& s.contains(c)
    &&& forall|x: Card| #[trigger] s.contains(x) ==> card_key(c, bonus) <= card_key(x, bonus)
    &&& forall|x: Card|
        #[trigger] s.contains(x) && card_key(x, bonus) == card_key(c, bonus) ==> x.spec_index()
            <= c.spec_index()
}

pub open spec fn max_by_key(s: Set<Card>, bonus: Seq<usize>) -> Card {
    choose|c: Card| picks_max(s, bonus, c)
}

pub open spec fn min_by_key(s: Set<Card>, bonus: Seq<usize>) -> Card {
    choose|c: Card| picks_min(s, bonus, c)
}

/// The bonus of each suit, small enough that keys do not overflow.
pub open spec fn small_bonus(bonus: Seq<usize>) -> bool {
    bonus.len() == 4 && forall|i: int| 0 <= i < 4 ==> #[trigger] bonus[i] <= 13
}

/// The card of `cards` with the greatest key (`highest`) or the smallest, ties broken as the
/// iteration from the highest card down breaks them.
pub fn pick_by_key(cards: Cards, bonus: [usize; 4], highest: bool) -> (c: Card)
    requires
        cards.wf(),
        !cards@.is_empty(),
        small_bonus(bonus@),
    ensures
        highest ==> picks_max(cards@, bonus@, c) && c == max_by_key(cards@, bonus@),
        !highest ==> picks_min(cards@, bonus@, c) && c == min_by_key(cards@, bonus@),
{
    let v = cards.to_vec();
    proof {
        cards.lemma_len();
        vstd::set_lib::lemma_set_empty_equivalency_len(cards@);
    }
    let mut best = v[0];
    let mut best_key: usize = 14 * best.rank().idx() as usize + bonus[best.suit().idx()];
    let mut best_k: usize = 0;
    let mut k: usize = 1;
    while k < v.len()
        invariant
            1 <= k <= v@.len(),
            v@.len() == cards@.len(),
            forall|j: int| 0 <= j < v@.len() ==> #[trigger] cards@.contains(v@[j]),
            forall|c: Card| #[trigger] cards@.contains(c) ==> v@.contains(c),
            forall|a: int, b: int|
                0 <= a < b < v@.len() ==> #[trigger] v@[b].spec_index() < #[trigger] v@[a].spec_index(),
            small_bonus(bonus@),
            best_k < k,
            best == v@[best_k as int],
            best_key == card_key(best, bonus@),
            highest ==> forall|j: int|
                0 <= j < k ==> card_key(#[trigger] v@[j], bonus@) <= best_key && (card_key(v@[j], bonus@) == best_key ==> j <= best_k),
            !highest ==> forall|j: int|
                0 <= j < k ==> best_key <= card_key(#[trigger] v@[j], bonus@) && (card_key(v@[j], bonus@) == best_key ==> best_k <= j),
        decreases v@.len() - k,
    {
        let c = v[k];
        proof {
            c.spec_rank().lemma_idx();
            c.spec_suit().lemma_idx();
        }
        let key: usize = 14 * c.rank().idx() as usize + bonus[c.suit().idx()];
        if highest {
            if key >= best_key {
                best = c;
                best_key = key;
                best_k = k;
            }
        } else {
            if key < best_key {
                best = c;
                best_key = key;
                best_k = k;
            }
        }
        k = k + 1;
    }
    proof {
        if highest {
            assert forall|x: Card| #[trigger] cards@.contains(x) implies card_key(x, bonus@)
                <= card_key(best, bonus@) && (card_key(x, bonus@) == card_key(best, bonus@)
                ==> best.spec_index() <= x.spec_index()) by {
                let j = choose|j: int| 0 <= j < v@.len() && v@[j] == x;
                assert(card_key(v@[j], bonus@) <= best_key);
                if card_key(x, bonus@) == card_key(best, bonus@) && j != best_k {
                    assert(j < best_k);
                }
            }
            assert(picks_max(cards@, bonus@, best));
            let m = max_by_key(cards@, bonus@);
            assert(picks_max(cards@, bonus@, m));
            Card::lemma_index_injective(m, best);
        } else {
            assert forall|x: Card| #[trigger] cards@.contains(x) implies card_key(best, bonus@)
                <= card_key(x, bonus@) && (card_key(x, bonus@) == card_key(best, bonus@)
                ==> x.spec_index() <= best.spec_index()) by {
                let j = choose|j: int| 0 <= j < v@.len() && v@[j] == x;
                assert(best_key <= card_key(v@[j], bonus@));
                if card_key(x, bonus@) == card_key(best, bonus@) && j != best_k {
                    assert(best_k < j);
                }
            }
            assert(picks_min(cards@, bonus@, best));
            let m = min_by_key(cards@, bonus@);
            assert(picks_min(cards@, bonus@, m));
            Card::lemma_index_injective(m, best);
        }
    }
    best
}

/// How many cards of each suit `hand` holds.
pub fn suit_lengths(hand: Cards) -> (r: [usize; 4])
    ensures
        forall|i: int| 0 <= i < 4 ==> #[trigger] r@[i] == hand@.intersect(
            Cards::suit_set(Suit::spec_from(i as u8)),
        ).len(),
        small_bonus(r@),
{
    let mut r: [usize; 4] = [0, 0, 0, 0];
    let mut i: usize = 0;
    while i < 4
        invariant
            i <= 4,
            forall|j: int| 0 <= j < i ==> #[trigger] r@[j] == hand@.intersect(
                Cards::suit_set(Suit::spec_from(j as u8)),
            ).len(),
            forall|j: int| 0 <= j < i ==> #[trigger] r@[j] <= 13,
        decreases 4 - i,
    {
        let suit = Suit::from(i as u8);
        let held = hand.intersect(suit.cards());
        proof {
            held.lemma_len();
            lemma_suit_len(suit);
            vstd::set_lib::lemma_len_subset(held@, Cards::suit_set(suit));
        }
        r[i] = held.len();
        i = i + 1;
    }
    r
}

/// Every card of `suit` in `hand` beats every card of that suit still out against it (neither in
/// `hand` nor played).
pub open spec fn suit_is_high(hand: Set<Card>, played: Set<Card>, suit: Suit) -> bool {
    forall|c: Card, x: Card|
        #![trigger hand.contains(c), hand.contains(x)]
        hand.contains(c) && c.spec_suit() == suit && !hand.contains(x) && !played.contains(x)
            && x.spec_suit() == suit ==> x.spec_index() < c.spec_index()
}

/// Every card in `hand` beats every card of its suit that is still out.
pub open spec fn spec_must_claim(hand: Set<Card>, played: Set<Card>) -> bool {
    forall|suit: Suit| #[trigger] suit_is_high(hand, played, suit)
}

/// Whether the holder of `hand`, with `played` gone, cannot lose a trick: every card held beats
/// every unplayed card of its suit held by others.
pub fn must_claim(hand: Cards, played: Cards) -> (r: bool)
    ensures
        r == spec_must_claim(hand@, played@),
{
    let remaining = Cards::all().difference(hand).difference(played);
    let mut i: u8 = 0;
    while i < 4
        invariant
            i <= 4,
            remaining.wf(),
            remaining@ == Set::<Card>::full().difference(hand@).difference(played@),
            forall|k: u8| k < i ==> #[trigger] suit_is_high(hand@, played@, Suit::spec_from(k)),
        decreases 4 - i,
    {
        let suit = Suit::from(i);
        let suit_cards = suit.cards();
        let held = hand.intersect(suit_cards);
        let out = remaining.intersect(suit_cards);
        if !held.is_empty() && !out.is_empty() {
            let low = held.min();
            let high = out.max();
            if low.lt(high) {
                proof {
                    assert(!suit_is_high(hand@, played@, suit)) by {
                        assert(hand@.contains(low) && !hand@.contains(high));
                    }
                    assert(!spec_must_claim(hand@, played@));
                }
                return false;
            }
            proof {
                assert forall|c: Card, x: Card|
                    #![trigger hand@.contains(c), hand@.contains(x)]
                    hand@.contains(c) && c.spec_suit() == suit && !hand@.contains(x)
                        && !played@.contains(x) && x.spec_suit() == suit implies x.spec_index()
                    < c.spec_index() by {
                    assert(held@.contains(c));
                    assert(out@.contains(x));
                    assert(x.spec_index() <= high.spec_index());
                    assert(low.spec_index() <= c.spec_index());
                    assert(high.spec_index() != low.spec_index()) by {
                        Card::lemma_index_injective(high, low);
                    }
                }
            }
        } else {
            proof {
                assert forall|c: Card, x: Card|
                    #![trigger hand@.contains(c), hand@.contains(x)]
                    hand@.contains(c) && c.spec_suit() == suit && !hand@.contains(x)
                        && !played@.contains(x) && x.spec_suit() == suit implies x.spec_index()
                    < c.spec_index() by {
                    assert(held@.contains(c));
                    assert(out@.contains(x));
                }
            }
        }
        i = i + 1;
    }
    proof {
        assert forall|suit: Suit| #[trigger] suit_is_high(hand@, played@, suit) by {
            suit.lemma_idx();
            assert(Suit::spec_from(suit.spec_idx()) == suit);
        }
    }
    true
}

/// The highest card of `remaining` other than `nine`; the nine itself when it is all there is.
pub open spec fn top_of(nine: Card, remaining: Set<Card>) -> Card {
    if remaining == set![nine] {
        nine
    } else {
        max_of(remaining.remove(nine))
    }
}

/// The cards of `legal` that beat `top`.
pub open spec fn winners_of(legal: Set<Card>, top: Card) -> Set<Card> {
    legal.filter(|c: Card| c.spec_suit() == top.spec_suit() && top.spec_lt(c))
}

/// The counting of `losers`, from a state of its loop: `hand` is what is left of the suit in
/// the hand, `remaining` what is left of it elsewhere, `legal` what may be led now, and
/// `had_winner` whether a winner has been cashed. `fuel` bounds the number of rounds, one
/// card of `hand` going in each.
#[verifier::opaque]
pub open spec fn losers_from(
    nine: Card,
    hand: Set<Card>,
    remaining: Set<Card>,
    legal: Set<Card>,
    had_winner: bool,
    fuel: nat,
) -> int
    decreases fuel,
{
    if fuel == 0 || hand.is_empty() {
        0
    } else if remaining.is_empty() {
        if hand.contains(nine) {
            -1
        } else {
            0
        }
    } else {
        let top = top_of(nine, remaining);
        if max_of(legal).spec_lt(top) {
            if had_winner && hand.contains(nine) {
                losers_from(
                    nine,
                    hand.remove(nine),
                    remaining.remove(min_of(remaining)),
                    legal,
                    had_winner,
                    (fuel - 1) as nat,
                )
            } else if top == nine && hand.len() == 2 && top.spec_lt(max_of(hand)) {
                0
            } else if max_of(hand).spec_lt(top) {
                hand.len() as int
            } else {
                legal.len() as int
            }
        } else if winners_of(legal, top) == set![nine] {
            let hand1 = hand.remove(nine);
            let remaining1 = remaining.remove(min_of(remaining));
            if hand1.is_empty() {
                -1
            } else {
                let hand2 = hand1.remove(min_of(hand1));
                let remaining2 = if remaining1.is_empty() {
                    remaining1
                } else {
                    remaining1.remove(min_of(remaining1))
                };
                losers_from(nine, hand2, remaining2, hand2, true, (fuel - 1) as nat)
            }
        } else {
            let hand1 = hand.remove(min_of(winners_of(legal, top).remove(nine)));
            losers_from(
                nine,
                hand1,
                remaining.remove(min_of(remaining)),
                hand1,
                true,
                (fuel - 1) as nat,
            )
        }
    }
}

proof fn lemma_losers_end(
    nine: Card,
    hand: Set<Card>,
    remaining: Set<Card>,
    legal: Set<Card>,
    had_winner: bool,
    fuel: nat,
)
    requires
        fuel > 0,
    ensures
        hand.is_empty() ==> losers_from(nine, hand, remaining, legal, had_winner, fuel) == 0,
        !hand.is_empty() && remaining.is_empty() ==> losers_from(
            nine,
            hand,
            remaining,
            legal,
            had_winner,
            fuel,
        ) == if hand.contains(nine) {
            -1int
        } else {
            0int
        },
{
    reveal_with_fuel(losers_from, 1);
}

proof fn lemma_losers_low(
    nine: Card,
    hand: Set<Card>,
    remaining: Set<Card>,
    legal: Set<Card>,
    had_winner: bool,
    fuel: nat,
)
    requires
        fuel > 0,
        !hand.is_empty(),
        !remaining.is_empty(),
        max_of(legal).spec_lt(top_of(nine, remaining)),
    ensures
        had_winner && hand.contains(nine) ==> losers_from(
            nine,
            hand,
            remaining,
            legal,
            had_winner,
            fuel,
        ) == losers_from(
            nine,
            hand.remove(nine),
            remaining.remove(min_of(remaining)),
            legal,
            had_winner,
            (fuel - 1) as nat,
        ),
        !(had_winner && hand.contains(nine)) ==> losers_from(
            nine,
            hand,
            remaining,
            legal,
            had_winner,
            fuel,
        ) == (if top_of(nine, remaining) == nine && hand.len() == 2 && top_of(
            nine,
            remaining,
        ).spec_lt(max_of(hand)) {
            0
        } else if max_of(hand).spec_lt(top_of(nine, remaining)) {
            hand.len() as int
        } else {
            legal.len() as int
        }),
{
    reveal_with_fuel(losers_from, 1);
}

proof fn lemma_losers_nine(
    nine: Card,
    hand: Set<Card>,
    remaining: Set<Card>,
    legal: Set<Card>,
    had_winner: bool,
    fuel: nat,
)
    requires
        fuel > 0,
        !hand.is_empty(),
        !remaining.is_empty(),
        !max_of(legal).spec_lt(top_of(nine, remaining)),
        winners_of(legal, top_of(nine, remaining)) == set![nine],
    ensures
        hand.remove(nine).is_empty() ==> losers_from(
            nine,
            hand,
            remaining,
            legal,
            had_winner,
            fuel,
        ) == -1,
        !hand.remove(nine).is_empty() ==> losers_from(
            nine,
            hand,
            remaining,
            legal,
            had_winner,
            fuel,
        ) == ({
            let hand1 = hand.remove(nine);
            let remaining1 = remaining.remove(min_of(remaining));
            let hand2 = hand1.remove(min_of(hand1));
            let remaining2 = if remaining1.is_empty() {
                remaining1
            } else {
                remaining1.remove(min_of(remaining1))
            };
            losers_from(nine, hand2, remaining2, hand2, true, (fuel - 1) as nat)
        }),
{
    reveal_with_fuel(losers_from, 1);
}

proof fn lemma_losers_win(
    nine: Card,
    hand: Set<Card>,
    remaining: Set<Card>,
    legal: Set<Card>,
    had_winner: bool,
    fuel: nat,
)
    requires
        fuel > 0,
        !hand.is_empty(),
        !remaining.is_empty(),
        !max_of(legal).spec_lt(top_of(nine, remaining)),
        winners_of(legal, top_of(nine, remaining)) != set![nine],
    ensures
        losers_from(nine, hand, remaining, legal, had_winner, fuel) == ({
            let hand1 = hand.remove(
                min_of(winners_of(legal, top_of(nine, remaining)).remove(nine)),
            );
            losers_from(
                nine,
                hand1,
                remaining.remove(min_of(remaining)),
                hand1,
                true,
                (fuel - 1) as nat,
            )
        }),
{
    reveal_with_fuel(losers_from, 1);
}

/// The tricks of `suit` that the holder of `hand` is counted to lose when leading it out.
/// Winners are cashed from the top; the nine of the suit lets the trick go round again, so a
/// hand left with the nine wins the last trick twice over (counted as minus one); charged cards
/// may not be led on the first trick of a suit unless there is nothing else to lead.
pub open spec fn spec_losers(suit: Suit, hand: Set<Card>, state: GameState) -> int {
    let held = hand.intersect(Cards::suit_set(suit));
    let remaining = Cards::suit_set(suit).difference(held).difference(state.played@);
    let nine = Card::spec_new(Rank::Nine, suit);
    let legal = if held.len() == 1 || state.led_suits@.contains(suit) {
        held
    } else {
        held.difference(state.charges.all_set())
    };
    losers_from(nine, held, remaining, legal, false, 64)
}

/// Of a suit's cards, at most one can be charged.
proof fn lemma_one_charged(charged: Set<Card>, suit: Suit, a: Card, b: Card)
    requires
        forall|c: Card| #[trigger] charged.contains(c) ==> is_chargeable(c),
        charged.contains(a),
        charged.contains(b),
        a.spec_suit() == suit,
        b.spec_suit() == suit,
    ensures
        a == b,
{
}

/// Counts the tricks of `suit` that the holder of `hand` would lose leading the suit out.
#[verifier::rlimit(40)]
pub fn losers(suit: Suit, hand: Cards, state: &GameState) -> (r: i8)
    ensures
        r == spec_losers(suit, hand@, *state),
        -1 <= r <= 13,
{
    let suit_cards = suit.cards();
    let mut held = hand.intersect(suit_cards);
    let mut remaining = suit_cards.difference(held).difference(state.played);
    let nine = suit.with_rank(Rank::Nine);
    let charged = state.charges.all_charges();
    let n = held.len();
    let mut legal = if n == 1 || state.led_suits.contains(suit) {
        held
    } else {
        held.difference(charged)
    };
    let mut had_winner = false;
    let ghost mut fuel: nat = 64;
    proof {
        held.lemma_len();
        if !held@.is_empty() && legal@.is_empty() {
            let a = held@.choose();
            assert(held@.contains(a));
            assert(held@.len() != 1);
            assert(held@.remove(a).len() > 0);
            let b = held@.remove(a).choose();
            assert(held@.remove(a).contains(b));
            assert forall|c: Card| #[trigger] state.charges.all_set().contains(c) implies is_chargeable(c) by {
                let s = choose|s: crate::seat::Seat| #[trigger] state.charges.charged(s, c);
                state.charges.lemma_charged_chargeable(s, c);
            }
            assert(!legal@.contains(a) && !legal@.contains(b));
            lemma_one_charged(state.charges.all_set(), suit, a, b);
        }
    }
    loop
        invariant
            held.wf(),
            remaining.wf(),
            legal.wf(),
            nine == Card::spec_new(Rank::Nine, suit),
            forall|c: Card| #[trigger] held@.contains(c) ==> c.spec_suit() == suit,
            forall|c: Card| #[trigger] legal@.contains(c) ==> c.spec_suit() == suit,
            forall|c: Card| #[trigger] remaining@.contains(c) ==> c.spec_suit() == suit,
            forall|c: Card| #[trigger] remaining@.contains(c) ==> !held@.contains(c),
            forall|c: Card| #[trigger] remaining@.contains(c) ==> !legal@.contains(c),
            forall|c: Card| #[trigger] legal@.contains(c) && c != nine ==> held@.contains(c),
            !held@.is_empty() ==> !legal@.is_empty(),
            held@.len() <= fuel,
            losers_from(nine, held@, remaining@, legal@, had_winner, fuel) == spec_losers(
                suit,
                hand@,
                *state,
            ),
        decreases fuel,
    {
        let ghost h0 = held@;
        let ghost r0 = remaining@;
        let ghost l0 = legal@;
        let ghost f0 = fuel;
        proof {
            held.lemma_len();
            remaining.lemma_len();
            legal.lemma_len();
            Cards::lemma_empty(held);
            Cards::lemma_empty(remaining);
            Cards::lemma_empty(legal);
            vstd::set_lib::lemma_set_empty_equivalency_len(held@);
            if f0 > 0 {
                lemma_losers_end(nine, h0, r0, l0, had_winner, f0);
            }
        }
        if held.is_empty() {
            proof {
                assert(h0.is_empty());
                if f0 == 0 {
                    reveal_with_fuel(losers_from, 1);
                }
            }
            return 0;
        }
        proof {
            assert(!h0.is_empty());
            assert(f0 > 0);
        }
        if remaining.is_empty() {
            proof {
                assert(r0.is_empty());
            }
            return if held.contains(nine) {
                -1
            } else {
                0
            };
        }
        let nine_only = Cards::from(nine);
        let top = if remaining == nine_only {
            nine
        } else {
            let rest = remaining.difference(nine_only);
            proof {
                if r0 == set![nine] {
                    Cards::lemma_view_injective(remaining, nine_only);
                }
                assert(rest@ =~= r0.remove(nine));
                Cards::lemma_empty(rest);
                if rest@.is_empty() {
                    let c = r0.choose();
                    assert(r0.contains(c));
                    assert(c == nine) by {
                        assert(!rest@.contains(c));
                    }
                    assert(r0 =~= set![nine]);
                }
            }
            rest.max()
        };
        proof {
            assert(top == top_of(nine, r0));
            assert(r0.contains(top));
        }
        let legal_max = legal.max();
        if legal_max.lt(top) {
            proof {
                lemma_losers_low(nine, h0, r0, l0, had_winner, f0);
            }
            if had_winner && held.contains(nine) {
                let low = remaining.min();
                held.remove(nine);
                remaining.remove(low);
                proof {
                    assert(held@.len() == h0.len() - 1);
                    fuel = (fuel - 1) as nat;
                }
                continue;
            }
            let held_max = held.max();
            if top == nine && held.len() == 2 && top.lt(held_max) {
                return 0;
            }
            proof {
                lemma_suit_len(suit);
                assert(held@.subset_of(Cards::suit_set(suit)));
                assert(legal@.subset_of(Cards::suit_set(suit)));
                vstd::set_lib::lemma_len_subset(held@, Cards::suit_set(suit));
                vstd::set_lib::lemma_len_subset(legal@, Cards::suit_set(suit));
            }
            return if held_max.lt(top) {
                held.len() as i8
            } else {
                legal.len() as i8
            };
        }
        let winners = legal.above(top);
        proof {
            assert(winners@ =~= winners_of(l0, top));
            assert(winners@.contains(legal_max)) by {
                assert(legal_max.spec_index() != top.spec_index()) by {
                    Card::lemma_index_injective(legal_max, top);
                }
            }
        }
        if winners == nine_only {
            proof {
                Cards::lemma_view_injective(winners, nine_only);
                lemma_losers_nine(nine, h0, r0, l0, had_winner, f0);
            }
            let low = remaining.min();
            held.remove(nine);
            remaining.remove(low);
            proof {
                Cards::lemma_empty(held);
                held.lemma_len();
            }
            if held.is_empty() {
                return -1;
            }
            let low_held = held.min();
            held.remove(low_held);
            proof {
                Cards::lemma_empty(remaining);
                remaining.lemma_len();
            }
            if !remaining.is_empty() {
                let low2 = remaining.min();
                remaining.remove(low2);
            }
            proof {
                assert(held@.len() < h0.len());
            }
        } else {
            let others = winners.difference(nine_only);
            proof {
                if winners@ == set![nine] {
                    Cards::lemma_view_injective(winners, nine_only);
                }
                lemma_losers_win(nine, h0, r0, l0, had_winner, f0);
                assert(others@ =~= winners@.remove(nine));
                Cards::lemma_empty(others);
                if others@.is_empty() {
                    assert(winners@ =~= set![nine]);
                }
            }
            let low_winner = others.min();
            let low = remaining.min();
            held.remove(low_winner);
            remaining.remove(low);
            proof {
                assert(h0.contains(low_winner));
                assert(held@.len() < h0.len());
            }
        }
        legal = held;
        had_winner = true;
        proof {
            fuel = (fuel - 1) as nat;
        }
    }
}

/// Whether the leader, holding `hand`, is counted to lose no trick: no losers outside hearts
/// and none in all, or, once hearts are broken, none in all.
pub open spec fn spec_can_leader_claim(hand: Set<Card>, state: GameState) -> bool {
    let heart_losers = spec_losers(Suit::Hearts, hand, state);
    let other_losers = spec_losers(Suit::Spades, hand, state) + spec_losers(
        Suit::Diamonds,
        hand,
        state,
    ) + spec_losers(Suit::Clubs, hand, state);
    if !state.played@.disjoint(Cards::suit_set(Suit::Hearts)) {
        heart_losers + other_losers <= 0
    } else {
        other_losers <= 0 && heart_losers + other_losers <= 0
    }
}

/// Whether the player on lead holding `hand` can claim the rest of the tricks.
pub fn can_leader_claim(hand: Cards, state: &GameState) -> (r: bool)
    ensures
        r == spec_can_leader_claim(hand@, *state),
{
    let heart_losers = losers(Suit::Hearts, hand, state);
    let other_losers = losers(Suit::Spades, hand, state) + losers(Suit::Diamonds, hand, state)
        + losers(Suit::Clubs, hand, state);
    let hearts = Cards::hearts();
    let broken = state.played.contains_any(hearts);
    proof {
        if broken {
            let c = choose|c: Card| state.played@.contains(c) && #[trigger] hearts@.contains(c);
            assert(state.played@.contains(c) && Cards::suit_set(Suit::Hearts).contains(c));
        } else {
            assert(state.played@.disjoint(Cards::suit_set(Suit::Hearts))) by {
                assert forall|c: Card| #[trigger] state.played@.contains(c) implies !Cards::suit_set(Suit::Hearts).contains(c) by {
                    assert(!hearts@.contains(c));
                }
            }
        }
    }
    if broken {
        heart_losers + other_losers <= 0
    } else {
        other_losers <= 0 && heart_losers + other_losers <= 0
    }
}

/// The trick is over and `seat` does not lead the next one: it has lost a trick.
pub open spec fn lost_lead(seat: Seat, state: GameState) -> bool {
    state.current_trick@.len() == 0 && state.next_actor != Some(seat)
}

/// Whether `seat`, holding `hand`, can take every remaining trick from `state` whatever the
/// others play: on lead it is counted to lose no trick; on its turn some play (tried from the
/// highest, one of each run of cards that play alike) keeps the lead and lets it claim; on
/// another player's turn every card that player might hold lets it claim. `fuel` counts the
/// cards still to be played.
pub open spec fn claims_from(seat: Seat, hand: Set<Card>, state: GameState, fuel: nat) -> bool
    decreases fuel, 65nat,
{
    if fuel == 0 {
        false
    } else if state.current_trick@.len() == 0 && state.next_actor == Some(seat) {
        spec_can_leader_claim(hand, state)
    } else {
        match state.next_actor {
            Some(actor) => if actor == seat {
                own_plays(
                    seat,
                    hand,
                    state,
                    spec_distinct_plays(state.spec_legal_plays(hand), state.played@),
                    fuel,
                    64,
                )
            } else {
                others_plays(
                    seat,
                    actor,
                    hand,
                    state,
                    spec_distinct_plays(
                        Set::<Card>::full().difference(state.played@).difference(hand),
                        state.played@,
                    ),
                    fuel,
                    64,
                )
            },
            None => false,
        }
    }
}

/// Some card of `cands`, tried from the highest, lets `seat` keep the lead and claim; the
/// first that loses the lead ends the search.
pub open spec fn own_plays(
    seat: Seat,
    hand: Set<Card>,
    state: GameState,
    cands: Set<Card>,
    fuel: nat,
    k: nat,
) -> bool
    decreases fuel, k,
{
    if k == 0 || fuel == 0 || cands.is_empty() {
        false
    } else {
        let c = max_of(cands);
        let next = state.play_result(seat, c);
        if lost_lead(seat, next) {
            false
        } else if claims_from(seat, hand.remove(c), next, (fuel - 1) as nat) {
            true
        } else {
            own_plays(seat, hand, state, cands.remove(c), fuel, (k - 1) as nat)
        }
    }
}

/// Every card of `cands` that `actor` might play, tried from the highest, leaves `seat` the
/// lead and able to claim.
pub open spec fn others_plays(
    seat: Seat,
    actor: Seat,
    hand: Set<Card>,
    state: GameState,
    cands: Set<Card>,
    fuel: nat,
    k: nat,
) -> bool
    decreases fuel, k,
{
    if k == 0 || fuel == 0 || cands.is_empty() {
        true
    } else {
        let c = max_of(cands);
        let next = state.play_result(actor, c);
        if lost_lead(seat, next) {
            false
        } else if !claims_from(seat, hand, next, (fuel - 1) as nat) {
            false
        } else {
            others_plays(seat, actor, hand, state, cands.remove(c), fuel, (k - 1) as nat)
        }
    }
}

/// Whether `seat`, holding `hand`, can take every remaining trick from `state` (see
/// `claims_from`).
pub open spec fn spec_can_claim(seat: Seat, hand: Set<Card>, state: GameState) -> bool {
    claims_from(seat, hand, state, (64 - state.played.spec_len()) as nat)
}

/// Whether `seat`, holding `hand`, can take every remaining trick whatever the others play.
pub fn can_claim(seat: Seat, hand: Cards, state: &GameState) -> (r: bool)
    requires
        state.consistent(),
        state.phase != GamePhase::Complete || state.played@ == Set::<Card>::full(),
        hand.wf(),
    ensures
        r == spec_can_claim(seat, hand@, *state),
    decreases 64 - state.played.spec_len(),
{
    proof {
        state.played.lemma_len();
        lemma_full_len();
        vstd::set_lib::lemma_len_subset(state.played@, Set::<Card>::full());
    }
    let ghost fuel: nat = (64 - state.played.spec_len()) as nat;
    let leads = match state.next_actor {
        Some(s) => s == seat,
        None => false,
    };
    if state.current_trick.is_empty() && leads {
        return can_leader_claim(hand, state);
    }
    let actor = match state.next_actor {
        Some(s) => s,
        None => {
            return false;
        },
    };
    let own = actor == seat;
    let cands = if own {
        state.legal_plays(hand).distinct_plays(state.played)
    } else {
        Cards::all().difference(state.played).difference(hand).distinct_plays(state.played)
    };
    proof {
        state.lemma_legal_plays_in_hand(hand@);
        cands.lemma_len();
    }
    let v = cands.to_vec();
    let n = cands.len();
    proof {
        assert(v@.subrange(0, v@.len() as int) =~= v@);
        assert(v@.to_set() =~= cands@) by {
            assert forall|c: Card| v@.to_set().contains(c) == cands@.contains(c) by {
                if v@.contains(c) {
                    let j = choose|j: int| 0 <= j < v@.len() && v@[j] == c;
                    assert(cands@.contains(v@[j]));
                }
            }
        }
        assert(fuel > 0);
        assert forall|c: Card| #[trigger] cands@.contains(c) implies !state.played@.contains(c) by {
            if own {
                assert(state.spec_legal_plays(hand@).contains(c));
            }
        }
    }
    let mut i: usize = 0;
    while i < v.len()
        invariant
            i <= v@.len(),
            v@.len() == cands@.len(),
            cands@.len() <= 64,
            state.consistent(),
            state.phase != GamePhase::Complete || state.played@ == Set::<Card>::full(),
            hand.wf(),
            fuel == 64 - state.played.spec_len(),
            fuel > 0,
            state.played@.len() == state.played.spec_len(),
            state.next_actor == Some(actor),
            own == (actor == seat),
            !(state.current_trick@.len() == 0 && actor == seat),
            forall|j: int| 0 <= j < v@.len() ==> #[trigger] cands@.contains(v@[j]),
            forall|c: Card| #[trigger] cands@.contains(c) ==> !state.played@.contains(c),
            forall|a: int, b: int|
                0 <= a < b < v@.len() ==> #[trigger] v@[b].spec_index() < #[trigger] v@[a].spec_index(),
            spec_can_claim(seat, hand@, *state) == if own {
                own_plays(seat, hand@, *state, v@.subrange(i as int, v@.len() as int).to_set(), fuel, (64 - i) as nat)
            } else {
                others_plays(seat, actor, hand@, *state, v@.subrange(i as int, v@.len() as int).to_set(), fuel, (64 - i) as nat)
            },
        decreases v@.len() - i,
    {
        let c = v[i];
        let ghost rest = v@.subrange(i as int, v@.len() as int).to_set();
        proof {
            assert(rest.contains(c)) by {
                assert(v@.subrange(i as int, v@.len() as int)[0] == c);
            }
            assert(max_of(rest) == c) by {
                assert forall|x: Card| #[trigger] rest.contains(x) implies x.spec_index() <= c.spec_index() by {
                    let w = v@.subrange(i as int, v@.len() as int);
                    let j = choose|j: int| 0 <= j < w.len() && w[j] == x;
                    if j > 0 {
                        assert(v@[i + j].spec_index() < v@[i as int].spec_index());
                    }
                }
                crate::cards::lemma_max_of(rest, c);
            }
            let whole = v@.subrange(i as int, v@.len() as int);
            let tail = v@.subrange(i + 1, v@.len() as int);
            assert(rest.remove(c) =~= tail.to_set()) by {
                assert forall|x: Card| rest.remove(c).contains(x) == tail.to_set().contains(x) by {
                    if rest.remove(c).contains(x) {
                        let j = choose|j: int| 0 <= j < whole.len() && whole[j] == x;
                        assert(j != 0);
                        assert(tail[j - 1] == x);
                    }
                    if tail.contains(x) {
                        let j = choose|j: int| 0 <= j < tail.len() && tail[j] == x;
                        assert(whole[j + 1] == x);
                        assert(v@[i + 1 + j].spec_index() < v@[i as int].spec_index());
                    }
                }
            }
            assert(!rest.is_empty());
            assert(cands@.contains(c));
            assert(!state.played@.contains(c));
            assert(state.phase != GamePhase::Complete) by {
                if state.played@ == Set::<Card>::full() {
                    assert(state.played@.contains(c));
                }
            }
            state.lemma_play_applies(actor, c);
        }
        let mut next = *state;
        next.apply(&GameEvent::Play { seat: actor, card: c });
        proof {
            state.lemma_play_consistent(next, actor, c);
            next.played.lemma_len();
            state.played.lemma_len();
            assert(next.played@ == state.played@.insert(c));
            assert(next.played.spec_len() == state.played.spec_len() + 1);
            if next.played@ != Set::<Card>::full() {
                assert(next.phase == state.phase);
            }
        }
        let next_leads = match next.next_actor {
            Some(s) => s == seat,
            None => false,
        };
        if next.current_trick.is_empty() && !next_leads {
            return false;
        }
        if own {
            if can_claim(seat, hand.without(c), &next) {
                return true;
            }
        } else {
            if !can_claim(seat, hand, &next) {
                return false;
            }
        }
        i = i + 1;
    }
    proof {
        assert(v@.subrange(i as int, v@.len() as int).to_set() =~= Set::<Card>::empty());
    }
    !own
}

} // verus!
