//! A bot that follows rules of thumb: it passes away the cards that would take points, charges
//! when its hand can protect the charged card, and plays to shed the queen of spades and the
//! ten of clubs onto others.
use crate::bot::chance::random_below;
use crate::bot::BotState;
use crate::cards::{lemma_suit_len, max_of, Card, Cards, Rank, Suit};
use crate::game::trick::trick_winner;
use crate::game::event::GameEvent;
use crate::game::state::GameState;
use vstd::prelude::*;

verus! {

pub open spec fn check_cards(k: int) -> Set<Card> {
    if k == 0 {
        set![Card::QueenSpades]
    } else if k == 1 {
        set![Card::AceSpades]
    } else if k == 2 {
        set![Card::KingSpades]
    } else if k == 3 {
        set![Card::TenClubs]
    } else if k == 4 {
        set![Card::AceClubs]
    } else if k == 5 {
        set![Card::KingClubs]
    } else if k == 6 {
        set![Card::QueenClubs]
    } else if k == 7 {
        set![Card::JackClubs]
    } else if k == 8 {
        Cards::suit_set(Suit::Hearts)
    } else if k == 9 {
        Cards::suit_set(Suit::Clubs)
    } else if k == 10 {
        Cards::suit_set(Suit::Diamonds)
    } else if k == 11 {
        set![Card::QueenSpades]
    } else if k == 12 {
        set![Card::AceSpades]
    } else if k == 13 {
        set![Card::KingSpades]
    } else if k == 14 {
        set![Card::TenClubs]
    } else if k == 15 {
        set![Card::AceClubs]
    } else if k == 16 {
        set![Card::KingClubs]
    } else if k == 17 {
        set![Card::QueenClubs]
    } else if k == 18 {
        set![Card::JackClubs]
    } else if k == 19 {
        Cards::suit_set(Suit::Hearts)
    } else if k == 20 {
        Cards::suit_set(Suit::Clubs)
    } else if k == 21 {
        Cards::suit_set(Suit::Diamonds)
    } else if k == 22 {
        Cards::suit_set(Suit::Spades)
    } else if k == 23 {
        Cards::suit_set(Suit::Hearts)
    } else if k == 24 {
        Cards::suit_set(Suit::Clubs)
    } else if k == 25 {
        Cards::suit_set(Suit::Diamonds)
    } else {
        Cards::suit_set(Suit::Spades)
    }

}

pub open spec fn check_suit(k: int) -> Suit {
    if k == 0 {
        Suit::Spades
    } else if k == 1 {
        Suit::Spades
    } else if k == 2 {
        Suit::Spades
    } else if k == 3 {
        Suit::Clubs
    } else if k == 4 {
        Suit::Clubs
    } else if k == 5 {
        Suit::Clubs
    } else if k == 6 {
        Suit::Clubs
    } else if k == 7 {
        Suit::Clubs
    } else if k == 8 {
        Suit::Hearts
    } else if k == 9 {
        Suit::Clubs
    } else if k == 10 {
        Suit::Diamonds
    } else if k == 11 {
        Suit::Spades
    } else if k == 12 {
        Suit::Spades
    } else if k == 13 {
        Suit::Spades
    } else if k == 14 {
        Suit::Clubs
    } else if k == 15 {
        Suit::Clubs
    } else if k == 16 {
        Suit::Clubs
    } else if k == 17 {
        Suit::Clubs
    } else if k == 18 {
        Suit::Clubs
    } else if k == 19 {
        Suit::Hearts
    } else if k == 20 {
        Suit::Clubs
    } else if k == 21 {
        Suit::Diamonds
    } else if k == 22 {
        Suit::Spades
    } else if k == 23 {
        Suit::Hearts
    } else if k == 24 {
        Suit::Clubs
    } else if k == 25 {
        Suit::Diamonds
    } else {
        Suit::Spades
    }

}

pub open spec fn check_limit(k: int) -> nat {
    if k == 0 {
        2
    } else if k == 1 {
        2
    } else if k == 2 {
        2
    } else if k == 3 {
        2
    } else if k == 4 {
        2
    } else if k == 5 {
        2
    } else if k == 6 {
        2
    } else if k == 7 {
        2
    } else if k == 8 {
        1
    } else if k == 9 {
        1
    } else if k == 10 {
        1
    } else if k == 11 {
        4
    } else if k == 12 {
        4
    } else if k == 13 {
        4
    } else if k == 14 {
        4
    } else if k == 15 {
        4
    } else if k == 16 {
        4
    } else if k == 17 {
        4
    } else if k == 18 {
        4
    } else if k == 19 {
        2
    } else if k == 20 {
        2
    } else if k == 21 {
        2
    } else if k == 22 {
        1
    } else if k == 23 {
        13
    } else if k == 24 {
        13
    } else if k == 25 {
        13
    } else {
        13
    }

}

/// The check of position `k` in the order in which the passing bot considers its cards.
pub fn check_at(k: usize) -> (r: (Cards, Suit, usize))
    requires
        k < 27,
    ensures
        r.0.wf(),
        r.0@ == check_cards(k as int),
        r.1 == check_suit(k as int),
        r.2 == check_limit(k as int),
{
    match k {
            0 => (Cards::from(Card::QueenSpades), Suit::Spades, 2),
            1 => (Cards::from(Card::AceSpades), Suit::Spades, 2),
            2 => (Cards::from(Card::KingSpades), Suit::Spades, 2),
            3 => (Cards::from(Card::TenClubs), Suit::Clubs, 2),
            4 => (Cards::from(Card::AceClubs), Suit::Clubs, 2),
            5 => (Cards::from(Card::KingClubs), Suit::Clubs, 2),
            6 => (Cards::from(Card::QueenClubs), Suit::Clubs, 2),
            7 => (Cards::from(Card::JackClubs), Suit::Clubs, 2),
            8 => (Cards::hearts(), Suit::Hearts, 1),
            9 => (Cards::clubs(), Suit::Clubs, 1),
            10 => (Cards::diamonds(), Suit::Diamonds, 1),
            11 => (Cards::from(Card::QueenSpades), Suit::Spades, 4),
            12 => (Cards::from(Card::AceSpades), Suit::Spades, 4),
            13 => (Cards::from(Card::KingSpades), Suit::Spades, 4),
            14 => (Cards::from(Card::TenClubs), Suit::Clubs, 4),
            15 => (Cards::from(Card::AceClubs), Suit::Clubs, 4),
            16 => (Cards::from(Card::KingClubs), Suit::Clubs, 4),
            17 => (Cards::from(Card::QueenClubs), Suit::Clubs, 4),
            18 => (Cards::from(Card::JackClubs), Suit::Clubs, 4),
            19 => (Cards::hearts(), Suit::Hearts, 2),
            20 => (Cards::clubs(), Suit::Clubs, 2),
            21 => (Cards::diamonds(), Suit::Diamonds, 2),
            22 => (Cards::spades(), Suit::Spades, 1),
            23 => (Cards::hearts(), Suit::Hearts, 13),
            24 => (Cards::clubs(), Suit::Clubs, 13),
            25 => (Cards::diamonds(), Suit::Diamonds, 13),
            _ => (Cards::spades(), Suit::Spades, 13),
    }
}

/// The check of position `k` fires on `hand`: the hand holds one of its cards, and no more
/// than its limit of the suit.
pub open spec fn fires(hand: Set<Card>, k: int) -> bool {
    !hand.disjoint(check_cards(k)) && hand.intersect(Cards::suit_set(check_suit(k))).len()
        <= check_limit(k)
}

/// The first check from position `k` on that fires; 27 when none does.
pub open spec fn first_firing(hand: Set<Card>, k: nat) -> nat
    decreases 27 - k,
{
    if k >= 27 {
        27
    } else if fires(hand, k as int) {
        k
    } else {
        first_firing(hand, k + 1)
    }
}

/// What is left of `hand` once cards are passed away, by the first check that fires, until ten
/// are left (`fuel` bounds the rounds).
pub open spec fn shed(hand: Set<Card>, fuel: nat) -> Set<Card>
    decreases fuel,
{
    if fuel == 0 || hand.len() <= 10 {
        hand
    } else {
        let k = first_firing(hand, 0);
        if k >= 27 {
            hand
        } else {
            shed(hand.remove(max_of(hand.intersect(check_cards(k as int)))), (fuel - 1) as nat)
        }
    }
}

/// The hand after a lone heart, or else the second highest heart, is put aside for passing.
pub open spec fn shed_heart(hand: Set<Card>) -> Set<Card> {
    let hearts = hand.intersect(Cards::suit_set(Suit::Hearts));
    if hearts.is_empty() {
        hand
    } else if hearts.len() == 1 {
        hand.difference(Cards::suit_set(Suit::Hearts))
    } else {
        hand.remove(max_of(hearts.remove(max_of(hearts))))
    }
}

/// The pass of the heuristic bot.
pub open spec fn heuristic_pass(hand: Set<Card>) -> Set<Card> {
    hand.difference(shed(shed_heart(hand), 64))
}

proof fn lemma_first_firing(hand: Set<Card>, j: nat, k: nat)
    requires
        j <= k < 27,
        fires(hand, k as int),
        forall|i: int| j <= i < k ==> !#[trigger] fires(hand, i),
    ensures
        first_firing(hand, j) == k,
    decreases k - j,
{
    if j < k {
        lemma_first_firing(hand, j + 1, k);
    }
}

/// The position of the last check, which takes any card of `suit`.
pub open spec fn last_check(suit: Suit) -> int {
    match suit {
        Suit::Hearts => 23,
        Suit::Clubs => 24,
        Suit::Diamonds => 25,
        Suit::Spades => 26,
    }
}

/// `cards` holds a card ranked below five.
pub open spec fn has_low_card(cards: Set<Card>) -> bool {
    exists|c: Card| #[trigger] cards.contains(c) && c.spec_rank().spec_idx() < 3
}

/// A card that wins tricks: a king or an ace, or the queen of spades.
pub open spec fn is_high(c: Card) -> bool {
    c == Card::QueenSpades || c.spec_rank().spec_idx() > 10
}

/// The cards of `s` of `card`'s suit ranked below it.
pub open spec fn below_set(s: Set<Card>, card: Card) -> Set<Card> {
    s.filter(|c: Card| c.spec_suit() == card.spec_suit() && c.spec_lt(card))
}

/// The cards of `s` of `card`'s suit ranked above it.
pub open spec fn above_set(s: Set<Card>, card: Card) -> Set<Card> {
    s.filter(|c: Card| c.spec_suit() == card.spec_suit() && card.spec_lt(c))
}

/// Whether `cards` holds a card ranked below five.
pub fn any_low(cards: Cards) -> (r: bool)
    requires
        cards.wf(),
    ensures
        r == has_low_card(cards@),
{
    let v = cards.to_vec();
    let mut i: usize = 0;
    while i < v.len()
        invariant
            i <= v@.len(),
            forall|k: int| 0 <= k < v@.len() ==> #[trigger] cards@.contains(v@[k]),
            forall|k: int| 0 <= k < i ==> (#[trigger] v@[k]).spec_rank().spec_idx() >= 3,
        decreases v@.len() - i,
    {
        if v[i].rank().idx() < 3 {
            proof {
                assert(cards@.contains(v@[i as int]));
            }
            return true;
        }
        i = i + 1;
    }
    proof {
        assert forall|c: Card| #[trigger] cards@.contains(c) implies c.spec_rank().spec_idx() >= 3 by {
            let k = choose|k: int| 0 <= k < v@.len() && v@[k] == c;
            assert(v@[k] == c);
        }
    }
    false
}

/// How many high cards `cards` holds.
pub fn count_high(cards: Cards) -> (n: usize)
    requires
        cards.wf(),
    ensures
        n == cards@.filter(|c: Card| is_high(c)).len(),
{
    let v = cards.to_vec();
    let mut r = Cards::none();
    let mut i: usize = 0;
    while i < v.len()
        invariant
            i <= v@.len(),
            r.wf(),
            forall|c: Card| #[trigger] r@.contains(c) <==> (exists|k: int| 0 <= k < i && v@[k] == c) && is_high(c),
        decreases v@.len() - i,
    {
        let c = v[i];
        proof {
            c.spec_rank().lemma_idx();
        }
        if c == Card::QueenSpades || c.rank().idx() > 10 {
            r.insert(c);
            proof {
                assert forall|d: Card| #[trigger] r@.contains(d) <==> (exists|k: int| 0 <= k < i + 1 && v@[k] == d) && is_high(d) by {
                    if d == c {
                        assert(v@[i as int] == d);
                    } else if exists|k: int| 0 <= k < i + 1 && v@[k] == d {
                        let k = choose|k: int| 0 <= k < i + 1 && v@[k] == d;
                        assert(k != i);
                    }
                }
            }
        } else {
            proof {
                assert forall|d: Card| #[trigger] r@.contains(d) <==> (exists|k: int| 0 <= k < i + 1 && v@[k] == d) && is_high(d) by {
                    if exists|k: int| 0 <= k < i + 1 && v@[k] == d {
                        let k = choose|k: int| 0 <= k < i + 1 && v@[k] == d;
                        if k == i {
                            assert(d == c);
                        }
                    }
                }
            }
        }
        i = i + 1;
    }
    proof {
        assert forall|c: Card| r@.contains(c) == cards@.filter(|c: Card| is_high(c)).contains(c) by {
            if cards@.contains(c) {
                assert(v@.contains(c));
            }
            if r@.contains(c) {
                let k = choose|k: int| 0 <= k < v@.len() && v@[k] == c;
                assert(cards@.contains(v@[k]));
            }
        }
        assert(r@ =~= cards@.filter(|c: Card| is_high(c)));
    }
    r.len()
}

/// The cards the heuristic bot charges, holding `hand` and having charged `own` already: the
/// queen of spades (or ten of clubs) when it holds six of the suit, or five and the nine, and a
/// low card to get out with; the ace of hearts when it holds three hearts below the eight; and
/// the jack of diamonds when it holds the high diamonds, or enough diamonds and other winners.
pub open spec fn heuristic_charge(hand: Set<Card>, own: Set<Card>) -> Set<Card> {
    let chargeable = hand.difference(own);
    let spades = hand.intersect(Cards::suit_set(Suit::Spades));
    let clubs = hand.intersect(Cards::suit_set(Suit::Clubs));
    let hearts = hand.intersect(Cards::suit_set(Suit::Hearts));
    let diamonds = hand.intersect(Cards::suit_set(Suit::Diamonds));
    let queen = chargeable.contains(Card::QueenSpades) && (spades.len() >= 6 || (spades.len() >= 5
        && hand.contains(Card::NineSpades))) && has_low_card(
        hand.difference(Cards::suit_set(Suit::Spades)).remove(Card::TwoClubs),
    );
    let ten = chargeable.contains(Card::TenClubs) && (clubs.len() >= 6 || (clubs.len() >= 5
        && hand.contains(Card::NineClubs))) && has_low_card(
        hand.difference(Cards::suit_set(Suit::Clubs)),
    );
    let ace = chargeable.contains(Card::AceHearts) && below_set(hearts, Card::EightHearts).len()
        >= 3;
    let high_diamonds = above_set(diamonds, Card::JackDiamonds).len();
    let high_cards = hand.difference(Cards::suit_set(Suit::Diamonds)).filter(
        |c: Card| is_high(c),
    ).len();
    let jack = chargeable.contains(Card::JackDiamonds) && (high_diamonds == 3 || (diamonds.len()
        >= 5 && high_diamonds == 2 && high_cards > 1) || (diamonds.len() >= 6 && high_diamonds
        == 1 && high_cards > 2));
    Set::new(
        |c: Card|
            (c == Card::QueenSpades && queen) || (c == Card::TenClubs && ten) || (c
                == Card::AceHearts && ace) || (c == Card::JackDiamonds && jack),
    )
}

/// The cards among which the heuristic bot picks its play at random (one card when its rules
/// fix the play). With one legal play, that card. On lead: low spades, when the queen is out and
/// it is safe to drill spades; high spades, when the queen has been charged and spades not led;
/// the queen, when only higher spades are out; the same with clubs and the ten. Following:
/// the queen, or the ten, when the bot would not win the trick with it. Otherwise any legal
/// play.
pub open spec fn heuristic_options(bot_state: BotState, game_state: GameState) -> Set<Card> {
    let cards = game_state.spec_legal_plays(bot_state.post_pass_hand@);
    let remaining = Set::<Card>::full().difference(bot_state.post_pass_hand@).difference(
        game_state.played@,
    );
    let trick = game_state.current_trick@;
    if cards.len() == 1 {
        cards
    } else if trick.len() == 0 {
        let spades = cards.intersect(Cards::suit_set(Suit::Spades));
        let low_spades = below_set(spades, Card::QueenSpades);
        let high_spades = above_set(spades, Card::QueenSpades);
        let other_spades = remaining.intersect(Cards::suit_set(Suit::Spades));
        let clubs = cards.intersect(Cards::suit_set(Suit::Clubs));
        let low_clubs = below_set(clubs, Card::TenClubs);
        let high_clubs = above_set(clubs, Card::TenClubs);
        let other_clubs = remaining.intersect(Cards::suit_set(Suit::Clubs));
        let spade_lead = remaining.contains(Card::QueenSpades) && !spades.is_empty();
        let club_lead = remaining.contains(Card::TenClubs) && !clubs.is_empty();
        if spade_lead && (high_spades.is_empty() || low_spades.len() >= 4 || (low_spades.len()
            >= 3 && other_spades.len() <= 8) || (low_spades.len() >= 2 && other_spades.len()
            <= 4)) {
            low_spades
        } else if spade_lead && !high_spades.is_empty() && game_state.charges.all_set().contains(
            Card::QueenSpades,
        ) && !game_state.led_suits@.contains(Suit::Spades) {
            high_spades
        } else if cards.contains(Card::QueenSpades) && below_set(
            remaining,
            Card::QueenSpades,
        ).is_empty() && !above_set(remaining, Card::QueenSpades).is_empty() {
            set![Card::QueenSpades]
        } else if club_lead && (high_clubs.is_empty() || low_clubs.len() >= 4 || (low_clubs.len()
            >= 3 && other_clubs.len() <= 9) || (low_clubs.len() >= 2 && other_clubs.len() <= 5)) {
            low_clubs
        } else if cards.contains(Card::TenClubs) && below_set(remaining, Card::TenClubs).is_empty()
            && !above_set(remaining, Card::TenClubs).is_empty() {
            set![Card::TenClubs]
        } else {
            cards
        }
    } else {
        let trick_set = trick.to_set();
        let suit = trick[0].spec_suit();
        let loses = trick_winner(trick, bot_state.seat) != bot_state.seat;
        if cards.contains(Card::QueenSpades) && loses && (suit != Suit::Spades || !above_set(
            trick_set,
            Card::QueenSpades,
        ).is_empty()) {
            set![Card::QueenSpades]
        } else if cards.contains(Card::TenClubs) && loses && (suit != Suit::Clubs || !above_set(
            trick_set,
            Card::TenClubs,
        ).is_empty()) {
            set![Card::TenClubs]
        } else {
            cards
        }
    }
}

/// The heuristic bot only ever plays a legal card.
pub proof fn lemma_options_legal(bot_state: BotState, game_state: GameState)
    requires
        game_state.wf(),
    ensures
        heuristic_options(bot_state, game_state).subset_of(
            game_state.spec_legal_plays(bot_state.post_pass_hand@),
        ),
{
    let cards = game_state.spec_legal_plays(bot_state.post_pass_hand@);
    game_state.lemma_legal_plays_in_hand(bot_state.post_pass_hand@);
    assert forall|c: Card| #[trigger] heuristic_options(bot_state, game_state).contains(c)
        implies cards.contains(c) by {
    }
}

/// A card of `cards` drawn at random.
pub fn random(cards: Cards) -> (c: Card)
    requires
        cards.wf(),
        !cards@.is_empty(),
    ensures
        cards@.contains(c),
{
    proof {
        cards.lemma_len();
        vstd::set_lib::lemma_set_empty_equivalency_len(cards@);
    }
    let index = random_below(cards.len());
    cards.nth(index)
}

pub struct HeuristicBot;

impl HeuristicBot {
    pub fn new() -> Self {
        Self
    }

    /// A lone heart or the second highest heart, then cards by the first check that fires,
    /// until ten are left.
    pub fn pass(&mut self, bot_state: &BotState, _game_state: &GameState) -> (r: Cards)
        requires
            bot_state.pre_pass_hand.wf(),
        ensures
            r.wf(),
            r@ == heuristic_pass(bot_state.pre_pass_hand@),
    {
        let pre = bot_state.pre_pass_hand;
        let mut hand = pre;
        let hearts_cards = Cards::hearts();
        let hearts = hand.intersect(hearts_cards);
        proof {
            Cards::lemma_empty(hearts);
            hearts.lemma_len();
        }
        if !hearts.is_empty() {
            if hearts.len() == 1 {
                hand.remove_all(hearts_cards);
            } else {
                proof {
                    vstd::set_lib::lemma_set_empty_equivalency_len(hearts@);
                }
                let top = hearts.max();
                let rest = hearts.without(top);
                proof {
                    Cards::lemma_empty(rest);
                    rest.lemma_len();
                    vstd::set_lib::lemma_set_empty_equivalency_len(rest@);
                }
                let second = rest.max();
                hand.remove(second);
            }
        }
        proof {
            assert(hand@ == shed_heart(pre@));
            hand.lemma_len();
            pre.lemma_len();
            vstd::set_lib::lemma_len_subset(hand@, pre@);
        }
        let n0 = hand.len();
        let ghost mut fuel: nat = 64;
        while hand.len() > 10
            invariant
                hand.wf(),
                hand@.len() <= fuel,
                shed(hand@, fuel) == shed(shed_heart(pre@), 64),
                hand@.subset_of(pre@),
            decreases fuel,
        {
            proof {
                hand.lemma_len();
                vstd::set_lib::lemma_set_empty_equivalency_len(hand@);
            }
            let ghost c0 = hand@.choose();
            let ghost j0 = last_check(c0.spec_suit());
            proof {
                assert(hand@.contains(c0));
                lemma_suit_len(c0.spec_suit());
                vstd::set_lib::lemma_len_subset(
                    hand@.intersect(Cards::suit_set(c0.spec_suit())),
                    Cards::suit_set(c0.spec_suit()),
                );
                assert(check_cards(j0).contains(c0));
                assert(fires(hand@, j0));
            }
            let mut k: usize = 0;
            loop
                invariant
                    hand.wf(),
                    k <= j0,
                    23 <= j0 <= 26,
                    fires(hand@, j0),
                    forall|i: int| 0 <= i < k ==> !#[trigger] fires(hand@, i),
                ensures
                    k <= 26,
                    fires(hand@, k as int),
                    forall|i: int| 0 <= i < k ==> !#[trigger] fires(hand@, i),
                decreases j0 - k,
            {
                let (cards, suit, limit) = check_at(k);
                let in_suit = hand.intersect(suit.cards());
                proof {
                    in_suit.lemma_len();
                }
                if hand.contains_any(cards) && in_suit.len() <= limit {
                    proof {
                        let c = choose|c: Card| hand@.contains(c) && #[trigger] cards@.contains(c);
                        assert(!hand@.disjoint(check_cards(k as int))) by {
                            assert(hand@.contains(c) && check_cards(k as int).contains(c));
                        }
                    }
                    break;
                }
                proof {
                    if fires(hand@, k as int) {
                        let c = choose|c: Card| hand@.contains(c) && check_cards(k as int).contains(c);
                        assert(cards@.contains(c));
                    }
                }
                k = k + 1;
            }
            let (cards, _suit, _limit) = check_at(k);
            let held = hand.intersect(cards);
            proof {
                let c = choose|c: Card| hand@.contains(c) && #[trigger] check_cards(k as int).contains(c);
                assert(held@.contains(c));
                Cards::lemma_empty(held);
                lemma_first_firing(hand@, 0, k as nat);
            }
            let card = held.max();
            hand.remove(card);
            proof {
                fuel = (fuel - 1) as nat;
            }
        }
        proof {
            hand.lemma_len();
            assert(shed(hand@, fuel) == hand@);
        }
        pre.difference(hand)
    }

    /// The cards of `heuristic_charge`.
    pub fn charge(&mut self, bot_state: &BotState, game_state: &GameState) -> (r: Cards)
        requires
            bot_state.post_pass_hand.wf(),
        ensures
            r.wf(),
            r@ == heuristic_charge(
                bot_state.post_pass_hand@,
                game_state.charges.seat_set(bot_state.seat),
            ),
    {
        let hand = bot_state.post_pass_hand;
        let chargeable = hand.difference(game_state.charges.charges(bot_state.seat));
        let mut charge = Cards::none();
        if chargeable.contains(Card::QueenSpades) {
            let spades = hand.intersect(Cards::spades());
            let n = spades.len();
            proof {
                spades.lemma_len();
            }
            if n >= 6 || (n >= 5 && hand.contains(Card::NineSpades)) {
                if any_low(hand.difference(Cards::spades()).without(Card::TwoClubs)) {
                    charge.insert(Card::QueenSpades);
                }
            }
        }
        if chargeable.contains(Card::TenClubs) {
            let clubs = hand.intersect(Cards::clubs());
            let n = clubs.len();
            proof {
                clubs.lemma_len();
            }
            if n >= 6 || (n >= 5 && hand.contains(Card::NineClubs)) {
                if any_low(hand.difference(Cards::clubs())) {
                    charge.insert(Card::TenClubs);
                }
            }
        }
        if chargeable.contains(Card::AceHearts) {
            let hearts = hand.intersect(Cards::hearts());
            let low = hearts.below(Card::EightHearts);
            proof {
                low.lemma_len();
            }
            if low.len() >= 3 {
                charge.insert(Card::AceHearts);
            }
        }
        if chargeable.contains(Card::JackDiamonds) {
            let diamonds = hand.intersect(Cards::diamonds());
            let high = diamonds.above(Card::JackDiamonds);
            let n = diamonds.len();
            let high_diamonds = high.len();
            let high_cards = count_high(hand.difference(Cards::diamonds()));
            proof {
                diamonds.lemma_len();
                high.lemma_len();
            }
            if high_diamonds == 3 || (n >= 5 && high_diamonds == 2 && high_cards > 1) || (n >= 6
                && high_diamonds == 1 && high_cards > 2) {
                charge.insert(Card::JackDiamonds);
            }
        }
        proof {
            assert(charge@ =~= heuristic_charge(
                bot_state.post_pass_hand@,
                game_state.charges.seat_set(bot_state.seat),
            ));
        }
        charge
    }

    /// A card of `heuristic_options`.
    pub fn play(&mut self, bot_state: &BotState, game_state: &GameState) -> (c: Card)
        requires
            game_state.wf(),
            bot_state.post_pass_hand.wf(),
            !game_state.spec_legal_plays(bot_state.post_pass_hand@).is_empty(),
        ensures
            heuristic_options(*bot_state, *game_state).contains(c),
    {
        let cards = game_state.legal_plays(bot_state.post_pass_hand);
        proof {
            cards.lemma_len();
            game_state.lemma_legal_plays_in_hand(bot_state.post_pass_hand@);
            game_state.current_trick.lemma_wf();
        }
        if cards.len() == 1 {
            proof {
                Cards::lemma_empty(cards);
            }
            return cards.max();
        }
        let remaining = Cards::all().difference(bot_state.post_pass_hand).difference(
            game_state.played,
        );
        if game_state.current_trick.is_empty() {
            let spades = cards.intersect(Cards::spades());
            proof {
                Cards::lemma_empty(spades);
            }
            if remaining.contains(Card::QueenSpades) && !spades.is_empty() {
                let low = spades.below(Card::QueenSpades);
                let high = spades.above(Card::QueenSpades);
                let other = remaining.intersect(Cards::spades());
                proof {
                    low.lemma_len();
                    high.lemma_len();
                    other.lemma_len();
                    Cards::lemma_empty(high);
                    Cards::lemma_empty(low);
                    vstd::set_lib::lemma_set_empty_equivalency_len(low@);
                    if low@.is_empty() && high@.is_empty() {
                        let s = Cards::lemma_some_card(spades);
                        assert(spades@.contains(s));
                        assert(s != Card::QueenSpades);
                        assert(s.spec_index() != Card::QueenSpades.spec_index()) by {
                            Card::lemma_index_injective(s, Card::QueenSpades);
                        }
                        assert(low@.contains(s) || high@.contains(s));
                    }
                }
                if high.is_empty() || low.len() >= 4 || (low.len() >= 3 && other.len() <= 8) || (
                low.len() >= 2 && other.len() <= 4) {
                    return random(low);
                }
                if !high.is_empty() && game_state.charges.is_charged(Card::QueenSpades)
                    && !game_state.led_suits.contains(Suit::Spades) {
                    return random(high);
                }
            }
            let queen = Card::QueenSpades;
            let below_queen = remaining.below(queen);
            let above_queen = remaining.above(queen);
            proof {
                Cards::lemma_empty(below_queen);
                Cards::lemma_empty(above_queen);
            }
            if cards.contains(queen) && below_queen.is_empty() && !above_queen.is_empty() {
                return queen;
            }
            let clubs = cards.intersect(Cards::clubs());
            proof {
                Cards::lemma_empty(clubs);
            }
            if remaining.contains(Card::TenClubs) && !clubs.is_empty() {
                let low = clubs.below(Card::TenClubs);
                let high = clubs.above(Card::TenClubs);
                let other = remaining.intersect(Cards::clubs());
                proof {
                    low.lemma_len();
                    high.lemma_len();
                    other.lemma_len();
                    Cards::lemma_empty(high);
                    Cards::lemma_empty(low);
                    vstd::set_lib::lemma_set_empty_equivalency_len(low@);
                    if low@.is_empty() && high@.is_empty() {
                        let s = Cards::lemma_some_card(clubs);
                        assert(clubs@.contains(s));
                        assert(s != Card::TenClubs);
                        assert(s.spec_index() != Card::TenClubs.spec_index()) by {
                            Card::lemma_index_injective(s, Card::TenClubs);
                        }
                        assert(low@.contains(s) || high@.contains(s));
                    }
                }
                if high.is_empty() || low.len() >= 4 || (low.len() >= 3 && other.len() <= 9) || (
                low.len() >= 2 && other.len() <= 5) {
                    return random(low);
                }
            }
            let ten = Card::TenClubs;
            let below_ten = remaining.below(ten);
            let above_ten = remaining.above(ten);
            proof {
                Cards::lemma_empty(below_ten);
                Cards::lemma_empty(above_ten);
            }
            if cards.contains(ten) && below_ten.is_empty() && !above_ten.is_empty() {
                return ten;
            }
        } else {
            let trick = game_state.current_trick.cards();
            let suit = game_state.current_trick.suit();
            let winner = game_state.current_trick.winning_seat(bot_state.seat);
            let above_queen = trick.above(Card::QueenSpades);
            let above_ten = trick.above(Card::TenClubs);
            proof {
                Cards::lemma_empty(above_queen);
                Cards::lemma_empty(above_ten);
            }
            if cards.contains(Card::QueenSpades) && winner != bot_state.seat && (suit
                != Suit::Spades || !above_queen.is_empty()) {
                return Card::QueenSpades;
            }
            if cards.contains(Card::TenClubs) && winner != bot_state.seat && (suit != Suit::Clubs
                || !above_ten.is_empty()) {
                return Card::TenClubs;
            }
        }
        proof {
            Cards::lemma_empty(cards);
        }
        random(cards)
    }

    pub fn on_event(&mut self, _bot_state: &BotState, _game_state: &GameState, _event: &GameEvent) {
    }
}

} // verus!
