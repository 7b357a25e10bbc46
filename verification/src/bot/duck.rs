//! A bot that ducks: it passes and plays its highest cards where it can without winning.
use crate::bot::random::RandomBot;
use crate::bot::{max_by_key, pick_by_key, small_bonus, suit_lengths, BotState};
use crate::cards::{is_max, lemma_max_exists, lemma_max_of, max_of, Card, Cards, Suit};
use crate::game::event::GameEvent;
use crate::game::state::GameState;
use vstd::prelude::*;

verus! {

/// The number of cards of the suit of position `i` in `hand`.
pub open spec fn suit_len(hand: Set<Card>, i: int) -> nat {
    hand.intersect(Cards::suit_set(Suit::spec_from(i as u8))).len()
}

/// High cards of short suits weigh most.
pub open spec fn duck_bonus(hand: Set<Card>) -> Seq<usize> {
    Seq::new(4, |i: int| (13 - suit_len(hand, i)) as usize)
}

/// The card a ducking bot most wants to be rid of.
pub open spec fn duck_worst(hand: Set<Card>) -> Card {
    max_by_key(hand, duck_bonus(hand))
}

/// The worst card, then the worst of the rest, then the worst of what is left.
pub open spec fn duck_pass(hand: Set<Card>) -> Set<Card> {
    let first = duck_worst(hand);
    let second = duck_worst(hand.remove(first));
    let third = duck_worst(hand.remove(first).remove(second));
    set![first, second, third]
}

/// The play of a ducking bot that follows to a trick: unable to follow, its worst card;
/// otherwise its highest card below the one winning the trick, or failing that its highest.
pub open spec fn duck_follow(bot_state: BotState, game_state: GameState) -> Card {
    let cards = game_state.spec_legal_plays(bot_state.post_pass_hand@);
    let trick = game_state.current_trick@;
    let suit = trick[0].spec_suit();
    if cards.disjoint(Cards::suit_set(suit)) {
        max_by_key(cards, duck_bonus(bot_state.post_pass_hand@.difference(game_state.played@)))
    } else {
        let winner = max_of(trick.to_set().intersect(Cards::suit_set(suit)));
        let lower = cards.filter(|c: Card| c.spec_lt(winner));
        if lower.is_empty() {
            max_of(cards)
        } else {
            max_of(lower)
        }
    }
}

/// The card of `hand` a ducking bot most wants to be rid of.
pub fn duck_worst_card(hand: Cards) -> (c: Card)
    requires
        hand.wf(),
        !hand@.is_empty(),
    ensures
        c == duck_worst(hand@),
        hand@.contains(c),
{
    let lens = suit_lengths(hand);
    let bonus: [usize; 4] = [13 - lens[0], 13 - lens[1], 13 - lens[2], 13 - lens[3]];
    proof {
        assert(bonus@ =~= duck_bonus(hand@));
    }
    pick_by_key(hand, bonus, true)
}

pub struct DuckBot;

impl DuckBot {
    pub fn new() -> Self {
        Self
    }

    /// The three cards the bot most wants to be rid of.
    pub fn pass(&mut self, bot_state: &BotState, _game_state: &GameState) -> (r: Cards)
        requires
            bot_state.pre_pass_hand.wf(),
            bot_state.pre_pass_hand@.len() >= 3,
        ensures
            r.wf(),
            r@ == duck_pass(bot_state.pre_pass_hand@),
    {
        let mut hand = bot_state.pre_pass_hand;
        let mut pass = Cards::none();
        let mut i: usize = 0;
        let ghost h0 = hand@;
        proof {
            hand.lemma_len();
        }
        while i < 3
            invariant
                i <= 3,
                hand.wf(),
                pass.wf(),
                h0 == bot_state.pre_pass_hand@,
                h0.finite(),
                h0.len() >= 3,
                hand@.finite(),
                hand@.len() == h0.len() - i,
                i == 0 ==> hand@ == h0 && pass@ == Set::<Card>::empty(),
                i == 1 ==> hand@ == h0.remove(duck_worst(h0)) && pass@ == set![duck_worst(h0)],
                i == 2 ==> hand@ == h0.remove(duck_worst(h0)).remove(
                    duck_worst(h0.remove(duck_worst(h0))),
                ) && pass@ == set![duck_worst(h0), duck_worst(h0.remove(duck_worst(h0)))],
                i == 3 ==> pass@ == duck_pass(h0),
            decreases 3 - i,
        {
            proof {
                hand.lemma_len();
                vstd::set_lib::lemma_set_empty_equivalency_len(hand@);
            }
            let worst = duck_worst_card(hand);
            pass.insert(worst);
            hand.remove(worst);
            i = i + 1;
        }
        pass
    }

    /// A ducking bot never charges.
    pub fn charge(&mut self, _bot_state: &BotState, _game_state: &GameState) -> (r: Cards)
        ensures
            r.wf(),
            r@ == Set::<Card>::empty(),
    {
        Cards::none()
    }

    /// On lead, a random legal card; following, the card of `duck_follow`.
    pub fn play(&mut self, bot_state: &BotState, game_state: &GameState) -> (c: Card)
        requires
            game_state.wf(),
            bot_state.post_pass_hand.wf(),
            !game_state.spec_legal_plays(bot_state.post_pass_hand@).is_empty(),
        ensures
            game_state.spec_legal_plays(bot_state.post_pass_hand@).contains(c),
            game_state.current_trick@.len() > 0 ==> c == duck_follow(*bot_state, *game_state),
    {
        let cards = game_state.legal_plays(bot_state.post_pass_hand);
        if game_state.current_trick.is_empty() {
            return RandomBot::new().play(bot_state, game_state);
        }
        proof {
            Cards::lemma_empty(cards);
            game_state.current_trick.lemma_wf();
        }
        let suit = game_state.current_trick.suit();
        let suit_cards = suit.cards();
        if !suit_cards.contains_any(cards) {
            proof {
                assert(cards@.disjoint(Cards::suit_set(suit))) by {
                    assert forall|c: Card| #[trigger] cards@.contains(c) implies !Cards::suit_set(
                        suit,
                    ).contains(c) by {
                        assert(!suit_cards@.contains(c));
                    }
                }
            }
            let left = bot_state.post_pass_hand.difference(game_state.played);
            let lens = suit_lengths(left);
            let bonus: [usize; 4] = [13 - lens[0], 13 - lens[1], 13 - lens[2], 13 - lens[3]];
            proof {
                assert(bonus@ =~= duck_bonus(left@));
            }
            return pick_by_key(cards, bonus, true);
        }
        proof {
            let c = choose|c: Card| suit_cards@.contains(c) && #[trigger] cards@.contains(c);
            assert(Cards::suit_set(suit).contains(c));
            assert(!cards@.disjoint(Cards::suit_set(suit)));
        }
        let in_suit = game_state.current_trick.cards().intersect(suit_cards);
        proof {
            let t = game_state.current_trick@;
            assert(t.to_set().contains(t[0]));
            assert(in_suit@.contains(t[0]));
            Cards::lemma_empty(in_suit);
        }
        let winner = in_suit.max();
        let lower = cards.lower(winner);
        proof {
            Cards::lemma_empty(lower);
        }
        if lower.is_empty() {
            cards.max()
        } else {
            lower.max()
        }
    }

    pub fn on_event(&mut self, _bot_state: &BotState, _game_state: &GameState, _event: &GameEvent) {
    }
}

/// The ducking bot ducks: following to a trick in which `winner` is the highest card of the suit
/// led, when some legal play of that suit ranks below `winner`, the bot plays a legal card of
/// that suit ranking below `winner`, so that it does not take the trick with it.
pub proof fn lemma_duck_ducks(bot_state: BotState, game_state: GameState, winner: Card)
    requires
        bot_state.post_pass_hand.wf(),
        game_state.current_trick@.len() > 0,
        game_state.current_trick@.contains(winner),
        winner.spec_suit() == game_state.current_trick@[0].spec_suit(),
        forall|x: Card|
            #[trigger] game_state.current_trick@.contains(x) && x.spec_suit() == winner.spec_suit()
                ==> x.spec_rank().spec_idx() <= winner.spec_rank().spec_idx(),
        exists|c: Card|
            #[trigger] game_state.spec_legal_plays(bot_state.post_pass_hand@).contains(c)
                && c.spec_suit() == winner.spec_suit() && c.spec_rank().spec_idx()
                < winner.spec_rank().spec_idx(),
    ensures
        game_state.spec_legal_plays(bot_state.post_pass_hand@).contains(
            duck_follow(bot_state, game_state),
        ),
        duck_follow(bot_state, game_state).spec_suit() == winner.spec_suit(),
        duck_follow(bot_state, game_state).spec_rank().spec_idx() < winner.spec_rank().spec_idx(),
{
    let hand = bot_state.post_pass_hand@;
    let legal = game_state.spec_legal_plays(hand);
    let trick = game_state.current_trick@;
    let suit = winner.spec_suit();
    let c = choose|c: Card|
        #[trigger] legal.contains(c) && c.spec_suit() == suit && c.spec_rank().spec_idx()
            < winner.spec_rank().spec_idx();
    bot_state.post_pass_hand.lemma_len();
    game_state.lemma_legal_plays_in_hand(hand);
    vstd::set_lib::lemma_len_subset(legal, hand);
    winner.lemma_parts();
    c.lemma_parts();
    assert(!legal.disjoint(Cards::suit_set(suit))) by {
        assert(Cards::suit_set(suit).contains(c));
    }
    let led = trick.to_set().intersect(Cards::suit_set(suit));
    assert(is_max(led, winner)) by {
        assert forall|x: Card| #[trigger] led.contains(x) implies x.spec_index() <= winner.spec_index() by {
            x.lemma_parts();
            assert(trick.contains(x));
        }
    }
    lemma_max_of(led, winner);
    let lower = legal.filter(|d: Card| d.spec_lt(winner));
    assert(lower.contains(c));
    vstd::set_lib::lemma_len_subset(lower, legal);
    lemma_max_exists(lower, c);
    let d = max_of(lower);
    assert(lower.contains(d));
    d.lemma_parts();
    assert(c.spec_index() <= d.spec_index());
    assert(d.spec_index() < winner.spec_index());
    assert(d.spec_suit().spec_idx() == suit.spec_idx());
    d.spec_suit().lemma_idx();
    suit.lemma_idx();
    assert(d.spec_suit() == suit);
    assert(!lower.is_empty());
}

} // verus!
