//! A bot that goes for every point: it keeps its high cards and takes tricks with points in
//! them, until someone else takes a point.
use crate::bot::duck::{duck_follow, suit_len, DuckBot};
use crate::bot::random::RandomBot;
use crate::bot::{max_by_key, min_by_key, pick_by_key, suit_lengths, BotState};
use crate::cards::{Card, Cards};
use crate::game::event::GameEvent;
use crate::game::state::GameState;
use crate::game::won::WonState;
use crate::seat::Seat;
use vstd::prelude::*;

verus! {

/// High cards of long suits weigh most.
pub open spec fn gotta_bonus(hand: Set<Card>) -> Seq<usize> {
    Seq::new(4, |i: int| suit_len(hand, i) as usize)
}

/// The card the bot least wants to keep.
pub open spec fn gotta_worst(hand: Set<Card>) -> Card {
    min_by_key(hand, gotta_bonus(hand))
}

pub open spec fn gotta_pass(hand: Set<Card>) -> Set<Card> {
    let first = gotta_worst(hand);
    let second = gotta_worst(hand.remove(first));
    let third = gotta_worst(hand.remove(first).remove(second));
    set![first, second, third]
}

/// A player other than `seat` has taken a card that scores.
pub open spec fn others_took_points(won: WonState, seat: Seat) -> bool {
    exists|s: Seat|
        s != seat && (#[trigger] won.spec_hearts(s) > 0 || won.spec_queen(s) || won.spec_jack(s))
}

/// The card of `hand` the bot least wants to keep.
pub fn gotta_worst_card(hand: Cards) -> (c: Card)
    requires
        hand.wf(),
        !hand@.is_empty(),
    ensures
        c == gotta_worst(hand@),
        hand@.contains(c),
{
    let lens = suit_lengths(hand);
    proof {
        assert(lens@ =~= gotta_bonus(hand@));
    }
    pick_by_key(hand, lens, false)
}

/// Whether `seat` has taken a card that scores.
pub fn took_points(won: &WonState, seat: Seat) -> (r: bool)
    ensures
        r == won.took(seat),
{
    won.hearts(seat) > 0 || won.queen(seat) || won.jack(seat)
}

pub struct GottaTryBot;

/// `c` is a play the gotta-try bot may make: a legal play, which, when following, is the duck's
/// once someone else has taken a point or when it cannot follow a trick holding points; else
/// its best card in a trick holding points, and its least wanted card otherwise.
pub open spec fn gotta_play(bot_state: BotState, game_state: GameState, c: Card) -> bool {
    let cards = game_state.spec_legal_plays(bot_state.post_pass_hand@);
    let trick = game_state.current_trick@;
    let left = bot_state.post_pass_hand@.difference(game_state.played@);
    let trick_points = !trick.to_set().disjoint(Cards::points_set());
    let follows = !cards.disjoint(Cards::suit_set(trick[0].spec_suit()));
    &&& cards.contains(c)
    &&& trick.len() > 0 ==> if others_took_points(game_state.won, bot_state.seat) || (trick_points
        && !follows) {
        c == duck_follow(bot_state, game_state)
    } else if trick_points {
        c == max_by_key(cards, gotta_bonus(left))
    } else {
        c == min_by_key(cards, gotta_bonus(left))
    }
}

impl GottaTryBot {
    pub fn new() -> Self {
        Self
    }

    /// Passes the three cards it least wants, one at a time.
    pub fn pass(&mut self, bot_state: &BotState, _game_state: &GameState) -> (r: Cards)
        requires
            bot_state.pre_pass_hand.wf(),
            bot_state.pre_pass_hand@.len() >= 3,
        ensures
            r.wf(),
            r@ == gotta_pass(bot_state.pre_pass_hand@),
    {
        let mut hand = bot_state.pre_pass_hand;
        let mut pass = Cards::none();
        let mut i: usize = 0;
        let ghost h0 = hand@;
        proof {
            hand.lemma_len();
        }
        while i < 3
            invariant
                i <= 3,
                hand.wf(),
                pass.wf(),
                h0 == bot_state.pre_pass_hand@,
                h0.finite(),
                h0.len() >= 3,
                hand@.finite(),
                hand@.len() == h0.len() - i,
                i == 0 ==> hand@ == h0 && pass@ == Set::<Card>::empty(),
                i == 1 ==> hand@ == h0.remove(gotta_worst(h0)) && pass@ == set![gotta_worst(h0)],
                i == 2 ==> hand@ == h0.remove(gotta_worst(h0)).remove(
                    gotta_worst(h0.remove(gotta_worst(h0))),
                ) && pass@ == set![gotta_worst(h0), gotta_worst(h0.remove(gotta_worst(h0)))],
                i == 3 ==> pass@ == gotta_pass(h0),
            decreases 3 - i,
        {
            proof {
                hand.lemma_len();
                vstd::set_lib::lemma_set_empty_equivalency_len(hand@);
            }
            let worst = gotta_worst_card(hand);
            pass.insert(worst);
            hand.remove(worst);
            i = i + 1;
        }
        pass
    }

    /// Every chargeable card it holds that it has not charged yet.
    pub fn charge(&mut self, bot_state: &BotState, game_state: &GameState) -> (r: Cards)
        requires
            bot_state.post_pass_hand.wf(),
        ensures
            r.wf(),
            r@ == bot_state.post_pass_hand@.intersect(Cards::chargeable_set()).difference(
                game_state.charges.seat_set(bot_state.seat),
            ),
    {
        bot_state.post_pass_hand.intersect(Cards::chargeable()).difference(
            game_state.charges.charges(bot_state.seat),
        )
    }

    /// Once someone else has taken a point, it ducks. Otherwise it leads at random, takes a
    /// trick holding points with its best card when it can follow, and otherwise plays its
    /// least wanted card.
    pub fn play(&mut self, bot_state: &BotState, game_state: &GameState) -> (c: Card)
        requires
            game_state.wf(),
            bot_state.post_pass_hand.wf(),
            !game_state.spec_legal_plays(bot_state.post_pass_hand@).is_empty(),
        ensures
            gotta_play(*bot_state, *game_state, c),
    {
        let cards = game_state.legal_plays(bot_state.post_pass_hand);
        let seat = bot_state.seat;
        let others = (Seat::North != seat && took_points(&game_state.won, Seat::North)) || (
        Seat::East != seat && took_points(&game_state.won, Seat::East)) || (Seat::South != seat
            && took_points(&game_state.won, Seat::South)) || (Seat::West != seat && took_points(
            &game_state.won,
            Seat::West,
        ));
        proof {
            if others {
                if Seat::North != seat && game_state.won.took(Seat::North) {
                    assert(game_state.won.spec_hearts(Seat::North) >= 0);
                } else if Seat::East != seat && game_state.won.took(Seat::East) {
                    assert(game_state.won.spec_hearts(Seat::East) >= 0);
                } else if Seat::South != seat && game_state.won.took(Seat::South) {
                    assert(game_state.won.spec_hearts(Seat::South) >= 0);
                } else {
                    assert(game_state.won.spec_hearts(Seat::West) >= 0);
                }
            } else {
                assert forall|t: Seat|
                    t != seat implies !(#[trigger] game_state.won.spec_hearts(t) > 0
                    || game_state.won.spec_queen(t) || game_state.won.spec_jack(t)) by {
                    match t {
                        Seat::North => {},
                        Seat::East => {},
                        Seat::South => {},
                        Seat::West => {},
                    }
                }
            }
        }
        if others {
            return DuckBot::new().play(bot_state, game_state);
        }
        if game_state.current_trick.is_empty() {
            return RandomBot::new().play(bot_state, game_state);
        }
        let trick_cards = game_state.current_trick.cards();
        let points = Cards::points();
        let trick_points = points.contains_any(trick_cards);
        proof {
            if trick_points {
                let c = choose|c: Card| points@.contains(c) && #[trigger] trick_cards@.contains(c);
                assert(game_state.current_trick@.to_set().contains(c));
            } else {
                assert(game_state.current_trick@.to_set().disjoint(Cards::points_set())) by {
                    assert forall|c: Card| #[trigger] game_state.current_trick@.to_set().contains(c) implies !Cards::points_set().contains(c) by {
                        assert(trick_cards@.contains(c));
                    }
                }
            }
        }
        let left = bot_state.post_pass_hand.difference(game_state.played);
        let lens = suit_lengths(left);
        proof {
            assert(lens@ =~= gotta_bonus(left@));
            Cards::lemma_empty(cards);
            game_state.current_trick.lemma_wf();
        }
        if trick_points {
            let suit_cards = game_state.current_trick.suit().cards();
            if !suit_cards.contains_any(cards) {
                proof {
                    assert(cards@.disjoint(Cards::suit_set(game_state.current_trick@[0].spec_suit()))) by {
                        assert forall|c: Card| #[trigger] cards@.contains(c) implies !Cards::suit_set(
                            game_state.current_trick@[0].spec_suit(),
                        ).contains(c) by {
                            assert(!suit_cards@.contains(c));
                        }
                    }
                }
                DuckBot::new().play(bot_state, game_state)
            } else {
                proof {
                    let c = choose|c: Card| suit_cards@.contains(c) && #[trigger] cards@.contains(c);
                    assert(Cards::suit_set(game_state.current_trick@[0].spec_suit()).contains(c));
                }
                pick_by_key(cards, lens, true)
            }
        } else {
            pick_by_key(cards, lens, false)
        }
    }

    pub fn on_event(&mut self, _bot_state: &BotState, _game_state: &GameState, _event: &GameEvent) {
    }
}

} // verus!
