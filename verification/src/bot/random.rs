//! A bot that passes, charges and plays at random, within the rules.
use crate::bot::chance::{partial_shuffle, random_below, random_bool};
use crate::bot::BotState;
use crate::cards::{desc_of, Card, Cards};
use crate::game::event::GameEvent;
use crate::game::state::GameState;
use crate::seat::Seat;
use vstd::prelude::*;

verus! {

/// A rearrangement of a sequence without repeats has none, and holds the same cards.
pub proof fn lemma_rearranged(a: Seq<Card>, b: Seq<Card>)
    requires
        a.to_multiset() == b.to_multiset(),
        a.no_duplicates(),
    ensures
        b.no_duplicates(),
        b.len() == a.len(),
        forall|x: Card| #[trigger] b.contains(x) ==> a.contains(x),
{
    broadcast use vstd::seq_lib::to_multiset_contains;
    broadcast use vstd::seq_lib::to_multiset_len;

    a.lemma_multiset_has_no_duplicates();
    assert forall|x: Card| b.to_multiset().contains(x) implies b.to_multiset().count(x) == 1 by {
        assert(a.to_multiset().contains(x));
    }
    b.lemma_multiset_has_no_duplicates_conv();
    assert(a.to_multiset().len() == a.len());
    assert(b.to_multiset().len() == b.len());
    assert forall|x: Card| #[trigger] b.contains(x) implies a.contains(x) by {
        assert(b.to_multiset().count(x) > 0);
    }
}

/// Three distinct cards drawn from `hand`.
pub open spec fn is_random_pass(hand: Set<Card>, pass: Set<Card>) -> bool {
    pass.subset_of(hand) && pass.len() == 3
}

/// Whether the bot at `seat` has charged in this hand once `event` is seen, from `charged`
/// before: a new deal lets it charge again; its own charge (or declining to) ends that.
pub open spec fn charged_after(charged: bool, seat: Seat, event: GameEvent) -> bool {
    match event {
        GameEvent::Deal { .. } => false,
        GameEvent::Charge { seat: charger, .. } => charged || seat == charger,
        GameEvent::BlindCharge { seat: charger, .. } => charged || seat == charger,
        _ => charged,
    }
}

/// `kept` holds the cards of `cards` whose draw came up true: the `k`-th card from the highest
/// is kept exactly when `draws[k]` is true.
pub open spec fn kept_on(cards: Set<Card>, draws: Seq<bool>, kept: Set<Card>) -> bool {
    &&& kept.subset_of(cards)
    &&& forall|k: int| 0 <= k < draws.len() ==> (kept.contains(#[trigger] desc_of(cards)[k]) <==> draws[k])
}

/// The chargeable cards of the bot's hand that nobody has charged yet.
pub open spec fn open_charges(bot_state: BotState, game_state: GameState) -> Set<Card> {
    bot_state.post_pass_hand@.intersect(Cards::chargeable_set()).difference(game_state.charges.all_set())
}

/// `n` fair coins, one after another.
fn coins(n: usize) -> (d: Vec<bool>)
    ensures
        d@.len() == n,
{
    let mut d: Vec<bool> = Vec::new();
    let mut i: usize = 0;
    while i < n
        invariant
            i <= n,
            d@.len() == i,
        decreases n - i,
    {
        d.push(random_bool());
        i = i + 1;
    }
    d
}

/// The cards of `cards` kept by `draws`: going from the highest card down, each card is kept
/// when its draw is true.
pub fn drawn_charges(cards: Cards, draws: &Vec<bool>) -> (r: Cards)
    requires
        cards.wf(),
        draws@.len() == cards@.len(),
    ensures
        r.wf(),
        kept_on(cards@, draws@, r@),
{
    let v = cards.to_vec();
    let mut r = Cards::none();
    let mut i: usize = 0;
    while i < v.len()
        invariant
            i <= v@.len(),
            v@ == desc_of(cards@),
            v@.len() == draws@.len(),
            forall|k: int| 0 <= k < v@.len() ==> #[trigger] cards@.contains(v@[k]),
            forall|a: int, b: int|
                0 <= a < b < v@.len() ==> #[trigger] v@[b].spec_index() < #[trigger] v@[a].spec_index(),
            r.wf(),
            r@.subset_of(cards@),
            forall|k: int| 0 <= k < i ==> (r@.contains(#[trigger] v@[k]) <==> draws@[k]),
            forall|k: int| i <= k < v@.len() ==> !r@.contains(#[trigger] v@[k]),
        decreases v@.len() - i,
    {
        let ghost before = r@;
        if draws[i] {
            r.insert(v[i]);
        }
        proof {
            assert forall|k: int| 0 <= k < v@.len() && k != i implies v@[k] != v@[i as int] by {
                if k < i {
                    assert(v@[i as int].spec_index() < v@[k].spec_index());
                } else {
                    assert(v@[k].spec_index() < v@[i as int].spec_index());
                }
            }
            assert forall|k: int| 0 <= k < i + 1 implies (r@.contains(#[trigger] v@[k]) <==> draws@[k]) by {
                if k < i {
                    assert(before.contains(v@[k]) == r@.contains(v@[k]));
                }
            }
        }
        i = i + 1;
    }
    r
}

pub struct RandomBot {
    /// The bot has charged (or declined to) in this hand.
    pub charged: bool,
}

impl RandomBot {
    pub fn new() -> (r: Self)
        ensures
            !r.charged,
    {
        Self { charged: false }
    }

    /// Three cards of the hand, chosen at random.
    pub fn pass(&mut self, bot_state: &BotState, _game_state: &GameState) -> (r: Cards)
        requires
            bot_state.pre_pass_hand.wf(),
            bot_state.pre_pass_hand@.len() >= 3,
        ensures
            r.wf(),
            is_random_pass(bot_state.pre_pass_hand@, r@),
            exists|order: Seq<Card>|
                order.to_multiset() == desc_of(bot_state.pre_pass_hand@).to_multiset() && r@ == set![
                    #[trigger] order[0],
                    order[1],
                    order[2],
                ],
    {
        let mut hand = bot_state.pre_pass_hand.to_vec();
        let ghost dealt = hand@;
        proof {
            assert(dealt.no_duplicates()) by {
                assert forall|j: int, k: int| 0 <= j < dealt.len() && 0 <= k < dealt.len() && j
                    != k implies dealt[j] != dealt[k] by {
                    if j < k {
                        assert(dealt[k].spec_index() < dealt[j].spec_index());
                    } else {
                        assert(dealt[j].spec_index() < dealt[k].spec_index());
                    }
                }
            }
        }
        partial_shuffle(&mut hand, 3);
        proof {
            lemma_rearranged(dealt, hand@);
            assert(hand@.contains(hand@[0]) && hand@.contains(hand@[1]) && hand@.contains(hand@[2]));
            assert(dealt.contains(hand@[0]) && dealt.contains(hand@[1]) && dealt.contains(hand@[2]));
        }
        let r = Cards::from(hand[0]).with(hand[1]).with(hand[2]);
        proof {
            assert(r@ =~= set![hand@[0], hand@[1], hand@[2]]);
            assert(dealt == desc_of(bot_state.pre_pass_hand@));
            assert(hand@[0] != hand@[1] && hand@[0] != hand@[2] && hand@[1] != hand@[2]);
        }
        r
    }

    /// Each chargeable card of the hand not yet charged, each with even odds: one coin per card,
    /// from the highest down (see `drawn_charges`); nothing once the bot has charged in this
    /// hand.
    pub fn charge(&mut self, bot_state: &BotState, game_state: &GameState) -> (r: Cards)
        requires
            bot_state.post_pass_hand.wf(),
        ensures
            r.wf(),
            old(self).charged ==> r@ == Set::<Card>::empty(),
            r@.subset_of(
                bot_state.post_pass_hand@.intersect(Cards::chargeable_set()).difference(
                    game_state.charges.all_set(),
                ),
            ),
            !old(self).charged ==> exists|draws: Seq<bool>|
                draws.len() == open_charges(*bot_state, *game_state).len() && #[trigger] kept_on(
                    open_charges(*bot_state, *game_state),
                    draws,
                    r@,
                ),
            *final(self) == *old(self),
    {
        if self.charged {
            return Cards::none();
        }
        let cards = bot_state.post_pass_hand.intersect(Cards::chargeable()).difference(
            game_state.charges.all_charges(),
        );
        proof {
            cards.lemma_len();
            assert(cards@ == open_charges(*bot_state, *game_state));
        }
        let draws = coins(cards.len());
        drawn_charges(cards, &draws)
    }

    /// A legal play chosen at random.
    pub fn play(&mut self, bot_state: &BotState, game_state: &GameState) -> (c: Card)
        requires
            game_state.wf(),
            bot_state.post_pass_hand.wf(),
            !game_state.spec_legal_plays(bot_state.post_pass_hand@).is_empty(),
        ensures
            game_state.spec_legal_plays(bot_state.post_pass_hand@).contains(c),
    {
        let cards = game_state.legal_plays(bot_state.post_pass_hand);
        proof {
            cards.lemma_len();
            vstd::set_lib::lemma_set_empty_equivalency_len(cards@);
        }
        let index = random_below(cards.len());
        cards.nth(index)
    }

    /// A new deal lets the bot charge again; its own charge (or declining to) ends that.
    pub fn on_event(&mut self, bot_state: &BotState, _game_state: &GameState, event: &GameEvent)
        ensures
            final(self).charged == charged_after(old(self).charged, bot_state.seat, *event),
    {
        match event {
            GameEvent::Deal { .. } => {
                self.charged = false;
            },
            GameEvent::Charge { seat, .. } => {
                self.charged = self.charged || bot_state.seat == *seat;
            },
            GameEvent::BlindCharge { seat, .. } => {
                self.charged = self.charged || bot_state.seat == *seat;
            },
            _ => {},
        }
    }
}

} // verus!
