//! A bot seated at a game: it follows the game's events, keeps its hand, and decides when it
//! must act and what it does.
use crate::bot::duck::{duck_follow, duck_pass, DuckBot};
use crate::bot::gottatry::{gotta_pass, gotta_play, GottaTryBot};
use crate::bot::heuristic::{heuristic_charge, heuristic_options, heuristic_pass, HeuristicBot};
use crate::bot::random::{charged_after, is_random_pass, RandomBot};
use crate::bot::simulate::SimulateBot;
use crate::bot::{can_claim, spec_can_claim, spec_must_claim, must_claim, BotState};
use crate::cards::{Card, Cards};
use crate::game::event::GameEvent;
use crate::game::state::GameState;
use crate::ids::{GameId, UserId};
use crate::phase::GamePhase;
use crate::player::{BotStrategy, Player};
use crate::seat::Seat;
use vstd::prelude::*;

verus! {

/// A bot of one of the strategies.
pub enum Bot {
    Duck(DuckBot),
    GottaTry(GottaTryBot),
    Heuristic(HeuristicBot),
    Random(RandomBot),
    Simulate(SimulateBot),
}

/// What a bot has to do next.
#[derive(Clone, Copy, Debug, PartialEq, Eq, Structural)]
pub enum Action {
    Pass,
    Charge,
    Play,
    Claim,
}

impl Bot {
    pub open spec fn spec_strategy(&self) -> BotStrategy {
        match self {
            Bot::Duck(_) => BotStrategy::Duck,
            Bot::GottaTry(_) => BotStrategy::GottaTry,
            Bot::Heuristic(_) => BotStrategy::Heuristic,
            Bot::Random(_) => BotStrategy::Random,
            Bot::Simulate(_) => BotStrategy::Simulate,
        }
    }

    /// `self` is `before` once the bot at `seat` has seen `event` in `state` (see `on_event`).
    pub open spec fn saw(self, before: Bot, seat: Seat, state: GameState, event: GameEvent) -> bool {
        match before {
            Bot::Random(b) => self matches Bot::Random(n) && n.charged == charged_after(
                b.charged,
                seat,
                event,
            ),
            Bot::Simulate(b) => self matches Bot::Simulate(n) && n.void.noted(b.void, state, event),
            _ => self == before,
        }
    }

    pub fn new(strategy: BotStrategy) -> (r: Bot)
        ensures
            r.spec_strategy() == strategy,
    {
        match strategy {
            BotStrategy::Duck => Bot::Duck(DuckBot::new()),
            BotStrategy::GottaTry => Bot::GottaTry(GottaTryBot::new()),
            BotStrategy::Heuristic => Bot::Heuristic(HeuristicBot::new()),
            BotStrategy::Random => Bot::Random(RandomBot::new()),
            BotStrategy::Simulate => Bot::Simulate(SimulateBot::new()),
        }
    }

    /// The three cards to pass, as the strategy chooses them.
    pub fn pass(&mut self, bot_state: &BotState, game_state: &GameState) -> (r: Cards)
        requires
            bot_state.pre_pass_hand.wf(),
            bot_state.pre_pass_hand@.len() >= 3,
        ensures
            r.wf(),
            final(self).spec_strategy() == old(self).spec_strategy(),
            match old(self).spec_strategy() {
                BotStrategy::Duck => r@ == duck_pass(bot_state.pre_pass_hand@),
                BotStrategy::GottaTry => r@ == gotta_pass(bot_state.pre_pass_hand@),
                BotStrategy::Random => is_random_pass(bot_state.pre_pass_hand@, r@),
                _ => r@ == heuristic_pass(bot_state.pre_pass_hand@),
            },
    {
        match self {
            Bot::Duck(bot) => bot.pass(bot_state, game_state),
            Bot::GottaTry(bot) => bot.pass(bot_state, game_state),
            Bot::Heuristic(bot) => bot.pass(bot_state, game_state),
            Bot::Random(bot) => bot.pass(bot_state, game_state),
            Bot::Simulate(bot) => bot.pass(bot_state, game_state),
        }
    }

    /// The cards to charge, as the strategy chooses them.
    pub fn charge(&mut self, bot_state: &BotState, game_state: &GameState) -> (r: Cards)
        requires
            bot_state.post_pass_hand.wf(),
        ensures
            r.wf(),
            final(self).spec_strategy() == old(self).spec_strategy(),
            match old(self).spec_strategy() {
                BotStrategy::Duck => r@ == Set::<Card>::empty(),
                BotStrategy::GottaTry => r@ == bot_state.post_pass_hand@.intersect(
                    Cards::chargeable_set(),
                ).difference(game_state.charges.seat_set(bot_state.seat)),
                BotStrategy::Random => r@.subset_of(
                    bot_state.post_pass_hand@.intersect(Cards::chargeable_set()).difference(
                        game_state.charges.all_set(),
                    ),
                ),
                _ => r@ == heuristic_charge(
                    bot_state.post_pass_hand@,
                    game_state.charges.seat_set(bot_state.seat),
                ),
            },
    {
        match self {
            Bot::Duck(bot) => bot.charge(bot_state, game_state),
            Bot::GottaTry(bot) => bot.charge(bot_state, game_state),
            Bot::Heuristic(bot) => bot.charge(bot_state, game_state),
            Bot::Random(bot) => bot.charge(bot_state, game_state),
            Bot::Simulate(bot) => bot.charge(bot_state, game_state),
        }
    }

    /// The card to play, as the strategy chooses it: always a legal play.
    pub fn play(&mut self, bot_state: &BotState, game_state: &GameState) -> (c: Card)
        requires
            game_state.consistent(),
            game_state.phase.spec_is_playing(),
            bot_state.wf(),
            !game_state.spec_legal_plays(bot_state.post_pass_hand@).is_empty(),
        ensures
            final(self).spec_strategy() == old(self).spec_strategy(),
            game_state.spec_legal_plays(bot_state.post_pass_hand@).contains(c),
            old(self).spec_strategy() == BotStrategy::Heuristic ==> heuristic_options(
                *bot_state,
                *game_state,
            ).contains(c),
            old(self).spec_strategy() == BotStrategy::Duck && game_state.current_trick@.len() > 0
                ==> c == duck_follow(*bot_state, *game_state),
            old(self).spec_strategy() == BotStrategy::GottaTry ==> gotta_play(
                *bot_state,
                *game_state,
                c,
            ),
    {
        match self {
            Bot::Duck(bot) => bot.play(bot_state, game_state),
            Bot::GottaTry(bot) => bot.play(bot_state, game_state),
            Bot::Heuristic(bot) => {
                let c = bot.play(bot_state, game_state);
                proof {
                    crate::bot::heuristic::lemma_options_legal(*bot_state, *game_state);
                }
                c
            },
            Bot::Random(bot) => bot.play(bot_state, game_state),
            Bot::Simulate(bot) => bot.play(bot_state, game_state),
        }
    }

    /// Lets the strategy see an event before it is applied: the random bot notes whether it
    /// has charged, the simulating bot notes who has shown out of which suit, and the others
    /// keep nothing.
    pub fn on_event(&mut self, bot_state: &BotState, game_state: &GameState, event: &GameEvent)
        requires
            game_state.wf(),
        ensures
            final(self).spec_strategy() == old(self).spec_strategy(),
            final(self).saw(*old(self), bot_state.seat, *game_state, *event),
    {
        match self {
            Bot::Duck(bot) => bot.on_event(bot_state, game_state, event),
            Bot::GottaTry(bot) => bot.on_event(bot_state, game_state, event),
            Bot::Heuristic(bot) => bot.on_event(bot_state, game_state, event),
            Bot::Random(bot) => bot.on_event(bot_state, game_state, event),
            Bot::Simulate(bot) => bot.on_event(bot_state, game_state, event),
        }
    }
}

/// `user` sits at the table of a `Sit` event.
pub open spec fn is_seated(user: UserId, event: GameEvent) -> bool {
    match event {
        GameEvent::Sit { north, east, south, west, .. } => user == north.spec_user_id() || user
            == east.spec_user_id() || user == south.spec_user_id() || user
            == west.spec_user_id(),
        _ => true,
    }
}

/// The seat of `user` at the table of a `Sit` event (the first that matches).
pub open spec fn seat_at(user: UserId, north: Player, east: Player, south: Player) -> Seat {
    if user == north.spec_user_id() {
        Seat::North
    } else if user == east.spec_user_id() {
        Seat::East
    } else if user == south.spec_user_id() {
        Seat::South
    } else {
        Seat::West
    }
}

/// What the bot knows of its hand after `event`, from what it knew before (`bot_state`), when
/// the hand was being played before the event (`was_playing`) and is no longer after it
/// (`now_playing`): a hand that has been played out is forgotten.
pub open spec fn bot_state_after(
    bot_state: BotState,
    user: UserId,
    was_playing: bool,
    now_playing: bool,
    event: GameEvent,
) -> BotState {
    let kept = if was_playing && !now_playing {
        BotState {
            pre_pass_hand: Cards { bits: 0 },
            post_pass_hand: Cards { bits: 0 },
            ..bot_state
        }
    } else {
        bot_state
    };
    match event {
        GameEvent::Sit { north, east, south, .. } => BotState {
            seat: seat_at(user, north, east, south),
            ..kept
        },
        GameEvent::Deal { north, east, south, west, .. } => {
            let dealt = Cards { bits: north.bits | east.bits | south.bits | west.bits };
            BotState { pre_pass_hand: dealt, post_pass_hand: dealt, ..kept }
        },
        GameEvent::SendPass { cards, .. } => BotState {
            post_pass_hand: Cards { bits: kept.post_pass_hand.bits & !cards.bits },
            ..kept
        },
        GameEvent::RecvPass { cards, .. } => BotState {
            post_pass_hand: Cards { bits: kept.post_pass_hand.bits | cards.bits },
            ..kept
        },
        _ => kept,
    }
}

/// What the bot must do in the state reached: charge when it may and has not finished
/// charging, pass when it has not passed, and, when it holds the two of clubs or it is its
/// turn, play, or claim the rest when it leads, is not already claiming, fewer than
/// forty-eight cards are played and every card it holds is high.
pub open spec fn next_action(bot_state: BotState, game_state: GameState) -> Option<Action> {
    let seat = bot_state.seat;
    if game_state.phase.spec_is_charging() {
        if bot_state.pre_pass_hand.bits != 0 && match game_state.next_actor {
            Some(s) => s == seat,
            None => true,
        } && !game_state.done.done(seat) {
            Some(Action::Charge)
        } else {
            None
        }
    } else if game_state.phase.spec_is_passing() {
        if bot_state.pre_pass_hand.bits != 0 && !game_state.done.done(seat) {
            Some(Action::Pass)
        } else {
            None
        }
    } else if game_state.phase.spec_is_playing() {
        let left = bot_state.post_pass_hand@.difference(game_state.played@);
        if left.contains(Card::TwoClubs) || game_state.next_actor == Some(seat) {
            if game_state.current_trick@.len() == 0 && !game_state.claims.spec_is_claiming(seat)
                && game_state.played.spec_len() < 48 && spec_must_claim(left, game_state.played@) {
                Some(Action::Claim)
            } else {
                Some(Action::Play)
            }
        } else {
            None
        }
    } else {
        None
    }
}

/// A bot at a game: its identity, its hand, the game as it has seen it, the hands of players
/// claiming the rest of the tricks, and its strategy.
pub struct BotRunner {
    pub game_id: GameId,
    pub user_id: UserId,
    pub bot_state: BotState,
    pub game_state: GameState,
    pub claim_hands: [Cards; 4],
    pub bot: Bot,
}

impl BotRunner {
    pub fn new(game_id: GameId, user_id: UserId, strategy: BotStrategy) -> (r: Self)
        ensures
            r.game_id == game_id,
            r.user_id == user_id,
            r.bot.spec_strategy() == strategy,
            r.bot_state.seat == Seat::North,
            r.bot_state.pre_pass_hand@ == Set::<Card>::empty(),
            r.bot_state.post_pass_hand@ == Set::<Card>::empty(),
            r.game_state.wf(),
            forall|i: int| 0 <= i < 4 ==> #[trigger] r.claim_hands@[i]@ == Set::<Card>::empty(),
    {
        let none = Cards::none();
        BotRunner {
            game_id,
            user_id,
            bot_state: BotState { seat: Seat::North, pre_pass_hand: none, post_pass_hand: none },
            game_state: GameState::new(),
            claim_hands: [none, none, none, none],
            bot: Bot::new(strategy),
        }
    }

    /// Follows `event`: the strategy sees it, the game state applies it, the bot's hand and the
    /// hands of claimers are brought up to date, and what the bot must do next is returned.
    pub fn handle(&mut self, event: GameEvent) -> (r: Option<Action>)
        requires
            old(self).game_state.wf(),
            old(self).game_state.pre_apply(event),
            is_seated(old(self).user_id, event),
        ensures
            final(self).game_state.wf(),
            final(self).game_state.applied(old(self).game_state, event),
            final(self).game_id == old(self).game_id,
            final(self).user_id == old(self).user_id,
            final(self).bot.spec_strategy() == old(self).bot.spec_strategy(),
            final(self).bot_state == bot_state_after(
                old(self).bot_state,
                old(self).user_id,
                old(self).game_state.phase.spec_is_playing(),
                final(self).game_state.phase.spec_is_playing(),
                event,
            ),
            final(self).claim_hands@ == match event {
                GameEvent::Claim { seat, hand } => old(self).claim_hands@.update(
                    seat.spec_idx() as int,
                    hand,
                ),
                _ => old(self).claim_hands@,
            },
            r == next_action(final(self).bot_state, final(self).game_state),
    {
        self.bot.on_event(&self.bot_state, &self.game_state, &event);
        let phase = self.game_state.phase;
        self.game_state.apply(&event);
        if phase.is_playing() && !self.game_state.phase.is_playing() {
            self.bot_state.pre_pass_hand = Cards::none();
            self.bot_state.post_pass_hand = Cards::none();
        }
        match &event {
            GameEvent::Sit { north, east, south, .. } => {
                self.bot_state.seat = if self.user_id == north.user_id() {
                    Seat::North
                } else if self.user_id == east.user_id() {
                    Seat::East
                } else if self.user_id == south.user_id() {
                    Seat::South
                } else {
                    Seat::West
                };
            },
            GameEvent::Deal { north, east, south, west, .. } => {
                let dealt = north.union(*east).union(*south).union(*west);
                self.bot_state.pre_pass_hand = dealt;
                self.bot_state.post_pass_hand = dealt;
            },
            GameEvent::SendPass { cards, .. } => {
                self.bot_state.post_pass_hand = self.bot_state.post_pass_hand.difference(*cards);
            },
            GameEvent::RecvPass { cards, .. } => {
                self.bot_state.post_pass_hand = self.bot_state.post_pass_hand.union(*cards);
            },
            GameEvent::Claim { seat, hand } => {
                self.claim_hands[seat.idx()] = *hand;
            },
            _ => {},
        }
        self.next_action()
    }

    /// What the bot must do now (see `next_action`).
    pub fn next_action(&self) -> (r: Option<Action>)
        requires
            self.game_state.wf(),
        ensures
            r == next_action(self.bot_state, self.game_state),
    {
        let seat = self.bot_state.seat;
        let game = &self.game_state;
        if game.phase.is_charging() {
            if !self.bot_state.pre_pass_hand.is_empty() && game.can_charge(seat)
                && !game.done.charged(seat) {
                Some(Action::Charge)
            } else {
                None
            }
        } else if game.phase.is_passing() {
            if !self.bot_state.pre_pass_hand.is_empty() && !game.done.sent_pass(seat) {
                Some(Action::Pass)
            } else {
                None
            }
        } else if game.phase.is_playing() {
            let left = self.bot_state.post_pass_hand.difference(game.played);
            let my_turn = match game.next_actor {
                Some(s) => s == seat,
                None => false,
            };
            if left.contains(Card::TwoClubs) || my_turn {
                if game.current_trick.is_empty() && !game.claims.is_claiming(seat)
                    && game.played.len() < 48 && must_claim(left, game.played) {
                    Some(Action::Claim)
                } else {
                    Some(Action::Play)
                }
            } else {
                None
            }
        } else {
            None
        }
    }

    /// Answers the claim `seat` may be making: when another player is claiming and the bot has
    /// not accepted yet, whether to accept (the claimer can take every trick with the hand it
    /// showed); `None` otherwise. The hand shown is forgotten either way.
    pub fn claim_response(&mut self, seat: Seat) -> (r: Option<bool>)
        requires
            old(self).game_state.consistent(),
            old(self).game_state.phase != GamePhase::Complete || old(self).game_state.played@
                == Set::<Card>::full(),
            old(self).claim_hands@[seat.spec_idx() as int].wf(),
        ensures
            r == if seat != old(self).bot_state.seat && old(self).game_state.claims.spec_is_claiming(
                seat,
            ) && !old(self).game_state.claims.accepted(seat, old(self).bot_state.seat) {
                Some(
                    spec_can_claim(
                        seat,
                        old(self).claim_hands@[seat.spec_idx() as int]@.difference(
                            old(self).game_state.played@,
                        ),
                        old(self).game_state,
                    ),
                )
            } else {
                None
            },
            final(self).claim_hands@ == old(self).claim_hands@.update(
                seat.spec_idx() as int,
                Cards { bits: 0 },
            ),
            final(self).game_state == old(self).game_state,
            final(self).bot_state == old(self).bot_state,
            final(self).game_id == old(self).game_id,
            final(self).user_id == old(self).user_id,
            final(self).bot.spec_strategy() == old(self).bot.spec_strategy(),
    {
        let me = self.bot_state.seat;
        let claims = &self.game_state.claims;
        let r = if seat != me && claims.is_claiming(seat) && !claims.has_accepted(seat, me) {
            let hand = self.claim_hands[seat.idx()].difference(self.game_state.played);
            Some(can_claim(seat, hand, &self.game_state))
        } else {
            None
        };
        self.claim_hands[seat.idx()] = Cards::none();
        r
    }
}

} // verus!
