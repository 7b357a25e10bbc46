//! Summaries of finished games, replayed from their stored events: the leaderboard of
//! complete games with the points each seat took in each hand, and the record of one hand
//! with what the table announced after each event.
use crate::cards::{Card, Cards};
use crate::game::event::GameEvent;
use crate::game::state::GameState;
use crate::game::won::WonState;
use crate::game::Game;
use crate::error::CardsError;
use crate::ids::{GameId, UserId};
use crate::player::Player;
use crate::seat::Seat;
use crate::types::{ChargingRules, PassDirection};
use vstd::prelude::*;

verus! {

/// One stored event of a hand, with what the table announced of its own accord after it.
pub struct HandEvent {
    pub timestamp: i64,
    pub event: GameEvent,
    pub synthetic_events: Vec<GameEvent>,
}

/// The record of one hand: who sat where, the rules, and the events of the hand.
pub struct HandSummary {
    pub north: Player,
    pub east: Player,
    pub south: Player,
    pub west: Player,
    pub rules: ChargingRules,
    pub events: Vec<HandEvent>,
}

/// What is recorded of the announcements `es`, in order, and whether the hand is complete after
/// them, from `end`: until the hand is complete, each announcement other than `event` is
/// recorded, and a `HandComplete` completes the hand.
pub open spec fn recorded(es: Seq<GameEvent>, event: GameEvent, end: bool) -> (Seq<GameEvent>, bool)
    decreases es.len(),
{
    if es.len() == 0 {
        (Seq::empty(), end)
    } else {
        let (kept, done) = recorded(es.drop_last(), event, end);
        let e = es.last();
        if done {
            (kept, true)
        } else {
            (if e != event {
                kept.push(e)
            } else {
                kept
            }, e is HandComplete)
        }
    }
}

/// The replay of a game's events that records the hand passed in direction `hand`: from its
/// deal up to a `HandComplete` event.
pub struct HandReplay {
    pub game_id: GameId,
    pub hand: PassDirection,
    pub game: Game,
    pub first: Option<GameEvent>,
    pub start: bool,
    pub end: bool,
    pub events: Vec<HandEvent>,
}

/// What is recorded of the announcements `out`, which begin with `event` (see `recorded`).
fn record(out: &Vec<GameEvent>, event: &GameEvent, end: bool) -> (r: (Vec<GameEvent>, bool))
    requires
        out@.len() > 0,
        out@[0] == *event,
        forall|k: int| 1 <= k < out@.len() ==> (#[trigger] out@[k]).is_notice(),
        forall|k: int|
            1 <= k < out@.len() && (#[trigger] out@[k]) is GameComplete ==> out@[k - 1] is HandComplete,
    ensures
        (r.0@, r.1) == recorded(out@, *event, end),
{
    let mut kept: Vec<GameEvent> = Vec::new();
    let mut done = end;
    let mut i: usize = 0;
    proof {
        assert(out@.subrange(0, 0) =~= Seq::<GameEvent>::empty());
    }
    while i < out.len()
        invariant
            i <= out@.len(),
            out@.len() > 0,
            out@[0] == *event,
            forall|k: int| 1 <= k < out@.len() ==> (#[trigger] out@[k]).is_notice(),
            forall|k: int|
                1 <= k < out@.len() && (#[trigger] out@[k]) is GameComplete ==> out@[k - 1] is HandComplete,
            forall|k: int| 0 <= k < i && (#[trigger] out@[k]) is HandComplete ==> done,
            (kept@, done) == recorded(out@.subrange(0, i as int), *event, end),
        decreases out@.len() - i,
    {
        proof {
            assert(out@.subrange(0, i + 1).drop_last() =~= out@.subrange(0, i as int));
        }
        if !done {
            let differs = if i == 0 {
                false
            } else {
                proof {
                    if out@[i as int] is GameComplete {
                        assert(out@[i - 1] is HandComplete);
                    }
                }
                !out[i].same_notice(event)
            };
            if differs {
                kept.push(out[i].clone());
            }
            if out[i].is_hand_complete() {
                done = true;
            }
        }
        i = i + 1;
    }
    proof {
        assert(out@.subrange(0, i as int) =~= out@);
    }
    (kept, done)
}

impl HandReplay {
    pub fn new(game_id: GameId, hand: PassDirection) -> (r: Self)
        ensures
            r.game_id == game_id,
            r.hand == hand,
            r.game.wf(),
            r.first is None,
            !r.start,
            !r.end,
            r.events@.len() == 0,
    {
        HandReplay {
            game_id,
            hand,
            game: Game::new(),
            first: None,
            start: false,
            end: false,
            events: Vec::new(),
        }
    }

    /// Whether the hand begins with `event`: it is the deal of the hand.
    pub open spec fn starts(self, event: GameEvent) -> bool {
        event matches GameEvent::Deal { pass, .. } && pass == self.hand
    }

    /// Replays `event`, stored at `timestamp`. Once the hand has begun, the event is recorded
    /// with what the table announced after it (see `recorded`), until the hand is complete.
    /// Returns whether the hand is complete, after which there is nothing more to replay.
    pub fn step(&mut self, timestamp: i64, event: GameEvent) -> (done: bool)
        requires
            old(self).game.wf(),
            old(self).game.state.pre_apply(event),
            Game::hands_wf(event),
        ensures
            final(self).game.wf(),
            final(self).game_id == old(self).game_id,
            final(self).hand == old(self).hand,
            final(self).first == if old(self).first is None {
                Some(event)
            } else {
                old(self).first
            },
            final(self).start == (old(self).start || old(self).starts(event)),
            done == final(self).end,
            exists|out: Seq<GameEvent>| #[trigger]
                Game::announced(old(self).game, final(self).game, event, out) && if final(self).start {
                    &&& final(self).end == recorded(out, event, old(self).end).1
                    &&& final(self).events@.len() == old(self).events@.len() + 1
                    &&& final(self).events@.subrange(0, old(self).events@.len() as int)
                        == old(self).events@
                    &&& final(self).events@.last().timestamp == timestamp
                    &&& final(self).events@.last().event == event
                    &&& final(self).events@.last().synthetic_events@ == recorded(
                        out,
                        event,
                        old(self).end,
                    ).0
                } else {
                    &&& final(self).end == old(self).end
                    &&& final(self).events@ == old(self).events@
                },
    {
        if !self.start {
            self.start = match &event {
                GameEvent::Deal { pass, .. } => *pass == self.hand,
                _ => false,
            };
        }
        if self.first.is_none() {
            self.first = Some(event.clone());
        }
        let ghost old_events = self.events@;
        let ghost old_end = self.end;
        let out = self.game.apply(&event);
        let mut synthetic_events: Vec<GameEvent> = Vec::new();
        if self.start {
            let (kept, end) = record(&out, &event, self.end);
            synthetic_events = kept;
            self.end = end;
        }
        if self.start {
            self.events.push(HandEvent { timestamp, event, synthetic_events });
            proof {
                assert(self.events@.subrange(0, old_events.len() as int) =~= old_events);
            }
        }
        self.end
    }

    /// The record of the hand, once replayed: the hand must have been dealt and completed.
    /// The first event of a game seats its players.
    pub fn finish(self) -> (r: Result<HandSummary, CardsError>)
        requires
            self.start && self.end ==> self.first matches Some(GameEvent::Sit { .. }),
        ensures
            !self.start ==> r == Err::<HandSummary, CardsError>(
                CardsError::UnknownHand(self.game_id, self.hand),
            ),
            self.start && !self.end ==> r == Err::<HandSummary, CardsError>(
                CardsError::IncompleteHand(self.game_id, self.hand),
            ),
            self.start && self.end ==> (r matches Ok(summary) && self.first matches Some(
                GameEvent::Sit { north, east, south, west, rules, .. },
            ) && summary.north == north && summary.east == east && summary.south == south
                && summary.west == west && summary.rules == rules && summary.events@
                == self.events@),
    {
        if !self.start {
            return Err(CardsError::UnknownHand(self.game_id, self.hand));
        }
        if !self.end {
            return Err(CardsError::IncompleteHand(self.game_id, self.hand));
        }
        match self.first {
            Some(GameEvent::Sit { north, east, south, west, rules, .. }) => Ok(
                HandSummary { north, east, south, west, rules, events: self.events },
            ),
            _ => {
                proof {
                    assert(false);
                }
                Err(CardsError::UnknownHand(self.game_id, self.hand))
            },
        }
    }
}

/// The points of one finished hand: the charges, the hearts each seat took, and who took
/// the queen of spades, the ten of clubs and the jack of diamonds.
#[derive(Clone, Copy)]
pub struct CompleteHand {
    pub charges: [Cards; 4],
    pub hearts_won: [u8; 4],
    pub queen_winner: UserId,
    pub ten_winner: UserId,
    pub jack_winner: UserId,
}

/// A finished game of four hands, with the time of its last event.
pub struct CompleteGame {
    pub game_id: GameId,
    pub completed_time: i64,
    pub players: [Player; 4],
    pub hands: Vec<CompleteHand>,
}

/// Whether `seat` took `card`, one of the queen of spades, the ten of clubs and the jack of
/// diamonds.
pub open spec fn took(won: WonState, seat: Seat, card: Card) -> bool {
    if card == Card::QueenSpades {
        won.spec_queen(seat)
    } else if card == Card::TenClubs {
        won.spec_ten(seat)
    } else {
        won.spec_jack(seat)
    }
}

/// The first seat, from north round to west, that took `card`.
pub open spec fn first_taker(won: WonState, card: Card) -> Option<Seat> {
    if took(won, Seat::North, card) {
        Some(Seat::North)
    } else if took(won, Seat::East, card) {
        Some(Seat::East)
    } else if took(won, Seat::South, card) {
        Some(Seat::South)
    } else if took(won, Seat::West, card) {
        Some(Seat::West)
    } else {
        None
    }
}

/// The seats that took the queen of spades, the ten of clubs and the jack of diamonds, when
/// each was taken by someone.
pub open spec fn takers(st: GameState) -> Option<(Seat, Seat, Seat)> {
    match (
        first_taker(st.won, Card::QueenSpades),
        first_taker(st.won, Card::TenClubs),
        first_taker(st.won, Card::JackDiamonds),
    ) {
        (Some(q), Some(t), Some(j)) => Some((q, t, j)),
        _ => None,
    }
}

/// `hand` records the hand that ended in `st`, played by `players`.
pub open spec fn records(hand: CompleteHand, st: GameState, players: Seq<UserId>) -> bool {
    &&& hand.charges@ == seq![
        st.charges.charges_of(Seat::North),
        st.charges.charges_of(Seat::East),
        st.charges.charges_of(Seat::South),
        st.charges.charges_of(Seat::West),
    ]
    &&& hand.hearts_won@ == seq![
        st.won.spec_hearts(Seat::North) as u8,
        st.won.spec_hearts(Seat::East) as u8,
        st.won.spec_hearts(Seat::South) as u8,
        st.won.spec_hearts(Seat::West) as u8,
    ]
    &&& takers(st) matches Some((q, t, j)) && hand.queen_winner == players[q.spec_idx() as int]
        && hand.ten_winner == players[t.spec_idx() as int] && hand.jack_winner
        == players[j.spec_idx() as int]
}

/// The players of a finished game, each shown as a person.
pub open spec fn humans(players: Seq<UserId>) -> Seq<Player> {
    seq![
        Player::Human { user_id: players[0] },
        Player::Human { user_id: players[1] },
        Player::Human { user_id: players[2] },
        Player::Human { user_id: players[3] },
    ]
}

/// The seating of `event`, if it is a `Sit`; else `players`.
pub open spec fn seated(players: Seq<UserId>, event: GameEvent) -> Seq<UserId> {
    match event {
        GameEvent::Sit { north, east, south, west, .. } => seq![
            north.spec_user_id(),
            east.spec_user_id(),
            south.spec_user_id(),
            west.spec_user_id(),
        ],
        _ => players,
    }
}

/// The replay of the stored events of finished games, one game after another, which records
/// each hand as it ends and each game after its fourth hand.
pub struct ScoreReplay {
    pub state: GameState,
    pub players: [UserId; 4],
    pub hands: Vec<CompleteHand>,
    pub games: Vec<CompleteGame>,
}

/// The seat that took a card, by `WonState::queen_winner` and its kin.
fn taker(st: &GameState, card: Card) -> (r: Option<Seat>)
    requires
        card == Card::QueenSpades || card == Card::TenClubs || card == Card::JackDiamonds,
    ensures
        r == first_taker(st.won, card),
{
    let r = if card == Card::QueenSpades {
        st.won.queen_winner()
    } else if card == Card::TenClubs {
        st.won.ten_winner()
    } else {
        st.won.jack_winner()
    };
    proof {
        Seat::North.lemma_idx();
        Seat::East.lemma_idx();
        Seat::South.lemma_idx();
        Seat::West.lemma_idx();
    }
    r
}

impl ScoreReplay {
    pub fn new() -> (r: Self)
        ensures
            r.state.is_initial(),
            r.players@ == seq![UserId { value: 0 }, UserId { value: 0 }, UserId { value: 0 }, UserId { value: 0 }],
            r.hands@.len() == 0,
            r.games@.len() == 0,
    {
        let nobody = UserId::null();
        let r = ScoreReplay {
            state: GameState::new(),
            players: [nobody, nobody, nobody, nobody],
            hands: Vec::new(),
            games: Vec::new(),
        };
        proof {
            assert(r.players@ =~= seq![nobody, nobody, nobody, nobody]);
        }
        r
    }

    /// `after` is `before` once `event` of game `game_id`, stored at `timestamp`, has moved
    /// the game to state `st` (see `step`); `ok` is what `step` returned.
    pub open spec fn stepped(
        before: ScoreReplay,
        after: ScoreReplay,
        st: GameState,
        game_id: GameId,
        timestamp: i64,
        event: GameEvent,
        ok: bool,
    ) -> bool {
        let players = seated(before.players@, event);
        let ended = before.state.phase.spec_is_playing() && !st.phase.spec_is_playing();
        let n = before.hands@.len();
        &&& !ended ==> {
            &&& ok
            &&& after.state == st
            &&& after.players@ == players
            &&& after.hands@ == before.hands@
            &&& after.games@ == before.games@
        }
        &&& ended && takers(st) is None ==> !ok
        &&& ended && takers(st) is Some && n + 1 < 4 ==> {
            &&& ok
            &&& after.state == st
            &&& after.players@ == players
            &&& after.hands@.len() == n + 1
            &&& after.hands@.subrange(0, n as int) == before.hands@
            &&& records(after.hands@[n as int], st, players)
            &&& after.games@ == before.games@
        }
        &&& ended && takers(st) is Some && n + 1 == 4 ==> {
            let g = after.games@.last();
            &&& ok
            &&& after.state.is_initial()
            &&& after.players@ == seq![
                UserId { value: 0 },
                UserId { value: 0 },
                UserId { value: 0 },
                UserId { value: 0 },
            ]
            &&& after.hands@.len() == 0
            &&& after.games@.len() == before.games@.len() + 1
            &&& after.games@.drop_last() == before.games@
            &&& g.game_id == game_id
            &&& g.completed_time == timestamp
            &&& g.players@ == humans(players)
            &&& g.hands@.len() == n + 1
            &&& g.hands@.subrange(0, n as int) == before.hands@
            &&& records(g.hands@[n as int], st, players)
        }
    }

    /// Replays `event` of game `game_id`, stored at `timestamp`. When play of a hand ends, the
    /// hand is recorded; after the fourth hand, the game is recorded with the time of the
    /// event, and the replay starts afresh for the next game. Returns false, and records
    /// nothing, when a hand ends with the queen of spades, the ten of clubs or the jack of
    /// diamonds taken by nobody: the events are then not those of a game.
    pub fn step(&mut self, game_id: GameId, timestamp: i64, event: &GameEvent) -> (ok: bool)
        requires
            old(self).state.wf(),
            old(self).state.pre_apply(*event),
            old(self).hands@.len() < 4,
        ensures
            final(self).state.wf(),
            final(self).hands@.len() < 4,
            exists|st: GameState| #[trigger] st.applied(old(self).state, *event)
                && ScoreReplay::stepped(*old(self), *final(self), st, game_id, timestamp, *event, ok),
    {
        let was_playing = self.state.phase.is_playing();
        self.state.apply(event);
        let ghost next = self.state;
        match event {
            GameEvent::Sit { north, east, south, west, .. } => {
                self.players = [north.user_id(), east.user_id(), south.user_id(), west.user_id()];
            },
            _ => {},
        }
        proof {
            assert(self.players@ =~= seated(old(self).players@, *event));
        }
        if !(was_playing && !self.state.phase.is_playing()) {
            return true;
        }
        let queen = taker(&self.state, Card::QueenSpades);
        let ten = taker(&self.state, Card::TenClubs);
        let jack = taker(&self.state, Card::JackDiamonds);
        let (q, t, j) = match (queen, ten, jack) {
            (Some(q), Some(t), Some(j)) => (q, t, j),
            _ => {
                return false;
            },
        };
        let st = &self.state;
        let hand = CompleteHand {
            charges: [
                st.charges.charges(Seat::North),
                st.charges.charges(Seat::East),
                st.charges.charges(Seat::South),
                st.charges.charges(Seat::West),
            ],
            hearts_won: [
                st.won.hearts(Seat::North),
                st.won.hearts(Seat::East),
                st.won.hearts(Seat::South),
                st.won.hearts(Seat::West),
            ],
            queen_winner: self.players[q.idx()],
            ten_winner: self.players[t.idx()],
            jack_winner: self.players[j.idx()],
        };
        proof {
            assert(hand.charges@ =~= seq![
                st.charges.charges_of(Seat::North),
                st.charges.charges_of(Seat::East),
                st.charges.charges_of(Seat::South),
                st.charges.charges_of(Seat::West),
            ]);
            assert(hand.hearts_won@ =~= seq![
                st.won.spec_hearts(Seat::North) as u8,
                st.won.spec_hearts(Seat::East) as u8,
                st.won.spec_hearts(Seat::South) as u8,
                st.won.spec_hearts(Seat::West) as u8,
            ]);
        }
        let ghost old_hands = self.hands@;
        self.hands.push(hand);
        proof {
            assert(self.hands@.subrange(0, old_hands.len() as int) =~= old_hands);
        }
        if self.hands.len() == 4 {
            let mut hands: Vec<CompleteHand> = Vec::new();
            std::mem::swap(&mut hands, &mut self.hands);
            let ghost old_games = self.games@;
            let players = [
                Player::Human { user_id: self.players[0] },
                Player::Human { user_id: self.players[1] },
                Player::Human { user_id: self.players[2] },
                Player::Human { user_id: self.players[3] },
            ];
            proof {
                assert(players@ =~= humans(self.players@));
            }
            self.games.push(CompleteGame { game_id, completed_time: timestamp, players, hands });
            proof {
                assert(self.games@.drop_last() =~= old_games);
            }
            self.state = GameState::new();
            let nobody = UserId::null();
            self.players = [nobody, nobody, nobody, nobody];
            proof {
                assert(self.players@ =~= seq![nobody, nobody, nobody, nobody]);
            }
        }
        true
    }
}

impl ScoreReplay {
    /// The games replayed so far, the latest first (see `latest_first_sort`); a game whose
    /// fourth hand was not reached is left out.
    pub fn finish(self) -> (r: Vec<CompleteGame>)
        ensures
            latest_first(r@),
            forall|t: i64| #[trigger] r@.filter(completed_at(t)) == self.games@.filter(
                completed_at(t),
            ),
    {
        latest_first_sort(self.games)
    }
}

/// The games that end at `t`.
pub open spec fn completed_at(t: i64) -> spec_fn(CompleteGame) -> bool {
    |g: CompleteGame| g.completed_time == t
}

/// The games are in order of completion, the latest first.
pub open spec fn latest_first(games: Seq<CompleteGame>) -> bool {
    forall|i: int, j: int|
        0 <= i < j < games.len() ==> games[i].completed_time >= games[j].completed_time
}

/// Keeping none of the items keeps nothing.
proof fn lemma_filter_none(s: Seq<CompleteGame>, p: spec_fn(CompleteGame) -> bool)
    requires
        forall|i: int| 0 <= i < s.len() ==> !p(#[trigger] s[i]),
    ensures
        s.filter(p) == Seq::<CompleteGame>::empty(),
    decreases s.len(),
{
    reveal(Seq::filter);
    if s.len() > 0 {
        lemma_filter_none(s.drop_last(), p);
    }
    assert(s.filter(p) =~= Seq::<CompleteGame>::empty());
}

/// Sorts finished games by completion, the latest first; games completed at the same time
/// keep their order.
pub fn latest_first_sort(games: Vec<CompleteGame>) -> (r: Vec<CompleteGame>)
    ensures
        latest_first(r@),
        forall|t: i64| #[trigger] r@.filter(completed_at(t)) == games@.filter(completed_at(t)),
{
    let ghost all = games@;
    let mut rest = games;
    let mut out: Vec<CompleteGame> = Vec::new();
    let ghost mut k: int = 0;
    proof {
        reveal(Seq::filter);
        assert(all.subrange(0, 0) =~= Seq::<CompleteGame>::empty());
    }
    while rest.len() > 0
        invariant
            0 <= k <= all.len(),
            rest@ == all.subrange(k, all.len() as int),
            latest_first(out@),
            forall|t: i64| #[trigger] out@.filter(completed_at(t)) == all.subrange(0, k).filter(
                completed_at(t),
            ),
        decreases rest@.len(),
    {
        let g = rest.remove(0);
        let mut p: usize = 0;
        while p < out.len() && out[p].completed_time >= g.completed_time
            invariant
                p <= out@.len(),
                forall|i: int| 0 <= i < p ==> #[trigger] out@[i].completed_time >= g.completed_time,
            decreases out@.len() - p,
        {
            p = p + 1;
        }
        let ghost before = out@;
        proof {
            assert forall|i: int| p <= i < before.len() implies #[trigger] before[i].completed_time
                < g.completed_time by {
                assert(before[p as int].completed_time < g.completed_time);
            }
        }
        out.insert(p, g);
        proof {
            let a = before.subrange(0, p as int);
            let b = before.subrange(p as int, before.len() as int);
            assert(before =~= a + b);
            assert(out@ =~= a + seq![g] + b);
            assert(all[k] == g);
            assert(all.subrange(0, k + 1).drop_last() =~= all.subrange(0, k));
            assert forall|t: i64| #[trigger] out@.filter(completed_at(t)) == all.subrange(
                0,
                k + 1,
            ).filter(completed_at(t)) by {
                let pt = completed_at(t);
                reveal(Seq::filter);
                Seq::filter_distributes_over_add(a, b, pt);
                Seq::filter_distributes_over_add(a + seq![g], b, pt);
                Seq::filter_distributes_over_add(a, seq![g], pt);
                assert(seq![g].drop_last() =~= Seq::<CompleteGame>::empty());
                if g.completed_time == t {
                    lemma_filter_none(b, pt);
                    assert(seq![g].filter(pt) =~= seq![g]);
                    assert(a.filter(pt) + b.filter(pt) == a.filter(pt));
                } else {
                    assert(Seq::<CompleteGame>::empty().filter(pt) =~= Seq::<CompleteGame>::empty());
                    assert(seq![g].filter(pt) =~= Seq::<CompleteGame>::empty());
                    assert(a.filter(pt) + Seq::<CompleteGame>::empty() =~= a.filter(pt));
                }
            }
            k = k + 1;
        }
    }
    proof {
        assert(all.subrange(0, k) =~= all);
    }
    out
}

} // verus!
