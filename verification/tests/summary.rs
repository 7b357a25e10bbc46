use turbo_hearts::error::CardsError;
use turbo_hearts::game::event::GameEvent;
use turbo_hearts::game::Game;
use turbo_hearts::seed::deal_from;
use turbo_hearts::summary::{latest_first_sort, CompleteGame, HandReplay, ScoreReplay};
use turbo_hearts::{Cards, ChargingRules, GameId, PassDirection, Player, Seat, Seed, UserId};

fn user(n: u128) -> UserId {
    UserId { value: n }
}

fn sit() -> GameEvent {
    GameEvent::Sit {
        north: Player::Human { user_id: user(1) },
        east: Player::Human { user_id: user(2) },
        south: Player::Human { user_id: user(3) },
        west: Player::Human { user_id: user(4) },
        rules: ChargingRules::Classic,
        created_time: 0,
        created_by: user(1),
        seed: Seed::Chosen { value: "chosen".to_string() },
    }
}

fn cards(s: &str) -> Cards {
    s.parse().unwrap()
}

/// The stored events of one hand passed to the left, from the deal to the last card, with
/// every seat playing its highest legal card.
fn one_hand() -> Vec<GameEvent> {
    let mut game = Game::new();
    let mut events = vec![sit()];
    game.apply(&events[0]);
    let deal = deal_from(&Cards::all().to_vec(), PassDirection::Left);
    game.apply(&deal);
    events.push(deal);
    let passes = [
        (Seat::North, Seat::East, cards("AKQS")),
        (Seat::East, Seat::South, cards("AKQH")),
        (Seat::South, Seat::West, cards("AKQD")),
        (Seat::West, Seat::North, cards("AKQC")),
    ];
    for (from, _, passed) in passes.iter() {
        events.push(GameEvent::SendPass { from: *from, cards: *passed });
    }
    for (_, to, passed) in passes.iter() {
        events.push(GameEvent::RecvPass { to: *to, cards: *passed });
    }
    for seat in [Seat::North, Seat::East, Seat::South, Seat::West] {
        events.push(GameEvent::Charge { seat, cards: Cards::none() });
    }
    for event in events[2..].iter() {
        game.apply(event);
    }
    for _ in 0..52 {
        let seat = game.state.next_actor.unwrap();
        let hand = game.post_pass_hand[seat.idx() as usize];
        let card = game.state.legal_plays(hand).max();
        let play = GameEvent::Play { seat, card };
        game.apply(&play);
        events.push(play);
    }
    assert!(!game.state.phase.is_playing());
    events
}

#[test]
fn score_replay_records_a_finished_hand() {
    let events = one_hand();
    let mut replay = ScoreReplay::new();
    for event in events.iter() {
        assert!(replay.state.can_apply(event));
        assert!(replay.step(GameId { value: 1 }, 100, event));
    }
    assert_eq!(replay.hands.len(), 1);
    let hand = replay.hands[0];
    assert_eq!(hand.charges, [Cards::none(); 4]);
    let hearts: u32 = hand.hearts_won.iter().map(|h| *h as u32).sum();
    assert_eq!(hearts, 13);
    assert_eq!(replay.players, [user(1), user(2), user(3), user(4)]);
    assert!(replay.finish().is_empty());
}

#[test]
fn hand_replay_records_the_hand_from_its_deal() {
    let events = one_hand();
    let mut replay = HandReplay::new(GameId { value: 3 }, PassDirection::Left);
    let mut done = false;
    let mut steps = 0;
    for (i, event) in events.iter().enumerate() {
        steps += 1;
        done = replay.step(i as i64, event.clone());
        if done {
            break;
        }
    }
    assert!(done);
    assert_eq!(steps, events.len());
    let summary = match replay.finish() {
        Ok(summary) => summary,
        Err(e) => panic!("unexpected error {:?}", e),
    };
    assert_eq!(summary.north, Player::Human { user_id: user(1) });
    assert_eq!(summary.rules, ChargingRules::Classic);
    assert_eq!(summary.events.len(), events.len() - 1);
    assert_eq!(summary.events[0].timestamp, 1);
    assert_eq!(
        summary.events[0].synthetic_events,
        vec![
            GameEvent::StartPassing,
            GameEvent::PassStatus {
                north_done: false,
                east_done: false,
                south_done: false,
                west_done: false
            },
        ]
    );
    let last = summary.events.last().unwrap();
    assert!(matches!(last.event, GameEvent::Play { .. }));
    assert!(matches!(last.synthetic_events[0], GameEvent::EndTrick { .. }));
    assert!(matches!(last.synthetic_events[1], GameEvent::HandComplete { .. }));
    assert_eq!(last.synthetic_events.len(), 2);
}

#[test]
fn hand_replay_errors() {
    let events = one_hand();
    let mut replay = HandReplay::new(GameId { value: 3 }, PassDirection::Right);
    for event in events.iter() {
        replay.step(0, event.clone());
    }
    assert!(matches!(
        replay.finish(),
        Err(CardsError::UnknownHand(GameId { value: 3 }, PassDirection::Right))
    ));
    let mut replay = HandReplay::new(GameId { value: 3 }, PassDirection::Left);
    for event in events[..20].iter() {
        replay.step(0, event.clone());
    }
    assert!(matches!(
        replay.finish(),
        Err(CardsError::IncompleteHand(GameId { value: 3 }, PassDirection::Left))
    ));
}

fn game(id: u128, time: i64) -> CompleteGame {
    CompleteGame {
        game_id: GameId { value: id },
        completed_time: time,
        players: [Player::Human { user_id: user(1) }; 4],
        hands: Vec::new(),
    }
}

#[test]
fn latest_games_come_first_and_ties_keep_their_order() {
    let sorted = latest_first_sort(vec![game(1, 5), game(2, 9), game(3, 5), game(4, 7)]);
    let ids: Vec<u128> = sorted.iter().map(|g| g.game_id.value).collect();
    assert_eq!(ids, vec![2, 4, 1, 3]);
}
