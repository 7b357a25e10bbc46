use turbo_hearts::error::CardsError;
use turbo_hearts::game::event::GameEvent;
use turbo_hearts::game::Game;
use turbo_hearts::seed::deal_from;
use turbo_hearts::{
    Card, Cards, ChargingRules, GameId, GamePhase, PassDirection, Player, Seat, Seed, UserId,
};

fn cards(s: &str) -> Cards {
    s.parse().unwrap()
}

fn user(n: u128) -> UserId {
    UserId { value: n }
}

fn sit(rules: ChargingRules) -> GameEvent {
    GameEvent::Sit {
        north: Player::Human { user_id: user(1) },
        east: Player::Human { user_id: user(2) },
        south: Player::Human { user_id: user(3) },
        west: Player::Human { user_id: user(4) },
        rules,
        created_time: 0,
        created_by: user(1),
        seed: Seed::Chosen { value: "chosen".to_string() },
    }
}

/// North holds the spades, east the hearts, south the diamonds and west the clubs.
fn suited_deal() -> GameEvent {
    deal_from(&Cards::all().to_vec(), PassDirection::Left)
}

fn dealt_game() -> Game {
    let mut game = Game::new();
    game.apply(&sit(ChargingRules::Classic));
    game.apply(&suited_deal());
    game
}

#[test]
fn sit_announces_only_itself() {
    let mut game = Game::new();
    let event = sit(ChargingRules::Classic);
    let out = game.apply(&event);
    assert_eq!(out, vec![event]);
    assert_eq!(game.players, [user(1), user(2), user(3), user(4)]);
    assert_eq!(game.seat(user(3)), Some(Seat::South));
    assert_eq!(game.seat(user(9)), None);
}

#[test]
fn deal_starts_passing() {
    let mut game = Game::new();
    game.apply(&sit(ChargingRules::Classic));
    let deal = suited_deal();
    let out = game.apply(&deal);
    assert_eq!(
        out,
        vec![
            deal,
            GameEvent::StartPassing,
            GameEvent::PassStatus {
                north_done: false,
                east_done: false,
                south_done: false,
                west_done: false
            },
        ]
    );
    assert_eq!(game.pre_pass_hand[0], Cards::spades());
    assert_eq!(game.post_pass_hand[3], Cards::clubs());
    assert_eq!(game.owner(Card::TwoClubs), Some(Seat::West));
}

#[test]
fn pass_checks() {
    let id = GameId { value: 7 };
    let mut game = dealt_game();
    assert_eq!(game.verify_pass(id, Seat::North, cards("AKQS")), Ok(()));
    assert_eq!(
        game.verify_pass(id, Seat::North, cards("AKS 2C")),
        Err(CardsError::NotYourCards(cards("2C")))
    );
    assert_eq!(
        game.verify_pass(id, Seat::North, cards("AKQJS")),
        Err(CardsError::IllegalPassSize(cards("AKQJS")))
    );
    assert_eq!(
        game.verify_charge(id, Seat::North, cards("QS")),
        Err(CardsError::IllegalAction("charge", GamePhase::PassLeft))
    );
    assert_eq!(
        game.verify_play(id, Seat::North, Card::QueenSpades),
        Err(CardsError::IllegalAction("play", GamePhase::PassLeft))
    );
    let out = game.apply(&GameEvent::SendPass { from: Seat::North, cards: cards("AKQS") });
    assert_eq!(
        out[1],
        GameEvent::PassStatus {
            north_done: true,
            east_done: false,
            south_done: false,
            west_done: false
        }
    );
    assert_eq!(game.post_pass_hand[0], cards("JT98765432S"));
    assert_eq!(
        game.verify_pass(id, Seat::North, cards("JT9S")),
        Err(CardsError::AlreadyPassed(cards("AKQS")))
    );
}

#[test]
fn a_full_round_of_passing_and_charging_starts_play() {
    let id = GameId { value: 7 };
    let mut game = dealt_game();
    let passes = [
        (Seat::North, Seat::East, cards("AKQS")),
        (Seat::East, Seat::South, cards("AKQH")),
        (Seat::South, Seat::West, cards("AKQD")),
        (Seat::West, Seat::North, cards("AKQC")),
    ];
    for (from, _, passed) in passes.iter() {
        game.apply(&GameEvent::SendPass { from: *from, cards: *passed });
    }
    let mut last = Vec::new();
    for (_, to, passed) in passes.iter() {
        last = game.apply(&GameEvent::RecvPass { to: *to, cards: *passed });
    }
    assert_eq!(last[1], GameEvent::StartCharging);
    assert_eq!(
        last[2],
        GameEvent::ChargeStatus {
            next_charger: None,
            north_done: false,
            east_done: false,
            south_done: false,
            west_done: false
        }
    );
    assert_eq!(last.len(), 3);
    assert_eq!(game.state.phase, GamePhase::ChargeLeft);
    assert_eq!(game.post_pass_hand[1], cards("AKQS JT98765432H"));
    assert_eq!(
        game.verify_charge(id, Seat::North, cards("AC")),
        Err(CardsError::Unchargeable(cards("AC")))
    );
    assert_eq!(
        game.verify_charge(id, Seat::North, cards("QS")),
        Err(CardsError::NotYourCards(cards("QS")))
    );
    assert_eq!(game.verify_charge(id, Seat::East, cards("QS")), Ok(()));
    for seat in [Seat::North, Seat::East, Seat::South] {
        let out = game.apply(&GameEvent::Charge { seat, cards: Cards::none() });
        assert_eq!(out.len(), 2);
        assert!(matches!(out[1], GameEvent::ChargeStatus { next_charger: None, west_done: false, .. }));
    }
    let charge = GameEvent::Charge { seat: Seat::West, cards: Cards::none() };
    let out = game.apply(&charge);
    assert_eq!(
        out,
        vec![
            charge,
            GameEvent::StartTrick { leader: Seat::West },
            GameEvent::PlayStatus { next_player: Seat::West, legal_plays: cards("2C") },
        ]
    );
    assert_eq!(game.state.phase, GamePhase::PlayLeft);
    assert_eq!(
        game.verify_play(id, Seat::West, Card::QueenSpades),
        Err(CardsError::NotYourCards(cards("QS")))
    );
    assert_eq!(
        game.verify_play(id, Seat::West, "3C".parse::<Cards>().unwrap().max()),
        Err(CardsError::MustPlayTwoOfClubs)
    );
    assert_eq!(
        game.verify_play(id, Seat::North, "JS".parse::<Cards>().unwrap().max()),
        Err(CardsError::NotYourTurn(user(4), "play"))
    );
    assert_eq!(game.verify_play(id, Seat::West, Card::TwoClubs), Ok(()));
    let play = GameEvent::Play { seat: Seat::West, card: Card::TwoClubs };
    let out = game.apply(&play);
    assert_eq!(out[0], play);
    assert_eq!(
        out[1],
        GameEvent::PlayStatus { next_player: Seat::North, legal_plays: cards("AKQC") }
    );
}

#[test]
fn passing_events_follow_who_has_passed() {
    let mut game = dealt_game();
    let north = game.pass_events(Seat::North, cards("AKQS"));
    assert_eq!(north, vec![GameEvent::SendPass { from: Seat::North, cards: cards("AKQS") }]);
    for event in north.iter() {
        game.apply(event);
    }
    let east = game.pass_events(Seat::East, cards("AKQH"));
    assert_eq!(
        east,
        vec![
            GameEvent::SendPass { from: Seat::East, cards: cards("AKQH") },
            GameEvent::RecvPass { to: Seat::East, cards: cards("AKQS") },
        ]
    );
}

#[test]
fn keeper_pass_is_scattered_once_everyone_has_passed() {
    let mut game = dealt_game();
    game.state.phase = GamePhase::PassKeeper;
    for (seat, passed) in [
        (Seat::North, cards("AKQS")),
        (Seat::East, cards("AKQH")),
        (Seat::South, cards("AKQD")),
    ] {
        let events = game.pass_events(seat, passed);
        assert_eq!(events.len(), 1);
        let out = game.apply(&events[0]);
        assert_eq!(out.len(), 2);
    }
    let events = game.pass_events(Seat::West, cards("AKQC"));
    assert_eq!(events.len(), 5);
    let mut received = Cards::none();
    for (event, seat) in events[1..].iter().zip([Seat::North, Seat::East, Seat::South, Seat::West]) {
        match event {
            GameEvent::RecvPass { to, cards } => {
                assert_eq!(*to, seat);
                assert_eq!(cards.len(), 3);
                received = received.union(*cards);
            }
            other => panic!("not a receipt: {:?}", other),
        }
    }
    assert_eq!(received, cards("AKQS AKQH AKQD AKQC"));
}

#[test]
fn a_play_is_followed_by_a_deal_only_after_the_last_card() {
    let game = dealt_game();
    let mut seed = turbo_hearts::seed::HashedSeed::from(&Seed::Chosen { value: "x".to_string() });
    let events = game.play_events(Seat::West, Card::TwoClubs, &mut seed);
    assert_eq!(events, vec![GameEvent::Play { seat: Seat::West, card: Card::TwoClubs }]);
    let mut last = dealt_game();
    last.state.phase = GamePhase::PlayLeft;
    last.state.played = Cards::all().without(Card::TwoClubs);
    let events = last.play_events(Seat::West, Card::TwoClubs, &mut seed);
    assert_eq!(events.len(), 2);
    assert!(matches!(events[1], GameEvent::Deal { pass: PassDirection::Right, .. }));
}

#[test]
fn the_last_card_of_a_hand_announces_its_scores() {
    let mut game = dealt_game();
    let passes = [
        (Seat::North, cards("AKQS")),
        (Seat::East, cards("AKQH")),
        (Seat::South, cards("AKQD")),
        (Seat::West, cards("AKQC")),
    ];
    let receivers = [Seat::East, Seat::South, Seat::West, Seat::North];
    for (from, passed) in passes.iter() {
        game.apply(&GameEvent::SendPass { from: *from, cards: *passed });
    }
    for ((_, passed), to) in passes.iter().zip(receivers) {
        game.apply(&GameEvent::RecvPass { to, cards: *passed });
    }
    for seat in [Seat::North, Seat::East, Seat::South, Seat::West] {
        game.apply(&GameEvent::Charge { seat, cards: Cards::none() });
    }
    let mut last = Vec::new();
    for _ in 0..52 {
        let seat = game.state.next_actor.unwrap();
        let card = game.state.legal_plays(game.post_pass_hand[seat.idx()]).max();
        last = game.apply(&GameEvent::Play { seat, card });
    }
    assert_eq!(game.state.phase, GamePhase::PassRight);
    assert!(matches!(last[1], GameEvent::EndTrick { .. }));
    assert_eq!(
        last[2],
        GameEvent::HandComplete {
            north_score: game.state.score(Seat::North),
            east_score: game.state.score(Seat::East),
            south_score: game.state.score(Seat::South),
            west_score: game.state.score(Seat::West),
        }
    );
    assert_eq!(last.len(), 3);
}

#[test]
fn players_sit_in_some_order_under_the_rules_of_north() {
    let rules = [
        ChargingRules::Classic,
        ChargingRules::Blind,
        ChargingRules::Chain,
        ChargingRules::Bridge,
    ];
    let participants: Vec<turbo_hearts::PlayerWithOptions> = (1..=4)
        .map(|n| turbo_hearts::PlayerWithOptions {
            player: Player::Human { user_id: user(n) },
            rules: rules[(n - 1) as usize],
            seat: None,
        })
        .collect();
    let event = Game::sit_event(participants.clone(), 5, user(1), Seed::Redacted);
    match event {
        GameEvent::Sit { north, east, south, west, rules: chosen, created_time, .. } => {
            let mut ids: Vec<u128> =
                [north, east, south, west].iter().map(|p| p.user_id().value).collect();
            ids.sort();
            assert_eq!(ids, vec![1, 2, 3, 4]);
            let proposed = participants.iter().find(|p| p.player == north).unwrap().rules;
            assert_eq!(chosen, proposed);
            assert_eq!(created_time, 5);
        }
        other => panic!("not a sit: {:?}", other),
    }
}

#[test]
fn refusals_answer_with_a_status() {
    assert_eq!(CardsError::UnknownGame(GameId { value: 1 }).status_code(), 404);
    assert_eq!(CardsError::UnknownAuthToken("SECRET-REDACTED".to_string()).status_code(), 401);
    assert_eq!(CardsError::MustFollowSuit.status_code(), 400);
}
