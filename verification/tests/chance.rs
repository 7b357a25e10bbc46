use turbo_hearts::bot::random::RandomBot;
use turbo_hearts::bot::BotState;
use turbo_hearts::game::event::GameEvent;
use turbo_hearts::game::state::GameState;
use turbo_hearts::game::Game;
use turbo_hearts::seed::deal_from;
use turbo_hearts::{Cards, ChargingRules, GameId, GamePhase, PassDirection, Seat, Seed, UserId};

fn cards(s: &str) -> Cards {
    s.parse().unwrap()
}

#[test]
fn fresh_identifiers_differ() {
    assert_ne!(UserId::new(), UserId::new());
    assert_ne!(GameId::new(), GameId::new());
    assert_ne!(Seed::random(), Seed::random());
}

#[test]
fn random_passes_are_not_always_the_highest_cards() {
    let hand = cards("AKQJT98765432S");
    let bot_state = BotState { seat: Seat::North, pre_pass_hand: hand, post_pass_hand: hand };
    let state = GameState::new();
    let mut bot = RandomBot::new();
    let mut passes = Vec::new();
    for _ in 0..20 {
        let pass = bot.pass(&bot_state, &state);
        assert_eq!(pass.len(), 3);
        assert!(hand.contains_all(pass));
        passes.push(pass);
    }
    assert!(passes.iter().any(|p| *p != cards("AKQS")));
}

#[test]
fn random_plays_vary() {
    let hand = cards("AKQJT98765432H");
    let bot_state = BotState { seat: Seat::North, pre_pass_hand: hand, post_pass_hand: hand };
    let mut state = GameState::new();
    state.phase = GamePhase::PlayLeft;
    state.played = cards("2C");
    let mut led = turbo_hearts::Suits::none();
    led.insert(turbo_hearts::Suit::Clubs);
    state.led_suits = led;
    state.won.win(Seat::East, cards("2H 3C 4C 5C"));
    let legal = state.legal_plays(hand);
    let mut bot = RandomBot::new();
    let mut seen = Cards::none();
    for _ in 0..50 {
        let card = bot.play(&bot_state, &state);
        assert!(legal.contains(card));
        seen = seen.with(card);
    }
    assert!(seen.len() > 1);
}

#[test]
fn the_keeper_pass_is_scattered_at_random() {
    let mut scattered = false;
    for _ in 0..5 {
        let mut game = Game::new();
        game.apply(&GameEvent::Sit {
            north: turbo_hearts::Player::Human { user_id: UserId { value: 1 } },
            east: turbo_hearts::Player::Human { user_id: UserId { value: 2 } },
            south: turbo_hearts::Player::Human { user_id: UserId { value: 3 } },
            west: turbo_hearts::Player::Human { user_id: UserId { value: 4 } },
            rules: ChargingRules::Classic,
            created_time: 0,
            created_by: UserId { value: 1 },
            seed: Seed::Redacted,
        });
        game.apply(&deal_from(&Cards::all().to_vec(), PassDirection::Left));
        game.state.phase = GamePhase::PassKeeper;
        for (seat, passed) in [
            (Seat::North, cards("AKQS")),
            (Seat::East, cards("AKQH")),
            (Seat::South, cards("AKQD")),
        ] {
            game.apply(&GameEvent::SendPass { from: seat, cards: passed });
        }
        let events = game.pass_events(Seat::West, cards("AKQC"));
        if events[1] != (GameEvent::RecvPass { to: Seat::North, cards: cards("AKQS") }) {
            scattered = true;
        }
    }
    assert!(scattered);
}

#[test]
fn fresh_identifiers_are_version_4_uuids() {
    for value in [UserId::new().value, GameId::new().value] {
        assert_eq!((value >> 76) & 0xf, 4);
        assert_eq!((value >> 62) & 0x3, 2);
    }
}

#[test]
fn random_seed_text_is_a_hyphenated_uuid() {
    match Seed::random() {
        Seed::Random { value } => {
            let chars: Vec<char> = value.chars().collect();
            assert_eq!(chars.len(), 36);
            for (i, c) in chars.iter().enumerate() {
                if i == 8 || i == 13 || i == 18 || i == 23 {
                    assert_eq!(*c, '-');
                } else {
                    assert!(c.is_ascii_digit() || ('a'..='f').contains(c));
                }
            }
            assert_eq!(chars[14], '4');
            assert!("89ab".contains(chars[19]));
        }
        other => panic!("not a random seed: {:?}", other),
    }
}
