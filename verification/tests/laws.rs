use turbo_hearts::game::event::GameEvent;
use turbo_hearts::game::state::GameState;
use turbo_hearts::seed::deal_from;
use turbo_hearts::{Cards, ChargingRules, GamePhase, PassDirection, Seat};

fn cards(s: &str) -> Cards {
    s.parse().unwrap()
}

fn playing_state() -> GameState {
    let mut state = GameState::new();
    state.phase = GamePhase::PlayLeft;
    state.played = cards("AKQJT98765432S AKQJT98765432H");
    state
}

#[test]
fn rejected_claim_is_as_if_never_made() {
    let before = playing_state();
    let mut state = before;
    state.apply(&GameEvent::Claim { seat: Seat::East, hand: cards("AKQC") });
    assert!(state.claims.is_claiming(Seat::East));
    state.apply(&GameEvent::RejectClaim { claimer: Seat::East, rejector: Seat::South });
    assert!(!state.claims.is_claiming(Seat::East));
    for claimer in [Seat::North, Seat::East, Seat::South, Seat::West] {
        for acceptor in [Seat::North, Seat::East, Seat::South, Seat::West] {
            assert_eq!(
                state.claims.has_accepted(claimer, acceptor),
                before.claims.has_accepted(claimer, acceptor)
            );
        }
    }
    assert_eq!(state.phase, before.phase);
    assert_eq!(state.played, before.played);
}

#[test]
fn a_claim_accepted_by_everyone_ends_the_hand() {
    let mut state = playing_state();
    state.apply(&GameEvent::Claim { seat: Seat::East, hand: cards("AKQC") });
    state.apply(&GameEvent::AcceptClaim { claimer: Seat::East, acceptor: Seat::North });
    state.apply(&GameEvent::AcceptClaim { claimer: Seat::East, acceptor: Seat::South });
    assert_eq!(state.phase, GamePhase::PlayLeft);
    state.apply(&GameEvent::AcceptClaim { claimer: Seat::East, acceptor: Seat::West });
    assert_eq!(state.phase, GamePhase::PassRight);
    assert!(state.current_trick.is_empty());
}

#[test]
fn charging_ends_with_empty_charges_from_everyone_else() {
    let mut state = GameState::new();
    state.rules = ChargingRules::Classic;
    state.phase = GamePhase::ChargeLeft;
    state.apply(&GameEvent::Charge { seat: Seat::North, cards: Cards::none() });
    state.apply(&GameEvent::Charge { seat: Seat::East, cards: cards("QS") });
    assert!(state.done.charged(Seat::East));
    assert!(!state.done.charged(Seat::North));
    for seat in [Seat::South, Seat::West] {
        state.apply(&GameEvent::Charge { seat, cards: Cards::none() });
        assert_eq!(state.phase, GamePhase::ChargeLeft);
    }
    state.apply(&GameEvent::Charge { seat: Seat::North, cards: Cards::none() });
    assert_eq!(state.phase, GamePhase::PlayLeft);
}

#[test]
fn chained_charges_make_everyone_charge_again() {
    let mut state = GameState::new();
    state.rules = ChargingRules::Chain;
    state.phase = GamePhase::ChargeLeft;
    state.next_actor = Some(Seat::North);
    state.apply(&GameEvent::Charge { seat: Seat::North, cards: cards("QS") });
    for seat in [Seat::North, Seat::East, Seat::South, Seat::West] {
        assert!(!state.done.charged(seat));
    }
}

#[test]
fn players_see_only_their_own_hand() {
    let deal = deal_from(&Cards::all().to_vec(), PassDirection::Left);
    match deal.redact(Some(Seat::East), ChargingRules::Classic) {
        GameEvent::Deal { north, east, south, west, .. } => {
            assert_eq!(east, Cards::hearts());
            assert!(north.is_empty() && south.is_empty() && west.is_empty());
        }
        other => panic!("not a deal: {:?}", other),
    }
    assert_eq!(deal.redact(None, ChargingRules::Classic), deal);
    let charge = GameEvent::Charge { seat: Seat::North, cards: cards("QS TC") };
    assert_eq!(
        charge.redact(Some(Seat::South), ChargingRules::Blind),
        GameEvent::BlindCharge { seat: Seat::North, count: 2 }
    );
    assert_eq!(charge.redact(Some(Seat::North), ChargingRules::Blind), charge);
    assert_eq!(charge.redact(Some(Seat::South), ChargingRules::Classic), charge);
}

#[test]
fn legal_plays_are_unplayed_cards_of_the_hand() {
    let mut state = playing_state();
    state.played = Cards::none();
    let hand = cards("AKS 2C 5D");
    let legal = state.legal_plays(hand);
    assert_eq!(legal, cards("2C"));
    state.played = cards("2C 3C 4C 5C");
    let mut led = turbo_hearts::Suits::none();
    led.insert(turbo_hearts::Suit::Clubs);
    state.led_suits = led;
    let legal = state.legal_plays(hand);
    assert!(!legal.is_empty());
    assert!(hand.contains_all(legal));
    assert!(!legal.contains_any(state.played));
}
