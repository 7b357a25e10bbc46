use turbo_hearts::game::charge::ChargeState;
use turbo_hearts::{Card, Cards, Seat};

#[test]
fn no_charges() {
    let state = ChargeState::new();
    assert_eq!(state.all_charges(), Cards::none());
    for &seat in &Seat::VALUES {
        assert_eq!(state.charges(seat), Cards::none());
    }
    for card in Cards::all().to_vec() {
        assert!(!state.is_charged(card));
    }
}

#[test]
fn charge() {
    let mut state = ChargeState::new();
    state.charge(Seat::North, Cards::queen_spades());
    state.charge(Seat::West, Card::TenClubs.or(Card::JackDiamonds));
    assert_eq!(
        state.all_charges(),
        Cards::chargeable().without(Card::AceHearts)
    );
    assert_eq!(state.charges(Seat::North), Cards::queen_spades());
    assert_eq!(state.charges(Seat::East), Cards::none());
    assert_eq!(state.charges(Seat::South), Cards::none());
    assert_eq!(
        state.charges(Seat::West),
        Card::TenClubs.or(Card::JackDiamonds)
    );
    for card in Cards::all().to_vec() {
        if Cards::chargeable().without(Card::AceHearts).contains(card) {
            assert!(state.is_charged(card));
        } else {
            assert!(!state.is_charged(card));
        }
    }
}

#[test]
fn charging_other_cards_is_ignored() {
    let mut state = ChargeState::new();
    state.charge(Seat::South, Card::AceSpades.or(Card::AceHearts));
    assert_eq!(state.charges(Seat::South), Cards::from(Card::AceHearts));
    state.clear();
    assert_eq!(state.all_charges(), Cards::none());
}
