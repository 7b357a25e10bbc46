use turbo_hearts::game::claim::ClaimState;
use turbo_hearts::Seat;

#[test]
fn no_claim() {
    let state = ClaimState::new();
    for s1 in &Seat::VALUES {
        assert!(!state.successfully_claimed(*s1));
        assert!(!state.is_claiming(*s1));
        for s2 in &Seat::VALUES {
            assert!(!state.will_successfully_claim(*s1, *s2));
            assert!(!state.has_accepted(*s1, *s2));
        }
    }
}

#[test]
fn claim() {
    let mut state = ClaimState::new();
    state.claim(Seat::East);
    for s1 in &Seat::VALUES {
        assert!(!state.successfully_claimed(*s1));
        if *s1 == Seat::East {
            assert!(state.is_claiming(*s1));
        } else {
            assert!(!state.is_claiming(*s1));
        }
        for s2 in &Seat::VALUES {
            assert!(!state.will_successfully_claim(*s1, *s2));
            if *s1 == Seat::East && *s2 == Seat::East {
                assert!(state.has_accepted(*s1, *s2));
            } else {
                assert!(!state.has_accepted(*s1, *s2));
            }
        }
    }
}

#[test]
fn accept_claim_once() {
    let mut state = ClaimState::new();
    state.claim(Seat::East);
    state.accept(Seat::East, Seat::North);
    for s1 in &Seat::VALUES {
        assert!(!state.successfully_claimed(*s1));
        if *s1 == Seat::East {
            assert!(state.is_claiming(*s1));
        } else {
            assert!(!state.is_claiming(*s1));
        }
        for s2 in &Seat::VALUES {
            assert!(!state.will_successfully_claim(*s1, *s2));
            if *s1 == Seat::East && (*s2 == Seat::East || *s2 == Seat::North) {
                assert!(state.has_accepted(*s1, *s2));
            } else {
                assert!(!state.has_accepted(*s1, *s2));
            }
        }
    }
}

#[test]
fn accept_claim_twice() {
    let mut state = ClaimState::new();
    state.claim(Seat::East);
    state.accept(Seat::East, Seat::North);
    state.accept(Seat::East, Seat::South);
    for s1 in &Seat::VALUES {
        assert!(!state.successfully_claimed(*s1));
        if *s1 == Seat::East {
            assert!(state.is_claiming(*s1));
        } else {
            assert!(!state.is_claiming(*s1));
        }
        for s2 in &Seat::VALUES {
            if *s1 == Seat::East && *s2 == Seat::West {
                assert!(state.will_successfully_claim(*s1, *s2));
            } else {
                assert!(!state.will_successfully_claim(*s1, *s2));
            }
            if *s1 == Seat::East && *s2 != Seat::West {
                assert!(state.has_accepted(*s1, *s2));
            } else {
                assert!(!state.has_accepted(*s1, *s2));
            }
        }
    }
}

#[test]
fn accept_claim_all() {
    let mut state = ClaimState::new();
    state.claim(Seat::East);
    state.accept(Seat::East, Seat::North);
    state.accept(Seat::East, Seat::South);
    state.accept(Seat::East, Seat::West);
    for s1 in &Seat::VALUES {
        if *s1 == Seat::East {
            assert!(state.successfully_claimed(*s1));
        } else {
            assert!(!state.successfully_claimed(*s1));
        }
        if *s1 == Seat::East {
            assert!(state.is_claiming(*s1));
        } else {
            assert!(!state.is_claiming(*s1));
        }
        for s2 in &Seat::VALUES {
            if *s1 == Seat::East {
                assert!(state.will_successfully_claim(*s1, *s2));
            } else {
                assert!(!state.will_successfully_claim(*s1, *s2));
            }
            if *s1 == Seat::East {
                assert!(state.has_accepted(*s1, *s2));
            } else {
                assert!(!state.has_accepted(*s1, *s2));
            }
        }
    }
}

#[test]
fn reject_claim() {
    let mut state = ClaimState::new();
    state.claim(Seat::East);
    state.accept(Seat::East, Seat::North);
    state.reject(Seat::East);
    for s1 in &Seat::VALUES {
        assert!(!state.successfully_claimed(*s1));
        assert!(!state.is_claiming(*s1));
        for s2 in &Seat::VALUES {
            assert!(!state.will_successfully_claim(*s1, *s2));
            assert!(!state.has_accepted(*s1, *s2));
        }
    }
}

#[test]
fn accept_reports_success_on_the_last_acceptance() {
    let mut state = ClaimState::new();
    state.claim(Seat::West);
    assert!(!state.accept(Seat::West, Seat::North));
    assert!(!state.accept(Seat::West, Seat::East));
    assert!(state.accept(Seat::West, Seat::South));
    state.claim(Seat::North);
    state.reject(Seat::North);
    assert!(state.successfully_claimed(Seat::West));
}
