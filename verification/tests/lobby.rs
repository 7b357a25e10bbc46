use turbo_hearts::lobby::{LobbyEvent, LobbySubscribers};
use turbo_hearts::UserId;

fn user(n: u128) -> UserId {
    UserId { value: n }
}

#[test]
fn only_the_first_subscription_joins() {
    let mut subscribers = LobbySubscribers::new();
    assert!(subscribers.subscribe(user(1)));
    assert!(subscribers.subscribe(user(2)));
    assert!(!subscribers.subscribe(user(1)));
    assert_eq!(subscribers.users, vec![user(1), user(2), user(1)]);
}

#[test]
fn a_user_leaves_when_all_its_subscriptions_close() {
    let mut subscribers = LobbySubscribers::new();
    for n in [1, 2, 1, 3, 3] {
        subscribers.subscribe(user(n));
    }
    let left = subscribers.drop_closed(&vec![false, true, true, false, false]);
    assert_eq!(subscribers.users, vec![user(2), user(1)]);
    assert_eq!(left, vec![user(3)]);
    let left = subscribers.drop_closed(&vec![false, false]);
    assert!(subscribers.users.is_empty());
    assert_eq!(left, vec![user(2), user(1)]);
}

#[test]
fn ping_is_ping() {
    assert!(LobbyEvent::Ping.is_ping());
    assert!(!LobbyEvent::LeaveLobby { user_id: user(1) }.is_ping());
}
