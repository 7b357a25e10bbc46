//! The lobby: the events it sends its subscribers, the games waiting for players and the chat,
//! and the bookkeeping of who is subscribed.
use crate::ids::{GameId, UserId};
use crate::player::PlayerWithOptions;
use crate::seed::Seed;
use std::collections::{HashMap, HashSet};
use vstd::prelude::*;

verus! {

/// A game in the lobby, waiting for players or being played.
pub struct LobbyGame {
    pub players: HashSet<PlayerWithOptions>,
    pub seed: Seed,
    pub created_time: i64,
    pub created_by: UserId,
    pub last_updated_time: i64,
    pub last_updated_by: UserId,
    pub started_time: Option<i64>,
}

/// A message of the lobby chat.
pub struct LobbyChat {
    pub timestamp: i64,
    pub user_id: UserId,
    pub message: String,
}

/// What the lobby tells its subscribers.
pub enum LobbyEvent {
    Ping,
    JoinLobby { user_id: UserId },
    NewGame { game_id: GameId, player: PlayerWithOptions, seed: Seed },
    LobbyState {
        subscribers: HashSet<UserId>,
        chat: Vec<LobbyChat>,
        games: HashMap<GameId, LobbyGame>,
    },
    JoinGame { game_id: GameId, player: PlayerWithOptions },
    StartGame { game_id: GameId, north: UserId, east: UserId, south: UserId, west: UserId },
    LeaveGame { game_id: GameId, user_id: UserId },
    FinishGame { game_id: GameId },
    Chat { user_id: UserId, message: String },
    LeaveLobby { user_id: UserId },
}

impl LobbyEvent {
    pub fn is_ping(&self) -> (r: bool)
        ensures
            r == (*self is Ping),
    {
        match self {
            LobbyEvent::Ping => true,
            _ => false,
        }
    }
}

/// The subscriptions kept after some were found closed: those still `open`, in order.
pub open spec fn still_open(users: Seq<UserId>, open: Seq<bool>) -> Seq<UserId>
    decreases users.len(),
{
    if users.len() == 0 || open.len() == 0 {
        Seq::empty()
    } else {
        let rest = still_open(users.drop_last(), open.drop_last());
        if open.last() {
            rest.push(users.last())
        } else {
            rest
        }
    }
}

/// `user` holds one of the first `n` subscriptions, and it was found closed.
pub open spec fn closed_within(users: Seq<UserId>, open: Seq<bool>, n: int, user: UserId) -> bool {
    exists|k: int| #![trigger users[k]] 0 <= k < n && !open[k] && users[k] == user
}

/// The users of the subscriptions found closed.
pub open spec fn closed_users(users: Seq<UserId>, open: Seq<bool>) -> Set<UserId> {
    Set::new(|u: UserId| closed_within(users, open, users.len() as int, u))
}

proof fn lemma_closed_step(users: Seq<UserId>, open: Seq<bool>, n: int, u: UserId)
    requires
        0 <= n < users.len(),
        n < open.len(),
    ensures
        closed_within(users, open, n + 1, u) == (closed_within(users, open, n, u) || (!open[n]
            && users[n] == u)),
{
    if closed_within(users, open, n + 1, u) {
        let k = choose|k: int| #![trigger users[k]] 0 <= k < n + 1 && !open[k] && users[k] == u;
        if k < n {
            assert(0 <= k < n && !open[k] && users[k] == u);
        }
    }
    if closed_within(users, open, n, u) {
        let k = choose|k: int| #![trigger users[k]] 0 <= k < n && !open[k] && users[k] == u;
        assert(0 <= k < n + 1 && !open[k] && users[k] == u);
    }
    if !open[n] && users[n] == u {
        assert(0 <= n < n + 1 && !open[n] && users[n] == u);
    }
}

/// Whether `users` holds `user`.
fn holds(users: &Vec<UserId>, user: UserId) -> (r: bool)
    ensures
        r == users@.contains(user),
{
    let mut i: usize = 0;
    while i < users.len()
        invariant
            i <= users@.len(),
            forall|k: int| 0 <= k < i ==> users@[k] != user,
        decreases users@.len() - i,
    {
        if users[i] == user {
            return true;
        }
        i = i + 1;
    }
    false
}

/// The users subscribed to the lobby, one entry per subscription, in the order in which they
/// subscribed; a user may hold several subscriptions.
pub struct LobbySubscribers {
    pub users: Vec<UserId>,
}

impl LobbySubscribers {
    pub fn new() -> (r: Self)
        ensures
            r.users@.len() == 0,
    {
        LobbySubscribers { users: Vec::new() }
    }

    /// Adds a subscription of `user`. Returns whether the user was not subscribed before, in
    /// which case the lobby announces that the user joined.
    pub fn subscribe(&mut self, user: UserId) -> (joined: bool)
        ensures
            joined == !old(self).users@.contains(user),
            final(self).users@ == old(self).users@.push(user),
    {
        let joined = !holds(&self.users, user);
        self.users.push(user);
        joined
    }

    /// Drops the subscriptions found closed (`open[i]` tells whether the `i`-th still is).
    /// Returns, each once, the users whose subscriptions were all dropped: the lobby announces
    /// that they left.
    pub fn drop_closed(&mut self, open: &Vec<bool>) -> (left: Vec<UserId>)
        requires
            open@.len() == old(self).users@.len(),
        ensures
            final(self).users@ == still_open(old(self).users@, open@),
            left@.no_duplicates(),
            forall|u: UserId| #[trigger]
                left@.contains(u) == (closed_users(old(self).users@, open@).contains(u)
                    && !final(self).users@.contains(u)),
    {
        let ghost users = self.users@;
        let mut kept: Vec<UserId> = Vec::new();
        let mut closed: Vec<UserId> = Vec::new();
        let mut i: usize = 0;
        while i < open.len()
            invariant
                i <= open@.len(),
                open@.len() == users.len(),
                self.users@ == users,
                kept@ == still_open(users.subrange(0, i as int), open@.subrange(0, i as int)),
                closed@.no_duplicates(),
                forall|u: UserId| #[trigger]
                    closed@.contains(u) == closed_within(users, open@, i as int, u),
            decreases open@.len() - i,
        {
            proof {
                assert(users.subrange(0, i + 1).drop_last() =~= users.subrange(0, i as int));
                assert(open@.subrange(0, i + 1).drop_last() =~= open@.subrange(0, i as int));
            }
            let user = self.users[i];
            if open[i] {
                kept.push(user);
            } else if !holds(&closed, user) {
                closed.push(user);
            }
            proof {
                broadcast use vstd::seq_lib::lemma_seq_contains_after_push;

                assert forall|u: UserId| #[trigger]
                    closed@.contains(u) == closed_within(users, open@, i + 1, u) by {
                    lemma_closed_step(users, open@, i as int, u);
                }
            }
            i = i + 1;
        }
        proof {
            assert(users.subrange(0, i as int) =~= users);
            assert(open@.subrange(0, i as int) =~= open@);
        }
        let mut left: Vec<UserId> = Vec::new();
        let mut j: usize = 0;
        proof {
            assert(closed@.subrange(0, 0) =~= Seq::<UserId>::empty());
        }
        while j < closed.len()
            invariant
                j <= closed@.len(),
                closed@.no_duplicates(),
                left@.no_duplicates(),
                forall|u: UserId| #[trigger]
                    left@.contains(u) == (closed@.subrange(0, j as int).contains(u)
                        && !kept@.contains(u)),
            decreases closed@.len() - j,
        {
            broadcast use vstd::seq_lib::lemma_seq_contains_after_push;

            let ghost before = left@;
            let user = closed[j];
            proof {
                assert(closed@.subrange(0, j + 1) =~= closed@.subrange(0, j as int).push(user));
                assert(!closed@.subrange(0, j as int).contains(user)) by {
                    if closed@.subrange(0, j as int).contains(user) {
                        let k = choose|k: int| 0 <= k < j && closed@.subrange(0, j as int)[k] == user;
                        assert(closed@[k] == closed@[j as int]);
                    }
                }
            }
            if !holds(&kept, user) {
                left.push(user);
                proof {
                    assert(left@.no_duplicates()) by {
                        assert(!before.contains(user));
                        assert forall|a: int, b: int| 0 <= a < b < left@.len() implies left@[a]
                            != left@[b] by {
                            if b == left@.len() - 1 {
                                assert(before[a] == left@[a]);
                            } else {
                                assert(before[a] != before[b]);
                            }
                        }
                    }
                }
            }
            j = j + 1;
        }
        proof {
            assert(closed@.subrange(0, j as int) =~= closed@);
        }
        self.users = kept;
        left
    }
}

} // verus!
