pub mod bits;
pub mod bot;
pub mod cards;
pub mod config;
pub mod error;
pub mod game;
pub mod ids;
pub mod lobby;
pub mod phase;
pub mod player;
pub mod seat;
pub mod seed;
pub mod suits;
pub mod summary;
pub mod types;

pub use cards::{Card, Cards, Rank, Suit};
pub use ids::{GameId, UserId};
pub use phase::GamePhase;
pub use player::{BotStrategy, Player, PlayerWithOptions};
pub use seat::Seat;
pub use seed::Seed;
pub use suits::Suits;
pub use types::{ChargingRules, PassDirection, RandomEvent};
