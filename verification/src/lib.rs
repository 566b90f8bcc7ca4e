//! The rules of a four-player round of euchre, with a branching log of the
//! actions taken, so that any earlier point of a round can be replayed.

pub mod action;
pub mod base;
pub mod card;
pub mod chance;
pub mod choice;
pub mod config;
pub mod deck;
pub mod error;
pub mod forest;
pub mod french;
pub mod game;
pub mod history;
pub mod log;
pub mod logging;
pub mod player;
pub mod robot;
pub mod round;
pub mod seat;
pub mod text;
pub mod tree;
pub mod trick;
pub mod tricks;

pub use action::{Action, ActionData, ActionType, ExpectAction};
pub use base::BaseRound;
pub use card::{Card, Deck, Rank, Suit};
pub use choice::ActionChoice;
pub use config::RoundConfig;
pub use error::{LogId, PlayerError, RoundError};
pub use french::Color;
pub use game::{Game, Scoreboard, Step};
pub use history::{History, HistoryItem};
pub use log::{ActionNode, Log, RawLog};
pub use logging::LoggingRound;
pub use player::Player;
pub use robot::Robot;
pub use round::{Contract, Event, PlayerState, Round, RoundOutcome};
pub use seat::{Seat, Team};
pub use tree::Tree;
pub use trick::Trick;
pub use tricks::Tricks;
