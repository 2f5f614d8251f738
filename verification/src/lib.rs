use vstd::prelude::*;

pub mod board;
pub mod bot;
pub mod bot_algorithm;
pub mod bot_difficulty;
pub mod bot_heuristic;
pub mod direction;
pub mod game_mode;
pub mod grid;
pub mod history;
pub mod mechanics;
pub mod player;
pub mod reversi;

pub use board::Board;
pub use bot::Bot;
pub use bot_algorithm::BotAlgorithm;
pub use bot_difficulty::BotDifficulty;
pub use bot_heuristic::BotHeuristic;
pub use direction::Direction;
pub use game_mode::GameMode;
pub use history::History;
pub use player::Player;
pub use reversi::Reversi;
