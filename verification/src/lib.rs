//! Player progress engine for a puzzle game: player records, puzzle
//! submissions, experience rewards and a bounded ranking of the players with
//! the most experience points.

pub mod error;
pub mod reward;
pub mod player;
pub mod submission;
pub mod leaderboard;
pub mod contract;

pub use error::ContractError;
pub use reward::compute_reward;
pub use player::{Player, PlayerStore};
pub use submission::{PuzzleSubmission, SubmissionLog};
pub use leaderboard::{Entry, LeaderboardIndex};
pub use contract::MindBlockContract;
