//! A fair matchup engine for racquet-sport sessions.
//!
//! A session owns an ordered roster of player names and an append-only log
//! of committed games. From the log it derives per-player and per-team play
//! counts, enumerates every structurally valid next game, scores each
//! candidate by how often its players and team compositions have already
//! played, and proposes the lowest-cost candidate.

pub mod combos;
pub mod history;
pub mod propose;
pub mod render;
pub mod session;
pub mod shuffle;
pub mod scoring;
pub mod game;

pub use game::Game;
pub use session::{GenerationStrategy, Session};
