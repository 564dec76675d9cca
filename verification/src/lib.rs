//! Rating engine of a match leaderboard.
//!
//! The engine keeps a rating for every player it has seen and the set of
//! matches it has counted. Matches come in batches from a feed. A match dated
//! after the time at which it is met, or counted before, is passed over;
//! every other match moves the ratings of its two players, by a rating model
//! that the caller hands in, and is then remembered. The ranked view lists
//! the best players by `mu`, best first.
//!
//! - [`rating`] holds the ratings and the key by which they rank,
//! - [`matches`] the players and the matches,
//! - [`board`] the leaderboard as a mathematical value, in which the
//!   contracts are written,
//! - [`store`] the leaderboard itself, with lookup and update,
//! - [`ingest`] the counting of matches,
//! - [`ranking`] the ranked view,
//! - [`schedule`] the cadence of updates and reports,
//! - [`laws`] what holds of every leaderboard.

pub mod board;
mod clock;
pub mod ingest;
pub mod laws;
pub mod matches;
pub mod ranking;
pub mod rating;
pub mod schedule;
pub mod store;
