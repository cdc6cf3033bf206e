//! An in-memory statistics engine for rosters and match results.
//!
//! Rosters ([`team::Team`], [`player::Player`]) and fixtures
//! ([`match_data::MatchData`]) are independent of each other: a fixture names
//! its teams and scorers by plain text only, and nothing ties those names to
//! a roster. [`analytics::FootballAnalytics`] accumulates fixtures and answers
//! every query by scanning all of them.
//!
//! Where the order of an answer matters, it is fixed: teams and scorers come
//! in order of first appearance, and scorers with equal goals keep that order.

pub mod text;
pub mod player;
pub mod team;
pub mod match_data;
pub mod roll;
pub mod standings;
pub mod scorers;
pub mod analytics;
