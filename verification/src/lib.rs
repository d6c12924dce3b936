//! Scoring for ten-pin bowling: a verified state machine that groups a
//! stream of rolls into frames and computes the cumulative score with strike
//! and spare bonuses, including the special rules of the tenth frame.

pub mod game;
pub mod scoring;
