//! A Texas Hold'em toolkit: a 52-card deck with a dealing cursor, bounded
//! per-player hands, a grading engine that classifies a 5–7 card pool into the
//! best achievable poker hand, and a Monte Carlo equity estimator.

pub mod grade;
pub mod holdem;
pub mod rank;
pub mod table;
