//! Exhaustive analysis of a ranked-prediction game over binary questions.
//!
//! A set of yes/no questions is partially resolved; every contestant has
//! ranked the questions by importance with a permutation of `1..=N`. For
//! every possible resolution of the still-open questions, the engine scores
//! each contestant, picks a winner (with a deterministic level-by-level
//! tie-break over each contestant's descending ladder of correct weights),
//! and folds the result into aggregate statistics.

pub mod engine;
pub mod game;
pub mod outcome;
pub mod score;
pub mod stats;
pub mod tiebreak;
