//! A five-letter word-guessing game and an automated player.
//!
//! The grading engine reproduces the game's duplicate-letter semantics
//! exactly (a two-pass, count-decrementing protocol over the secret's letter
//! multiset), the game enforces guess legality and the round lifecycle, and
//! the solver narrows a belief set over the candidate pool with the same
//! semantics, choosing each guess by expected information gain computed in
//! fixed-point arithmetic. A batch module runs the solver over chosen
//! secrets and folds the per-trial outcomes into aggregate statistics.
pub mod batch;
pub mod game;
pub mod score;
pub mod solver;
