//! A code-breaking strategy engine for a guessing game played with coloured
//! pegs: feedback scoring, the candidate universe and its subsets, feedback
//! filtering, and a minimax choice of the next guess.

pub mod best_choices;
pub mod decision;
pub mod guarantee;
mod parallel;
pub mod score;
pub mod subset;
pub mod universe;
