//! A precomputed decision tree for a Wordle-style guessing game.
//!
//! Given, for every candidate answer, a fixed sequence of guesses that
//! eventually identifies it, the library reconstructs a single shared tree
//! whose nodes are keyed by observed feedback codes ("judges"), such that
//! following any path of judges from the root lands on the guess prescribed
//! for every answer still consistent with that path.

pub mod feedback;
pub mod judges;
pub mod tree;

pub use feedback::parse_feedback;
pub use judges::Answer;
pub use judges::Guess;
pub use judges::Judge;
pub use judges::JudgeTable;
pub use tree::DecisionTree;
pub use tree::Node;
pub use tree::TreeError;
