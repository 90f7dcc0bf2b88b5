//! An automated player for a Wordle-style word-guessing game.
//!
//! Given a dictionary of fixed-length lowercase words and a feedback oracle,
//! the solver repeatedly guesses a word, folds the per-letter feedback into an
//! accumulated [`knowledge::Knowledge`] value, narrows the candidate set, and
//! converges on the secret word.  The knowledge accumulation, candidate
//! filtering, scoring and the convergence loop are all verified; the
//! interactive prompt, word-list loading and command-line surface live with
//! the binary that wraps this library.

pub mod game;
pub mod interactive_solver;
pub mod knowledge;
pub mod non_interactive_solver;
pub mod player;
pub mod score;
pub mod words;
