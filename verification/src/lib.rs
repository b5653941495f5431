//! Sprague-Grundy nimbers of impartial games, computed by a bounded,
//! memoising, interruptible search, with the search proved to answer with
//! the nimber.
//!
//! - `game`: what a game provides, the traits `Position` and `Impartial`.
//! - `nim`: nimbers and nim-sums, as ghost functions with their lemmas.
//! - `kayles`: the game of Kayles on a single row.
//! - `entry`: the evaluation state of one position.
//! - `canon`: the canonical form of moves.
//! - `record`: the records of the cache and what makes them sound.
//! - `evaluator`: the evaluator itself.
//! - `laws`: what holds of the answers of the evaluator.
//! - `index`, `sorted`, `slices`: the calls that are taken on trust, into
//!   `dashmap`, into `sorted_vec`, and on slices of the standard library.

pub mod canon;
pub mod entry;
pub mod evaluator;
pub mod game;
pub mod index;
pub mod kayles;
pub mod laws;
pub mod nim;
pub mod record;
pub mod slices;
pub mod sorted;

pub use canon::remove_pairs;
pub use evaluator::Evaluator;
pub use evaluator::Outcome;
pub use game::Impartial;
pub use game::Position;
