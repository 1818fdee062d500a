//! A puzzle of sentences that speak of each other's truth.
//!
//! Every sentence of a puzzle stands at one position and makes a claim about
//! the truth values of the sentences of the puzzle: that the third sentence
//! is false, say, or that two sentences are true. A player marks each
//! sentence true or false. The marking is consistent when what every
//! sentence claims of the marking has the truth value that the marking gives
//! to that sentence.
//!
//! - [`value`] and [`sentence`] hold the values, the six forms of sentence
//!   and what each form claims of a row of truth values; [`truths`] holds
//!   the counts and distances that the claims speak of.
//! - [`generate`] writes a puzzle that a given row of truth values solves,
//!   and [`levels`] shuffles the values of a puzzle among its slots;
//!   [`chance`] makes the random draws for both.
//! - [`evaluate`] judges a marking of a puzzle.
//! - [`render`] words sentences and values for display.
//! - [`pools`] and [`laws`] prove what making, shuffling and judging have to
//!   do with each other.

pub mod chance;
pub mod evaluate;
pub mod exchange;
pub mod generate;
pub mod laws;
pub mod levels;
pub mod pools;
pub mod render;
pub mod sentence;
pub mod truths;
pub mod value;
