//! A verified assistant for a five-letter word-guessing game.
//!
//! The library ranks the words that are still possible by how many letters
//! they share with the rest of the field, and narrows the field after each
//! guess from the per-letter feedback the player reports.
//!
//! - [`word`]: candidates, words of exactly five characters.
//! - [`lexicon`]: the ordered list of candidates, loading and filtering.
//! - [`score`]: the score of every candidate, whole or in chunks.
//! - [`rank`]: candidates with their scores, best first.
//! - [`feedback`]: rounds, and reading them from a line of text.
//! - [`filter`]: which candidates a round admits.
//! - [`session`]: the course of a game from round to round.
//! - [`text`]: characters, trimming and fields.
//! - [`seq_lemmas`]: facts about filtering sequences.

pub mod feedback;
pub mod filter;
pub mod lexicon;
pub mod rank;
pub mod score;
pub mod seq_lemmas;
pub mod session;
pub mod text;
pub mod word;
