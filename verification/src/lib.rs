//! A solving engine for five-letter word-elimination games.

pub mod codec;
pub mod feedback;
pub mod filter;
pub mod guess;
pub mod naive;
pub mod wordle;

pub use codec::MASK_COUNT;
pub use feedback::{same_word, ByteStr, CharCounter, Correctness, Mask, WORDLE_SIZE};
pub use filter::{filter_with, survives_all};
pub use guess::{same_mask, Guess};
pub use naive::{Narrowing, NaiveGuesser, SolveError};
pub use wordle::{default_answer, simulate, str5, Wordle, MAX_ROUNDS};
