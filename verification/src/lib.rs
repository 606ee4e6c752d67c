//! A word-guessing game and an assistant that narrows down the possible answers.
//!
//! The game scores each guess letter by letter against a secret word. The
//! assistant keeps the words that are still consistent with the feedback seen
//! so far and ranks the words worth guessing next.

pub mod letters;
pub mod calendar;
pub mod game;
pub mod word_list;
pub mod dictionary_set;
pub mod eliminate;
pub mod histogram;
pub mod suggest;
pub mod session;

