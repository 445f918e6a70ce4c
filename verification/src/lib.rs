//! Core of a terminal typing-practice game: a verified keystroke-scoring
//! state machine and a verified corpus sampler that draws a random window
//! of words from source-file text.

pub mod config;
pub mod error;
pub mod gamestate;
pub mod words;
