//! Text to speech: numbers, pronunciation, tokens.

pub mod engine;
pub mod g2p;
pub mod kokoro;
pub mod number_laws;
pub mod numbers;
pub mod speech_laws;
