//! What can go wrong. Every failure has a caller that reports it and goes on:
//! a chunk that will not render is a chunk that is passed over.

use vstd::prelude::*;
use crate::chars::{cat, decimal, decimal_text};

verus! {

/// Speech synthesis failed.
#[derive(Debug, Clone, PartialEq)]
pub enum TtsError {
    Espeak(String),
    Model(String),
    Voice(String, String),
    Infer(String),
    Io(String),
}

impl TtsError {
    /// What is shown of the failure.
    pub fn message(&self) -> (r: String)
        ensures
            r@ == match *self {
                TtsError::Espeak(e) => "espeak-ng: "@ + e@,
                TtsError::Model(e) => "kokoro model: "@ + e@,
                TtsError::Voice(v, e) => "voice "@ + v@ + ": "@ + e@,
                TtsError::Infer(e) => "inference: "@ + e@,
                TtsError::Io(e) => "io: "@ + e@,
            },
    {
        match self {
            TtsError::Espeak(e) => cat("espeak-ng: ", e.as_str()),
            TtsError::Model(e) => cat("kokoro model: ", e.as_str()),
            TtsError::Voice(v, e) => cat(
                cat(cat("voice ", v.as_str()).as_str(), ": ").as_str(),
                e.as_str(),
            ),
            TtsError::Infer(e) => cat("inference: ", e.as_str()),
            TtsError::Io(e) => cat("io: ", e.as_str()),
        }
    }
}

/// A book could not be read.
#[derive(Debug, Clone, PartialEq)]
pub enum BookError {
    NotEpub(String),
    Epub(String),
    Io(String),
}

impl BookError {
    /// What is shown of the failure.
    pub fn message(&self) -> (r: String)
        ensures
            r@ == match *self {
                BookError::NotEpub(e) => "not an epub: "@ + e@,
                BookError::Epub(e) => "epub: "@ + e@,
                BookError::Io(e) => "io: "@ + e@,
            },
    {
        match self {
            BookError::NotEpub(e) => cat("not an epub: ", e.as_str()),
            BookError::Epub(e) => cat("epub: ", e.as_str()),
            BookError::Io(e) => cat("io: ", e.as_str()),
        }
    }
}

/// A chapter could not be packed.
#[derive(Debug, Clone, PartialEq)]
pub enum PackError {
    Incomplete(usize, usize),
    Empty(usize),
    NotWav(String),
    Ffmpeg(String),
    Io(String),
}

impl PackError {
    /// What is shown of the failure.
    pub fn message(&self) -> (r: String)
        ensures
            r@ == match *self {
                PackError::Incomplete(c, n) => "chapter "@ + decimal(c as nat) + " is "@ + decimal(
                    n as nat,
                ) + " chunk(s) short of complete"@,
                PackError::Empty(c) => "chapter "@ + decimal(c as nat) + " has no chunks"@,
                PackError::NotWav(e) => "not a wav: "@ + e@,
                PackError::Ffmpeg(e) => "ffmpeg: "@ + e@,
                PackError::Io(e) => "io: "@ + e@,
            },
    {
        match self {
            PackError::Incomplete(c, n) => {
                let a = cat("chapter ", decimal_text(*c as u64).as_str());
                let b = cat(cat(a.as_str(), " is ").as_str(), decimal_text(*n as u64).as_str());
                cat(b.as_str(), " chunk(s) short of complete")
            },
            PackError::Empty(c) => {
                let a = cat("chapter ", decimal_text(*c as u64).as_str());
                cat(a.as_str(), " has no chunks")
            },
            PackError::NotWav(e) => cat("not a wav: ", e.as_str()),
            PackError::Ffmpeg(e) => cat("ffmpeg: ", e.as_str()),
            PackError::Io(e) => cat("io: ", e.as_str()),
        }
    }
}

} // verus!
