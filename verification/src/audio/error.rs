//! Errors of the audio embedding.
use vstd::prelude::*;

verus! {

/// What can go wrong while hiding or recovering a payload in audio.
/// `Wav` and `Io` carry the message of the reading or writing error.
#[derive(Debug, Clone, PartialEq, Eq)]
pub enum StegoError {
    PayloadTooLarge { needed: usize, available: usize },
    NoHeaderFound,
    UnsupportedFormat(String),
    InvalidUtf8(Vec<u8>),
    Wav(String),
    Io(String),
}

} // verus!
