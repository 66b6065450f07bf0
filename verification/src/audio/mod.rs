//! Hiding a payload in the least significant bits of 16-bit PCM samples.
pub mod embed;
pub mod error;
pub mod extract;
pub mod header;
