//! The commands of the image steganography tool, as plain data.
use vstd::prelude::*;

verus! {

/// A parsed command line.
#[derive(Debug, Clone, PartialEq, Eq)]
pub struct Cli {
    pub command: Commands,
}

/// What the tool is asked to do.
#[derive(Debug, Clone, PartialEq, Eq)]
pub enum Commands {
    /// Run the transform, crypto and steganography demo.
    Demo,
    /// Hide a text message inside a cover image.
    Embed { input: String, output: String, password: String, message: String },
    /// Recover a text message from a stego image.
    Extract { input: String, password: String },
    /// Hide a file inside a cover image.
    EmbedFile { input: String, output: String, password: String, secret_file: String },
    /// Recover a hidden file; without an output path the embedded name is
    /// used.
    ExtractFile { input: String, password: String, output: Option<String> },
}

} // verus!
