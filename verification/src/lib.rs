pub mod audio;
pub mod bitstream;
pub mod cli;
pub mod crypto;
pub mod image_ops;
pub mod payload;
pub mod stego;
pub mod text;
