//! f2png: files hidden in images.
//!
//! Files go into the low bits of the colour channels of a cover, or behind a PNG
//! as a container that can be split into parts. With a password they are
//! encrypted. Everything here works on files in memory.
pub mod bytes;
pub mod container;
pub mod crypto;
pub mod desk;
pub mod display;
pub mod error;
pub mod format;
pub mod help;
pub mod lsb;
pub mod number;
pub mod parts;
pub mod payload;
pub mod progress;
pub mod raster;
pub mod source;
pub mod split;
pub mod stego;
pub mod text;

pub use crate::container::{
    is_container_png, unwrap_container_png_to_dir, wrap_single_file_container_png,
};
pub use crate::split::{
    join_container_png_parts_to_file, split_container_png_to_parts,
    wrap_single_file_container_png_parts,
};
pub use crate::stego::{
    embed_multi, embed_single_file, info_capacity, reveal_to_dir, swap_cover, EmbedResult,
    EncryptOptions, RevealResult,
};
