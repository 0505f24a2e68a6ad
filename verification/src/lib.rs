//! Hiding binary payloads in plain text with zero-width characters.
//!
//! A payload byte is encoded as a short run of zero-width Unicode code
//! points, optionally shortened by substituting the two most frequent
//! four-bit patterns with dedicated shortcut characters.  The encoded run
//! is woven into a visible cover string, and the whole pipeline — Brotli
//! compression, optional authenticated encryption, zero-width encoding and
//! cover interleaving — round-trips back to the payload bytes.

pub mod alphabet;
pub mod block;
pub mod compression;
pub mod error;
pub mod external;
pub mod pipeline;
pub mod stream;

pub use alphabet::is_zw;
pub use block::Block;
pub use compression::Compression;
pub use error::Error;
pub use pipeline::{camouflage, decamouflage};
pub use stream::{decode, decode_decompress, encode, encode_compress};
