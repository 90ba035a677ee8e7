//! Decoder for the NBT binary tag format: a hierarchical, typed serialization
//! of scalars, byte arrays, strings, homogeneous lists and named compounds.
//!
//! The input is a byte buffer, optionally gzip-compressed; the output is the
//! single root named tag of the tree, or an error describing the first point
//! at which the stream is malformed.

pub mod decode;
pub mod encode;
pub mod gzip;
pub mod laws;
pub mod prim;
pub mod tag;

pub use crate::decode::{decode_uncompressed, MAX_DEPTH};
pub use crate::gzip::decode;
pub use crate::tag::{NamedTag, NamedV, NbtError, TagV, UnnamedTag};
