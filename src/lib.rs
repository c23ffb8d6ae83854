//! A small content-addressed object store with a binary staging index.
//!
//! Objects are kept compressed under their SHA-1 identifier; the index is a
//! header, one fixed-layout record per staged file, and a trailing digest.
pub mod bigendian;
pub mod codec;
pub mod commands;
pub mod error;
pub mod hasher;
pub mod hexfmt;
pub mod index;
pub mod object;
pub mod order;
pub mod status;
