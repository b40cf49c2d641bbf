//! Streaming zstd decompression over memory-mapped or hugepage-backed input.
//!
//! [`decoder::Decoder`] turns compressed bytes into decompressed ones at the
//! pace of its caller: each read hands the rest of the input to zstd together
//! with the caller's buffer, moves the input cursor on by what zstd consumed,
//! and works out which pages of a file mapping will not be needed again.

pub mod bench;
pub mod cursor;
pub mod decoder;
pub mod frame;
pub mod hugepage;
pub mod mapping;
pub mod procfs;
pub mod stream;
pub mod text;
