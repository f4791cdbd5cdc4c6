//! Blocked GZip Format (BGZF) reading and writing, with Tabix index support.
//!
//! A BGZF file is a series of gzip members, each at most 64 KiB when
//! decompressed, that carry their own compressed length in a `BC` extra
//! subfield.  A byte of the decompressed stream is addressed by a 64-bit
//! *virtual file offset*: the offset of its block in the compressed file and
//! its offset inside the decompressed block.
//!
//! The library works on byte buffers held in memory.  Every executable
//! function carries a contract that Verus proves; the calls into `flate2`
//! stand in the module `deflate`, whose functions are trusted.

pub mod block;
pub mod bytes;
pub mod deflate;
pub mod error;
pub mod header;
pub mod index;
pub mod parallel;
pub mod pipeline;
pub mod read;
pub mod vfo;
pub mod write;

pub use error::BGZFError;
