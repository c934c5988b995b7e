//! Falcom's BZip compression algorithm, used by *Trails in the Sky* and in
//! the `itp` and `it3` file formats. It has no relation to bzip2.
//!
//! BZip has two modes. Mode 1 is byte-aligned; mode 2 is bit-aligned and is
//! the one all known users of the algorithm support. A chunk's first byte
//! discriminates: zero means mode 2, anything else mode 1. The framed
//! containers around single chunks live in [`crate::ed6`] and
//! [`crate::ed7`].

pub mod compress;
pub mod decompress;
pub mod roundtrip;

pub use compress::compress;
pub use compress::CompressMode;
pub use decompress::decompress;
