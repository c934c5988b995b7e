//! Decoders and encoders for the lossless byte-stream compression formats
//! used by Falcom games: the BZip LZ77 variants (mode 1, byte-aligned, and
//! mode 2, bit-aligned), the C77 codec, and the ED6/ED7/FREADP chunk
//! framings that package compressed data.

use vstd::prelude::*;

pub mod cursor;
pub mod sink;
pub mod bits;
pub mod bzip;
pub mod c77;
pub mod util;
pub mod ed6;
pub mod ed7;
pub mod offset_vec;

verus! {

/// The failure kinds shared by every decoder in this crate.
#[derive(Debug, Clone, Copy, PartialEq, Eq, Structural)]
pub enum Error {
    /// The input ended before a read of the requested width could complete.
    /// `pos` is the cursor position at which the read was attempted.
    Read { pos: usize },
    /// A back-reference named an offset that is zero or reaches below the
    /// output window's floor. `len` is the output length at failure.
    BadRepeat { count: usize, offset: usize, len: usize },
    /// A framing-level invariant was violated: a length mismatch, trailing
    /// bytes, a wrong continuation sentinel, or an unexpected extra chunk.
    Frame,
    /// A C77 mode word outside the supported range `0..=15`.
    Unsupported { mode: u32 },
}

impl Error {
    /// A human-readable description of the failure, in place of `Display`.
    pub fn message(&self) -> (r: String)
        ensures
            r@ == match self {
                Error::Read { .. } => "failed to read past end of input"@,
                Error::BadRepeat { .. } => "back-reference outside the writable window"@,
                Error::Frame => "framing invariant violated"@,
                Error::Unsupported { .. } => "unsupported compression mode"@,
            },
    {
        proof {
            broadcast use vstd::string::to_string_from_display_ensures_for_str;

        }
        match self {
            Error::Read { .. } => "failed to read past end of input".to_string(),
            Error::BadRepeat { .. } => "back-reference outside the writable window".to_string(),
            Error::Frame => "framing invariant violated".to_string(),
            Error::Unsupported { .. } => "unsupported compression mode".to_string(),
        }
    }
}

} // verus!
