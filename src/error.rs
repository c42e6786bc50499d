//! The errors that the codecs report.
use vstd::prelude::*;

verus! {

/// Why a codec call did not produce output.
#[derive(Clone, Copy, Debug, PartialEq, Eq, Structural)]
pub enum CodecError {
    /// The destination cannot hold the whole output; nothing was written.
    BufferTooSmall,
    /// A byte outside the alphabet, at this offset.
    InvalidCharacter(usize),
    /// Padding in the wrong place or of the wrong amount, or a length that
    /// no padding can mend.
    InvalidPadding,
}

} // verus!
