use vstd::prelude::*;

verus! {

/// An error from the zero-width codec layer.
#[derive(Debug, Copy, Clone, PartialEq, Eq, Hash, Structural)]
pub enum Error {
    /// A character outside the codec alphabet reached a decoder.
    InvalidCharacter(char),
    /// The character stream ended mid-block, after this many characters.
    IncompleteBlock(usize),
    /// A compression pattern wider than four bits.
    InvalidCompressionPattern(u8),
}

} // verus!
