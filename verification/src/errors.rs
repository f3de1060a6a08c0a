use vstd::prelude::*;

verus! {

/// The fatal conditions a decoder can meet.  Malformed input is never
/// repaired: the caller sees either a complete result or one of these.
#[derive(Clone, Copy, Debug, PartialEq, Eq, Structural)]
pub enum DecodeError {
    /// The decoded word size disagrees with the decoder's word type.
    UnsupportedWordSize,
    /// Fewer bits remain than a fixed-width read requires.
    TruncatedStream,
    /// After the last declared section more than 7 bits remain, or a pad
    /// bit is set, or a code-book section has bits left over.
    ResidualData,
    /// Data decoding ended with a non-empty in-flight code path, or the
    /// bits led outside the code tree.
    PartialCode,
    /// A code-book entry declares a code of length zero.
    EmptyCodeSlot,
    /// Two code-book entries share a word, or one code is a prefix of
    /// another, so no search tree can tell them apart.
    ConflictingCode,
}

} // verus!
