//! The failures this library reports.

use vstd::prelude::*;

verus! {

/// Why a construction or a parse failed.
#[derive(Clone, Copy, Debug, PartialEq, Eq, Structural)]
pub enum Error {
    /// The letters handed to an alphabet break the prefix property, or one
    /// of them holds no `1` bit.
    InvalidAlphabet,
    /// One letter runs along the path of another.
    DuplicatePrefix,
    /// A bit index at or past the length of a letter.
    IndexOutOfBounds,
    /// More tokens than fixed width letters of 64 bits can tell apart.
    TooManyTokens,
    /// The coded text ends in the middle of a letter.
    IncompleteCodeword,
    /// Bits that belong to no letter of the alphabet, where only padding
    /// may stand.
    TrailingData,
    /// A packed encoding holds a different number of tokens and letters.
    TokenLetterCountMismatch,
    /// Packed data ends before the value it announces is complete.
    UnexpectedEof,
    /// Text that is not valid UTF-8 where a string token is read.
    InvalidText,
    /// A token that the encoding has no letter for.
    UnknownToken,
    /// A letter that the encoding has no token for.
    UnknownLetter,
    /// A marker byte that names no tokenization scheme.
    UnknownScheme,
}

} // verus!
