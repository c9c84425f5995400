//! How text is split into tokens, and the marker that tells it in
//! compressed data.

use crate::error::Error;
use crate::reader::Reader;
use vstd::prelude::*;

verus! {

/// The ways of splitting text into tokens that this library knows.
#[derive(Clone, Copy, Debug, Eq, Hash, PartialEq, Structural)]
pub enum TokenizationScheme {
    /// Split text byte-by-byte.
    ///
    /// This scheme makes no assumptions about the source text encoding.
    Byte,
    /// Split text by unicode [graphemes].
    ///
    /// This schemes assumes that source text is utf-8 encoded.
    ///
    /// [graphemes]: https://en.wikipedia.org/wiki/Grapheme
    Grapheme,
    /// Split text by unicode "words".
    ///
    /// This schemes assumes that source text is utf-8 encoded.
    ///
    /// As it stands, this scheme splits text as `Grapheme` does.
    Word,
}

/// The marker byte of a scheme.
pub open spec fn spec_marker(scheme: TokenizationScheme) -> u8 {
    match scheme {
        TokenizationScheme::Byte => 1u8,
        TokenizationScheme::Grapheme => 2u8,
        TokenizationScheme::Word => 3u8,
    }
}

/// The scheme that a marker byte stands for, if it stands for one.
pub open spec fn spec_scheme(marker: u8) -> Option<TokenizationScheme> {
    if marker == 1 {
        Some(TokenizationScheme::Byte)
    } else if marker == 2 {
        Some(TokenizationScheme::Grapheme)
    } else if marker == 3 {
        Some(TokenizationScheme::Word)
    } else {
        None
    }
}

/// A marker stands for the scheme that it is the marker of.
pub proof fn lemma_marker_roundtrip(scheme: TokenizationScheme)
    ensures
        spec_scheme(spec_marker(scheme)) == Some(scheme),
{
}

/// Appends the marker byte of `scheme` to `w`.
pub fn pack_tokenization_scheme(scheme: TokenizationScheme, w: &mut Vec<u8>) -> (res: Result<
    (),
    Error,
>)
    ensures
        res is Ok,
        final(w)@ == old(w)@.push(spec_marker(scheme)),
{
    let marker = match scheme {
        TokenizationScheme::Byte => 1u8,
        TokenizationScheme::Grapheme => 2u8,
        TokenizationScheme::Word => 3u8,
    };
    w.push(marker);
    Ok(())
}

/// Reads a marker byte and gives the scheme that it stands for.
///
/// Fails with [`Error::UnexpectedEof`] at the end of `r`, and with
/// [`Error::UnknownScheme`] for a byte that is no marker.
pub fn unpack_tokenization_scheme(r: &mut Reader) -> (res: Result<TokenizationScheme, Error>)
    requires
        old(r).wf(),
    ensures
        final(r).wf(),
        final(r).source() == old(r).source(),
        old(r).remaining().len() == 0 ==> res == Err::<TokenizationScheme, Error>(
            Error::UnexpectedEof,
        ) && final(r).consumed() == old(r).consumed(),
        old(r).remaining().len() > 0 ==> final(r).consumed() == old(r).consumed() + 1 && (
        match spec_scheme(old(r).remaining()[0]) {
            Some(scheme) => res == Ok::<TokenizationScheme, Error>(scheme),
            None => res == Err::<TokenizationScheme, Error>(Error::UnknownScheme),
        }),
{
    let marker = match r.read_byte() {
        None => {
            return Err(Error::UnexpectedEof);
        },
        Some(b) => b,
    };
    match marker {
        1u8 => Ok(TokenizationScheme::Byte),
        2u8 => Ok(TokenizationScheme::Grapheme),
        3u8 => Ok(TokenizationScheme::Word),
        _ => Err(Error::UnknownScheme),
    }
}

} // verus!
