//! Traits for tokenizing text.
//!
//! The [`Token`] trait is the primary type of this module. A [`Tokenizer`]
//! makes a [`Token`] stream from text, and a [`TokenPacker`] makes text
//! from a [`Token`] stream.
//!
//! Three tokenization schemes have their own modules: [bytes],
//! [graphemes] and [words].

use crate::assoc::key_views;
use crate::code::common::{
    lemma_u64_roundtrip, pack_u64, spec_pack_u64, spec_unpack_u64, unpack_u64,
};
use crate::error::Error;
use crate::model::ModelKey;
use crate::reader::Reader;
use vstd::prelude::*;

pub mod bytes;
pub mod graphemes;
pub mod string_parts;
pub mod test_utils;
pub mod words;

verus! {

/// A single item in the tokenized stream from a string input.
///
/// The view of a token is what tells it from other tokens.
pub trait Token: ModelKey {
    /// The number of bits of source text contained in this Token.
    spec fn spec_bit_count(&self) -> usize;

    /// The number of bits of source text contained in this Token.
    fn bit_count(&self) -> (n: usize)
        ensures
            n == self.spec_bit_count(),
    ;
}

/// Provides a method to create a [`Token`] stream from text.
pub trait Tokenizer {
    type T: Token;

    /// The tokens that `text` splits into, or `None` where `text` is no
    /// text that this tokenizer reads.
    spec fn spec_tokenize(text: Seq<u8>) -> Option<Seq<<Self::T as View>::V>>;

    /// Splits all the bytes that `r` has left into tokens.
    fn tokenize(r: Reader) -> (res: Result<Vec<Self::T>, Error>)
        requires
            r.wf(),
        ensures
            match Self::spec_tokenize(r.remaining()) {
                Some(tokens) => res is Ok && key_views(res->Ok_0@) == tokens,
                None => res is Err && res->Err_0 == Error::InvalidText,
            },
    ;
}

/// Provides a method to pack a [`Token`] stream to text.
pub trait TokenPacker {
    type T: Token;

    /// The text of `tokens`.
    spec fn spec_text(tokens: Seq<<Self::T as View>::V>) -> Seq<u8>;

    /// Appends the text of `tokens` to `w`.
    fn pack(tokens: &Vec<Self::T>, w: &mut Vec<u8>) -> (res: Result<(), Error>)
        ensures
            res.is_ok(),
            final(w)@ == old(w)@ + Self::spec_text(key_views(tokens@)),
    ;
}

/// The bytes of a packed text: the number of bytes of the text as eight
/// bytes, most significant first, and the text.
pub open spec fn spec_packed_text(text: Seq<u8>) -> Seq<u8> {
    spec_pack_u64(text.len() as u64) + text
}

/// The text packed at the start of `s`, if `s` holds all of it.
pub open spec fn spec_unpacked_text(s: Seq<u8>) -> Option<Seq<u8>> {
    if s.len() < 8 || s.len() - 8 < spec_unpack_u64(s) {
        None
    } else {
        Some(s.subrange(8, 8 + spec_unpack_u64(s)))
    }
}

/// Packs a vector of tokens prefixed with the number of bytes that the
/// packed tokens take.
///
/// See [`unpack_all()`] for the reverse operation.
pub fn pack_all<T: Token, TP: TokenPacker<T = T>>(tokens: Vec<T>, w: &mut Vec<u8>) -> (res: Result<
    (),
    Error,
>)
    ensures
        res is Ok,
        final(w)@ == old(w)@ + spec_packed_text(TP::spec_text(key_views(tokens@))),
{
    let mut text: Vec<u8> = Vec::new();
    let _ = TP::pack(&tokens, &mut text);
    proof {
        assert(text@ =~= TP::spec_text(key_views(tokens@)));
        assert(text.len() == text@.len());
    }
    let mut size = pack_u64(text.len() as u64);
    w.append(&mut size);
    w.append(&mut text);
    proof {
        assert(w@ =~= old(w)@ + spec_packed_text(TP::spec_text(key_views(tokens@))));
    }
    Ok(())
}

/// Unpacks a vector of tokens previously packed with [`pack_all()`], and
/// reads no byte past them.
///
/// Fails with [`Error::UnexpectedEof`] where `r` ends before the packed
/// tokens do, and with [`Error::InvalidText`] where the tokenizer refuses
/// their text.
pub fn unpack_all<T: Token, TI: Tokenizer<T = T>>(r: &mut Reader) -> (res: Result<Vec<T>, Error>)
    requires
        old(r).wf(),
    ensures
        final(r).wf(),
        final(r).source() == old(r).source(),
        match spec_unpacked_text(old(r).remaining()) {
            None => res is Err && res->Err_0 == Error::UnexpectedEof,
            Some(text) => match TI::spec_tokenize(text) {
                None => res is Err && res->Err_0 == Error::InvalidText,
                Some(tokens) => {
                    &&& res is Ok
                    &&& key_views(res->Ok_0@) == tokens
                    &&& final(r).consumed() == old(r).consumed() + 8 + text.len()
                },
            },
        },
{
    let ghost s = r.remaining();
    let size = match unpack_u64(r) {
        Err(e) => {
            return Err(e);
        },
        Ok(n) => n,
    };
    proof {
        old(r).lemma_bounded();
        assert(r.remaining() =~= s.skip(8));
    }
    if size > usize::MAX as u64 {
        return Err(Error::UnexpectedEof);
    }
    let buf = match r.read_exact(size as usize) {
        Err(e) => {
            return Err(e);
        },
        Ok(buf) => buf,
    };
    proof {
        assert(buf@ =~= s.subrange(8, 8 + size));
    }
    let text = Reader::new(buf);
    proof {
        assert(text.remaining() =~= buf@);
    }
    TI::tokenize(text)
}

/// Unpacking a packed text gives the text back, whatever bytes follow the
/// packed text.
pub proof fn lemma_text_roundtrip(text: Seq<u8>, rest: Seq<u8>)
    requires
        text.len() <= u64::MAX,
    ensures
        spec_unpacked_text(spec_packed_text(text) + rest) == Some(text),
{
    let s = spec_packed_text(text) + rest;
    let size = text.len() as u64;
    lemma_u64_roundtrip(size);
    assert(spec_unpack_u64(s) == spec_unpack_u64(spec_pack_u64(size))) by {
        assert(forall|i: int| 0 <= i < 8 ==> s[i] == spec_pack_u64(size)[i]);
    }
    assert(s.subrange(8, 8 + size) =~= text);
}

} // verus!
