//! Tokenization of text into bytes.

use crate::assoc::key_views;
use crate::error::Error;
use crate::model::ModelKey;
use crate::reader::Reader;
use crate::tokens::{Token, TokenPacker, Tokenizer};
use vstd::prelude::*;

verus! {

/// A [`Token`] consisting of a single byte of data.
#[derive(Clone, Copy, Debug, Default, Eq, Hash, Ord, PartialEq, PartialOrd)]
pub struct Byte(u8);

/// Provides a method to create a [`Byte`] stream from text.
pub struct ByteIter;

/// Provides a method to pack a [`Byte`] stream to text.
#[derive(Clone, Debug, Default)]
pub struct BytePacker();

impl View for Byte {
    type V = u8;

    /// The byte of the token.
    closed spec fn view(&self) -> u8 {
        self.0
    }
}

impl Byte {
    /// The token of the byte `data`.
    pub fn from(data: u8) -> (b: Self)
        ensures
            b@ == data,
    {
        Self(data)
    }
}

impl ModelKey for Byte {
    fn same(&self, other: &Self) -> (r: bool) {
        self.0 == other.0
    }

    fn duplicate(&self) -> (r: Self) {
        Byte(self.0)
    }
}

impl Token for Byte {
    /// A byte holds eight bits.
    open spec fn spec_bit_count(&self) -> usize {
        8
    }

    fn bit_count(&self) -> (n: usize) {
        8
    }
}

impl Tokenizer for ByteIter {
    type T = Byte;

    /// Each byte of the text is a token.
    open spec fn spec_tokenize(text: Seq<u8>) -> Option<Seq<u8>> {
        Some(text)
    }

    fn tokenize(r: Reader) -> (res: Result<Vec<Byte>, Error>) {
        let bytes = r.rest();
        let mut tokens: Vec<Byte> = Vec::with_capacity(bytes.len());
        let mut i: usize = 0;
        while i < bytes.len()
            invariant
                i <= bytes@.len(),
                tokens@.len() == i,
                key_views(tokens@) == bytes@.take(i as int),
            decreases bytes@.len() - i,
        {
            let ghost before = tokens@;
            tokens.push(Byte(bytes[i]));
            proof {
                assert forall|k: int| 0 <= k < tokens@.len() implies key_views(tokens@)[k]
                    == bytes@[k] by {
                    if k < i {
                        assert(tokens@[k] == before[k]);
                        assert(key_views(before)[k] == bytes@.take(i as int)[k]);
                    }
                }
                assert(key_views(tokens@) =~= bytes@.take(i + 1));
            }
            i = i + 1;
        }
        assert(bytes@.take(i as int) =~= bytes@);
        Ok(tokens)
    }
}

impl TokenPacker for BytePacker {
    type T = Byte;

    /// The text of byte tokens is their bytes.
    open spec fn spec_text(tokens: Seq<u8>) -> Seq<u8> {
        tokens
    }

    fn pack(tokens: &Vec<Byte>, w: &mut Vec<u8>) -> (res: Result<(), Error>) {
        let mut i: usize = 0;
        while i < tokens.len()
            invariant
                i <= tokens@.len(),
                w@ == old(w)@ + key_views(tokens@).take(i as int),
            decreases tokens@.len() - i,
        {
            w.push(tokens[i].0);
            proof {
                assert(key_views(tokens@)[i as int] == tokens@[i as int]@);
                assert(w@ =~= old(w)@ + key_views(tokens@).take(i + 1));
            }
            i = i + 1;
        }
        assert(key_views(tokens@).take(i as int) =~= key_views(tokens@));
        Ok(())
    }
}

} // verus!
