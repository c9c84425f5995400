//! A token type for trying out code that works on any [`Token`].

use crate::error::Error;
use crate::model::ModelKey;
use crate::reader::Reader;
use crate::tokens::{Token, TokenPacker, Tokenizer};
use vstd::prelude::*;

verus! {

/// A [`Token`] that wraps i32 values.
#[derive(Clone, Copy, Debug, Default, Eq, Hash, Ord, PartialEq, PartialOrd)]
pub struct I32Token(pub i32);

impl View for I32Token {
    type V = i32;

    open spec fn view(&self) -> i32 {
        self.0
    }
}

impl ModelKey for I32Token {
    fn same(&self, other: &Self) -> (r: bool) {
        self.0 == other.0
    }

    fn duplicate(&self) -> (r: Self) {
        I32Token(self.0)
    }
}

impl Token for I32Token {
    open spec fn spec_bit_count(&self) -> usize {
        4
    }

    fn bit_count(&self) -> (n: usize) {
        4
    }
}

/// Reads no text: every text is refused.
pub struct I32Tokenizer;

impl Tokenizer for I32Tokenizer {
    type T = I32Token;

    open spec fn spec_tokenize(text: Seq<u8>) -> Option<Seq<i32>> {
        None
    }

    fn tokenize(r: Reader) -> (res: Result<Vec<I32Token>, Error>) {
        Err(Error::InvalidText)
    }
}

/// Writes no text.
pub struct I32TokenPacker;

impl TokenPacker for I32TokenPacker {
    type T = I32Token;

    open spec fn spec_text(tokens: Seq<i32>) -> Seq<u8> {
        Seq::empty()
    }

    fn pack(tokens: &Vec<I32Token>, w: &mut Vec<u8>) -> (res: Result<(), Error>) {
        assert(w@ =~= old(w)@ + Seq::<u8>::empty());
        Ok(())
    }
}

} // verus!
