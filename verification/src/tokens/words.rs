//! Tokenization of a string into words.
//!
//! As it stands, a word is a grapheme cluster: text is split as for
//! [`Grapheme`](crate::tokens::graphemes::Grapheme) tokens, so that no part
//! of the text is lost.

use crate::model::ModelKey;
use crate::tokens::Token;
use crate::tokens::string_parts::{StringPart, StringPartsIter, StringPartsPacker};
use vstd::prelude::*;
use vstd::utf8::encode_utf8;

verus! {

/// A [`Token`] consisting of a Unicode word.
#[derive(Clone, Debug, Default, Eq, Hash, Ord, PartialEq, PartialOrd)]
pub struct Word(String);

/// Provides a method to create a [`Word`] stream from text.
pub type WordIter = StringPartsIter<Word>;

/// Splits text into [`Word`]s.
pub type WordTokenizer = StringPartsIter<Word>;

/// Provides a method to pack a [`Word`] stream to text.
pub type WordPacker = StringPartsPacker<Word>;

impl View for Word {
    type V = Seq<char>;

    /// The characters of the word.
    closed spec fn view(&self) -> Seq<char> {
        self.0@
    }
}

impl Word {
    /// The token that holds `s`.
    pub fn from(s: String) -> (g: Self)
        ensures
            g@ == s@,
    {
        Self(s)
    }

    /// The string that the token holds.
    pub fn into(self) -> (s: String)
        ensures
            s@ == self@,
    {
        self.0
    }
}

impl ModelKey for Word {
    fn same(&self, other: &Self) -> (r: bool) {
        self.0 == other.0
    }

    fn duplicate(&self) -> (r: Self) {
        Word(self.0.clone())
    }
}

impl Token for Word {
    /// Eight bits for each byte of the string as UTF-8, or as many as can
    /// be counted.
    open spec fn spec_bit_count(&self) -> usize {
        if 8 * encode_utf8(self@).len() > usize::MAX {
            usize::MAX
        } else {
            (8 * encode_utf8(self@).len()) as usize
        }
    }

    fn bit_count(&self) -> (n: usize) {
        let n = self.0.as_str().as_bytes().len();
        if n > usize::MAX / 8 {
            usize::MAX
        } else {
            n * 8
        }
    }
}

impl StringPart for Word {
    fn from_string(s: String) -> (part: Self) {
        Self(s)
    }

    fn as_string(&self) -> (s: &String) {
        &self.0
    }
}

} // verus!
