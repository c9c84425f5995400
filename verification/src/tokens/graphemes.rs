//! Tokenization of a string into [Unicode grapheme clusters].
//!
//! [Unicode grapheme clusters]: http://www.unicode.org/reports/tr29/

use crate::model::ModelKey;
use crate::tokens::Token;
use crate::tokens::string_parts::{StringPart, StringPartsIter, StringPartsPacker};
use vstd::prelude::*;
use vstd::utf8::encode_utf8;

verus! {

/// A [`Token`] consisting of a Unicode grapheme cluster.
#[derive(Clone, Debug, Eq, Hash, PartialEq)]
pub struct Grapheme(String);

/// Provides a method to create a [`Grapheme`] stream from text.
pub type GraphemeIter = StringPartsIter<Grapheme>;

/// Provides a method to pack a [`Grapheme`] stream to text.
pub type GraphemePacker = StringPartsPacker<Grapheme>;

impl View for Grapheme {
    type V = Seq<char>;

    /// The characters of the grapheme cluster.
    closed spec fn view(&self) -> Seq<char> {
        self.0@
    }
}

impl Grapheme {
    /// The token that holds `s`.
    pub fn from(s: String) -> (g: Self)
        ensures
            g@ == s@,
    {
        Self(s)
    }

    /// The string that the token holds.
    pub fn into(self) -> (s: String)
        ensures
            s@ == self@,
    {
        self.0
    }
}

impl ModelKey for Grapheme {
    fn same(&self, other: &Self) -> (r: bool) {
        self.0 == other.0
    }

    fn duplicate(&self) -> (r: Self) {
        Grapheme(self.0.clone())
    }
}

impl Token for Grapheme {
    /// Eight bits for each byte of the string as UTF-8, or as many as can
    /// be counted.
    open spec fn spec_bit_count(&self) -> usize {
        if 8 * encode_utf8(self@).len() > usize::MAX {
            usize::MAX
        } else {
            (8 * encode_utf8(self@).len()) as usize
        }
    }

    fn bit_count(&self) -> (n: usize) {
        let n = self.0.as_str().as_bytes().len();
        if n > usize::MAX / 8 {
            usize::MAX
        } else {
            n * 8
        }
    }
}

impl StringPart for Grapheme {
    fn from_string(s: String) -> (part: Self) {
        Self(s)
    }

    fn as_string(&self) -> (s: &String) {
        &self.0
    }
}

} // verus!
