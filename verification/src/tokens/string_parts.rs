//! Tokens that are parts of a string, and the splitting of text into
//! them.

use crate::assoc::key_views;
use crate::error::Error;
use crate::reader::Reader;
use crate::tokens::{Token, TokenPacker, Tokenizer};
use std::marker::PhantomData;
use vstd::prelude::*;
use vstd::string::StringSliceAdditionalSpecFns;
use vstd::utf8::{decode_utf8, encode_utf8, valid_utf8};

verus! {

/// The grapheme clusters that `unicode_segmentation` splits a text into.
pub uninterp spec fn spec_graphemes(text: Seq<char>) -> Seq<Seq<char>>;

/// The characters of `parts`, one part after the other.
pub open spec fn spec_joined(parts: Seq<Seq<char>>) -> Seq<char>
    decreases parts.len(),
{
    if parts.len() == 0 {
        Seq::empty()
    } else {
        spec_joined(parts.drop_last()) + parts.last()
    }
}

/// The bytes of `parts` as UTF-8, one part after the other.
pub open spec fn spec_joined_bytes(parts: Seq<Seq<char>>) -> Seq<u8>
    decreases parts.len(),
{
    if parts.len() == 0 {
        Seq::empty()
    } else {
        spec_joined_bytes(parts.drop_last()) + encode_utf8(parts.last())
    }
}

/// The characters of each of `parts`.
pub open spec fn string_views(parts: Seq<String>) -> Seq<Seq<char>> {
    Seq::new(parts.len(), |i: int| parts[i]@)
}

/// Calls `unicode_segmentation::UnicodeSegmentation::graphemes` for the
/// extended grapheme clusters of `text`, and copies each of them.
///
/// Trusted: the parts are what the outside function gives for the
/// characters of `text`, and, as its iterator hands out one slice of the
/// text after the other up to the end, they make up `text` when joined.
#[verifier::external_body]
fn graphemes(text: &str) -> (parts: Vec<String>)
    ensures
        string_views(parts@) == spec_graphemes(text@),
        spec_joined(string_views(parts@)) == text@,
{
    unicode_segmentation::UnicodeSegmentation::graphemes(text, true).map(|g| g.to_owned()).collect()
}

/// Calls `std::str::from_utf8`.
///
/// Trusted: bytes that are valid UTF-8 are given back as the string that
/// they encode, and other bytes are refused.
#[verifier::external_body]
fn from_utf8(bytes: &[u8]) -> (res: Result<&str, Error>)
    ensures
        valid_utf8(bytes@) ==> res is Ok && res->Ok_0.spec_bytes() == bytes@,
        !valid_utf8(bytes@) ==> res is Err && res->Err_0 == Error::InvalidText,
{
    match std::str::from_utf8(bytes) {
        Ok(s) => Ok(s),
        Err(_) => Err(Error::InvalidText),
    }
}

/// A token that holds a part of a string.
pub trait StringPart: Token + View<V = Seq<char>> {
    /// The token that holds `s`.
    fn from_string(s: String) -> (part: Self)
        ensures
            part@ == s@,
    ;

    /// The string that the token holds.
    fn as_string(&self) -> (s: &String)
        ensures
            s@ == self@,
    ;
}

/// Splits text into the grapheme clusters that are its parts.
pub struct StringPartsIter<S: StringPart>(PhantomData<S>);

/// Joins the parts of a text.
pub struct StringPartsPacker<S: StringPart>(PhantomData<S>);

impl<S: StringPart> StringPartsIter<S> {
    /// The parts of the text that `r` has left.
    ///
    /// Fails with [`Error::InvalidText`] where the text is not UTF-8.
    pub fn new(r: Reader) -> (res: Result<Vec<S>, Error>)
        requires
            r.wf(),
        ensures
            valid_utf8(r.remaining()) ==> res is Ok && key_views(res->Ok_0@) == spec_graphemes(
                decode_utf8(r.remaining()),
            ) && spec_joined(key_views(res->Ok_0@)) == decode_utf8(r.remaining()),
            !valid_utf8(r.remaining()) ==> res is Err && res->Err_0 == Error::InvalidText,
    {
        let data = r.rest();
        let s = match from_utf8(data) {
            Err(e) => {
                return Err(e);
            },
            Ok(s) => s,
        };
        proof {
            vstd::utf8::encode_utf8_decode_utf8(s@);
        }
        let strings = graphemes(s);
        let mut parts: Vec<S> = Vec::with_capacity(strings.len());
        let mut i: usize = 0;
        while i < strings.len()
            invariant
                i <= strings@.len(),
                parts@.len() == i,
                forall|j: int| 0 <= j < i ==> (#[trigger] parts@[j])@ == strings@[j]@,
            decreases strings@.len() - i,
        {
            let g = strings[i].clone();
            parts.push(S::from_string(g));
            i = i + 1;
        }
        proof {
            assert(key_views(parts@) =~= string_views(strings@));
        }
        Ok(parts)
    }
}

impl<S: StringPart> Tokenizer for StringPartsIter<S> {
    type T = S;

    /// Text that is UTF-8 splits into its grapheme clusters.
    open spec fn spec_tokenize(text: Seq<u8>) -> Option<Seq<Seq<char>>> {
        if valid_utf8(text) {
            Some(spec_graphemes(decode_utf8(text)))
        } else {
            None
        }
    }

    fn tokenize(r: Reader) -> (res: Result<Vec<S>, Error>) {
        Self::new(r)
    }
}

impl<S: StringPart> TokenPacker for StringPartsPacker<S> {
    type T = S;

    /// The text of string parts is their bytes as UTF-8, in a row.
    open spec fn spec_text(tokens: Seq<Seq<char>>) -> Seq<u8> {
        spec_joined_bytes(tokens)
    }

    fn pack(tokens: &Vec<S>, w: &mut Vec<u8>) -> (res: Result<(), Error>) {
        let ghost parts = key_views(tokens@);
        let mut i: usize = 0;
        proof {
            assert(parts.take(0) =~= Seq::<Seq<char>>::empty());
            assert(w@ =~= old(w)@ + spec_joined_bytes(parts.take(0)));
        }
        while i < tokens.len()
            invariant
                parts == key_views(tokens@),
                i <= tokens@.len(),
                w@ == old(w)@ + spec_joined_bytes(parts.take(i as int)),
            decreases tokens@.len() - i,
        {
            let buf = tokens[i].as_string();
            w.extend_from_slice(buf.as_str().as_bytes());
            proof {
                assert(parts.take(i + 1).drop_last() =~= parts.take(i as int));
                assert(parts.take(i + 1).last() == tokens@[i as int]@);
                assert(w@ =~= old(w)@ + spec_joined_bytes(parts.take(i + 1)));
            }
            i = i + 1;
        }
        proof {
            assert(parts.take(i as int) =~= parts);
        }
        Ok(())
    }
}

} // verus!
