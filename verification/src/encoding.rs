//! Defines the [`Encoding`] struct that maps a [`Token`] to a [`Letter`].
//!
//! An [`Encoding`] can be generated from a [`Model`] by calling the `new()`
//! function defined in one of the sub-modules: [balanced_tree], [shannon],
//! [fano], or [huffman].

use crate::assoc::{
    entry_views, find, key_views, lemma_collected, lemma_collected_distinct, lemma_find,
    spec_collected, spec_find, spec_keys, spec_put,
};
use crate::code::alphabet::{
    all_wf, countable, fits, lemma_alphabet_roundtrip, lemma_valid_insert, prefix_free,
    spec_packed_alphabet, spec_unpacked_alphabet, valid_code, views, Alphabet,
};
use crate::code::bits::{all_zero, bits_of, is_prefix};
use crate::code::common::{
    lemma_u64_roundtrip, pack_u64, spec_pack_u64, spec_unpack_u64, unpack_u64,
};
use crate::code::letter::{lemma_letter_lt_order, letter_lt, Letter};
use crate::code::text::{chosen, lemma_pack_parse_roundtrip, spec_pack, spec_parse};
use crate::coder::{spec_encoded, spec_known, spec_places};
use crate::error::Error;
use crate::model::{
    lemma_counted, lemma_sorted, model_ok, spec_counted, spec_freqs, spec_frequency, spec_sorted,
    Model,
};
use crate::reader::Reader;
use crate::tokens::{Token, TokenPacker, Tokenizer};
use vstd::prelude::*;

pub mod balanced_tree;
pub mod fano;
pub mod huffman;
pub mod shannon;

verus! {

/// Encoding schemes (i.e. the compression algorithms) that this library
/// knows.
#[derive(Clone, Copy, Debug, PartialEq, Eq, Structural)]
pub enum EncodingScheme {
    /// Create a new balanced tree encoding.
    ///
    /// All letters in this encoding are fixed width bit strings. The
    /// smallest width necessary to generate the required number of letters
    /// for all input tokens is used.
    BalancedTree,
    /// Create a new [Fano encoding].
    ///
    /// [Fano encoding]: https://en.wikipedia.org/wiki/Shannon%E2%80%93Fano_coding
    Fano,
    /// Create a new [Shannon encoding].
    ///
    /// [Shannon encoding]: https://en.wikipedia.org/wiki/Shannon%E2%80%93Fano_coding
    Shannon,
    /// Create a new [Huffman encoding].
    ///
    /// [Huffman encoding]: https://en.wikipedia.org/wiki/Huffman_coding
    Huffman,
}

/// The map of the encoding that `scheme` derives from a model with the
/// entries `entries`, or why it derives none.
pub open spec fn spec_encoder<V>(scheme: EncodingScheme, entries: Seq<(V, u64)>) -> Result<
    Seq<(V, Seq<bool>)>,
    Error,
> {
    let sorted = spec_sorted(entries);
    let keys = spec_keys(sorted);
    let freqs = spec_freqs(sorted);
    match scheme {
        EncodingScheme::BalancedTree => Ok(
            spec_by_letter(spec_zip(keys, balanced_tree::spec_letters(entries.len()))),
        ),
        EncodingScheme::Huffman => if 2 * entries.len() <= usize::MAX {
            Ok(spec_by_letter(spec_zip(keys, huffman::spec_letters(freqs))))
        } else {
            Err(Error::TooManyTokens)
        },
        EncodingScheme::Shannon => Ok(
            spec_by_letter(spec_zip(keys, shannon::spec_letters(freqs))),
        ),
        EncodingScheme::Fano => Ok(spec_by_letter(spec_zip(keys, fano::spec_letters(freqs)))),
    }
}

/// Derives an encoding from `model` by `encoding_scheme`.
pub fn new_encoder<T: Token>(encoding_scheme: &EncodingScheme, model: Model<T>) -> (res: Result<
    Encoding<T>,
    Error,
>)
    requires
        model.wf(),
    ensures
        match spec_encoder(*encoding_scheme, model.spec_entries()) {
            Ok(map) => res is Ok && res->Ok_0.wf() && res->Ok_0.spec_map() == map,
            Err(e) => res is Err && res->Err_0 == e,
        },
        res is Ok ==> valid_code(res->Ok_0.spec_alphabet()),
{
    match encoding_scheme {
        EncodingScheme::BalancedTree => balanced_tree::new(model),
        EncodingScheme::Fano => fano::new(model),
        EncodingScheme::Huffman => huffman::new(model),
        EncodingScheme::Shannon => shannon::new(model),
    }
}

/// The letters of the entries of `map`, in their order.
pub open spec fn spec_letters_of<V>(map: Seq<(V, Seq<bool>)>) -> Seq<Seq<bool>> {
    Seq::new(map.len(), |i: int| map[i].1)
}

/// The number of entries at the start of `sorted` whose letter does not
/// come after `l`.
pub open spec fn spec_letter_pos<V>(sorted: Seq<(V, Seq<bool>)>, l: Seq<bool>) -> int
    decreases sorted.len(),
{
    if sorted.len() == 0 || letter_lt(l, sorted[0].1) {
        0
    } else {
        1 + spec_letter_pos(sorted.skip(1), l)
    }
}

/// The entries of `map` sorted by their letters, in the order of letters.
pub open spec fn spec_by_letter<V>(map: Seq<(V, Seq<bool>)>) -> Seq<(V, Seq<bool>)>
    decreases map.len(),
{
    if map.len() == 0 {
        Seq::empty()
    } else {
        let sorted = spec_by_letter(map.drop_last());
        sorted.insert(spec_letter_pos(sorted, map.last().1), map.last())
    }
}

/// The entries that give each of `tokens` the letter at its place in
/// `letters`.
pub open spec fn spec_zip<V>(tokens: Seq<V>, letters: Seq<Seq<bool>>) -> Seq<(V, Seq<bool>)> {
    Seq::new(tokens.len(), |i: int| (tokens[i], letters[i]))
}

/// Whether every letter of the entries of `map` is well formed.
pub open spec fn letters_wf<T>(map: Seq<(T, Letter)>) -> bool {
    forall|i: int| 0 <= i < map.len() ==> (#[trigger] map[i]).1.wf()
}

/// The bytes of a packed encoding: the number of bytes of the text of
/// `tokens` as eight bytes, most significant first, the text of `tokens`,
/// and the packed alphabet of `letters`.
pub open spec fn spec_packed_encoding(text: Seq<u8>, letters: Seq<Seq<bool>>) -> Seq<u8> {
    spec_pack_u64(text.len() as u64) + text + spec_packed_alphabet(letters)
}

/// The map of the encoding packed at the start of `s`, read with the
/// tokenizer `Z`, and the number of bytes that the packed encoding takes;
/// or why `s` holds no packed encoding.
pub open spec fn spec_unpacked_encoding<Z: Tokenizer>(s: Seq<u8>) -> Result<
    (Seq<(<Z::T as View>::V, Seq<bool>)>, int),
    Error,
> {
    if s.len() < 8 || s.len() - 8 < spec_unpack_u64(s) {
        Err(Error::UnexpectedEof)
    } else {
        let size = spec_unpack_u64(s) as int;
        match Z::spec_tokenize(s.subrange(8, 8 + size)) {
            None => Err(Error::InvalidText),
            Some(tokens) => match spec_unpacked_alphabet(s.skip(8 + size)) {
                None => Err(Error::UnexpectedEof),
                Some((letters, n)) => if !valid_code(letters) {
                    Err(Error::InvalidAlphabet)
                } else if letters.len() != tokens.len() || !tokens.no_duplicates() {
                    Err(Error::TokenLetterCountMismatch)
                } else {
                    Ok((spec_zip(tokens, letters), 8 + size + n))
                },
            },
        }
    }
}

/// Maps a [`Token`] to a [`Letter`].
///
/// The tokens of the encoding stand in the order of the letters of its
/// alphabet: the letter of the token at a place is the letter at that
/// place of the alphabet.
#[derive(Clone, Debug, Eq, PartialEq)]
pub struct Encoding<T: Token> {
    map: Vec<(T, Letter)>,
    alphabet: Alphabet,
}

impl<T: Token> Encoding<T> {
    /// The tokens of the encoding with their letters, in the order of the
    /// alphabet.
    pub closed spec fn spec_map(&self) -> Seq<(T::V, Seq<bool>)> {
        entry_views(self.map@)
    }

    /// The letters of the alphabet of the encoding.
    pub closed spec fn spec_alphabet(&self) -> Seq<Seq<bool>> {
        self.alphabet@
    }

    /// The alphabet holds the letters of the tokens, in their order, and is
    /// a valid code; no token has two letters.
    pub closed spec fn wf(&self) -> bool {
        &&& self.alphabet.wf()
        &&& letters_wf(self.map@)
        &&& self.alphabet@ == spec_letters_of(self.spec_map())
        &&& spec_keys(self.spec_map()).no_duplicates()
    }

    /// What a well-formed encoding is made of.
    pub proof fn lemma_wf(&self)
        requires
            self.wf(),
        ensures
            valid_code(self.spec_alphabet()),
            self.spec_alphabet() == spec_letters_of(self.spec_map()),
            spec_keys(self.spec_map()).no_duplicates(),
    {
        self.alphabet.lemma_wf();
    }

    /// No letter of an encoding is the start of another letter of it.
    pub proof fn lemma_prefix_property(&self)
        requires
            self.wf(),
        ensures
            prefix_free(self.spec_alphabet()),
            forall|i: int, j: int|
                0 <= i < self.spec_map().len() && 0 <= j < self.spec_map().len() && i != j
                    ==> !is_prefix(
                    (#[trigger] self.spec_map()[i]).1,
                    (#[trigger] self.spec_map()[j]).1,
                ),
    {
        self.alphabet.lemma_wf();
        let letters = self.spec_alphabet();
        assert forall|i: int, j: int|
            0 <= i < self.spec_map().len() && 0 <= j < self.spec_map().len() && i
                != j implies !is_prefix(
            (#[trigger] self.spec_map()[i]).1,
            (#[trigger] self.spec_map()[j]).1,
        ) by {
            assert(letters[i] == self.spec_map()[i].1);
            assert(letters[j] == self.spec_map()[j].1);
        }
    }

    /// Every letter of an encoding has a `1` bit.
    pub proof fn lemma_no_zero_letter(&self)
        requires
            self.wf(),
        ensures
            forall|i: int|
                0 <= i < self.spec_alphabet().len() ==> !all_zero(
                    #[trigger] self.spec_alphabet()[i],
                ),
            forall|i: int|
                0 <= i < self.spec_map().len() ==> !all_zero((#[trigger] self.spec_map()[i]).1),
    {
        self.alphabet.lemma_wf();
        let letters = self.spec_alphabet();
        assert forall|i: int| 0 <= i < self.spec_map().len() implies !all_zero(
            (#[trigger] self.spec_map()[i]).1,
        ) by {
            assert(letters[i] == self.spec_map()[i].1);
        }
    }

    /// Packing the letters of a text and parsing the bytes gives the
    /// letters back: for tokens that the encoding has letters for, the
    /// bytes that hold the packed letters of the tokens parse into just
    /// these letters, and the parse ends without a failure.
    pub proof fn lemma_coded_text_roundtrip(&self, tokens: Seq<T::V>)
        requires
            self.wf(),
            spec_known(self.spec_map(), tokens),
        ensures
            chosen(self.spec_alphabet(), spec_places(self.spec_map(), tokens)) == spec_encoded(
                self.spec_map(),
                tokens,
            ),
            spec_parse(
                self.spec_alphabet(),
                bits_of(spec_pack(spec_encoded(self.spec_map(), tokens))),
            ) == (spec_places(self.spec_map(), tokens), None::<Error>),
    {
        self.lemma_wf();
        let map = self.spec_map();
        let letters = self.spec_alphabet();
        let idx = spec_places(map, tokens);
        assert forall|k: int| 0 <= k < idx.len() implies 0 <= #[trigger] idx[k]
            < letters.len() by {
            lemma_find(map, tokens[k]);
            assert(spec_find(map, tokens[k]) < map.len());
        }
        assert(spec_encoded(map, tokens) =~= chosen(letters, idx));
        lemma_pack_parse_roundtrip(letters, idx);
    }

    /// An encoding with the letters that `map` gives for its tokens, in
    /// the order of the letters. Where `map` gives more than one letter
    /// for a token, the last one counts.
    ///
    /// Fails with [`Error::InvalidAlphabet`] where the letters are no valid
    /// code.
    pub fn new(map: Vec<(T, Letter)>) -> (res: Result<Self, Error>)
        requires
            letters_wf(map@),
        ensures
            valid_code(spec_letters_of(spec_by_letter(spec_collected(entry_views(map@)))))
                ==> res is Ok && res->Ok_0.wf() && res->Ok_0.spec_map() == spec_by_letter(
                spec_collected(entry_views(map@)),
            ),
            !valid_code(spec_letters_of(spec_by_letter(spec_collected(entry_views(map@)))))
                ==> res is Err && res->Err_0 == Error::InvalidAlphabet,
            res is Ok ==> valid_code(res->Ok_0.spec_alphabet()),
            res is Ok ==> forall|i: int, j: int|
                0 <= i < j < res->Ok_0.spec_map().len() ==> !letter_lt(
                    (#[trigger] res->Ok_0.spec_map()[j]).1,
                    (#[trigger] res->Ok_0.spec_map()[i]).1,
                ),
    {
        let ghost pairs = entry_views(map@);
        proof {
            lemma_by_letter_sorted(spec_collected(pairs));
        }
        // One entry for each token.
        let mut all: Vec<(T, Letter)> = Vec::new();
        let mut i: usize = 0;
        proof {
            assert(pairs.take(0) =~= Seq::<(T::V, Seq<bool>)>::empty());
            assert(entry_views(all@) =~= spec_collected(pairs.take(0)));
        }
        while i < map.len()
            invariant
                pairs == entry_views(map@),
                letters_wf(map@),
                letters_wf(all@),
                i <= map@.len(),
                entry_views(all@) == spec_collected(pairs.take(i as int)),
            decreases map@.len() - i,
        {
            let ghost e = entry_views(all@);
            let ghost before = all@;
            proof {
                lemma_find(e, pairs[i as int].0);
                assert(pairs.take(i + 1).drop_last() =~= pairs.take(i as int));
                assert(pairs.take(i + 1).last() == pairs[i as int]);
            }
            let j = find(&all, &map[i].0);
            let k = map[i].0.duplicate();
            let l = map[i].1.duplicate();
            if j < all.len() {
                all.set(j, (k, l));
            } else {
                all.push((k, l));
            }
            proof {
                assert(entry_views(all@) =~= spec_put(e, pairs[i as int].0, pairs[i as int].1));
                assert forall|x: int| 0 <= x < all@.len() implies (#[trigger] all@[x]).1.wf() by {
                    if x != j {
                        assert(all@[x] == before[x]);
                    }
                }
            }
            i = i + 1;
        }
        let ghost collected = entry_views(all@);
        proof {
            assert(pairs.take(i as int) =~= pairs);
            lemma_collected(pairs);
        }
        // In the order of their letters.
        let mut sorted: Vec<(T, Letter)> = Vec::with_capacity(all.len());
        let mut a: usize = 0;
        proof {
            assert(collected.take(0) =~= Seq::<(T::V, Seq<bool>)>::empty());
            assert(entry_views(sorted@) =~= spec_by_letter(collected.take(0)));
        }
        while a < all.len()
            invariant
                collected == entry_views(all@),
                letters_wf(all@),
                letters_wf(sorted@),
                a <= all@.len(),
                entry_views(sorted@) == spec_by_letter(collected.take(a as int)),
            decreases all@.len() - a,
        {
            let ghost s = entry_views(sorted@);
            let ghost before = sorted@;
            let mut p: usize = 0;
            proof {
                assert(s.skip(0) =~= s);
            }
            while p < sorted.len() && !all[a].1.precedes(&sorted[p].1)
                invariant
                    collected == entry_views(all@),
                    s == entry_views(sorted@),
                    letters_wf(all@),
                    letters_wf(sorted@),
                    a < all@.len(),
                    p <= sorted@.len(),
                    spec_letter_pos(s, collected[a as int].1) == p + spec_letter_pos(
                        s.skip(p as int),
                        collected[a as int].1,
                    ),
                decreases sorted@.len() - p,
            {
                proof {
                    assert(s.skip(p as int)[0] == s[p as int]);
                    assert(s.skip(p as int).skip(1) =~= s.skip(p + 1));
                }
                p = p + 1;
            }
            proof {
                if p < sorted.len() {
                    assert(s.skip(p as int)[0] == s[p as int]);
                }
            }
            let k = all[a].0.duplicate();
            let l = all[a].1.duplicate();
            sorted.insert(p, (k, l));
            proof {
                assert(collected.take(a + 1).drop_last() =~= collected.take(a as int));
                assert(collected.take(a + 1).last() == collected[a as int]);
                before.insert_ensures(p as int, (k, l));
                assert(entry_views(sorted@) =~= s.insert(p as int, collected[a as int]));
                assert forall|x: int| 0 <= x < sorted@.len() implies (
                #[trigger] sorted@[x]).1.wf() by {
                    if x < p {
                        assert(sorted@[x] == before[x]);
                    } else if x > p {
                        assert(sorted@[x] == before[x - 1]);
                    }
                }
            }
            a = a + 1;
        }
        proof {
            assert(collected.take(a as int) =~= collected);
            lemma_by_letter(collected);
        }
        let letters = letters_of(&sorted);
        match Alphabet::new(letters) {
            Err(e) => Err(e),
            Ok(alphabet) => {
                proof {
                    alphabet.lemma_wf();
                }
                Ok(Self { map: sorted, alphabet })
            },
        }
    }

    /// The [`Alphabet`] used by this encoding.
    pub fn alphabet(&self) -> (a: &Alphabet)
        ensures
            a@ == self.spec_alphabet(),
            self.wf() ==> a.wf(),
    {
        &self.alphabet
    }

    /// The encoding map: each token with its letter, in the order of the
    /// alphabet.
    pub fn map(&self) -> (m: &Vec<(T, Letter)>)
        ensures
            entry_views(m@) == self.spec_map(),
            self.wf() ==> letters_wf(m@),
    {
        &self.map
    }

    /// The map from the letters back to the tokens: each letter with its
    /// token, in the order of the alphabet.
    pub fn reverse_map(&self) -> (m: Vec<(&Letter, &T)>)
        ensures
            m@.len() == self.spec_map().len(),
            forall|i: int|
                0 <= i < m@.len() ==> (#[trigger] m@[i]).0@ == self.spec_map()[i].1 && m@[i].1@
                    == self.spec_map()[i].0 && (self.wf() ==> m@[i].0.wf()),
    {
        let mut m: Vec<(&Letter, &T)> = Vec::with_capacity(self.map.len());
        let mut i: usize = 0;
        while i < self.map.len()
            invariant
                i <= self.map@.len(),
                m@.len() == i,
                forall|j: int|
                    0 <= j < i ==> (#[trigger] m@[j]).0@ == self.spec_map()[j].1 && m@[j].1@
                        == self.spec_map()[j].0 && (self.wf() ==> m@[j].0.wf()),
            decreases self.map@.len() - i,
        {
            m.push((&self.map[i].1, &self.map[i].0));
            i = i + 1;
        }
        m
    }

    /// The set of [`Token`]s covered by this encoding.
    ///
    /// The returned tokens are in the order of the letters in
    /// [`Self::alphabet()`].
    pub fn tokens(&self) -> (tokens: Vec<T>)
        ensures
            key_views(tokens@) == spec_keys(self.spec_map()),
    {
        let mut tokens: Vec<T> = Vec::with_capacity(self.map.len());
        let mut i: usize = 0;
        while i < self.map.len()
            invariant
                i <= self.map@.len(),
                tokens@.len() == i,
                forall|j: int| 0 <= j < i ==> (#[trigger] tokens@[j])@ == self.map@[j].0@,
            decreases self.map@.len() - i,
        {
            tokens.push(self.map[i].0.duplicate());
            i = i + 1;
        }
        proof {
            assert(key_views(tokens@) =~= spec_keys(self.spec_map()));
        }
        tokens
    }

    /// Serialize the encoding to `w`: the tokens, packed by `P`, behind the
    /// number of bytes that they take, and the alphabet. The token at a
    /// place is the token of the letter at that place.
    pub fn pack<P: TokenPacker<T = T>>(&self, w: &mut Vec<u8>) -> (res: Result<(), Error>)
        requires
            self.wf(),
        ensures
            res is Ok,
            final(w)@ == old(w)@ + spec_packed_encoding(
                P::spec_text(spec_keys(self.spec_map())),
                self.spec_alphabet(),
            ),
    {
        let tokens = self.tokens();
        let mut text: Vec<u8> = Vec::new();
        let _ = P::pack(&tokens, &mut text);
        proof {
            assert(text@ =~= P::spec_text(spec_keys(self.spec_map())));
            assert(text.len() == text@.len());
        }
        let mut size = pack_u64(text.len() as u64);
        w.append(&mut size);
        w.append(&mut text);
        self.alphabet.write(w);
        proof {
            assert(w@ =~= old(w)@ + spec_packed_encoding(
                P::spec_text(spec_keys(self.spec_map())),
                self.spec_alphabet(),
            ));
        }
        Ok(())
    }

    /// Deserialize an encoding written with [`Self::pack()`], with the
    /// tokenizer `Z` for the tokens.
    ///
    /// Fails with [`Error::UnexpectedEof`] where `r` ends before the
    /// encoding does, with [`Error::InvalidText`] where the tokenizer
    /// refuses the text of the tokens, with [`Error::InvalidAlphabet`]
    /// where the letters are no valid code, and with
    /// [`Error::TokenLetterCountMismatch`] where there are not as many
    /// tokens as letters, all of them different.
    pub fn unpack<Z: Tokenizer<T = T>>(r: &mut Reader) -> (res: Result<Self, Error>)
        requires
            old(r).wf(),
        ensures
            final(r).wf(),
            final(r).source() == old(r).source(),
            final(r).consumed() >= old(r).consumed(),
            match spec_unpacked_encoding::<Z>(old(r).remaining()) {
                Ok((map, n)) => {
                    &&& res is Ok
                    &&& res->Ok_0.wf()
                    &&& res->Ok_0.spec_map() == map
                    &&& final(r).consumed() == old(r).consumed() + n
                },
                Err(e) => res is Err && res->Err_0 == e,
            },
    {
        let ghost s = r.remaining();
        let size = match unpack_u64(r) {
            Err(e) => {
                return Err(e);
            },
            Ok(n) => n,
        };
        proof {
            old(r).lemma_bounded();
            assert(r.remaining() =~= s.skip(8));
        }
        if size > usize::MAX as u64 {
            return Err(Error::UnexpectedEof);
        }
        let buf = match r.read_exact(size as usize) {
            Err(e) => {
                return Err(e);
            },
            Ok(buf) => buf,
        };
        proof {
            assert(buf@ =~= s.subrange(8, 8 + size));
            assert(r.remaining() =~= s.skip(8 + size));
        }
        let text = Reader::new(buf);
        proof {
            assert(text.remaining() =~= buf@);
        }
        let tokens = match Z::tokenize(text) {
            Err(e) => {
                return Err(e);
            },
            Ok(tokens) => tokens,
        };
        let alphabet = match Alphabet::unpack(r) {
            Err(e) => {
                return Err(e);
            },
            Ok(alphabet) => alphabet,
        };
        let letters = alphabet.letters();
        if letters.len() != tokens.len() {
            return Err(Error::TokenLetterCountMismatch);
        }
        if !all_distinct(&tokens) {
            return Err(Error::TokenLetterCountMismatch);
        }
        let mut map: Vec<(T, Letter)> = Vec::with_capacity(tokens.len());
        let mut i: usize = 0;
        while i < tokens.len()
            invariant
                tokens@.len() == letters@.len(),
                all_wf(letters@),
                letters_wf(map@),
                i <= tokens@.len(),
                map@.len() == i,
                forall|j: int|
                    0 <= j < i ==> (#[trigger] map@[j]).0@ == tokens@[j]@ && map@[j].1@
                        == letters@[j]@,
            decreases tokens@.len() - i,
        {
            let k = tokens[i].duplicate();
            let l = letters[i].duplicate();
            map.push((k, l));
            i = i + 1;
        }
        proof {
            assert(entry_views(map@) =~= spec_zip(key_views(tokens@), alphabet@));
            assert(spec_letters_of(entry_views(map@)) =~= alphabet@);
            assert(spec_keys(entry_views(map@)) =~= key_views(tokens@));
        }
        Ok(Self { map, alphabet })
    }
}

/// An encoding that gives each of the keys of `tokens` the letter at its
/// place in `letters`.
///
/// Fails with [`Error::InvalidAlphabet`] where the letters are no valid
/// code.
pub fn from_letters<T: Token>(tokens: &Vec<(T, u64)>, letters: Vec<Letter>) -> (res: Result<
    Encoding<T>,
    Error,
>)
    requires
        tokens@.len() == letters@.len(),
        all_wf(letters@),
        spec_keys(entry_views(tokens@)).no_duplicates(),
    ensures
        valid_code(views(letters@)) ==> res is Ok && res->Ok_0.wf() && res->Ok_0.spec_map()
            == spec_by_letter(spec_zip(spec_keys(entry_views(tokens@)), views(letters@))),
        !valid_code(views(letters@)) ==> res is Err && res->Err_0 == Error::InvalidAlphabet,
        res is Ok ==> valid_code(res->Ok_0.spec_alphabet()),
{
    let ghost zipped = spec_zip(spec_keys(entry_views(tokens@)), views(letters@));
    let mut map: Vec<(T, Letter)> = Vec::with_capacity(tokens.len());
    let mut i: usize = 0;
    while i < tokens.len()
        invariant
            tokens@.len() == letters@.len(),
            all_wf(letters@),
            letters_wf(map@),
            i <= tokens@.len(),
            map@.len() == i,
            forall|j: int|
                0 <= j < i ==> (#[trigger] map@[j]).0@ == tokens@[j].0@ && map@[j].1@
                    == letters@[j]@,
        decreases tokens@.len() - i,
    {
        let k = tokens[i].0.duplicate();
        let l = letters[i].duplicate();
        map.push((k, l));
        i = i + 1;
    }
    proof {
        assert(entry_views(map@) =~= zipped);
        assert(spec_keys(zipped) =~= spec_keys(entry_views(tokens@)));
        lemma_collected_distinct(zipped);
        lemma_by_letter_valid(zipped);
        assert(spec_letters_of(zipped) =~= views(letters@));
    }
    Encoding::new(map)
}

/// Helper function to create a new `Encoding` from known mapping.
pub fn from_pairs<T: Token>(data: &[(T, Letter)]) -> (res: Result<Encoding<T>, Error>)
    requires
        letters_wf(data@),
    ensures
        valid_code(spec_letters_of(spec_by_letter(spec_collected(entry_views(data@)))))
            ==> res is Ok && res->Ok_0.wf() && res->Ok_0.spec_map() == spec_by_letter(
            spec_collected(entry_views(data@)),
        ),
        !valid_code(spec_letters_of(spec_by_letter(spec_collected(entry_views(data@)))))
            ==> res is Err && res->Err_0 == Error::InvalidAlphabet,
        res is Ok ==> valid_code(res->Ok_0.spec_alphabet()),
{
    let mut map: Vec<(T, Letter)> = Vec::with_capacity(data.len());
    let mut i: usize = 0;
    while i < data.len()
        invariant
            letters_wf(data@),
            letters_wf(map@),
            i <= data@.len(),
            map@.len() == i,
            forall|j: int|
                0 <= j < i ==> (#[trigger] map@[j]).0@ == data@[j].0@ && map@[j].1@ == data@[j].1@,
        decreases data@.len() - i,
    {
        let k = data[i].0.duplicate();
        let l = data[i].1.duplicate();
        map.push((k, l));
        i = i + 1;
    }
    proof {
        assert(entry_views(map@) =~= entry_views(data@));
    }
    Encoding::new(map)
}

/// Whether no two of `tokens` are the same.
fn all_distinct<T: Token>(tokens: &Vec<T>) -> (b: bool)
    ensures
        b == key_views(tokens@).no_duplicates(),
{
    let ghost keys = key_views(tokens@);
    let mut i: usize = 0;
    while i < tokens.len()
        invariant
            keys == key_views(tokens@),
            i <= tokens@.len(),
            forall|a: int, b: int| 0 <= a < b < i ==> keys[a] != keys[b],
        decreases tokens@.len() - i,
    {
        let mut j: usize = 0;
        while j < i
            invariant
                keys == key_views(tokens@),
                i < tokens@.len(),
                j <= i,
                forall|a: int| 0 <= a < j ==> keys[a] != keys[i as int],
            decreases i - j,
        {
            if tokens[j].same(&tokens[i]) {
                assert(keys[j as int] == keys[i as int]);
                return false;
            }
            j = j + 1;
        }
        i = i + 1;
    }
    proof {
        assert forall|a: int, b: int| 0 <= a < keys.len() && 0 <= b < keys.len() && a
            != b implies keys[a] != keys[b] by {
            if a < b {
                assert(keys[a] != keys[b]);
            } else {
                assert(keys[b] != keys[a]);
            }
        }
    }
    true
}

/// Copies of the letters of the entries of `map`, in their order.
fn letters_of<T: Token>(map: &Vec<(T, Letter)>) -> (letters: Vec<Letter>)
    requires
        letters_wf(map@),
    ensures
        all_wf(letters@),
        views(letters@) == spec_letters_of(entry_views(map@)),
{
    let mut letters: Vec<Letter> = Vec::with_capacity(map.len());
    let mut i: usize = 0;
    while i < map.len()
        invariant
            letters_wf(map@),
            i <= map@.len(),
            letters@.len() == i,
            all_wf(letters@),
            forall|j: int| 0 <= j < i ==> (#[trigger] letters@[j])@ == map@[j].1@,
        decreases map@.len() - i,
    {
        let l = map[i].1.duplicate();
        letters.push(l);
        i = i + 1;
    }
    proof {
        assert(views(letters@) =~= spec_letters_of(entry_views(map@)));
    }
    letters
}

/// The map that a scheme derives from a model has one entry for each key
/// of the model, and its letters are a valid code of letters that can be
/// packed.
pub proof fn lemma_encoder<V>(scheme: EncodingScheme, entries: Seq<(V, u64)>)
    requires
        model_ok(entries),
        entries.len() <= usize::MAX,
    ensures
        spec_encoder(scheme, entries) matches Ok(map) ==> {
            &&& map.len() == entries.len()
            &&& spec_keys(map).no_duplicates()
            &&& valid_code(spec_letters_of(map))
            &&& countable(spec_letters_of(map))
        },
{
    if let Ok(map) = spec_encoder(scheme, entries) {
        let sorted = spec_sorted(entries);
        lemma_sorted(entries);
        let keys = spec_keys(sorted);
        let freqs = spec_freqs(sorted);
        assert forall|i: int| 0 <= i < freqs.len() implies #[trigger] freqs[i] >= 1 by {
            assert(sorted[i].1 >= 1);
        }
        let letters = match scheme {
            EncodingScheme::BalancedTree => balanced_tree::spec_letters(entries.len()),
            EncodingScheme::Huffman => huffman::spec_letters(freqs),
            EncodingScheme::Shannon => shannon::spec_letters(freqs),
            EncodingScheme::Fano => fano::spec_letters(freqs),
        };
        match scheme {
            EncodingScheme::BalancedTree => {
                balanced_tree::lemma_letters_valid(entries.len());
                balanced_tree::lemma_letters_short(entries.len());
            },
            EncodingScheme::Huffman => {
                huffman::lemma_letters_valid(freqs);
                huffman::lemma_letters_short(freqs);
            },
            EncodingScheme::Shannon => {
                assert forall|i: int, j: int| 0 <= i <= j < freqs.len() implies #[trigger] freqs[i]
                    >= #[trigger] freqs[j] by {
                    assert(sorted[i].1 >= sorted[j].1);
                }
                shannon::lemma_letters_valid(freqs);
                shannon::lemma_letters_short(freqs);
            },
            EncodingScheme::Fano => {
                fano::lemma_letters_valid(freqs);
                fano::lemma_letters_short(freqs);
            },
        }
        let zipped = spec_zip(keys, letters);
        assert(map == spec_by_letter(zipped));
        assert(letters.len() == keys.len());
        assert(spec_keys(zipped) =~= keys);
        assert(spec_letters_of(zipped) =~= letters);
        lemma_by_letter(zipped);
        lemma_by_letter_valid(zipped);
        assert forall|i: int| 0 <= i < map.len() implies (#[trigger] spec_letters_of(map)[i]).len()
            <= u64::MAX by {
            lemma_same_entries(map, zipped, i);
            let j = choose|j: int| 0 <= j < zipped.len() && zipped[j] == map[i];
            assert(letters[j] == map[i].1);
        }
    }
}

/// The encoding that a scheme derives from the model of a stream of
/// tokens has a letter for each token of the stream.
pub proof fn lemma_tokens_known<V>(scheme: EncodingScheme, tokens: Seq<V>)
    requires
        tokens.len() <= u64::MAX,
    ensures
        spec_encoder(scheme, spec_counted(tokens)) matches Ok(map) ==> spec_known(map, tokens),
{
    if let Ok(map) = spec_encoder(scheme, spec_counted(tokens)) {
        let entries = spec_counted(tokens);
        let sorted = spec_sorted(entries);
        lemma_counted(tokens);
        lemma_sorted(entries);
        assert forall|i: int| 0 <= i < tokens.len() implies spec_find(map, #[trigger] tokens[i])
            < map.len() by {
            let k = tokens[i];
            tokens.to_multiset_ensures();
            assert(tokens.to_multiset().contains(k));
            assert(tokens.to_multiset().count(k) > 0);
            assert(spec_frequency(entries, k) > 0);
            lemma_find(entries, k);
            let a = spec_find(entries, k);
            lemma_same_entries(entries, sorted, a);
            let b = choose|b: int| 0 <= b < sorted.len() && sorted[b] == entries[a];
            let keys = spec_keys(sorted);
            let letters = spec_letters_of(map);
            let zipped: Seq<(V, Seq<bool>)> = match scheme {
                EncodingScheme::BalancedTree => spec_zip(
                    keys,
                    balanced_tree::spec_letters(entries.len()),
                ),
                EncodingScheme::Huffman => spec_zip(
                    keys,
                    huffman::spec_letters(spec_freqs(sorted)),
                ),
                EncodingScheme::Shannon => spec_zip(
                    keys,
                    shannon::spec_letters(spec_freqs(sorted)),
                ),
                EncodingScheme::Fano => spec_zip(keys, fano::spec_letters(spec_freqs(sorted))),
            };
            assert(map == spec_by_letter(zipped));
            assert(zipped[b].0 == k);
            lemma_by_letter(zipped);
            lemma_same_entries(zipped, map, b);
            let c = choose|c: int| 0 <= c < map.len() && map[c] == zipped[b];
            lemma_find(map, k);
            if spec_find(map, k) >= map.len() {
                assert(map[c].0 != k);
            }
        }
    }
}

/// Unpacking a packed encoding gives the encoding back, and takes the
/// bytes of the packed encoding, whatever bytes follow them: where the
/// tokenizer `Z` splits the text that the packer `P` makes of the tokens
/// of an encoding into just these tokens, unpacking with `Z` what was
/// packed with `P` gives the map of the encoding.
pub proof fn lemma_encoding_roundtrip<Z: Tokenizer, P: TokenPacker<T = Z::T>>(
    map: Seq<(<Z::T as View>::V, Seq<bool>)>,
    rest: Seq<u8>,
)
    requires
        spec_keys(map).no_duplicates(),
        valid_code(spec_letters_of(map)),
        countable(spec_letters_of(map)),
        P::spec_text(spec_keys(map)).len() <= u64::MAX,
        Z::spec_tokenize(P::spec_text(spec_keys(map))) == Some(spec_keys(map)),
    ensures
        spec_unpacked_encoding::<Z>(
            spec_packed_encoding(P::spec_text(spec_keys(map)), spec_letters_of(map)) + rest,
        ) == Ok::<(Seq<(<Z::T as View>::V, Seq<bool>)>, int), Error>(
            (
                map,
                spec_packed_encoding(
                    P::spec_text(spec_keys(map)),
                    spec_letters_of(map),
                ).len() as int,
            ),
        ),
{
    let keys = spec_keys(map);
    let letters = spec_letters_of(map);
    let text = P::spec_text(keys);
    let packed = spec_packed_encoding(text, letters);
    let s = packed + rest;
    let size = text.len() as u64;
    lemma_u64_roundtrip(size);
    assert(spec_unpack_u64(s) == spec_unpack_u64(spec_pack_u64(size))) by {
        assert(forall|i: int| 0 <= i < 8 ==> s[i] == spec_pack_u64(size)[i]);
    }
    assert(s.subrange(8, 8 + size) =~= text);
    assert(s.skip(8 + size) =~= spec_packed_alphabet(letters) + rest);
    lemma_alphabet_roundtrip(letters, rest);
    assert(spec_zip(keys, letters) =~= map);
}

/// Entries sorted by their letters stand in the order of their letters:
/// no entry stands behind an entry with a letter that comes after its
/// letter.
pub proof fn lemma_by_letter_sorted<V>(map: Seq<(V, Seq<bool>)>)
    ensures
        forall|i: int, j: int|
            0 <= i < j < spec_by_letter(map).len() ==> !letter_lt(
                (#[trigger] spec_by_letter(map)[j]).1,
                (#[trigger] spec_by_letter(map)[i]).1,
            ),
    decreases map.len(),
{
    let out = spec_by_letter(map);
    if map.len() > 0 {
        let front = map.drop_last();
        let last = map.last();
        lemma_by_letter_sorted(front);
        let s = spec_by_letter(front);
        let p = spec_letter_pos(s, last.1);
        lemma_letter_pos(s, last.1);
        s.insert_ensures(p, last);
        assert forall|i: int, j: int| 0 <= i < j < out.len() implies !letter_lt(
            (#[trigger] out[j]).1,
            (#[trigger] out[i]).1,
        ) by {
            let i0 = if i < p {
                i
            } else {
                i - 1
            };
            let j0 = if j < p {
                j
            } else {
                j - 1
            };
            if i != p {
                assert(out[i] == s[i0]);
            }
            if j != p {
                assert(out[j] == s[j0]);
            }
            if i != p && j != p {
                assert(!letter_lt(s[j0].1, s[i0].1));
            } else if j == p {
                assert(!letter_lt(last.1, s[i0].1));
            } else {
                lemma_letter_lt_order(s[j0].1, last.1, s[p].1);
                if j0 > p {
                    assert(!letter_lt(s[j0].1, s[p].1));
                }
                lemma_letter_lt_order(s[p].1, s[p].1, s[p].1);
            }
        }
    }
}

/// Sorting entries by their letters keeps the entries: each entry of the
/// sorted entries is one of the entries, as many there as here, and no key
/// has two entries if none had before.
pub proof fn lemma_by_letter<V>(map: Seq<(V, Seq<bool>)>)
    ensures
        spec_by_letter(map).len() == map.len(),
        spec_by_letter(map).to_multiset() == map.to_multiset(),
        spec_keys(map).no_duplicates() ==> spec_keys(spec_by_letter(map)).no_duplicates(),
    decreases map.len(),
{
    let out = spec_by_letter(map);
    if map.len() == 0 {
        assert(out =~= map);
    } else {
        let front = map.drop_last();
        let last = map.last();
        lemma_by_letter(front);
        let s = spec_by_letter(front);
        let p = spec_letter_pos(s, last.1);
        lemma_letter_pos(s, last.1);
        s.insert_ensures(p, last);
        vstd::seq_lib::to_multiset_insert(s, p, last);
        assert(front.push(last) =~= map);
        vstd::seq_lib::to_multiset_build(front, last);
        if spec_keys(map).no_duplicates() {
            assert(spec_keys(front).no_duplicates()) by {
                assert forall|a: int, b: int|
                    0 <= a < front.len() && 0 <= b < front.len() && a != b implies spec_keys(
                    front,
                )[a] != spec_keys(front)[b] by {
                    assert(spec_keys(map)[a] != spec_keys(map)[b]);
                }
            }
            assert forall|a: int, b: int|
                0 <= a < out.len() && 0 <= b < out.len() && a != b implies spec_keys(out)[a]
                != spec_keys(out)[b] by {
                if a != p && b != p {
                    let a0 = if a < p {
                        a
                    } else {
                        a - 1
                    };
                    let b0 = if b < p {
                        b
                    } else {
                        b - 1
                    };
                    assert(out[a] == s[a0] && out[b] == s[b0]);
                    assert(spec_keys(s)[a0] != spec_keys(s)[b0]);
                } else {
                    let x = if a == p {
                        b
                    } else {
                        a
                    };
                    let x0 = if x < p {
                        x
                    } else {
                        x - 1
                    };
                    assert(out[x] == s[x0]);
                    s.to_multiset_ensures();
                    front.to_multiset_ensures();
                    assert(s.to_multiset().contains(s[x0]));
                    assert(front.contains(s[x0]));
                    let y = choose|y: int| 0 <= y < front.len() && front[y] == s[x0];
                    assert(spec_keys(map)[y] != spec_keys(map)[map.len() - 1]);
                }
            }
        }
    }
}

/// Sorting entries by their letters keeps their letters a valid code, or
/// none.
pub proof fn lemma_by_letter_valid<V>(map: Seq<(V, Seq<bool>)>)
    ensures
        valid_code(spec_letters_of(spec_by_letter(map))) == valid_code(spec_letters_of(map)),
    decreases map.len(),
{
    let out = spec_by_letter(map);
    if map.len() == 0 {
        assert(out =~= map);
    } else {
        let front = map.drop_last();
        let last = map.last();
        lemma_by_letter_valid(front);
        lemma_by_letter(front);
        let s = spec_by_letter(front);
        let p = spec_letter_pos(s, last.1);
        lemma_letter_pos(s, last.1);
        let ls = spec_letters_of(s);
        let lf = spec_letters_of(front);
        assert(spec_letters_of(out) =~= ls.insert(p, last.1));
        lemma_valid_insert(ls, p, last.1);
        assert(spec_letters_of(map) =~= lf.insert(lf.len() as int, last.1));
        lemma_valid_insert(lf, lf.len() as int, last.1);
        s.to_multiset_ensures();
        front.to_multiset_ensures();
        if fits(ls, last.1) {
            assert forall|i: int| 0 <= i < lf.len() implies !is_prefix(#[trigger] lf[i], last.1)
                && !is_prefix(last.1, lf[i]) by {
                assert(front.to_multiset().contains(front[i]));
                assert(s.contains(front[i]));
                let y = choose|y: int| 0 <= y < s.len() && s[y] == front[i];
                assert(ls[y] == lf[i]);
            }
        }
        if fits(lf, last.1) {
            assert forall|i: int| 0 <= i < ls.len() implies !is_prefix(#[trigger] ls[i], last.1)
                && !is_prefix(last.1, ls[i]) by {
                assert(s.to_multiset().contains(s[i]));
                assert(front.contains(s[i]));
                let y = choose|y: int| 0 <= y < front.len() && front[y] == s[i];
                assert(lf[y] == ls[i]);
            }
        }
    }
}

/// The place where an entry joins sorted entries is the place of the
/// first of them with a letter that comes after its letter, or their end.
pub proof fn lemma_letter_pos<V>(sorted: Seq<(V, Seq<bool>)>, l: Seq<bool>)
    ensures
        0 <= spec_letter_pos(sorted, l) <= sorted.len(),
        spec_letter_pos(sorted, l) < sorted.len() ==> letter_lt(
            l,
            sorted[spec_letter_pos(sorted, l)].1,
        ),
        forall|i: int|
            0 <= i < spec_letter_pos(sorted, l) ==> !letter_lt(l, (#[trigger] sorted[i]).1),
    decreases sorted.len(),
{
    if sorted.len() > 0 && !letter_lt(l, sorted[0].1) {
        let rest = sorted.skip(1);
        lemma_letter_pos(rest, l);
        assert forall|i: int| 0 <= i < spec_letter_pos(sorted, l) implies !letter_lt(
            l,
            (#[trigger] sorted[i]).1,
        ) by {
            if i > 0 {
                assert(sorted[i] == rest[i - 1]);
            }
        }
    }
}

/// Each entry of a sequence has a place in each sequence that holds the
/// same entries as often.
pub proof fn lemma_same_entries<A>(a: Seq<A>, b: Seq<A>, i: int)
    requires
        a.to_multiset() == b.to_multiset(),
        0 <= i < a.len(),
    ensures
        exists|j: int| 0 <= j < b.len() && b[j] == a[i],
{
    a.to_multiset_ensures();
    b.to_multiset_ensures();
    assert(a.to_multiset().contains(a[i]));
    assert(b.contains(a[i]));
}

} // verus!
