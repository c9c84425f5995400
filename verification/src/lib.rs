//! A library of some early compression algorithms based on replacement
//! schemes.
//!
//! This library implements the standard [Huffman coding] scheme, two
//! precursors to the Huffman scheme often called [Shannon-Fano coding], and
//! a simple fixed-width encoding that is easiest to understand, though not
//! very good at encoding information.
//!
//! [Huffman coding]: https://en.wikipedia.org/wiki/Huffman_coding
//! [Shannon-Fano coding]: https://en.wikipedia.org/wiki/Shannon%E2%80%93Fano_coding
//!
//! # Abstract operation description
//!
//! The abstract steps in compression are as follows:
//!
//! ```ascii-art
//! Input --> Tokens --> Model --> Encoding -+
//!   |                                      |
//!   +-----> Tokens ------------------------+--> Compressed
//!                                                 Output
//! ```
//!
//! The abstract steps for decompression are as follows:
//!
//! ```ascii-art
//! Compressed --> extract prefix --> Encoding
//!   Input                              |
//!    |                                 |
//!    +--> remaining data --------------+--> Output
//! ```
//!
//! Decompression is conceptually simpler because there are no choices (of
//! tokenizer and encoding). The encoding is included as a prefix in-band in
//! the compressed data.
//!
//! # Crate layout
//!
//! - The [tokens] module provides traits for tokenizing text. Three
//!   tokenization schemes are implemented: [tokens::bytes],
//!   [tokens::graphemes] and [tokens::words].
//! - The [model] module provides a way to compute a zeroeth order model
//!   from a stream of tokens.
//! - The [encoding] module creates an encoding from a model. Four encoding
//!   schemes are implemented: [encoding::balanced_tree],
//!   [encoding::shannon], [encoding::fano] and [encoding::huffman].
//! - Finally, the [code] module provides methods to pack a token stream
//!   given an encoding. The encoding itself is also included in the
//!   compressed output.

use crate::assoc::{key_views, lemma_find, spec_find, spec_keys};
use crate::code::bits::bits_of;
use crate::code::text::{
    chosen, lemma_pack_parse_roundtrip, pack, parse, spec_pack, spec_parse, spelled, text_views,
};
use crate::coder::{
    decode, encode, lemma_letters_known, ref_views, reverse_views, spec_encoded, spec_places,
};
use crate::encoding::{
    lemma_encoder, lemma_encoding_roundtrip, lemma_tokens_known, new_encoder, spec_encoder,
    spec_letters_of, spec_packed_encoding, spec_unpacked_encoding, Encoding,
};
use crate::model::{lemma_counted, lemma_entries_bound, spec_counted};
use crate::reader::Reader;
use crate::tokenization_scheme::{
    pack_tokenization_scheme, spec_marker, spec_scheme, unpack_tokenization_scheme,
};
use crate::tokens::bytes::{Byte, ByteIter, BytePacker};
use crate::tokens::graphemes::{Grapheme, GraphemeIter, GraphemePacker};
use crate::tokens::words::{Word, WordIter, WordPacker};
use crate::tokens::{Token, TokenPacker, Tokenizer};
use vstd::prelude::*;

pub mod assoc;
pub mod code;
pub mod coder;
pub mod encoding;
pub mod error;
pub mod model;
pub mod reader;
pub mod sums;
pub mod tokenization_scheme;
pub mod tokens;

pub use crate::encoding::EncodingScheme;
pub use crate::error::Error;
pub use crate::tokenization_scheme::TokenizationScheme;

verus! {

/// The command to invoke via the `run` entry-point.
#[derive(Clone, Copy, Debug, PartialEq, Eq)]
pub enum Command {
    /// Compress the data using one of the implemented algorithms.
    Compress(CompressArgs),
    /// Decompress data compressed previously using this library.
    ///
    /// This library does not maintain at-rest data format compatibility.
    /// Trying to decompress data compressed using a different version of
    /// the library is not guaranteed to work.
    Decompress(DecompressArgs),
}

/// Arguments specific to the compression operation.
#[derive(Clone, Copy, Debug, PartialEq, Eq)]
pub struct CompressArgs {
    /// Choose how to split the input data into tokens that are
    /// individually compressed using one of the algorithms.
    pub tokenization_scheme: TokenizationScheme,
    /// Choose the compression algorithm used to compress the tokenized
    /// text.
    pub encoding_scheme: EncodingScheme,
}

/// Arguments specific to the decompression operation. There are none:
/// compressed data tells how it was compressed.
#[derive(Clone, Copy, Debug, PartialEq, Eq)]
pub struct DecompressArgs {}

/// What compressing `input` gives behind the marker of the tokenization
/// scheme, with the tokenizer `Z` and the packer `P` of the scheme: the
/// packed encoding that the encoding scheme derives from the model of the
/// tokens, and the packed letters of the tokens.
pub open spec fn spec_compressed_tokens<Z: Tokenizer, P: TokenPacker<T = Z::T>>(
    input: Seq<u8>,
    encoding_scheme: EncodingScheme,
) -> Result<Seq<u8>, Error> {
    match Z::spec_tokenize(input) {
        None => Err(Error::InvalidText),
        Some(tokens) => match spec_encoder(encoding_scheme, spec_counted(tokens)) {
            Err(e) => Err(e),
            Ok(map) => Ok(
                spec_packed_encoding(P::spec_text(spec_keys(map)), spec_letters_of(map))
                    + spec_pack(spec_encoded(map, tokens)),
            ),
        },
    }
}

/// What compressing `input` gives: the marker of the tokenization scheme,
/// the packed encoding, and the packed letters of the tokens of `input`.
pub open spec fn spec_compressed(
    input: Seq<u8>,
    encoding_scheme: EncodingScheme,
    tokenization_scheme: TokenizationScheme,
) -> Result<Seq<u8>, Error> {
    let rest = match tokenization_scheme {
        TokenizationScheme::Byte => spec_compressed_tokens::<ByteIter, BytePacker>(
            input,
            encoding_scheme,
        ),
        TokenizationScheme::Grapheme => spec_compressed_tokens::<GraphemeIter, GraphemePacker>(
            input,
            encoding_scheme,
        ),
        TokenizationScheme::Word => spec_compressed_tokens::<WordIter, WordPacker>(
            input,
            encoding_scheme,
        ),
    };
    match rest {
        Err(e) => Err(e),
        Ok(bytes) => Ok(seq![spec_marker(tokenization_scheme)] + bytes),
    }
}

/// The tokens that `map` gives for the letters with the indices `idx`.
pub open spec fn spec_spelled_tokens<V>(map: Seq<(V, Seq<bool>)>, idx: Seq<int>) -> Seq<V> {
    Seq::new(idx.len(), |k: int| map[idx[k]].0)
}

/// What decompressing `s`, the data behind the marker of the tokenization
/// scheme, gives with the tokenizer `Z` and the packer `P` of the scheme:
/// the text of the tokens whose letters the data holds behind the packed
/// encoding.
pub open spec fn spec_decompressed_tokens<Z: Tokenizer, P: TokenPacker<T = Z::T>>(
    s: Seq<u8>,
) -> Result<Seq<u8>, Error> {
    match spec_unpacked_encoding::<Z>(s) {
        Err(e) => Err(e),
        Ok((map, n)) => {
            let parsed = spec_parse(spec_letters_of(map), bits_of(s.skip(n)));
            match parsed.1 {
                Some(e) => Err(e),
                None => Ok(P::spec_text(spec_spelled_tokens(map, parsed.0))),
            }
        },
    }
}

/// What decompressing `input` gives: the text that the data behind the
/// marker holds, read by the tokenization scheme of the marker.
pub open spec fn spec_decompressed(input: Seq<u8>) -> Result<Seq<u8>, Error> {
    if input.len() == 0 {
        Err(Error::UnexpectedEof)
    } else {
        match spec_scheme(input[0]) {
            None => Err(Error::UnknownScheme),
            Some(TokenizationScheme::Byte) => spec_decompressed_tokens::<ByteIter, BytePacker>(
                input.skip(1),
            ),
            Some(TokenizationScheme::Grapheme) => spec_decompressed_tokens::<
                GraphemeIter,
                GraphemePacker,
            >(input.skip(1)),
            Some(TokenizationScheme::Word) => spec_decompressed_tokens::<WordIter, WordPacker>(
                input.skip(1),
            ),
        }
    }
}

/// Invoke this library to compress or decompress data.
///
/// See package documentation for an overview of the algorithms implemented
/// in this library.
pub fn run(command: &Command, input: &[u8]) -> (res: Result<Vec<u8>, Error>)
    ensures
        match command {
            Command::Compress(args) => match spec_compressed(
                input@,
                args.encoding_scheme,
                args.tokenization_scheme,
            ) {
                Ok(bytes) => res is Ok && res->Ok_0@ == bytes,
                Err(e) => res is Err && res->Err_0 == e,
            },
            Command::Decompress(_) => match spec_decompressed(input@) {
                Ok(bytes) => res is Ok && res->Ok_0@ == bytes,
                Err(e) => res is Err && res->Err_0 == e,
            },
        },
{
    match command {
        Command::Compress(command_args) => compress(
            input,
            command_args.encoding_scheme,
            command_args.tokenization_scheme,
        ),
        Command::Decompress(_) => decompress(input),
    }
}

/// Compresses `input`: splits it into tokens by `tokenization_scheme`,
/// derives an encoding from the model of the tokens by `encoding_scheme`,
/// and gives the encoding and the letters of the tokens, packed.
pub fn compress(
    input: &[u8],
    encoding_scheme: EncodingScheme,
    tokenization_scheme: TokenizationScheme,
) -> (res: Result<Vec<u8>, Error>)
    ensures
        match spec_compressed(input@, encoding_scheme, tokenization_scheme) {
            Ok(bytes) => res is Ok && res->Ok_0@ == bytes,
            Err(e) => res is Err && res->Err_0 == e,
        },
{
    let mut w: Vec<u8> = Vec::new();
    let _ = pack_tokenization_scheme(tokenization_scheme, &mut w);
    let done = match tokenization_scheme {
        TokenizationScheme::Byte => compress_with_token::<Byte, ByteIter, BytePacker>(
            input,
            &mut w,
            encoding_scheme,
        ),
        TokenizationScheme::Grapheme => compress_with_token::<
            Grapheme,
            GraphemeIter,
            GraphemePacker,
        >(input, &mut w, encoding_scheme),
        TokenizationScheme::Word => compress_with_token::<Word, WordIter, WordPacker>(
            input,
            &mut w,
            encoding_scheme,
        ),
    };
    match done {
        Err(e) => Err(e),
        Ok(()) => {
            proof {
                assert(w@ =~= seq![spec_marker(tokenization_scheme)] + w@.skip(1));
            }
            Ok(w)
        },
    }
}

/// Decompresses `input`, which [`compress`] gave.
pub fn decompress(input: &[u8]) -> (res: Result<Vec<u8>, Error>)
    ensures
        match spec_decompressed(input@) {
            Ok(bytes) => res is Ok && res->Ok_0@ == bytes,
            Err(e) => res is Err && res->Err_0 == e,
        },
{
    let mut r = Reader::new(input);
    let scheme = match unpack_tokenization_scheme(&mut r) {
        Err(e) => {
            return Err(e);
        },
        Ok(scheme) => scheme,
    };
    proof {
        assert(r.remaining() =~= input@.skip(1));
    }
    match scheme {
        TokenizationScheme::Byte => decompress_with_token::<Byte, ByteIter, BytePacker>(r),
        TokenizationScheme::Grapheme => decompress_with_token::<
            Grapheme,
            GraphemeIter,
            GraphemePacker,
        >(r),
        TokenizationScheme::Word => decompress_with_token::<Word, WordIter, WordPacker>(r),
    }
}

/// Compresses `input` with the tokens of one tokenization scheme, and
/// appends what that gives to `w`.
fn compress_with_token<T: Token, Z: Tokenizer<T = T>, P: TokenPacker<T = T>>(
    input: &[u8],
    w: &mut Vec<u8>,
    encoding_scheme: EncodingScheme,
) -> (res: Result<(), Error>)
    ensures
        match spec_compressed_tokens::<Z, P>(input@, encoding_scheme) {
            Ok(bytes) => res is Ok && final(w)@ == old(w)@ + bytes,
            Err(e) => res is Err && res->Err_0 == e,
        },
{
    let text = Reader::new(input);
    proof {
        assert(text.remaining() =~= input@);
    }
    let tokens = match Z::tokenize(text) {
        Err(e) => {
            return Err(e);
        },
        Ok(tokens) => tokens,
    };
    let counted = match Z::tokenize(text) {
        Err(e) => {
            return Err(e);
        },
        Ok(tokens) => tokens,
    };
    let encoding = match new_encoder(&encoding_scheme, model::from(counted)) {
        Err(e) => {
            return Err(e);
        },
        Ok(encoding) => encoding,
    };
    proof {
        encoding.lemma_wf();
        assert(tokens.len() == tokens@.len());
        lemma_tokens_known(encoding_scheme, key_views(tokens@));
    }
    let code_text = match encode(encoding.map(), &tokens) {
        Err(e) => {
            return Err(e);
        },
        Ok(code_text) => code_text,
    };
    let _ = encoding.pack::<P>(w);
    proof {
        assert(text_views(code_text@) =~= ref_views(
            code_text@,
        ));
    }
    let _ = pack(code_text.as_slice(), w);
    proof {
        let map = encoding.spec_map();
        assert(w@ =~= old(w)@ + (spec_packed_encoding(
            P::spec_text(spec_keys(map)),
            spec_letters_of(map),
        ) + spec_pack(spec_encoded(map, key_views(tokens@)))));
    }
    Ok(())
}

/// Decompresses what `r` has left with the tokens of one tokenization
/// scheme.
fn decompress_with_token<T: Token, Z: Tokenizer<T = T>, P: TokenPacker<T = T>>(r: Reader) -> (res:
    Result<Vec<u8>, Error>)
    requires
        r.wf(),
    ensures
        match spec_decompressed_tokens::<Z, P>(r.remaining()) {
            Ok(bytes) => res is Ok && res->Ok_0@ == bytes,
            Err(e) => res is Err && res->Err_0 == e,
        },
{
    let ghost s = r.remaining();
    let mut r = r;
    let encoding: Encoding<T> = match Encoding::unpack::<Z>(&mut r) {
        Err(e) => {
            return Err(e);
        },
        Ok(encoding) => encoding,
    };
    let ghost n = spec_unpacked_encoding::<Z>(s)->Ok_0.1;
    proof {
        encoding.lemma_wf();
        assert(spec_unpacked_encoding::<Z>(s) is Ok);
        assert(r.consumed() + r.remaining().len() == r.source().len());
        assert(r.remaining() =~= s.skip(n));
    }
    let map = encoding.reverse_map();
    let parser = match parse(encoding.alphabet(), r) {
        Err(e) => {
            return Err(e);
        },
        Ok(parser) => parser,
    };
    let coded_text = match parser.collect() {
        Err(e) => {
            return Err(e);
        },
        Ok(coded_text) => coded_text,
    };
    proof {
        let letters = spec_letters_of(encoding.spec_map());
        let parsed = spec_parse(letters, bits_of(s.skip(n)));
        let found = ref_views(coded_text@);
        assert(spelled(coded_text@, letters, parsed.0));
        assert forall|k: int| 0 <= k < parsed.0.len() implies 0 <= #[trigger] parsed.0[k]
            < encoding.spec_map().len() && found[k] == encoding.spec_map()[parsed.0[k]].1 by {
            assert(coded_text@[k]@ == letters[parsed.0[k]]);
        }
        assert(Seq::new(
            encoding.spec_map().len(),
            |i: int| encoding.spec_map()[i].1,
        ) =~= letters);
        lemma_letters_known(
            encoding.spec_map(),
            reverse_views(map@),
            parsed.0,
            found,
        );
    }
    let decoded_text = match decode(&map, &coded_text) {
        Err(e) => {
            return Err(e);
        },
        Ok(decoded_text) => decoded_text,
    };
    let mut w: Vec<u8> = Vec::new();
    let _ = P::pack(&decoded_text, &mut w);
    proof {
        assert(w@ =~= P::spec_text(key_views(decoded_text@)));
    }
    Ok(w)
}

/// Decompressing what compressing gave gives the input back, for the
/// tokenization scheme that splits text byte by byte, and each encoding
/// scheme.
pub proof fn lemma_roundtrip(input: Seq<u8>, encoding_scheme: EncodingScheme)
    requires
        input.len() <= usize::MAX,
        spec_compressed(input, encoding_scheme, TokenizationScheme::Byte) is Ok,
    ensures
        spec_decompressed(
            spec_compressed(input, encoding_scheme, TokenizationScheme::Byte)->Ok_0,
        ) == Ok::<Seq<u8>, Error>(input),
{
    let entries = spec_counted(input);
    lemma_counted(input);
    lemma_find_bound(input);
    lemma_encoder(encoding_scheme, entries);
    lemma_roundtrip_tokens::<ByteIter, BytePacker>(input, encoding_scheme);
    let rest = spec_compressed_tokens::<ByteIter, BytePacker>(input, encoding_scheme)->Ok_0;
    let c = spec_compressed(input, encoding_scheme, TokenizationScheme::Byte)->Ok_0;
    assert(c.skip(1) =~= rest);
}

/// Decompressing what compressing gave gives the input back, for tokens
/// that can be told from their text: where the tokenizer `Z` splits the
/// text that the packer `P` makes of the tokens of the encoding into just
/// these tokens, and `P` makes the input of the tokens that `Z` splits
/// the input into.
pub proof fn lemma_roundtrip_tokens<Z: Tokenizer, P: TokenPacker<T = Z::T>>(
    input: Seq<u8>,
    encoding_scheme: EncodingScheme,
)
    requires
        input.len() <= usize::MAX,
        spec_compressed_tokens::<Z, P>(input, encoding_scheme) is Ok,
        Z::spec_tokenize(input)->Some_0.len() <= usize::MAX,
        P::spec_text(Z::spec_tokenize(input)->Some_0) == input,
        ({
            let map = spec_encoder(
                encoding_scheme,
                spec_counted(Z::spec_tokenize(input)->Some_0),
            )->Ok_0;
            &&& P::spec_text(spec_keys(map)).len() <= u64::MAX
            &&& Z::spec_tokenize(P::spec_text(spec_keys(map))) == Some(spec_keys(map))
        }),
    ensures
        spec_decompressed_tokens::<Z, P>(
            spec_compressed_tokens::<Z, P>(input, encoding_scheme)->Ok_0,
        ) == Ok::<Seq<u8>, Error>(input),
{
    let tokens = Z::spec_tokenize(input)->Some_0;
    let entries = spec_counted(tokens);
    let map = spec_encoder(encoding_scheme, entries)->Ok_0;
    let keys = spec_keys(map);
    let letters = spec_letters_of(map);
    lemma_counted(tokens);
    lemma_find_bound(tokens);
    lemma_encoder(encoding_scheme, entries);
    lemma_tokens_known(encoding_scheme, tokens);
    let packed = spec_packed_encoding(P::spec_text(keys), letters);
    let coded = spec_pack(spec_encoded(map, tokens));
    lemma_encoding_roundtrip::<Z, P>(map, coded);
    let s = packed + coded;
    assert(s.skip(packed.len() as int) =~= coded);
    let idx = spec_places(map, tokens);
    assert forall|k: int| 0 <= k < idx.len() implies 0 <= #[trigger] idx[k] < letters.len() by {
        lemma_find(map, tokens[k]);
        assert(spec_find(map, tokens[k]) < map.len());
    }
    assert(spec_encoded(map, tokens) =~= chosen(letters, idx));
    lemma_pack_parse_roundtrip(letters, idx);
    assert(spec_spelled_tokens(map, idx) =~= tokens) by {
        assert forall|k: int| 0 <= k < tokens.len() implies map[idx[k]].0 == tokens[k] by {
            lemma_find(map, tokens[k]);
        }
    }
}

/// Splitting text byte by byte, compression with a balanced tree, a
/// Shannon or a Fano encoding never fails, and compression with a Huffman
/// encoding fails only for more tokens than a tree can be grown for.
pub proof fn lemma_compress_succeeds(input: Seq<u8>, encoding_scheme: EncodingScheme)
    ensures
        encoding_scheme != EncodingScheme::Huffman ==> spec_compressed(
            input,
            encoding_scheme,
            TokenizationScheme::Byte,
        ) is Ok,
        encoding_scheme == EncodingScheme::Huffman && 2 * spec_counted(input).len() <= usize::MAX
            ==> spec_compressed(input, encoding_scheme, TokenizationScheme::Byte) is Ok,
{
}

/// Counting no more keys than can be counted gives no more entries.
proof fn lemma_find_bound<V>(keys: Seq<V>)
    requires
        keys.len() <= usize::MAX,
    ensures
        spec_counted(keys).len() <= usize::MAX,
{
    lemma_counted(keys);
    lemma_entries_bound(spec_counted(keys));
}

} // verus!
