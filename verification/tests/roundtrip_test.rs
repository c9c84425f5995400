use cshannon::{
    compress, decompress, run, Command, CompressArgs, DecompressArgs, EncodingScheme, Error,
    TokenizationScheme,
};

const TEXT: &str = "
Ah! well a-day! what evil looks
Had I from old and young!
Instead of the cross, the Albatross
About my neck was hung.
";

const TEXT_ONLY_WORDS: &str = "\
Ah well a day what evil looks \
Had I from old and young \
Instead of the cross the Albatross \
About my neck was hung\
";

fn roundtrip(text: &str, token: TokenizationScheme, encoding: EncodingScheme) {
    let compressed = run(
        &Command::Compress(CompressArgs {
            tokenization_scheme: token,
            encoding_scheme: encoding,
        }),
        text.as_bytes(),
    )
    .unwrap();
    let decompressed = run(&Command::Decompress(DecompressArgs {}), &compressed).unwrap();
    assert_eq!(text.as_bytes(), &decompressed[..]);
}

#[test]
fn bytes_balanced_tree() {
    roundtrip(TEXT, TokenizationScheme::Byte, EncodingScheme::BalancedTree);
}

#[test]
fn graphemes_balanced_tree() {
    roundtrip(TEXT, TokenizationScheme::Grapheme, EncodingScheme::BalancedTree);
}

#[test]
fn words_balanced_tree() {
    roundtrip(TEXT_ONLY_WORDS, TokenizationScheme::Word, EncodingScheme::BalancedTree);
}

#[test]
fn bytes_shannon() {
    roundtrip(TEXT, TokenizationScheme::Byte, EncodingScheme::Shannon);
}

#[test]
fn graphemes_shannon() {
    roundtrip(TEXT, TokenizationScheme::Grapheme, EncodingScheme::Shannon);
}

#[test]
fn words_shannon() {
    roundtrip(TEXT_ONLY_WORDS, TokenizationScheme::Word, EncodingScheme::Shannon);
}

#[test]
fn bytes_fano() {
    roundtrip(TEXT, TokenizationScheme::Byte, EncodingScheme::Fano);
}

#[test]
fn graphemes_fano() {
    roundtrip(TEXT, TokenizationScheme::Grapheme, EncodingScheme::Fano);
}

#[test]
fn words_fano() {
    roundtrip(TEXT_ONLY_WORDS, TokenizationScheme::Word, EncodingScheme::Fano);
}

#[test]
fn bytes_huffman() {
    roundtrip(TEXT, TokenizationScheme::Byte, EncodingScheme::Huffman);
}

#[test]
fn graphemes_huffman() {
    roundtrip(TEXT, TokenizationScheme::Grapheme, EncodingScheme::Huffman);
}

#[test]
fn words_huffman() {
    roundtrip(TEXT_ONLY_WORDS, TokenizationScheme::Word, EncodingScheme::Huffman);
}

#[test]
fn test_bytes_roundrip() {
    let compressed =
        compress(TEXT.as_bytes(), EncodingScheme::Huffman, TokenizationScheme::Byte).unwrap();
    assert_eq!(compressed[0], 1);
    assert!(compressed.len() > 1);
    let decompressed = decompress(&compressed).unwrap();
    assert_eq!(TEXT.as_bytes(), &decompressed[..]);
}

#[test]
fn test_graphemes_roundrip() {
    let compressed = compress(
        TEXT.as_bytes(),
        EncodingScheme::Huffman,
        TokenizationScheme::Grapheme,
    )
    .unwrap();
    assert_eq!(compressed[0], 2);
    assert!(compressed.len() > 1);
    let decompressed = decompress(&compressed).unwrap();
    assert_eq!(TEXT.as_bytes(), &decompressed[..]);
}

#[test]
fn test_words_roundrip() {
    let compressed = compress(
        TEXT_ONLY_WORDS.as_bytes(),
        EncodingScheme::Huffman,
        TokenizationScheme::Word,
    )
    .unwrap();
    assert_eq!(compressed[0], 3);
    assert_eq!(compressed.len() > 1, true);
    let decompressed = decompress(&compressed).unwrap();
    assert_eq!(TEXT_ONLY_WORDS.as_bytes(), &decompressed[..]);
}

#[test]
fn compressed_layout() {
    // "aab": the tokens a (twice) and b (once). The balanced tree code
    // gives a the letter 01 and b the letter 10.
    let compressed = compress(b"aab", EncodingScheme::BalancedTree, TokenizationScheme::Byte)
        .unwrap();
    assert_eq!(
        compressed,
        vec![
            // The marker of the tokenization scheme.
            1,
            // The tokens, in the order of their letters.
            0, 0, 0, 0, 0, 0, 0, 2, b'a', b'b',
            // The alphabet.
            0, 0, 0, 0, 0, 0, 0, 2,
            0, 0, 0, 0, 0, 0, 0, 2, 0b0100_0000,
            0, 0, 0, 0, 0, 0, 0, 2, 0b1000_0000,
            // The text: 01 01 10, and two bits of padding.
            0b0101_1000,
        ]
    );
    assert_eq!(decompress(&compressed).unwrap(), b"aab".to_vec());
}

#[test]
fn compress_nothing() {
    for encoding in [
        EncodingScheme::BalancedTree,
        EncodingScheme::Fano,
        EncodingScheme::Shannon,
        EncodingScheme::Huffman,
    ] {
        let compressed = compress(b"", encoding, TokenizationScheme::Byte).unwrap();
        assert_eq!(
            compressed,
            vec![1, 0, 0, 0, 0, 0, 0, 0, 0, 0, 0, 0, 0, 0, 0, 0, 0]
        );
        assert_eq!(decompress(&compressed).unwrap(), Vec::<u8>::new());
    }
}

#[test]
fn decompress_errors() {
    assert_eq!(decompress(&[]).unwrap_err(), Error::UnexpectedEof);
    assert_eq!(decompress(&[9, 0, 0]).unwrap_err(), Error::UnknownScheme);
    assert_eq!(decompress(&[1, 0, 0]).unwrap_err(), Error::UnexpectedEof);
    // The letters of "abcd" are 001, 010, 011 and 100, and four bits of
    // padding follow them.
    let mut compressed =
        compress(b"abcd", EncodingScheme::BalancedTree, TokenizationScheme::Byte).unwrap();
    let last = compressed.len() - 1;
    assert_eq!(compressed[last - 1..], [0b0010_1001, 0b1100_0000]);
    // Bits in the padding that are no letter.
    compressed[last] = 0b1100_1010;
    assert_eq!(decompress(&compressed).unwrap_err(), Error::TrailingData);
    // A bit that is set behind zeroes in the padding.
    compressed[last] = 0b1100_0001;
    assert_eq!(decompress(&compressed).unwrap_err(), Error::TrailingData);
    // Padding of more than a byte.
    compressed[last] = 0b1100_0000;
    compressed.push(0);
    assert_eq!(decompress(&compressed).unwrap(), b"abcd".to_vec());
    // A letter cut short: the letters are 11 and 01111, the text is 11 11 0111.
    let cut_short = vec![
        1, 0, 0, 0, 0, 0, 0, 0, 2, b'a', b'b', 0, 0, 0, 0, 0, 0, 0, 2, 0, 0, 0, 0, 0, 0, 0, 2,
        0b1100_0000, 0, 0, 0, 0, 0, 0, 0, 5, 0b0111_1000, 0b1111_0111,
    ];
    assert_eq!(decompress(&cut_short).unwrap_err(), Error::IncompleteCodeword);
    assert_eq!(
        compress(&[0xff], EncodingScheme::Huffman, TokenizationScheme::Grapheme).unwrap_err(),
        Error::InvalidText
    );
}

#[test]
fn shannon_texts_of_halves() {
    // Texts whose cumulative frequencies are halves and quarters.
    for text in [&b"ab"[..], &b"aaaabbbc"[..], &b"aabc"[..], &b"abcdefgh"[..]] {
        let compressed = compress(text, EncodingScheme::Shannon, TokenizationScheme::Byte).unwrap();
        assert_eq!(decompress(&compressed).unwrap(), text.to_vec());
    }
    // The letters of "aaaabbbc" are 01, 10 and 111.
    let compressed =
        compress(b"aaaabbbc", EncodingScheme::Shannon, TokenizationScheme::Byte).unwrap();
    let text_at = compressed.len() - 3;
    assert_eq!(
        compressed[text_at..],
        [0b0101_0101, 0b1010_1011, 0b1000_0000]
    );
}
