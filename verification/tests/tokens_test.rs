use cshannon::reader::Reader;
use cshannon::tokens::bytes::{Byte, ByteIter, BytePacker};
use cshannon::tokens::graphemes::{Grapheme, GraphemeIter, GraphemePacker};
use cshannon::tokens::test_utils::{I32Token, I32TokenPacker, I32Tokenizer};
use cshannon::tokens::words::{Word, WordIter, WordPacker};
use cshannon::tokens::{pack_all, unpack_all, Token, TokenPacker, Tokenizer};
use cshannon::Error;

const TEXT: &str = "
Ah! well a-day! what evil looks
Had I from old and young!
Instead of the cross, the Albatross
About my neck was hung.
";

#[test]
fn tokens_empty() {
    let tokens = Vec::<Byte>::new();
    let mut buf = Vec::<u8>::new();
    assert!(pack_all::<_, BytePacker>(tokens.clone(), &mut buf).is_ok());
    let got = unpack_all::<_, ByteIter>(&mut Reader::new(&buf)).unwrap();
    assert_eq!(got, tokens);
}

#[test]
fn tokens_non_empty() {
    let tokens = vec![
        Byte::from(0),
        Byte::from(1),
        Byte::from(2),
        Byte::from(3),
        Byte::from(0),
        Byte::from(4),
        Byte::from(5),
        Byte::from(0),
        Byte::from(1),
        Byte::from(0),
    ];
    let mut buf = Vec::<u8>::new();
    assert!(pack_all::<_, BytePacker>(tokens.clone(), &mut buf).is_ok());
    let got = unpack_all::<_, ByteIter>(&mut Reader::new(&buf)).unwrap();
    assert_eq!(got, tokens);
}

#[test]
fn trailing_byte_data() {
    let tokens = vec![Byte::from(0), Byte::from(1), Byte::from(2)];
    let mut buf = Vec::<u8>::new();
    assert!(pack_all::<_, BytePacker>(tokens.clone(), &mut buf).is_ok());

    // The following trailing data should be ignored.
    buf.push(0b1111_1111);

    let mut r = Reader::new(&buf);
    let got = unpack_all::<_, ByteIter>(&mut r).unwrap();
    assert_eq!(got, tokens);

    // The buffer should not be read beyond the trailing data.
    let rest = r.rest().to_vec();
    assert_eq!(rest.len(), 1);
    assert_eq!(rest, vec![0b1111_1111u8]);
}

#[test]
fn trailing_grapheme_data() {
    let tokens = vec![
        Grapheme::from("a".to_owned()),
        Grapheme::from("b".to_owned()),
    ];
    let mut buf = Vec::<u8>::new();
    assert!(pack_all::<_, GraphemePacker>(tokens.clone(), &mut buf).is_ok());

    // The following trailing data should be ignored.
    buf.push(0b1111_1111);

    let mut r = Reader::new(&buf);
    let got = unpack_all::<_, GraphemeIter>(&mut r).unwrap();
    assert_eq!(got, tokens);

    // The buffer should not be read beyond the trailing data.
    let rest = r.rest().to_vec();
    assert_eq!(rest.len(), 1);
    assert_eq!(rest, vec![0b1111_1111u8]);
}

#[test]
fn bytes_roundtrip() {
    let d = ByteIter::tokenize(Reader::new(TEXT.as_bytes())).unwrap();
    let mut wc: Vec<u8> = vec![];
    BytePacker::pack(&d, &mut wc).unwrap();
    let got = std::str::from_utf8(&wc[..]).unwrap();
    assert_eq!(got, TEXT);
}

#[test]
fn graphemes_roundtrip() {
    let d = GraphemeIter::tokenize(Reader::new(TEXT.as_bytes())).unwrap();
    let mut wc: Vec<u8> = vec![];
    GraphemePacker::pack(&d, &mut wc).unwrap();
    let got = std::str::from_utf8(&wc[..]).unwrap();
    assert_eq!(got, TEXT);
}

#[test]
fn words_roundtrip() {
    let d = WordIter::tokenize(Reader::new(TEXT.as_bytes())).unwrap();
    let mut wc: Vec<u8> = vec![];
    WordPacker::pack(&d, &mut wc).unwrap();
    let got = std::str::from_utf8(&wc[..]).unwrap();
    assert_eq!(got, TEXT);
}

#[test]
fn packed_tokens_layout() {
    let tokens = vec![Byte::from(7), Byte::from(9)];
    let mut buf = vec![0xaau8];
    assert!(pack_all::<_, BytePacker>(tokens, &mut buf).is_ok());
    assert_eq!(buf, vec![0xaa, 0, 0, 0, 0, 0, 0, 0, 2, 7, 9]);
    let mut short = buf[1..10].to_vec();
    assert_eq!(
        unpack_all::<Byte, ByteIter>(&mut Reader::new(&short)).unwrap_err(),
        Error::UnexpectedEof
    );
    short.truncate(5);
    assert_eq!(
        unpack_all::<Byte, ByteIter>(&mut Reader::new(&short)).unwrap_err(),
        Error::UnexpectedEof
    );
}

#[test]
fn graphemes_are_clusters() {
    let text = "a\u{310}e\u{301}o\u{308}\u{332}\r\nb";
    let d = GraphemeIter::tokenize(Reader::new(text.as_bytes())).unwrap();
    assert_eq!(
        d,
        vec![
            Grapheme::from("a\u{310}".to_owned()),
            Grapheme::from("e\u{301}".to_owned()),
            Grapheme::from("o\u{308}\u{332}".to_owned()),
            Grapheme::from("\r\n".to_owned()),
            Grapheme::from("b".to_owned()),
        ]
    );
    assert_eq!(d[0].bit_count(), 24);
    assert_eq!(d[4].bit_count(), 8);
    let w = WordIter::tokenize(Reader::new("ab".as_bytes())).unwrap();
    assert_eq!(w, vec![Word::from("a".to_owned()), Word::from("b".to_owned())]);
    assert_eq!(w[0].clone().into(), "a".to_owned());
}

#[test]
fn text_that_is_not_utf8() {
    let text = [b'a', 0xff, b'b'];
    assert_eq!(
        GraphemeIter::tokenize(Reader::new(&text)).unwrap_err(),
        Error::InvalidText
    );
    assert_eq!(
        WordIter::tokenize(Reader::new(&text)).unwrap_err(),
        Error::InvalidText
    );
    let bytes = ByteIter::tokenize(Reader::new(&text)).unwrap();
    assert_eq!(bytes, vec![Byte::from(b'a'), Byte::from(0xff), Byte::from(b'b')]);
    assert_eq!(bytes[0].bit_count(), 8);
}

#[test]
fn i32_tokens() {
    assert_eq!(I32Token(3).bit_count(), 4);
    assert_eq!(
        I32Tokenizer::tokenize(Reader::new(&[1, 2, 3])).unwrap_err(),
        Error::InvalidText
    );
    let mut w = vec![1u8];
    assert!(I32TokenPacker::pack(&vec![I32Token(3)], &mut w).is_ok());
    assert_eq!(w, vec![1u8]);
}
