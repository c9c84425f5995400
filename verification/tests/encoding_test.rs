use cshannon::code::Letter;
use cshannon::encoding::{from_pairs, Encoding};
use cshannon::reader::Reader;
use cshannon::tokens::bytes::{Byte, ByteIter, BytePacker};
use cshannon::tokens::graphemes::{Grapheme, GraphemeIter, GraphemePacker};
use cshannon::Error;

#[test]
fn encoding_empty() {
    let encoding: Encoding<Byte> = Encoding::new(Vec::new()).unwrap();
    let mut buf = Vec::<u8>::new();
    assert!(encoding.pack::<BytePacker>(&mut buf).is_ok());
    let got: Encoding<Byte> = Encoding::unpack::<ByteIter>(&mut Reader::new(&buf)).unwrap();
    assert_eq!(got.map(), encoding.map());
    assert!(got.map().is_empty());
}

#[test]
fn encoding_non_empty() {
    let map = vec![
        (Byte::from(0), Letter::from_bytes(&vec![0u8, 1u8])),
        (Byte::from(1), Letter::from_bytes(&vec![0u8, 0u8, 1u8])),
        (Byte::from(2), Letter::from_bytes(&vec![0u8, 0u8, 0u8, 1u8])),
        (
            Byte::from(3),
            Letter::from_bytes(&vec![0u8, 0u8, 0u8, 0u8, 1u8]),
        ),
        (Byte::from(0), Letter::from_bytes(&vec![1u8, 1u8])),
        (Byte::from(4), Letter::from_bytes(&vec![1u8, 0u8, 1u8])),
        (Byte::from(5), Letter::from_bytes(&vec![1u8, 0u8, 0u8, 1u8])),
    ];
    let encoding: Encoding<Byte> = Encoding::new(map).unwrap();
    // The last letter given for a token counts.
    assert_eq!(encoding.map().len(), 6);
    assert!(encoding
        .map()
        .contains(&(Byte::from(0), Letter::from_bytes(&vec![1u8, 1u8]))));

    let mut buf = Vec::<u8>::new();
    assert!(encoding.pack::<BytePacker>(&mut buf).is_ok());
    let got: Encoding<Byte> = Encoding::unpack::<ByteIter>(&mut Reader::new(&buf)).unwrap();
    assert_eq!(got.map(), encoding.map());
}

#[test]
fn trailing_data_byte() {
    let map = vec![
        (Byte::from(0), Letter::from_bytes(&vec![0u8, 1u8])),
        (Byte::from(1), Letter::from_bytes(&vec![0u8, 0u8, 1u8])),
        (Byte::from(2), Letter::from_bytes(&vec![0u8, 0u8, 0u8, 1u8])),
    ];
    let encoding: Encoding<Byte> = Encoding::new(map).unwrap();

    let mut buf = Vec::<u8>::new();
    assert!(encoding.pack::<BytePacker>(&mut buf).is_ok());

    // The following trailing data should be ignored.
    buf.push(0b1111_1111);

    let mut r = Reader::new(&buf);
    let got: Encoding<Byte> = Encoding::unpack::<ByteIter>(&mut r).unwrap();
    assert_eq!(got.map(), encoding.map());

    // The buffer should not be read beyond the trailing data.
    let rest = r.rest().to_vec();
    assert_eq!(rest.len(), 1);
    assert_eq!(rest, vec![0b1111_1111u8]);
}

#[test]
fn trailing_data_grapheme() {
    let map = vec![
        (
            Grapheme::from("a".to_owned()),
            Letter::from_bytes(&vec![0u8, 1u8]),
        ),
        (
            Grapheme::from("b".to_owned()),
            Letter::from_bytes(&vec![0u8, 0u8, 1u8]),
        ),
    ];
    let encoding: Encoding<Grapheme> = Encoding::new(map).unwrap();

    let mut buf = Vec::<u8>::new();
    assert!(encoding.pack::<GraphemePacker>(&mut buf).is_ok());

    // The following trailing data should be ignored.
    buf.push(0b1111_1111);

    let mut r = Reader::new(&buf);
    let got: Encoding<Grapheme> = Encoding::unpack::<GraphemeIter>(&mut r).unwrap();
    assert_eq!(got.map(), encoding.map());

    // The buffer should not be read beyond the trailing data.
    let rest = r.rest().to_vec();
    assert_eq!(rest.len(), 1);
    assert_eq!(rest, vec![0b1111_1111u8]);
}

#[test]
fn encoding_sorts_by_letter() {
    let a = Letter::new(&[0b1000_0000], 2);
    let b = Letter::new(&[0b0100_0000], 2);
    let c = Letter::new(&[0b1100_0000], 3);
    let d = Letter::new(&[0b1100_0000], 2);
    let encoding = from_pairs(&[
        (Byte::from(7), a.clone()),
        (Byte::from(8), c.clone()),
        (Byte::from(5), b.clone()),
    ])
    .unwrap();
    assert_eq!(
        encoding.map(),
        &vec![(Byte::from(5), b.clone()), (Byte::from(7), a.clone()), (Byte::from(8), c.clone())]
    );
    assert_eq!(encoding.alphabet().letters(), &vec![b.clone(), a.clone(), c.clone()]);
    assert_eq!(
        encoding.tokens(),
        vec![Byte::from(5), Byte::from(7), Byte::from(8)]
    );
    assert_eq!(
        encoding.reverse_map(),
        vec![(&b, &Byte::from(5)), (&a, &Byte::from(7)), (&c, &Byte::from(8))]
    );
    // The order of the letters is that of their bytes, then of their lengths.
    let mut letters = vec![c.clone(), a.clone(), d.clone(), b.clone()];
    letters.sort();
    assert_eq!(letters, vec![b.clone(), a.clone(), d.clone(), c.clone()]);
    assert!(d.precedes(&c) && !c.precedes(&d));
    assert!(b.precedes(&a) && !a.precedes(&b) && !a.precedes(&a));
}

#[test]
fn encoding_refuses_invalid_code() {
    let short = Letter::new(&[0b1000_0000], 1);
    let long = Letter::new(&[0b1100_0000], 2);
    let got = from_pairs(&[(Byte::from(1), short), (Byte::from(2), long.clone())]);
    assert_eq!(got.unwrap_err(), Error::InvalidAlphabet);
    let got = from_pairs(&[(Byte::from(1), long.clone()), (Byte::from(2), long)]);
    assert_eq!(got.unwrap_err(), Error::InvalidAlphabet);
    let got = from_pairs(&[(Byte::from(1), Letter::new(&[0], 4))]);
    assert_eq!(got.unwrap_err(), Error::InvalidAlphabet);
}

#[test]
fn packed_encoding_layout() {
    let encoding = from_pairs(&[
        (Byte::from(b'x'), Letter::new(&[0b1000_0000], 1)),
        (Byte::from(b'y'), Letter::new(&[0b0100_0000], 2)),
    ])
    .unwrap();
    let mut buf = Vec::<u8>::new();
    assert!(encoding.pack::<BytePacker>(&mut buf).is_ok());
    assert_eq!(
        buf,
        vec![
            0, 0, 0, 0, 0, 0, 0, 2, b'y', b'x', 0, 0, 0, 0, 0, 0, 0, 2, 0, 0, 0, 0, 0, 0, 0, 2,
            0b0100_0000, 0, 0, 0, 0, 0, 0, 0, 1, 0b1000_0000
        ]
    );
}

#[test]
fn unpack_count_mismatch() {
    // Three tokens and two letters.
    let buf = vec![
        0, 0, 0, 0, 0, 0, 0, 3, b'x', b'y', b'z', 0, 0, 0, 0, 0, 0, 0, 2, 0, 0, 0, 0, 0, 0, 0, 2,
        0b0100_0000, 0, 0, 0, 0, 0, 0, 0, 1, 0b1000_0000,
    ];
    let got: Result<Encoding<Byte>, Error> = Encoding::unpack::<ByteIter>(&mut Reader::new(&buf));
    assert_eq!(got.unwrap_err(), Error::TokenLetterCountMismatch);
    // Two tokens that are the same.
    let buf = vec![
        0, 0, 0, 0, 0, 0, 0, 2, b'x', b'x', 0, 0, 0, 0, 0, 0, 0, 2, 0, 0, 0, 0, 0, 0, 0, 2,
        0b0100_0000, 0, 0, 0, 0, 0, 0, 0, 1, 0b1000_0000,
    ];
    let got: Result<Encoding<Byte>, Error> = Encoding::unpack::<ByteIter>(&mut Reader::new(&buf));
    assert_eq!(got.unwrap_err(), Error::TokenLetterCountMismatch);
}

#[test]
fn unpack_encoding_cut_short() {
    let encoding = from_pairs(&[
        (Byte::from(b'x'), Letter::new(&[0b1000_0000], 1)),
        (Byte::from(b'y'), Letter::new(&[0b0100_0000], 2)),
    ])
    .unwrap();
    let mut buf = Vec::<u8>::new();
    assert!(encoding.pack::<BytePacker>(&mut buf).is_ok());
    for n in 0..buf.len() {
        let got: Result<Encoding<Byte>, Error> =
            Encoding::unpack::<ByteIter>(&mut Reader::new(&buf[..n]));
        assert_eq!(got.unwrap_err(), Error::UnexpectedEof);
    }
}

#[test]
fn unpack_encoding_invalid_text() {
    let buf = vec![0, 0, 0, 0, 0, 0, 0, 1, 0xff, 0, 0, 0, 0, 0, 0, 0, 0];
    let got: Result<Encoding<Grapheme>, Error> =
        Encoding::unpack::<GraphemeIter>(&mut Reader::new(&buf));
    assert_eq!(got.unwrap_err(), Error::InvalidText);
}
