use cshannon::code::Letter;
use cshannon::coder::{decode, encode};
use cshannon::encoding::from_pairs;
use cshannon::tokenization_scheme::{pack_tokenization_scheme, unpack_tokenization_scheme};
use cshannon::reader::Reader;
use cshannon::tokens::bytes::Byte;
use cshannon::{Error, TokenizationScheme};

#[test]
fn encode_and_decode() {
    let x = Letter::new(&[0b1000_0000], 1);
    let y = Letter::new(&[0b0100_0000], 2);
    let encoding = from_pairs(&[(Byte::from(b'x'), x.clone()), (Byte::from(b'y'), y.clone())])
        .unwrap();
    let text = vec![Byte::from(b'y'), Byte::from(b'x'), Byte::from(b'y')];
    let letters = encode(encoding.map(), &text).unwrap();
    assert_eq!(letters, vec![&y, &x, &y]);
    let back = decode(&encoding.reverse_map(), &letters).unwrap();
    assert_eq!(back, text);

    let unknown = vec![Byte::from(b'y'), Byte::from(b'z')];
    assert_eq!(
        encode(encoding.map(), &unknown).unwrap_err(),
        Error::UnknownToken
    );
    let z = Letter::new(&[0b0010_0000], 3);
    assert_eq!(
        decode(&encoding.reverse_map(), &vec![&x, &z]).unwrap_err(),
        Error::UnknownLetter
    );
}

#[test]
fn tokenization_scheme_markers() {
    for (scheme, marker) in [
        (TokenizationScheme::Byte, 1u8),
        (TokenizationScheme::Grapheme, 2u8),
        (TokenizationScheme::Word, 3u8),
    ] {
        let mut w = vec![0x55u8];
        assert!(pack_tokenization_scheme(scheme, &mut w).is_ok());
        assert_eq!(w, vec![0x55, marker]);
        let mut r = Reader::new(&w[1..]);
        assert_eq!(unpack_tokenization_scheme(&mut r).unwrap(), scheme);
        assert_eq!(r.position(), 1);
    }
    assert_eq!(
        unpack_tokenization_scheme(&mut Reader::new(&[0])).unwrap_err(),
        Error::UnknownScheme
    );
    assert_eq!(
        unpack_tokenization_scheme(&mut Reader::new(&[4])).unwrap_err(),
        Error::UnknownScheme
    );
    assert_eq!(
        unpack_tokenization_scheme(&mut Reader::new(&[])).unwrap_err(),
        Error::UnexpectedEof
    );
}
