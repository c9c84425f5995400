use cshannon::code::{pack, parse, Alphabet, Letter};
use cshannon::reader::Reader;
use cshannon::Error;

#[test]
fn text_empty() {
    let letters: Vec<&Letter> = vec![];
    let mut got = Vec::new();
    assert_eq!(pack(&letters, &mut got).unwrap(), 0);
    assert_eq!(got, Vec::<u8>::new());
}

#[test]
fn empty() {
    let a = Alphabet::new(vec![Letter::from_bytes(&[0xff])]).unwrap();
    let t: Vec<u8> = vec![];
    let r: Result<Vec<&Letter>, Error> = parse(&a, Reader::new(&t)).unwrap().collect();
    let c = r.unwrap();
    assert_eq!(c.len(), 0);
}

#[test]
fn zero_letter() {
    let letters: Vec<Letter> = vec![Letter::from_bytes(&[])];
    let letters: Vec<&Letter> = letters.iter().collect();
    let mut got = Vec::new();
    assert_eq!(pack(&letters, &mut got).unwrap(), 0);
    assert_eq!(got, Vec::<u8>::new());
}

#[test]
fn single_byte() {
    let letters = vec![Letter::from_bytes(&[0x11])];
    let letters: Vec<&Letter> = letters.iter().collect();
    let mut got = Vec::new();
    assert_eq!(pack(&letters, &mut got).unwrap(), 1);
    assert_eq!(got, [0x11].to_vec());
}

#[test]
fn single_aligned_letter() {
    let letters = vec![Letter::from_bytes(&[
        0x11, 0x22, 0x33, 0x44, 0x55, 0x66, 0x77, 0x88, 0x99, 0xaa,
    ])];
    let letters: Vec<&Letter> = letters.iter().collect();
    let mut got = Vec::new();
    let want: Vec<u8> = vec![0x11, 0x22, 0x33, 0x44, 0x55, 0x66, 0x77, 0x88, 0x99, 0xaa];
    assert_eq!(pack(&letters, &mut got).unwrap(), want.len());
    assert_eq!(got, want);
}

#[test]
fn single_unaligned_short_letter() {
    let letters = vec![Letter::new(&[0b1101_1000], 5)];
    let letters: Vec<&Letter> = letters.iter().collect();
    let mut got = Vec::new();
    let want: Vec<u8> = vec![0b1101_1000];
    assert_eq!(pack(&letters, &mut got).unwrap(), want.len());
    assert_eq!(got, want);
}

#[test]
fn single_unaligned_long_letter() {
    let letters = vec![Letter::new(&[0b11011000, 0b11100000], 13)];
    let letters: Vec<&Letter> = letters.iter().collect();
    let mut got = Vec::new();
    let want: Vec<u8> = vec![0b1101_1000, 0b1110_0000];
    assert_eq!(pack(&letters, &mut got).unwrap(), want.len());
    assert_eq!(got, want);
}

#[test]
fn multiple_aligned_letters() {
    let letters = vec![
        Letter::from_bytes(&[0x11, 0x22]),
        Letter::from_bytes(&[0x33, 0x44, 0x55]),
        Letter::from_bytes(&[0x66, 0x11]),
    ];
    let letters: Vec<&Letter> = letters.iter().collect();
    let mut got = Vec::new();
    let want: Vec<u8> = vec![0x11, 0x22, 0x33, 0x44, 0x55, 0x66, 0x11];
    assert_eq!(pack(&letters, &mut got).unwrap(), want.len());
    assert_eq!(got, want);
}

#[test]
fn multiple_unaligned_letters() {
    let letters = vec![
        Letter::new(&[0b1101_1000, 0b1000_0000], 9),
        Letter::new(&[0b1101_0000], 4),
        Letter::from_bytes(&[0b1101_1101]),
    ];
    let letters: Vec<&Letter> = letters.iter().collect();
    let mut got = Vec::new();
    let want: Vec<u8> = vec![0b1101_1000, 0b1110_1110, 0b1110_1000];
    assert_eq!(pack(&letters, &mut got).unwrap(), want.len());
    assert_eq!(got, want);
}

#[test]
fn multiple_unaligned_short_letters() {
    let letters = vec![
        Letter::new(&[0b1100_0000], 3),
        Letter::new(&[0b1101_0000], 6),
        Letter::new(&[0b1100_0000], 3),
    ];
    let letters: Vec<&Letter> = letters.iter().collect();
    let mut got = Vec::new();
    let want: Vec<u8> = vec![0b110__1101_0, 0b0__110__0000];
    assert_eq!(pack(&letters, &mut got).unwrap(), want.len());
    assert_eq!(got, want);
}

#[test]
fn pack_appends() {
    let letters = vec![Letter::new(&[0b1010_0000], 3)];
    let letters: Vec<&Letter> = letters.iter().collect();
    let mut got = vec![0x01u8, 0x02];
    assert_eq!(pack(&letters, &mut got).unwrap(), 1);
    assert_eq!(got, vec![0x01, 0x02, 0b1010_0000]);
}

#[test]
fn single_byte_disjoint() {
    let l0 = Letter::from_bytes(&[0x00]);
    let l1 = Letter::from_bytes(&[0x11]);
    let l2 = Letter::from_bytes(&[0x22]);
    let l3 = Letter::from_bytes(&[0x33]);

    // A letter of zeroes cannot be told from padding.
    let a = Alphabet::new(vec![l0.clone(), l1.clone(), l2.clone(), l3.clone()]);
    assert_eq!(a.unwrap_err(), Error::InvalidAlphabet);

    let a = Alphabet::new(vec![l1.clone(), l2.clone(), l3.clone()]).unwrap();
    let t: Vec<u8> = vec![0x22, 0x33, 0x22, 0x33, 0x00];
    let r: Result<Vec<&Letter>, Error> = parse(&a, Reader::new(&t)).unwrap().collect();
    let c = r.unwrap();
    assert_eq!(c, vec![&l2, &l3, &l2, &l3]);

    let t: Vec<u8> = vec![0x00, 0x22, 0x33, 0x22, 0x33, 0x00];
    let r: Result<Vec<&Letter>, Error> = parse(&a, Reader::new(&t)).unwrap().collect();
    assert_eq!(r.unwrap_err(), Error::TrailingData);
}

#[test]
fn single_byte_common_prefix() {
    let l0 = Letter::from_bytes(&[0b0000_0000]);
    let l1 = Letter::from_bytes(&[0b0000_0010]);
    let l2 = Letter::from_bytes(&[0b0010_1111]);
    let l3 = Letter::from_bytes(&[0b0011_0000]);

    // A letter of zeroes cannot be told from padding.
    let a = Alphabet::new(vec![l0.clone(), l1.clone(), l2.clone(), l3.clone()]);
    assert_eq!(a.unwrap_err(), Error::InvalidAlphabet);

    let a = Alphabet::new(vec![l1.clone(), l2.clone(), l3.clone()]).unwrap();
    let t: Vec<u8> = vec![
        0b0010_1111,
        0b0011_0000,
        0b0010_1111,
        0b0011_0000,
        0b0000_0000,
    ];
    let r: Result<Vec<&Letter>, Error> = parse(&a, Reader::new(&t)).unwrap().collect();
    let c = r.unwrap();
    assert_eq!(c, vec![&l2, &l3, &l2, &l3]);
}

#[test]
fn multi_byte_common_prefix() {
    let l0 = Letter::from_bytes(&[0x00, 0x11]);
    let l1 = Letter::from_bytes(&[0x00, 0x10]);
    let l2 = Letter::from_bytes(&[0x00, 0x01]);
    let l3 = Letter::from_bytes(&[0x11]);

    let a = Alphabet::new(vec![l0.clone(), l1.clone(), l2.clone(), l3.clone()]).unwrap();
    let t: Vec<u8> = vec![0x00, 0x11, 0x00, 0x01, 0x11, 0x00, 0x01, 0x11, 0x00, 0x11];
    let r: Result<Vec<&Letter>, Error> = parse(&a, Reader::new(&t)).unwrap().collect();
    let c = r.unwrap();
    assert_eq!(c, vec![&l0, &l2, &l3, &l2, &l3, &l0]);
}

#[test]
fn short_unaligned_fit() {
    let l0 = Letter::new(&[0b1000_0000], 3);
    let l1 = Letter::new(&[0b0100_0000], 2);

    let a = Alphabet::new(vec![l0.clone(), l1.clone()]).unwrap();
    let t: Vec<u8> = vec![0b100_01_100, 0b01_100_100];
    let r: Result<Vec<&Letter>, Error> = parse(&a, Reader::new(&t)).unwrap().collect();
    let c = r.unwrap();
    assert_eq!(c, vec![&l0, &l1, &l0, &l1, &l0, &l0]);
}

#[test]
fn short_unaligned_trailing_zeros() {
    let l0 = Letter::new(&[0b1000_0000], 3);
    let l1 = Letter::new(&[0b0100_0000], 2);

    let a = Alphabet::new(vec![l0.clone(), l1.clone()]).unwrap();
    let t: Vec<u8> = vec![0b100_01_100, 0b01_01_0000];
    let r: Result<Vec<&Letter>, Error> = parse(&a, Reader::new(&t)).unwrap().collect();
    let c = r.unwrap();
    assert_eq!(c, vec![&l0, &l1, &l0, &l1, &l1]);
}

#[test]
fn complex_long_unaligned_shared_trailing_zeros() {
    let l0 = Letter::new(&[0b1000_0001, 0b1100_0000], 10);
    let l1 = Letter::new(&[0b1000_0001, 0b1000_0000], 13);

    let a = Alphabet::new(vec![l0.clone(), l1.clone()]).unwrap();
    let t: Vec<u8> = vec![
        0b1000_0001,
        0b11__1000_00,
        0b01_1000_0__1,
        0b000_0001_1,
        0b000_0__1000,
        0b0001_11__00,
        0b0000_0000,
        0b0000_0000,
    ];
    let r: Result<Vec<&Letter>, Error> = parse(&a, Reader::new(&t)).unwrap().collect();
    let c = r.unwrap();
    assert_eq!(c, vec![&l0, &l1, &l1, &l0]);
}

#[test]
fn incomplete() {
    let l0 = Letter::from_bytes(&[0x11, 0x00]);

    let a = Alphabet::new(vec![l0.clone()]).unwrap();
    let t: Vec<u8> = vec![0x11];
    let r: Result<Vec<&Letter>, Error> = parse(&a, Reader::new(&t)).unwrap().collect();
    assert!(r.is_err());
    assert_eq!(r.unwrap_err(), Error::IncompleteCodeword);
}

#[test]
fn nonexistent_letter() {
    let l0 = Letter::from_bytes(&[0x11, 0x00]);

    let a = Alphabet::new(vec![l0.clone()]).unwrap();
    let t: Vec<u8> = vec![0x10, 0x00];
    let r: Result<Vec<&Letter>, Error> = parse(&a, Reader::new(&t)).unwrap().collect();
    assert!(r.is_err());
    assert_eq!(r.unwrap_err(), Error::TrailingData);
}

#[test]
fn trailing_data() {
    let l0 = Letter::from_bytes(&[0x11]);

    let a = Alphabet::new(vec![l0.clone()]).unwrap();
    let t: Vec<u8> = vec![0x11, 0x11, 0x00, 0x00, 0x00, 0x00, 0x00, 0x01];
    let r: Result<Vec<&Letter>, Error> = parse(&a, Reader::new(&t)).unwrap().collect();
    assert!(r.is_err());
    assert_eq!(r.unwrap_err(), Error::TrailingData);
}

#[test]
fn trailing_zero_bits_are_padding() {
    let l0 = Letter::new(&[0b0100_0000], 2);
    let a = Alphabet::new(vec![l0.clone()]).unwrap();
    // The letter, six bits of padding, and whole bytes of padding.
    let t: Vec<u8> = vec![0b0100_0000, 0, 0];
    let r: Result<Vec<&Letter>, Error> = parse(&a, Reader::new(&t)).unwrap().collect();
    assert_eq!(r.unwrap(), vec![&l0]);
}

#[test]
fn stray_bit_in_padding() {
    let l0 = Letter::new(&[0b0100_0000], 2);
    let a = Alphabet::new(vec![l0.clone()]).unwrap();
    // A bit that is set where the trie has no branch, with zeroes after it.
    let t: Vec<u8> = vec![0b0110_0000];
    let r: Result<Vec<&Letter>, Error> = parse(&a, Reader::new(&t)).unwrap().collect();
    assert_eq!(r.unwrap_err(), Error::TrailingData);
    // A bit that is set behind zeroes where only padding may stand.
    let t: Vec<u8> = vec![0b0100_0100];
    let r: Result<Vec<&Letter>, Error> = parse(&a, Reader::new(&t)).unwrap().collect();
    assert_eq!(r.unwrap_err(), Error::TrailingData);
    let t: Vec<u8> = vec![0b0100_0000, 0b0000_0001];
    let r: Result<Vec<&Letter>, Error> = parse(&a, Reader::new(&t)).unwrap().collect();
    assert_eq!(r.unwrap_err(), Error::TrailingData);
}

#[test]
fn parse_letter_by_letter() {
    let l0 = Letter::new(&[0b1000_0000], 3);
    let l1 = Letter::new(&[0b0100_0000], 2);
    let a = Alphabet::new(vec![l0.clone(), l1.clone()]).unwrap();
    let t: Vec<u8> = vec![0b100_01_000];
    let mut parser = parse(&a, Reader::new(&t)).unwrap();
    assert_eq!(parser.next_letter(), Some(Ok(&l0)));
    assert_eq!(parser.next_letter(), Some(Ok(&l1)));
    assert_eq!(parser.next_letter(), None);
    assert_eq!(parser.next_letter(), None);

    let t: Vec<u8> = vec![0b100_11_000];
    let mut parser = parse(&a, Reader::new(&t)).unwrap();
    assert_eq!(parser.next_letter(), Some(Ok(&l0)));
    assert_eq!(parser.next_letter(), Some(Err(Error::TrailingData)));
    assert_eq!(parser.next_letter(), None);
}

#[test]
fn parse_with_empty_alphabet() {
    let a = Alphabet::new(vec![]).unwrap();
    let t: Vec<u8> = vec![0, 0];
    let r: Result<Vec<&Letter>, Error> = parse(&a, Reader::new(&t)).unwrap().collect();
    assert_eq!(r.unwrap().len(), 0);
    let t: Vec<u8> = vec![0, 4];
    let r: Result<Vec<&Letter>, Error> = parse(&a, Reader::new(&t)).unwrap().collect();
    assert_eq!(r.unwrap_err(), Error::TrailingData);
}

#[test]
fn text_test_roundtrip() {
    let l0 = Letter::new(&[0b1101_1000, 0b1000_0000], 9);
    let l1 = Letter::new(&[0b1100_0000], 4);
    let l2 = Letter::from_bytes(&[0b0101_1101]);

    let alphabet = Alphabet::new(vec![l0.clone(), l1.clone(), l2.clone()]).unwrap();
    let text = vec![
        l1.clone(),
        l2.clone(),
        l0.clone(),
        l2.clone(),
        l1.clone(),
        l0.clone(),
        l1.clone(),
    ];
    let text: Vec<&Letter> = text.iter().collect();

    let mut packed = Vec::new();
    assert!(pack(&text, &mut packed).is_ok());
    let want_packed: Vec<u8> = vec![
        // l1__l2
        0b1100__0101,
        // l2__l0
        0b1101__1101,
        // l0__l2
        0b1000_1__010,
        // l2__l1
        0b1_1101__110,
        // l1__l0
        0b0__1101_100,
        // l0_l1_00
        0b0_1__1100_00,
    ];
    assert_eq!(packed, want_packed);
    let r: Result<Vec<&Letter>, Error> = parse(&alphabet, Reader::new(&packed))
        .unwrap()
        .collect();
    let c = r.unwrap();
    assert_eq!(c, vec![&l1, &l2, &l0, &l2, &l1, &l0, &l1]);
}
