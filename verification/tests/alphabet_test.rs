use cshannon::code::{Alphabet, Letter, Node};
use cshannon::reader::Reader;
use cshannon::Error;

#[test]
fn roundtrip_trivial() {
    let a = Alphabet::new(vec![]).unwrap();
    let mut packed = Vec::<u8>::new();
    assert!(a.pack(&mut packed).is_ok());
    let got = Alphabet::unpack(&mut Reader::new(&packed)).unwrap();
    assert_eq!(got.letters().len(), 0);
}

#[test]
fn roundtrip_single_letter() {
    let v = vec![Letter::from_bytes(&[0b10000001])];
    let a = Alphabet::new(v.clone()).unwrap();
    let mut packed = Vec::<u8>::new();
    assert!(a.pack(&mut packed).is_ok());
    let got = Alphabet::unpack(&mut Reader::new(&packed)).unwrap();
    assert_eq!(got.letters(), &v);
}

#[test]
fn roundtrip_byte_letters() {
    let v = vec![
        Letter::from_bytes(&[0b10000001]),
        Letter::from_bytes(&[0b10000000]),
        Letter::from_bytes(&[0b00000111]),
    ];
    let a = Alphabet::new(v.clone()).unwrap();
    let mut packed = Vec::<u8>::new();
    assert!(a.pack(&mut packed).is_ok());
    let got = Alphabet::unpack(&mut Reader::new(&packed)).unwrap();
    assert_eq!(got.letters(), &v);
}

#[test]
fn roundtrip_large_letters() {
    let v = vec![
        Letter::from_bytes(&[0x11, 0x22, 0x33, 0x44, 0x55, 0x66, 0x77, 0x88, 0x99]),
        Letter::from_bytes(&[0xa1, 0xa2, 0xa3, 0xa4, 0xa5, 0xa6, 0xa7, 0xa8, 0xa9]),
    ];
    let a = Alphabet::new(v.clone()).unwrap();
    let mut packed = Vec::<u8>::new();
    assert!(a.pack(&mut packed).is_ok());
    let got = Alphabet::unpack(&mut Reader::new(&packed)).unwrap();
    assert_eq!(got.letters(), &v);
}

#[test]
fn roundtrip_many_letters() {
    let v = vec![
        Letter::from_bytes(&[0x11]),
        Letter::from_bytes(&[0x12]),
        Letter::from_bytes(&[0x13]),
        Letter::from_bytes(&[0x14]),
        Letter::from_bytes(&[0x15]),
        Letter::from_bytes(&[0x16]),
        Letter::from_bytes(&[0x17]),
        Letter::from_bytes(&[0x18]),
        Letter::from_bytes(&[0x19]),
    ];
    let a = Alphabet::new(v.clone()).unwrap();
    let mut packed = Vec::<u8>::new();
    assert!(a.pack(&mut packed).is_ok());
    let got = Alphabet::unpack(&mut Reader::new(&packed)).unwrap();
    assert_eq!(got.letters(), &v);
}

#[test]
fn roundtrip_different_lengths() {
    let v = vec![
        Letter::from_bytes(&[0x01]),
        Letter::from_bytes(&[0xa1, 0xa2]),
        Letter::from_bytes(&[0xb1, 0xb2, 0xb3]),
        Letter::from_bytes(&[0xc1, 0xc2]),
        Letter::from_bytes(&[0xd1]),
    ];
    let a = Alphabet::new(v.clone()).unwrap();
    let mut packed = Vec::<u8>::new();
    assert!(a.pack(&mut packed).is_ok());
    let got = Alphabet::unpack(&mut Reader::new(&packed)).unwrap();
    assert_eq!(got.letters(), &v);
}

#[test]
fn roundtrip_unaligned_lengths() {
    let v = vec![
        Letter::new(&[0b1110_0000], 3),
        Letter::new(&[0b1000_0000, 0x11], 11),
    ];
    let a = Alphabet::new(v.clone()).unwrap();
    let mut packed = Vec::<u8>::new();
    assert!(a.pack(&mut packed).is_ok());
    let got = Alphabet::unpack(&mut Reader::new(&packed)).unwrap();
    assert_eq!(got.letters(), &v);
}

#[test]
fn roundtrip_single_unaligned_letter() {
    let v = vec![Letter::new(&[0b111], 3)];
    assert_eq!(v[0].data(), &vec![0u8]);
    let v = vec![Letter::new(&[0b1110_0000], 3)];
    let a = Alphabet::new(v.clone()).unwrap();
    let mut packed = Vec::<u8>::new();
    assert!(a.pack(&mut packed).is_ok());
    assert_eq!(
        packed,
        vec![0, 0, 0, 0, 0, 0, 0, 1, 0, 0, 0, 0, 0, 0, 0, 3, 0b1110_0000]
    );
    let got = Alphabet::unpack(&mut Reader::new(&packed)).unwrap();
    assert_eq!(got.letters(), &v);
}

#[test]
fn packed_alphabet_layout() {
    let v = vec![
        Letter::new(&[0b1010_0000], 3),
        Letter::from_bytes(&[0x01, 0x02]),
    ];
    let a = Alphabet::new(v).unwrap();
    let mut packed = vec![0xeeu8];
    assert!(a.pack(&mut packed).is_ok());
    assert_eq!(
        packed,
        vec![
            0xee, 0, 0, 0, 0, 0, 0, 0, 2, 0, 0, 0, 0, 0, 0, 0, 3, 0b1010_0000, 0, 0, 0, 0, 0, 0,
            0, 16, 0x01, 0x02
        ]
    );
}

#[test]
fn unpack_reads_no_byte_too_many() {
    let v = vec![Letter::from_bytes(&[0x81])];
    let a = Alphabet::new(v.clone()).unwrap();
    let mut packed = Vec::<u8>::new();
    assert!(a.pack(&mut packed).is_ok());
    packed.push(0xab);
    let mut r = Reader::new(&packed);
    let got = Alphabet::unpack(&mut r).unwrap();
    assert_eq!(got.letters(), &v);
    assert_eq!(r.rest(), &[0xab]);
}

#[test]
fn unpack_cut_short() {
    let a = Alphabet::new(vec![Letter::from_bytes(&[0x81, 0x82])]).unwrap();
    let mut packed = Vec::<u8>::new();
    assert!(a.pack(&mut packed).is_ok());
    for n in 0..packed.len() {
        let got = Alphabet::unpack(&mut Reader::new(&packed[..n]));
        assert_eq!(got.unwrap_err(), Error::UnexpectedEof);
    }
}

#[test]
fn unpack_invalid_alphabet() {
    // Two letters, the first of which starts the second.
    let packed = vec![
        0, 0, 0, 0, 0, 0, 0, 2, 0, 0, 0, 0, 0, 0, 0, 2, 0b1000_0000, 0, 0, 0, 0, 0, 0, 0, 3,
        0b1010_0000,
    ];
    let got = Alphabet::unpack(&mut Reader::new(&packed));
    assert_eq!(got.unwrap_err(), Error::InvalidAlphabet);
}

#[test]
fn unpack_clears_bits_past_the_letter() {
    let packed = vec![0, 0, 0, 0, 0, 0, 0, 1, 0, 0, 0, 0, 0, 0, 0, 3, 0b1011_1111];
    let got = Alphabet::unpack(&mut Reader::new(&packed)).unwrap();
    assert_eq!(got.letters(), &vec![Letter::new(&[0b1010_0000], 3)]);
}

#[test]
fn invalid_alphabets() {
    let zero = Letter::new(&[0], 5);
    assert_eq!(
        Alphabet::new(vec![zero]).unwrap_err(),
        Error::InvalidAlphabet
    );
    assert_eq!(
        Alphabet::new(vec![Letter::empty()]).unwrap_err(),
        Error::InvalidAlphabet
    );
    let short = Letter::new(&[0b1000_0000], 1);
    let long = Letter::new(&[0b1100_0000], 2);
    assert_eq!(
        Alphabet::new(vec![short.clone(), long.clone()]).unwrap_err(),
        Error::InvalidAlphabet
    );
    assert_eq!(
        Alphabet::new(vec![long.clone(), short.clone()]).unwrap_err(),
        Error::InvalidAlphabet
    );
    assert_eq!(
        Alphabet::new(vec![long.clone(), long.clone()]).unwrap_err(),
        Error::InvalidAlphabet
    );
    let other = Letter::new(&[0b0100_0000], 2);
    let a = Alphabet::new(vec![long, other]).unwrap();
    assert_eq!(a.len(), 2);
    assert!(!a.is_empty());
}

#[test]
fn alphabet_empty() {
    let a = Alphabet::new(vec![]).unwrap();
    assert_eq!(
        a.tree().unwrap(),
        Node::Internal {
            zero: None,
            one: None
        }
    );
}

#[test]
fn leaf1() {
    let l = Letter::new(&[0b1000_0000], 1);
    let a = Alphabet::new(vec![l.clone()]).unwrap();
    assert_eq!(a.tree().unwrap(), Node::new1(Node::newl(&l)));
}

#[test]
fn leaf0() {
    let l = Letter::new(&[0b1000_0000], 2);
    let a = Alphabet::new(vec![l.clone()]).unwrap();
    assert_eq!(a.tree().unwrap(), Node::new1(Node::new0(Node::newl(&l))),);
}

#[test]
fn multi_byte_letter() {
    let l = Letter::new(&[0b1000_0000, 0b1100_0000], 10);
    let a = Alphabet::new(vec![l.clone()]).unwrap();
    assert_eq!(
        a.tree().unwrap(),
        Node::new1(Node::new0(Node::new0(Node::new0(Node::new0(Node::new0(
            Node::new0(Node::new0(Node::new1(Node::new1(Node::newl(&l)))))
        )))))),
    );
}

#[test]
fn unshared_letters() {
    let l0 = Letter::new(&[0b0100_0000], 2);
    let l1 = Letter::new(&[0b1000_0000], 1);
    let a = Alphabet::new(vec![l0.clone(), l1.clone()]).unwrap();
    assert_eq!(
        a.tree().unwrap(),
        Node::new(Node::new1(Node::newl(&l0)), Node::newl(&l1)),
    )
}

#[test]
fn shared_letters() {
    let l0 = Letter::new(&[0b0100_0000], 3);
    let l1 = Letter::new(&[0b0110_0000], 4);
    let a = Alphabet::new(vec![l0.clone(), l1.clone()]).unwrap();
    assert_eq!(
        a.tree().unwrap(),
        Node::new0(Node::new1(Node::new(
            Node::newl(&l0),
            Node::new0(Node::newl(&l1)),
        ))),
    );
}

#[test]
fn multi_byte_shared() {
    let l0 = Letter::new(&[0b1000_0000, 0b1100_0000], 10);
    let l1 = Letter::new(&[0b1000_0000, 0b0000_0000], 10);
    let l2 = Letter::new(&[0b1010_0000], 3);
    let l3 = Letter::new(&[0b0010_0000], 3);
    let a = Alphabet::new(vec![l0.clone(), l1.clone(), l2.clone(), l3.clone()]).unwrap();
    assert_eq!(
        a.tree().unwrap(),
        Node::new(
            Node::new0(Node::new1(Node::newl(&l3))),
            Node::new0(Node::new(
                Node::new0(Node::new0(Node::new0(Node::new0(Node::new0(Node::new(
                    Node::new0(Node::newl(&l1)),
                    Node::new1(Node::newl(&l0)),
                )))))),
                Node::newl(&l2),
            )),
        ),
    );
}

#[test]
fn trie_of_clashing_letters() {
    let short = Letter::new(&[0b1000_0000], 1);
    let long = Letter::new(&[0b1100_0000], 2);
    let other = Letter::new(&[0b0000_0000], 2);
    let letters = vec![short.clone(), long.clone()];
    assert_eq!(Alphabet::build(&letters), Err(Error::DuplicatePrefix));
    let letters = vec![long.clone(), short.clone()];
    assert_eq!(Alphabet::build(&letters), Err(Error::DuplicatePrefix));
    let letters = vec![long.clone(), long.clone()];
    assert_eq!(Alphabet::build(&letters), Err(Error::DuplicatePrefix));
    let letters = vec![Letter::empty()];
    assert_eq!(Alphabet::build(&letters), Err(Error::DuplicatePrefix));
    // A trie can hold a letter of zeroes, though no alphabet can.
    let letters = vec![long.clone(), other.clone()];
    assert_eq!(
        Alphabet::build(&letters),
        Ok(Node::new(
            Node::new0(Node::newl(&other)),
            Node::new1(Node::newl(&long))
        ))
    );
}
