use cshannon::code::{pack, parse, Alphabet, Letter};
use cshannon::encoding::{new_encoder, Encoding};
use cshannon::model;
use cshannon::reader::Reader;
use cshannon::tokens::test_utils::I32Token;
use cshannon::{EncodingScheme, Error};

fn bits(l: &Letter) -> Vec<bool> {
    (0..l.bit_count() as usize).map(|i| l.at(i).unwrap()).collect()
}

fn sample_encodings() -> Vec<Encoding<I32Token>> {
    let samples: Vec<Vec<(I32Token, u64)>> = vec![
        vec![(I32Token(1), 7)],
        vec![(I32Token(1), 4), (I32Token(2), 3)],
        vec![(I32Token(1), 8), (I32Token(2), 4), (I32Token(3), 2), (I32Token(4), 1)],
        vec![
            (I32Token(1), 31),
            (I32Token(2), 29),
            (I32Token(3), 25),
            (I32Token(4), 15),
            (I32Token(5), 3),
            (I32Token(6), 1),
        ],
        (1..40).map(|i| (I32Token(i), (41 - i) as u64 * 3 + 1)).collect(),
    ];
    let mut encodings = Vec::new();
    for sample in samples {
        for scheme in [
            EncodingScheme::BalancedTree,
            EncodingScheme::Fano,
            EncodingScheme::Shannon,
            EncodingScheme::Huffman,
        ] {
            let encoding = new_encoder(&scheme, model::with_frequencies(&sample)).unwrap();
            assert_eq!(encoding.map().len(), sample.len());
            encodings.push(encoding);
        }
    }
    encodings
}

#[test]
fn every_letter_has_a_one() {
    for encoding in sample_encodings() {
        for l in encoding.alphabet().letters() {
            assert!(bits(l).contains(&true));
        }
    }
}

#[test]
fn no_letter_starts_another() {
    for encoding in sample_encodings() {
        let letters = encoding.alphabet().letters();
        for (i, a) in letters.iter().enumerate() {
            for (j, b) in letters.iter().enumerate() {
                if i != j {
                    assert!(!bits(b).starts_with(&bits(a)));
                }
            }
        }
    }
}

#[test]
fn letters_stand_in_their_order() {
    for encoding in sample_encodings() {
        let letters = encoding.alphabet().letters();
        let mut sorted = letters.clone();
        sorted.sort();
        assert_eq!(letters, &sorted);
        for (i, (_, l)) in encoding.map().iter().enumerate() {
            assert_eq!(l, &letters[i]);
        }
    }
}

#[test]
fn packed_letters_parse_back() {
    for encoding in sample_encodings() {
        let letters = encoding.alphabet().letters();
        let n = letters.len();
        let text: Vec<&Letter> = (0..3 * n + 5).map(|k| &letters[(k * k + 3 * k) % n]).collect();
        let mut packed = Vec::new();
        let written = pack(&text, &mut packed).unwrap();
        let total: u64 = text.iter().map(|l| l.bit_count()).sum();
        assert_eq!(written as u64, (total + 7) / 8);
        assert_eq!(packed.len(), written);
        let back = parse(encoding.alphabet(), Reader::new(&packed))
            .unwrap()
            .collect()
            .unwrap();
        assert_eq!(back, text);
    }
}

#[test]
fn letter_to_string() {
    assert_eq!(Letter::new(&[0b0110_1000], 6).to_string(), "011010");
    assert_eq!(Letter::empty().to_string(), "");
    assert_eq!(
        Letter::from_bytes(&[0x0f, 0x81]).to_string(),
        "0000111110000001"
    );
}

#[test]
fn letter_copies_and_equality() {
    let a = Letter::new(&[0b1011_1111], 4);
    let b = Letter::new(&[0b1011_0000], 4);
    let c = Letter::new(&[0b1011_0000], 5);
    assert!(a.same(&b));
    assert!(!a.same(&c));
    assert_eq!(a.duplicate(), b);
    assert_eq!(a.bit(2), true);
    assert_eq!(a.bit(1), false);
    assert_eq!(a.validate(), Ok(()));
    assert_eq!(
        Letter::new(&[0], 3).validate(),
        Err(Error::InvalidAlphabet)
    );
    let mut w = Vec::new();
    a.write(&mut w);
    assert_eq!(w, vec![0, 0, 0, 0, 0, 0, 0, 4, 0b1011_0000]);
    let mut r = Reader::new(&w);
    assert_eq!(Letter::unpack(&mut r).unwrap(), a);
    assert_eq!(r.position(), 9);
    assert!(a.pack(&mut w).is_ok());
    assert_eq!(w.len(), 18);
}

#[test]
fn alphabet_is_its_letters() {
    let letters = vec![
        Letter::new(&[0b0100_0000], 2),
        Letter::new(&[0b1000_0000], 1),
    ];
    let a = Alphabet::new(letters.clone()).unwrap();
    assert_eq!(a.letters(), &letters);
    assert_eq!(a.len(), 2);
}
