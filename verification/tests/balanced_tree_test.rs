use cshannon::code::Letter;
use cshannon::encoding::balanced_tree::{letters, log2, new, LetterGenerator};
use cshannon::model;
use cshannon::tokens::test_utils::I32Token;
use cshannon::Error;
use std::collections::HashMap;

#[test]
fn balanced_tree_empty() {
    let m = model::with_frequencies::<I32Token>(&[]);
    let t = new(m).unwrap();
    assert!(t.alphabet().is_empty());
    assert!(t.map().is_empty());
}

#[test]
fn one_token() {
    let m = model::with_frequencies(&[(I32Token(1), 2)]);
    let t = new(m).unwrap();
    assert_eq!(t.alphabet().len(), 1);
    let want: HashMap<I32Token, Letter> = [(I32Token(1), Letter::new(&[0b1000_0000], 1))]
        .iter()
        .cloned()
        .collect();
    let got: HashMap<I32Token, Letter> = t.map().iter().cloned().collect();
    assert_eq!(got, want);
}

#[test]
fn max_tokens_for_some_tree_height() {
    let m = model::with_frequencies(&[(I32Token(1), 1), (I32Token(2), 2), (I32Token(3), 3)]);
    let t = new(m).unwrap();
    assert_eq!(t.alphabet().len(), 3);
    let want: HashMap<I32Token, Letter> = [
        (I32Token(3), Letter::new(&[0b0100_0000], 2)),
        (I32Token(2), Letter::new(&[0b1000_0000], 2)),
        (I32Token(1), Letter::new(&[0b1100_0000], 2)),
    ]
    .iter()
    .cloned()
    .collect();
    let got: HashMap<I32Token, Letter> = t.map().iter().cloned().collect();
    assert_eq!(got, want);
}

#[test]
fn max_tokens_for_some_tree_height_then_one() {
    let m = model::with_frequencies(&[
        (I32Token(1), 1),
        (I32Token(2), 2),
        (I32Token(3), 3),
        (I32Token(4), 4),
    ]);
    let t = new(m).unwrap();
    assert_eq!(t.alphabet().len(), 4);
    let want: HashMap<I32Token, Letter> = [
        (I32Token(4), Letter::new(&[0b0010_0000], 3)),
        (I32Token(3), Letter::new(&[0b0100_0000], 3)),
        (I32Token(2), Letter::new(&[0b0110_0000], 3)),
        (I32Token(1), Letter::new(&[0b1000_0000], 3)),
    ]
    .iter()
    .cloned()
    .collect();
    let got: HashMap<I32Token, Letter> = t.map().iter().cloned().collect();
    assert_eq!(got, want);
}

#[test]
fn balanced_tree_four_tokens() {
    // Four tokens of about the same frequency: the letters are the
    // numbers from 1 on, all of one width, and 0 is left out.
    let m = model::with_frequencies(&[
        (I32Token(1), 10),
        (I32Token(2), 10),
        (I32Token(3), 9),
        (I32Token(4), 11),
    ]);
    let t = new(m).unwrap();
    for l in t.alphabet().letters() {
        assert_eq!(l.bit_count(), 3);
        assert!((0..3).any(|i| l.at(i).unwrap()));
    }
    assert_eq!(
        t.map(),
        &vec![
            (I32Token(4), Letter::new(&[0b0010_0000], 3)),
            (I32Token(1), Letter::new(&[0b0100_0000], 3)),
            (I32Token(2), Letter::new(&[0b0110_0000], 3)),
            (I32Token(3), Letter::new(&[0b1000_0000], 3)),
        ]
    );
}

#[test]
fn balanced_tree_width() {
    assert_eq!(log2(0), 0);
    assert_eq!(log2(1), 1);
    assert_eq!(log2(2), 2);
    assert_eq!(log2(3), 2);
    assert_eq!(log2(4), 3);
    assert_eq!(log2(255), 8);
    assert_eq!(log2(256), 9);
    assert_eq!(log2(u64::MAX), 64);
}

#[test]
fn balanced_tree_letters() {
    assert_eq!(letters(0).unwrap(), Vec::<Letter>::new());
    let got = letters(300).unwrap();
    assert_eq!(got.len(), 300);
    assert_eq!(got[0], Letter::new(&[0b0000_0000, 0b1000_0000], 9));
    assert_eq!(got[254], Letter::new(&[0b0111_1111, 0b1000_0000], 9));
    assert_eq!(got[255], Letter::new(&[0b1000_0000, 0b0000_0000], 9));
    assert_eq!(got[299], Letter::new(&[0b1001_0110, 0b0000_0000], 9));
}

#[test]
fn letter_generator() {
    assert_eq!(
        LetterGenerator::new(65).err(),
        Some(Error::TooManyTokens)
    );
    let mut g = LetterGenerator::new(2).ok().unwrap();
    assert_eq!(g.next(), Some(Letter::new(&[0b0100_0000], 2)));
    assert_eq!(g.next(), Some(Letter::new(&[0b1000_0000], 2)));
    assert_eq!(g.next(), Some(Letter::new(&[0b1100_0000], 2)));
    assert_eq!(g.next(), None);
    assert_eq!(g.next(), None);
    let mut g = LetterGenerator::new(0).ok().unwrap();
    assert_eq!(g.next(), None);
    let mut g = LetterGenerator::new(64).ok().unwrap();
    assert_eq!(
        g.next(),
        Some(Letter::from_bytes(&[0, 0, 0, 0, 0, 0, 0, 1]))
    );
}
