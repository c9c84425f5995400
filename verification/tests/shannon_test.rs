use cshannon::code::Letter;
use cshannon::encoding::shannon::{e, l, letters, new, CumulativeProbabilities};
use cshannon::model;
use cshannon::tokens::test_utils::I32Token;
use std::collections::HashMap;

#[test]
fn shannon_basic() {
    // f: 0.4, 0.3, 0.2, 0.1
    // l: 2, 2, 3, 4
    // c: 0.0, 0.4, 0.7, 0.9
    // e: 00, 01, 101, 1110
    // e[corrected for all 0s]: 001, 01, 101, 1110
    let m = model::with_frequencies(&[
        (I32Token(1), 4),
        (I32Token(2), 3),
        (I32Token(3), 2),
        (I32Token(4), 1),
    ]);
    let t = new(m).unwrap();
    assert_eq!(t.alphabet().len(), 4);
    let want: HashMap<I32Token, Letter> = [
        (I32Token(1), Letter::new(&[0b0010_0000], 3)),
        (I32Token(2), Letter::new(&[0b0100_0000], 2)),
        (I32Token(3), Letter::new(&[0b1010_0000], 3)),
        (I32Token(4), Letter::new(&[0b1110_0000], 4)),
    ]
    .iter()
    .cloned()
    .collect();
    let got: HashMap<I32Token, Letter> = t.map().iter().cloned().collect();
    assert_eq!(got, want);
}

#[test]
fn shannon_empty() {
    let t = new(model::with_frequencies::<I32Token>(&[])).unwrap();
    assert!(t.alphabet().is_empty());
}

#[test]
fn shannon_one_token() {
    let t = new(model::with_frequencies(&[(I32Token(5), 9)])).unwrap();
    assert_eq!(
        t.map(),
        &vec![(I32Token(5), Letter::new(&[0b1000_0000], 1))]
    );
}

#[test]
fn shannon_lengths() {
    assert_eq!(l(4, 10), 2);
    assert_eq!(l(3, 10), 2);
    assert_eq!(l(2, 10), 3);
    assert_eq!(l(1, 10), 4);
    assert_eq!(l(10, 10), 0);
    assert_eq!(l(5, 10), 1);
    assert_eq!(l(1, 8), 3);
    assert_eq!(l(1, 9), 4);
    assert_eq!(l(1, u64::MAX), 64);
}

#[test]
fn shannon_expansion() {
    assert_eq!(e(0, 2, 10), Letter::new(&[0b0010_0000], 3));
    assert_eq!(e(4, 2, 10), Letter::new(&[0b0100_0000], 2));
    assert_eq!(e(7, 3, 10), Letter::new(&[0b1010_0000], 3));
    assert_eq!(e(9, 4, 10), Letter::new(&[0b1110_0000], 4));
    // A half is `0.100`: doubling to just the total gives a `1` bit.
    assert_eq!(e(5, 3, 10), Letter::new(&[0b1000_0000], 3));
    assert_eq!(e(1, 3, 4), Letter::new(&[0b0100_0000], 3));
    assert_eq!(e(7, 3, 8), Letter::new(&[0b1110_0000], 3));
    assert_eq!(e(0, 0, 7), Letter::new(&[0b1000_0000], 1));
}

#[test]
fn shannon_cumulative() {
    let freqs = vec![4u64, 3, 2, 1];
    let mut ck = CumulativeProbabilities::new(&freqs);
    assert_eq!(ck.next(), Some(0));
    assert_eq!(ck.next(), Some(4));
    assert_eq!(ck.next(), Some(7));
    assert_eq!(ck.next(), Some(9));
    assert_eq!(ck.next(), None);
    assert_eq!(ck.next(), None);
}

#[test]
fn shannon_equal_frequencies() {
    // f: 0.5, 0.5; l: 1, 1; c: 0.0, 0.5; e: 0 and a 1 bit after it, 1
    assert_eq!(
        letters(&vec![1, 1], 2),
        vec![Letter::new(&[0b0100_0000], 2), Letter::new(&[0b1000_0000], 1)]
    );
    let m = model::with_frequencies(&[(I32Token(1), 1), (I32Token(2), 1)]);
    let t = new(m).unwrap();
    assert_eq!(
        t.map(),
        &vec![
            (I32Token(1), Letter::new(&[0b0100_0000], 2)),
            (I32Token(2), Letter::new(&[0b1000_0000], 1)),
        ]
    );
}

#[test]
fn shannon_cumulative_half() {
    // f: 0.5, 0.375, 0.125
    // l: 1, 2, 3
    // c: 0.0, 0.5, 0.875
    // e: 0 and a 1 bit after it, 10, 111
    let m = model::with_frequencies(&[(I32Token(1), 4), (I32Token(2), 3), (I32Token(3), 1)]);
    let t = new(m).unwrap();
    let want: HashMap<I32Token, Letter> = [
        (I32Token(1), Letter::new(&[0b0100_0000], 2)),
        (I32Token(2), Letter::new(&[0b1000_0000], 2)),
        (I32Token(3), Letter::new(&[0b1110_0000], 3)),
    ]
    .iter()
    .cloned()
    .collect();
    let got: HashMap<I32Token, Letter> = t.map().iter().cloned().collect();
    assert_eq!(got, want);
}

#[test]
fn shannon_powers_of_two() {
    // Every cumulative frequency ends within the bits of its letter.
    let fs: Vec<(I32Token, u64)> = vec![
        (I32Token(1), 8),
        (I32Token(2), 4),
        (I32Token(3), 2),
        (I32Token(4), 1),
        (I32Token(5), 1),
    ];
    let t = new(model::with_frequencies(&fs)).unwrap();
    let want: HashMap<I32Token, Letter> = [
        (I32Token(1), Letter::new(&[0b0100_0000], 2)),
        (I32Token(2), Letter::new(&[0b1000_0000], 2)),
        (I32Token(3), Letter::new(&[0b1100_0000], 3)),
        (I32Token(4), Letter::new(&[0b1110_0000], 4)),
        (I32Token(5), Letter::new(&[0b1111_0000], 4)),
    ]
    .iter()
    .cloned()
    .collect();
    let got: HashMap<I32Token, Letter> = t.map().iter().cloned().collect();
    assert_eq!(got, want);
}
