use cshannon::model;
use cshannon::model::from;
use cshannon::tokens::test_utils::I32Token;

#[test]
fn model_basic() {
    let tokens = vec![
        I32Token(2),
        I32Token(3),
        I32Token(1),
        I32Token(2),
        I32Token(5),
        I32Token(11),
    ];
    let m = from(tokens);
    assert_eq!(m.frequency(&I32Token(1)), 1);
    assert_eq!(m.frequency(&I32Token(2)), 2);
    assert_eq!(m.frequency(&I32Token(13)), 0);

    // The probability of a token is its share of the total.
    let p = m.frequency(&I32Token(5)) as f64 / m.total() as f64;
    assert!(p > 0.166);
    assert!(p < 0.167);
}

#[test]
fn with_frequencies() {
    let m = model::with_frequencies(&[
        (I32Token(2), 2),
        (I32Token(3), 1),
        (I32Token(1), 1),
        (I32Token(5), 1),
        (I32Token(11), 1),
    ]);
    assert_eq!(m.frequency(&I32Token(1)), 1);
    assert_eq!(m.frequency(&I32Token(2)), 2);
    assert_eq!(m.frequency(&I32Token(13)), 0);

    // The probability of a token is its share of the total.
    let p = m.frequency(&I32Token(5)) as f64 / m.total() as f64;
    assert!(p > 0.166);
    assert!(p < 0.167);
}

#[test]
fn model_sorted() {
    let m = from(vec![
        I32Token(7),
        I32Token(3),
        I32Token(3),
        I32Token(9),
        I32Token(7),
        I32Token(3),
        I32Token(4),
    ]);
    assert_eq!(m.len(), 4);
    assert!(!m.is_empty());
    assert_eq!(m.total(), 7);
    // Highest frequency first; tokens of the same frequency in the order
    // in which they first occur.
    assert_eq!(
        m.sorted(),
        vec![
            (I32Token(3), 3),
            (I32Token(7), 2),
            (I32Token(9), 1),
            (I32Token(4), 1)
        ]
    );
    assert_eq!(
        m.tokens_sorted(),
        vec![I32Token(3), I32Token(7), I32Token(9), I32Token(4)]
    );
}

#[test]
fn model_of_nothing() {
    let m = from(Vec::<I32Token>::new());
    assert!(m.is_empty());
    assert_eq!(m.len(), 0);
    assert_eq!(m.total(), 0);
    assert_eq!(m.tokens_sorted(), vec![]);
}

#[test]
fn with_frequencies_last_counts() {
    let m = model::with_frequencies(&[
        (I32Token(1), 5),
        (I32Token(2), 0),
        (I32Token(1), 3),
        (I32Token(3), 4),
        (I32Token(3), 0),
    ]);
    // The last frequency given for a token counts, and a token with the
    // frequency 0 is no token of the model.
    assert_eq!(m.len(), 1);
    assert_eq!(m.frequency(&I32Token(1)), 3);
    assert_eq!(m.frequency(&I32Token(2)), 0);
    assert_eq!(m.frequency(&I32Token(3)), 0);
    assert_eq!(m.total(), 3);
}
