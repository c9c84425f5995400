use cshannon::code::Letter;
use cshannon::encoding::fano::{new, CodeIter, Refinement, Window};
use cshannon::encoding::from_pairs;
use cshannon::model;
use cshannon::tokens::test_utils::I32Token;

// The windows of these tests hold cumulative probabilities in hundredths.

#[test]
fn single_elem() {
    let data = vec![(I32Token(1), 100)];
    assert_eq!(
        Window::new(&data).refine(),
        Refinement::Terminal(I32Token(1))
    );
}

#[test]
fn two_elems_to_terminals() {
    let data = vec![(I32Token(1), 30), (I32Token(2), 100)];
    let left = vec![(I32Token(1), 30)];
    let right = vec![(I32Token(2), 100)];
    let refinement = Window::new(&data).refine();
    assert_eq!(
        &refinement,
        &Refinement::Split(Window::new(&left), Window::new(&right))
    );
    if let Refinement::Split(left, right) = refinement {
        assert_eq!(left.refine(), Refinement::Terminal(I32Token(1)));
        assert_eq!(right.refine(), Refinement::Terminal(I32Token(2)));
    } else {
        panic!("but you just said that the refinement was a window!");
    }
}

#[test]
fn two_elems_right_heavy() {
    let data = vec![(I32Token(1), 70), (I32Token(2), 100)];
    let left = vec![(I32Token(1), 70)];
    let right = vec![(I32Token(2), 100)];
    assert_eq!(
        Window::new(&data).refine(),
        Refinement::Split(Window::new(&left), Window::new(&right))
    );
}

#[test]
fn three_elems_larger_left() {
    let data = vec![(I32Token(1), 30), (I32Token(2), 40), (I32Token(3), 100)];
    let left = vec![(I32Token(1), 30), (I32Token(2), 40)];
    let right = vec![(I32Token(3), 100)];
    assert_eq!(
        Window::new(&data).refine(),
        Refinement::Split(Window::new(&left), Window::new(&right))
    );
}

#[test]
fn three_elems_split_at_value() {
    let data = vec![(I32Token(1), 30), (I32Token(2), 50), (I32Token(3), 100)];
    let left = vec![(I32Token(1), 30), (I32Token(2), 50)];
    let right = vec![(I32Token(3), 100)];
    assert_eq!(
        Window::new(&data).refine(),
        Refinement::Split(Window::new(&left), Window::new(&right))
    );
}

#[test]
fn three_elems_larger_right() {
    let data = vec![(I32Token(1), 40), (I32Token(2), 70), (I32Token(3), 100)];
    let left = vec![(I32Token(1), 40)];
    let right = vec![(I32Token(2), 70), (I32Token(3), 100)];
    assert_eq!(
        Window::new(&data).refine(),
        Refinement::Split(Window::new(&left), Window::new(&right))
    );
}

#[test]
fn four_elems_closer_right() {
    let data = vec![
        (I32Token(1), 31),
        (I32Token(2), 60),
        (I32Token(3), 85),
        (I32Token(4), 100),
    ];
    let left = vec![(I32Token(1), 31), (I32Token(2), 60)];
    let right = vec![(I32Token(3), 85), (I32Token(4), 100)];
    assert_eq!(
        Window::new(&data).refine(),
        Refinement::Split(Window::new(&left), Window::new(&right))
    );
}

#[test]
fn large_balanced_input() {
    let data: Vec<(I32Token, u64)> = vec![
        (I32Token(1), 5),
        (I32Token(2), 10),
        (I32Token(3), 15),
        (I32Token(4), 20),
        (I32Token(5), 25),
        (I32Token(6), 30),
        (I32Token(7), 35),
        (I32Token(8), 40),
        (I32Token(9), 45),
        // No token just at the split.
        (I32Token(11), 55),
        (I32Token(12), 60),
        (I32Token(13), 65),
        (I32Token(14), 70),
        (I32Token(15), 75),
        (I32Token(16), 80),
        (I32Token(17), 85),
        (I32Token(18), 90),
        (I32Token(19), 95),
        (I32Token(20), 100),
    ];
    let left: Vec<(I32Token, u64)> = vec![
        (I32Token(1), 5),
        (I32Token(2), 10),
        (I32Token(3), 15),
        (I32Token(4), 20),
        (I32Token(5), 25),
        (I32Token(6), 30),
        (I32Token(7), 35),
        (I32Token(8), 40),
        (I32Token(9), 45),
    ];
    let right: Vec<(I32Token, u64)> = vec![
        (I32Token(11), 55),
        (I32Token(12), 60),
        (I32Token(13), 65),
        (I32Token(14), 70),
        (I32Token(15), 75),
        (I32Token(16), 80),
        (I32Token(17), 85),
        (I32Token(18), 90),
        (I32Token(19), 95),
        (I32Token(20), 100),
    ];
    assert_eq!(
        Window::new(&data).refine(),
        Refinement::Split(Window::new(&left), Window::new(&right))
    );
}

#[test]
fn large_left_heavy_input() {
    let data: Vec<(I32Token, u64)> = vec![
        (I32Token(1), 30),
        (I32Token(2), 48),
        (I32Token(11), 55),
        (I32Token(12), 60),
        (I32Token(13), 65),
        (I32Token(14), 70),
        (I32Token(15), 75),
        (I32Token(16), 80),
        (I32Token(17), 85),
        (I32Token(18), 90),
        (I32Token(19), 95),
        (I32Token(20), 100),
    ];
    let left: Vec<(I32Token, u64)> = vec![(I32Token(1), 30), (I32Token(2), 48)];
    let right: Vec<(I32Token, u64)> = vec![
        (I32Token(11), 55),
        (I32Token(12), 60),
        (I32Token(13), 65),
        (I32Token(14), 70),
        (I32Token(15), 75),
        (I32Token(16), 80),
        (I32Token(17), 85),
        (I32Token(18), 90),
        (I32Token(19), 95),
        (I32Token(20), 100),
    ];
    assert_eq!(
        Window::new(&data).refine(),
        Refinement::Split(Window::new(&left), Window::new(&right))
    );
}

#[test]
fn large_right_heavy_input() {
    let data: Vec<(I32Token, u64)> = vec![
        (I32Token(1), 5),
        (I32Token(2), 10),
        (I32Token(3), 15),
        (I32Token(4), 20),
        (I32Token(5), 25),
        (I32Token(6), 30),
        (I32Token(7), 35),
        (I32Token(8), 40),
        (I32Token(9), 45),
        (I32Token(18), 90),
        (I32Token(19), 95),
        (I32Token(20), 100),
    ];
    let left: Vec<(I32Token, u64)> = vec![
        (I32Token(1), 5),
        (I32Token(2), 10),
        (I32Token(3), 15),
        (I32Token(4), 20),
        (I32Token(5), 25),
        (I32Token(6), 30),
        (I32Token(7), 35),
        (I32Token(8), 40),
        (I32Token(9), 45),
    ];
    let right: Vec<(I32Token, u64)> = vec![
        (I32Token(18), 90),
        (I32Token(19), 95),
        (I32Token(20), 100),
    ];
    assert_eq!(
        Window::new(&data).refine(),
        Refinement::Split(Window::new(&left), Window::new(&right))
    );
}

#[test]
fn huge_left_heavy_input() {
    // Cumulative probabilities in millionths.
    let mut data: Vec<(I32Token, u64)> = vec![(I32Token(1), 450_000), (I32Token(2), 600_000)];
    for i in 1..40001 {
        data.push((I32Token(2 + i), 600_000 + 10 * i as u64));
    }
    if let Refinement::Split(left, _) = Window::new(&data).refine() {
        assert_eq!(left.len(), 1);
    } else {
        panic!("refinement should be a Split");
    }
}

#[test]
fn huge_right_heavy_input() {
    // Cumulative probabilities in millionths.
    let mut data: Vec<(I32Token, u64)> = Vec::with_capacity(40005);
    for i in 1..40001 {
        data.push((I32Token(2 + i), 10 * i as u64));
    }
    data.push((I32Token(1), 450_000));
    data.push((I32Token(2), 1_000_000));
    if let Refinement::Split(_, right) = Window::new(&data).refine() {
        assert_eq!(right.len(), 1);
    } else {
        panic!("refinement should be a Split");
    }
}

#[test]
fn single_level() {
    let m = model::with_frequencies(&[(I32Token(1), 4), (I32Token(2), 3)]);
    let t = new(m).unwrap();
    assert_eq!(t.alphabet().len(), 2);
    let want = from_pairs(&[
        (I32Token(1), Letter::new(&[0b1000_0000], 2)),
        (I32Token(2), Letter::new(&[0b1100_0000], 2)),
    ])
    .unwrap();
    assert_eq!(t, want);
}

#[test]
fn two_level_balanced() {
    let m = model::with_frequencies(&[
        (I32Token(1), 31),
        (I32Token(2), 29),
        (I32Token(3), 25),
        (I32Token(4), 15),
    ]);
    let t = new(m).unwrap();
    assert_eq!(t.alphabet().len(), 4);
    let want = from_pairs(&[
        (I32Token(1), Letter::new(&[0b1000_0000], 3)),
        (I32Token(2), Letter::new(&[0b1010_0000], 3)),
        (I32Token(3), Letter::new(&[0b1100_0000], 3)),
        (I32Token(4), Letter::new(&[0b1110_0000], 3)),
    ])
    .unwrap();
    assert_eq!(t, want);
}

#[test]
fn fano_empty() {
    let t = new(model::with_frequencies::<I32Token>(&[])).unwrap();
    assert!(t.alphabet().is_empty());
}

#[test]
fn fano_one_token() {
    let t = new(model::with_frequencies(&[(I32Token(5), 9)])).unwrap();
    assert_eq!(
        t.map(),
        &vec![(I32Token(5), Letter::new(&[0b1000_0000], 1))]
    );
}

#[test]
fn fano_code_iter() {
    let data = vec![
        (I32Token(1), 50),
        (I32Token(2), 70),
        (I32Token(3), 90),
        (I32Token(4), 100),
    ];
    let mut iter = CodeIter::new(Window::new(&data));
    assert_eq!(
        iter.next(),
        Some((I32Token(1), Letter::new(&[0b1000_0000], 2)))
    );
    assert_eq!(
        iter.next(),
        Some((I32Token(2), Letter::new(&[0b1100_0000], 3)))
    );
    assert_eq!(
        iter.next(),
        Some((I32Token(3), Letter::new(&[0b1110_0000], 4)))
    );
    assert_eq!(
        iter.next(),
        Some((I32Token(4), Letter::new(&[0b1111_0000], 4)))
    );
    assert_eq!(iter.next(), None);
    assert_eq!(iter.next(), None);
}

#[test]
fn fano_search_by_halves() {
    // A window longer than the threshold, in which the search by halves
    // stops short of the place that is closest to the half.
    let data: Vec<(I32Token, u64)> = vec![
        (I32Token(1), 10),
        (I32Token(2), 20),
        (I32Token(3), 30),
        (I32Token(4), 49),
        (I32Token(5), 51),
        (I32Token(6), 60),
        (I32Token(7), 70),
        (I32Token(8), 100),
    ];
    if let Refinement::Split(left, right) = Window::new(&data).refine() {
        assert_eq!(left.len(), 4);
        assert_eq!(right.len(), 4);
    } else {
        panic!("refinement should be a Split");
    }
}
