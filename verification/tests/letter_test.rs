use cshannon::code::Letter;

#[test]
fn at() {
    let l = Letter::new(&[0b0010_0010], 7);
    assert_eq!(l.at(0).unwrap(), false);
    assert_eq!(l.at(1).unwrap(), false);
    assert_eq!(l.at(2).unwrap(), true);
    assert_eq!(l.at(3).unwrap(), false);
    assert_eq!(l.at(4).unwrap(), false);
    assert_eq!(l.at(5).unwrap(), false);
    assert_eq!(l.at(6).unwrap(), true);
    assert!(l.at(7).is_err());
}

#[test]
fn new_data_truncation() {
    assert_eq!(Letter::new(&[0b0111_1100], 3).data(), &vec![0b0110_0000u8]);
    assert_eq!(
        Letter::new(&[0b0000_1111, 0b0111_1100], 11).data(),
        &vec![0b0000_1111u8, 0b0110_0000u8]
    );
    assert_eq!(
        Letter::new(&[0b1000_1111, 0b0111_1100], 3).data(),
        &vec![0b1000_0000u8]
    );
    assert_eq!(Letter::new(&[0b0000_1111], 4).data(), &vec![0b0000_0000u8]);
}

#[test]
fn letter_empty() {
    assert_eq!(Letter::empty(), Letter::new(&[0u8], 0));
}

#[test]
fn with_capacity() {
    assert_eq!(Letter::with_capacity(24), Letter::new(&[0u8], 0));
    assert_eq!(Letter::with_capacity(8).data().capacity(), 1);
}

#[test]
fn incremental_build() {
    let mut l = Letter::empty();
    l.push0();
    l.push1();
    l.push0();
    l.push1();
    assert_eq!(l, Letter::new(&[0b0101_0000], 4));
}

#[test]
fn incremental_build_extends_data() {
    let mut l = Letter::with_capacity(16);
    for _ in 0..11 {
        l.push1();
    }
    assert_eq!(l, Letter::new(&[0xFF, 0b1110_0000], 11));
}
