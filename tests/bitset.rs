use amt::bitset::{Bitset, Index32};

#[test]
fn index_convert_digits() {
    assert_eq!(Index32::convert(0b11111_00001, 0).num(), 1);
    assert_eq!(Index32::convert(0b11111_00001, 1).num(), 31);
    assert_eq!(Index32::convert(usize::MAX, 12).num(), 15);
    assert_eq!(Index32::max_with(0).num(), 31);
    assert_eq!(Index32::max_with(12).num(), 15);
    assert_eq!(Index32::new(7).num(), 7);
}

#[test]
fn bitset_set_and_get() {
    let mut b = Bitset::new();
    assert_eq!(b.num(), 0);
    assert!(!b.set(Index32::new(0)));
    assert!(b.set(Index32::new(0)));
    assert!(!b.set(Index32::new(31)));
    assert!(b.get(Index32::new(0)));
    assert!(b.get(Index32::new(31)));
    assert!(!b.get(Index32::new(5)));
    assert_eq!(b.num(), 0x8000_0001);
}

#[test]
fn packed_index_every_position() {
    let mut b = Bitset::new();
    for d in (0..32usize).step_by(2) {
        b.set(Index32::new(d));
    }
    for d in 0..32usize {
        let expected = if d % 2 == 0 { Some(d / 2) } else { None };
        assert_eq!(b.packed_index(Index32::new(d)), expected);
    }
    let mut full = Bitset::new();
    for d in 0..32usize {
        full.set(Index32::new(d));
    }
    for d in 0..32usize {
        assert_eq!(full.packed_index(Index32::new(d)), Some(d));
    }
}

#[test]
fn iter_ascending_once_each() {
    let mut b = Bitset::new();
    for d in [31usize, 0, 9, 10] {
        b.set(Index32::new(d));
    }
    let mut it = b.iter();
    let mut seen = Vec::new();
    while let Some(d) = it.next() {
        seen.push(d.num());
    }
    assert_eq!(seen, vec![0, 9, 10, 31]);
    assert_eq!(it.next(), None);
}
