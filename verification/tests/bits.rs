use huff_rs::bits::Bits;

#[test]
fn new_bits_are_empty() {
    let b = Bits::new();
    assert_eq!(b.len(), 0);
    assert_eq!(b.get(0), None);
    assert_eq!(b.to_vec(), Vec::<bool>::new());
}

#[test]
fn push_adds_at_the_end() {
    let mut b = Bits::new();
    assert!(b.push(true));
    assert!(b.push(false));
    assert!(b.push(true));
    assert_eq!(b.len(), 3);
    assert_eq!(b.get(0), Some(true));
    assert_eq!(b.get(1), Some(false));
    assert_eq!(b.get(2), Some(true));
    assert_eq!(b.get(3), None);
    assert_eq!(b.to_vec(), vec![true, false, true]);
}

#[test]
fn from_vec_and_back() {
    let v = vec![false, true, true, false, false, true, false, true, true];
    let b = Bits::from_vec(&v).unwrap();
    assert_eq!(b.len(), 9);
    assert_eq!(b.to_vec(), v);
}

#[test]
fn from_empty_vec() {
    let b = Bits::from_vec(&Vec::new()).unwrap();
    assert_eq!(b.len(), 0);
}

#[test]
fn many_bits_cross_word_boundaries() {
    let mut v = Vec::new();
    for i in 0..200usize {
        v.push(i % 3 == 0);
    }
    let b = Bits::from_vec(&v).unwrap();
    assert_eq!(b.len(), 200);
    for i in 0..200usize {
        assert_eq!(b.get(i), Some(i % 3 == 0));
    }
}
