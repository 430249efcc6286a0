use std::collections::HashSet;

use musubi::alphabet::DEFAULT_V1_ID;
use musubi::{Alphabet, MusubiError};

#[test]
fn default_v1_has_expected_size() {
    let a = Alphabet::default_v1();
    assert_eq!(a.len(), 46 + 20 + 5 + 9 + 95);
    assert_eq!(a.id(), DEFAULT_V1_ID);
}

#[test]
fn default_v1_has_no_duplicates() {
    let a = Alphabet::default_v1();
    let mut seen = HashSet::new();
    for &c in a.chars() {
        assert!(seen.insert(c), "duplicate char {c:?}");
    }
}

#[test]
fn default_v1_contains_expected_chars() {
    let a = Alphabet::default_v1();
    assert!(a.contains('あ'));
    assert!(a.contains('が'));
    assert!(a.contains('ぱ'));
    assert!(a.contains('ゃ'));
    assert!(a.contains('A'));
    assert!(a.contains('0'));
    assert!(a.contains(' '));
    assert!(!a.contains('、'));
    assert!(!a.contains('世'));
}

#[test]
fn empty_alphabet_errors() {
    assert!(matches!(
        Alphabet::new("x", vec![]),
        Err(MusubiError::EmptyAlphabet)
    ));
}

#[test]
fn duplicate_chars_error() {
    assert!(matches!(
        Alphabet::new("x", vec!['a', 'b', 'a']),
        Err(MusubiError::DuplicateAlphabetChar { ch: 'a' })
    ));
}

#[test]
fn default_v1_canonical_order() {
    let a = Alphabet::default_v1();
    let chars = a.chars();
    assert_eq!(chars[0], 'あ');
    assert_eq!(chars[45], 'ん');
    assert_eq!(chars[46], 'が');
    assert_eq!(chars[66], 'ぱ');
    assert_eq!(chars[71], 'ぁ');
    assert_eq!(chars[79], 'ょ');
    assert_eq!(chars[80], ' ');
    assert_eq!(chars[174], '~');
    assert!(!a.is_empty());
}

#[test]
fn first_repeat_is_reported() {
    assert!(matches!(
        Alphabet::new("x", vec!['a', 'b', 'c', 'b', 'a']),
        Err(MusubiError::DuplicateAlphabetChar { ch: 'b' })
    ));
}

#[test]
fn new_keeps_order_and_id() {
    let a = Alphabet::new("abc", vec!['c', 'a', 'b']).unwrap();
    assert_eq!(a.chars(), &['c', 'a', 'b']);
    assert_eq!(a.id(), "abc");
    assert_eq!(a.len(), 3);
    let b = a.clone();
    assert_eq!(b.chars(), a.chars());
    assert_eq!(b.id(), "abc");
}
