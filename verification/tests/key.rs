use musubi::{Alphabet, Key, KeyDocument, MusubiError};
use rand::SeedableRng;

#[test]
fn random_key_is_a_permutation() {
    let alphabet = Alphabet::default_v1();
    let mut rng = rand::rngs::StdRng::seed_from_u64(0xCAFE_F00D);
    let key = Key::random(&alphabet, &mut rng);
    assert_eq!(key.len(), alphabet.len());
    for &c in alphabet.chars() {
        assert!(key.rank_of(c).is_some(), "missing {c:?}");
    }
}

#[test]
fn ranks_round_trip() {
    let alphabet = Alphabet::default_v1();
    let mut rng = rand::rngs::StdRng::seed_from_u64(7);
    let key = Key::random(&alphabet, &mut rng);
    for rank in 0..key.len() {
        let ch = key.char_at(rank).unwrap();
        assert_eq!(key.rank_of(ch), Some(rank));
    }
}

#[test]
fn document_round_trips() {
    let alphabet = Alphabet::default_v1();
    let mut rng = rand::rngs::StdRng::seed_from_u64(123);
    let key = Key::random(&alphabet, &mut rng);
    let doc = key.to_document();
    let parsed = Key::from_document(doc, &alphabet).unwrap();
    assert_eq!(parsed.len(), key.len());
    for rank in 0..key.len() {
        assert_eq!(parsed.char_at(rank), key.char_at(rank));
    }
}

#[test]
fn wrong_length_errors() {
    let alphabet = Alphabet::default_v1();
    let perm = vec!['a', 'b'];
    assert!(matches!(
        Key::new(&alphabet, perm),
        Err(MusubiError::PermutationLengthMismatch { .. })
    ));
}

#[test]
fn duplicate_in_permutation_errors() {
    let alphabet = Alphabet::new("xyz", vec!['a', 'b', 'c']).unwrap();
    let perm = vec!['a', 'a', 'b'];
    assert!(matches!(
        Key::new(&alphabet, perm),
        Err(MusubiError::PermutationNotBijection)
    ));
}

#[test]
fn alphabet_mismatch_on_parse() {
    let alphabet_a = Alphabet::new("xyz", vec!['a', 'b', 'c']).unwrap();
    let alphabet_b = Alphabet::new("uvw", vec!['a', 'b', 'c']).unwrap();
    let mut rng = rand::rngs::StdRng::seed_from_u64(1);
    let key = Key::random(&alphabet_a, &mut rng);
    let doc = key.to_document();
    assert!(matches!(
        Key::from_document(doc, &alphabet_b),
        Err(MusubiError::AlphabetMismatch { .. })
    ));
}

#[test]
fn wrong_length_reports_both_lengths() {
    let alphabet = Alphabet::new("xyz", vec!['a', 'b', 'c']).unwrap();
    assert_eq!(
        Key::new(&alphabet, vec!['a']).unwrap_err(),
        MusubiError::PermutationLengthMismatch { expected: 3, got: 1 }
    );
}

#[test]
fn foreign_char_in_permutation_errors() {
    let alphabet = Alphabet::new("xyz", vec!['a', 'b', 'c']).unwrap();
    assert_eq!(
        Key::new(&alphabet, vec!['b', 'z', 'b']).unwrap_err(),
        MusubiError::PermutationNotBijection
    );
    assert_eq!(
        Key::new(&alphabet, vec!['b', 'b', 'z']).unwrap_err(),
        MusubiError::PermutationNotBijection
    );
    assert_eq!(
        Key::new(&alphabet, vec!['a', 'b', 'z']).unwrap_err(),
        MusubiError::PermutationNotBijection
    );
}

#[test]
fn explicit_key_ranks() {
    let alphabet = Alphabet::new("xyz", vec!['a', 'b', 'c']).unwrap();
    let key = Key::new(&alphabet, vec!['c', 'a', 'b']).unwrap();
    assert_eq!(key.alphabet_id(), "xyz");
    assert_eq!(key.rank_of('c'), Some(0));
    assert_eq!(key.rank_of('a'), Some(1));
    assert_eq!(key.rank_of('b'), Some(2));
    assert_eq!(key.rank_of('d'), None);
    assert_eq!(key.char_at(2), Some('b'));
    assert_eq!(key.char_at(3), None);
    assert!(!key.is_empty());
}

#[test]
fn document_mismatch_reports_both_ids() {
    let alphabet = Alphabet::new("xyz", vec!['a', 'b', 'c']).unwrap();
    let doc = KeyDocument { alphabet: "uvw".to_string(), permutation: vec!['a', 'b', 'c'] };
    assert_eq!(
        Key::from_document(doc, &alphabet).unwrap_err(),
        MusubiError::AlphabetMismatch { expected: "xyz".to_string(), got: "uvw".to_string() }
    );
    let doc = KeyDocument { alphabet: "xyz".to_string(), permutation: vec!['a', 'b'] };
    assert_eq!(
        Key::from_document(doc, &alphabet).unwrap_err(),
        MusubiError::PermutationLengthMismatch { expected: 3, got: 2 }
    );
}

#[test]
fn random_key_is_shuffled() {
    let alphabet = Alphabet::default_v1();
    let mut rng = rand::rngs::StdRng::seed_from_u64(42);
    let key = Key::random(&alphabet, &mut rng);
    let moved = (0..key.len()).filter(|&r| key.char_at(r) != Some(alphabet.chars()[r])).count();
    assert!(moved > 0);
    let copy = key.clone();
    for r in 0..key.len() {
        assert_eq!(copy.char_at(r), key.char_at(r));
    }
}
