use musubi::{decrypt, encrypt, Alphabet, Key, MusubiError, Relation};
use rand::SeedableRng;

const ROUND_TRIP_PLAINTEXTS: &[&str] = &[
    "あ",
    "あいしてる",
    "musubi",
    "Hello, musubi!",
    "ABCabc あいう ぱぴぷ ゃゅょ",
    "0123456789",
    "ががが",
    "the quick brown fox jumps over the lazy dog",
];

fn key_for_seed(seed: u64) -> Key {
    let alphabet = Alphabet::default_v1();
    let mut rng = rand::rngs::StdRng::seed_from_u64(seed);
    Key::random(&alphabet, &mut rng)
}

#[test]
fn round_trip_every_anchor_position() {
    let key = key_for_seed(0xCAFE_BABE);
    for plaintext in ROUND_TRIP_PLAINTEXTS {
        let n = plaintext.chars().count();
        for anchor in 0..n {
            let cipher = encrypt(plaintext, &key, anchor)
                .unwrap_or_else(|e| panic!("encrypt failed for {plaintext:?}: {e:?}"));
            let decoded = decrypt(&cipher, &key)
                .unwrap_or_else(|e| panic!("decrypt failed for {plaintext:?}: {e:?}"));
            assert_eq!(decoded, *plaintext, "anchor={anchor}");
        }
    }
}

#[test]
fn out_of_alphabet_chars_are_rejected() {
    let key = key_for_seed(1);
    let result = encrypt("こんにちは、世界", &key, 0);
    assert!(matches!(
        result,
        Err(MusubiError::CharOutsideAlphabet { .. })
    ));
}

/// `same` and `mirror` relations are pattern-detected when applicable;
/// otherwise the relation is a `shift`.
#[test]
fn relation_kinds_match_expectation() {
    let key = key_for_seed(2);
    // Repeated characters → Same.
    let cipher = encrypt("aa", &key, 0).unwrap();
    assert!(matches!(cipher.relations[1], Some(Relation::Same { .. })));

    // Distinct characters with non-mirror ranks → Shift (overwhelmingly likely
    // for a random key over a 175-char alphabet).
    let cipher = encrypt("ab", &key, 0).unwrap();
    assert!(matches!(cipher.relations[1], Some(Relation::Shift { .. })));
}

/// Ciphertext anchor slot is always `None`; non-anchor slots are always `Some`.
#[test]
fn anchor_slot_invariant() {
    let key = key_for_seed(3);
    let plaintext = "hello";
    for anchor in 0..plaintext.len() {
        let cipher = encrypt(plaintext, &key, anchor).unwrap();
        for (i, rel) in cipher.relations.iter().enumerate() {
            if i == anchor {
                assert!(rel.is_none(), "anchor slot must be None");
            } else {
                assert!(rel.is_some(), "non-anchor slot must be Some");
            }
        }
    }
}

#[test]
fn first_foreign_char_is_reported() {
    let key = key_for_seed(4);
    assert_eq!(
        encrypt("あい世界", &key, 0).unwrap_err(),
        MusubiError::CharOutsideAlphabet { ch: '世' }
    );
    assert_eq!(
        encrypt("abc", &key, 3).unwrap_err(),
        MusubiError::AnchorOutOfRange { position: 3, length: 3 }
    );
}

#[test]
fn shift_deltas_stay_within_half_the_alphabet() {
    let key = key_for_seed(9);
    let alphabet = Alphabet::default_v1();
    let text: String = alphabet.chars().iter().collect();
    let cipher = encrypt(&text, &key, 87).unwrap();
    for rel in cipher.relations.iter().flatten() {
        if let Relation::Shift { delta, .. } = rel {
            assert!(-87 <= *delta && *delta <= 87);
        }
    }
    assert_eq!(decrypt(&cipher, &key).unwrap(), text);
}
