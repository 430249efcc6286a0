use musubi::cipher::encrypt_along;
use musubi::{
    decrypt, encrypt, encrypt_chain, Alphabet, Anchor, Ciphertext, Key, MusubiError, Relation,
};
use rand::{RngCore, SeedableRng};

fn fresh_key(seed: u64) -> (Alphabet, Key) {
    let alphabet = Alphabet::default_v1();
    let mut rng = rand::rngs::StdRng::seed_from_u64(seed);
    let key = Key::random(&alphabet, &mut rng);
    (alphabet, key)
}

fn decrypted_from(cipher: &Ciphertext, key: &Key) -> String {
    decrypt(cipher, key).unwrap()
}

#[test]
fn encrypt_decrypt_round_trip_simple() {
    let (_a, key) = fresh_key(0xA110_CA7E);
    let plaintext = "musubi";
    let cipher = encrypt(plaintext, &key, 0).unwrap();
    assert_eq!(cipher.length, plaintext.chars().count());
    assert_eq!(cipher.relations[0], None);
    let decrypted = decrypt(&cipher, &key).unwrap();
    assert_eq!(decrypted, plaintext);
}

#[test]
fn round_trip_for_every_anchor_position() {
    let (_a, key) = fresh_key(0xDEAD_BEEF);
    let plaintext = "あいしてる";
    let n = plaintext.chars().count();
    for anchor in 0..n {
        let cipher = encrypt(plaintext, &key, anchor).unwrap();
        assert_eq!(decrypted_from(&cipher, &key), plaintext, "anchor={anchor}");
    }
}

#[test]
fn repeated_chars_use_same_relation() {
    let (_a, key) = fresh_key(1);
    let plaintext = "ががが";
    let cipher = encrypt(plaintext, &key, 1).unwrap();
    assert!(matches!(cipher.relations[0], Some(Relation::Same { .. })));
    assert!(matches!(cipher.relations[2], Some(Relation::Same { .. })));
    assert_eq!(decrypt(&cipher, &key).unwrap(), plaintext);
}

#[test]
fn empty_plaintext_errors() {
    let (_a, key) = fresh_key(2);
    assert!(matches!(
        encrypt("", &key, 0),
        Err(MusubiError::EmptyPlaintext)
    ));
}

#[test]
fn anchor_out_of_range_errors() {
    let (_a, key) = fresh_key(3);
    assert!(matches!(
        encrypt("abc", &key, 5),
        Err(MusubiError::AnchorOutOfRange { .. })
    ));
}

#[test]
fn out_of_alphabet_char_errors() {
    let (_a, key) = fresh_key(4);
    // 「、」 and 「世」 are not in default-v1
    assert!(matches!(
        encrypt("こんにちは、世界", &key, 0),
        Err(MusubiError::CharOutsideAlphabet { .. })
    ));
}

#[test]
fn version_mismatch_rejects_decrypt() {
    let (_a, key) = fresh_key(5);
    let mut cipher = encrypt("hi", &key, 0).unwrap();
    cipher.version = 999;
    assert!(matches!(
        decrypt(&cipher, &key),
        Err(MusubiError::MalformedCiphertext { .. })
    ));
}

#[test]
fn alphabet_mismatch_rejects_decrypt() {
    let (_a, key) = fresh_key(6);
    let mut cipher = encrypt("hi", &key, 0).unwrap();
    cipher.alphabet = "other".to_string();
    assert!(matches!(
        decrypt(&cipher, &key),
        Err(MusubiError::AlphabetMismatch { .. })
    ));
}

#[test]
fn chain_encoder_round_trips_for_every_anchor_position() {
    let (_a, key) = fresh_key(0xC0FF_EE);
    let plaintext = "あいしてる";
    let n = plaintext.chars().count();
    for anchor in 0..n {
        let mut rng = rand::rngs::StdRng::seed_from_u64(0xBEEF + anchor as u64);
        let cipher = encrypt_chain(plaintext, &key, anchor, &mut rng).unwrap();
        assert_eq!(cipher.length, n);
        assert_eq!(cipher.anchor.position, anchor);
        assert_eq!(cipher.relations[anchor], None);
        for (i, r) in cipher.relations.iter().enumerate() {
            if i == anchor {
                continue;
            }
            assert!(r.is_some(), "missing relation at {i}");
        }
        assert_eq!(decrypt(&cipher, &key).unwrap(), plaintext);
    }
}

#[test]
fn chain_encoder_is_deterministic_with_seeded_rng() {
    let (_a, key) = fresh_key(0xD00D);
    let plaintext = "Hello, musubi!";
    let mut rng_a = rand::rngs::StdRng::seed_from_u64(7);
    let mut rng_b = rand::rngs::StdRng::seed_from_u64(7);
    let a = encrypt_chain(plaintext, &key, 3, &mut rng_a).unwrap();
    let b = encrypt_chain(plaintext, &key, 3, &mut rng_b).unwrap();
    assert_eq!(a, b);
}

#[test]
fn chain_encoder_produces_acyclic_graph_rooted_at_anchor() {
    let (_a, key) = fresh_key(0xACED);
    let plaintext = "あいうえおかきくけこ";
    let mut rng = rand::rngs::StdRng::seed_from_u64(123);
    let cipher = encrypt_chain(plaintext, &key, 4, &mut rng).unwrap();
    // BFS from the anchor along reverse-reference edges should reach every node.
    let n = cipher.length;
    let mut reachable = vec![false; n];
    reachable[cipher.anchor.position] = true;
    let mut progress = true;
    while progress {
        progress = false;
        for (i, r) in cipher.relations.iter().enumerate() {
            if reachable[i] {
                continue;
            }
            if let Some(rel) = r {
                if reachable[rel.reference()] {
                    reachable[i] = true;
                    progress = true;
                }
            }
        }
    }
    assert!(reachable.iter().all(|&b| b), "all nodes reachable");
}

#[test]
fn chain_encoder_rejects_empty_and_out_of_range() {
    let (_a, key) = fresh_key(11);
    let mut rng = rand::rngs::StdRng::seed_from_u64(0);
    assert!(matches!(
        encrypt_chain("", &key, 0, &mut rng),
        Err(MusubiError::EmptyPlaintext)
    ));
    assert!(matches!(
        encrypt_chain("abc", &key, 9, &mut rng),
        Err(MusubiError::AnchorOutOfRange { .. })
    ));
}

fn small_key() -> Key {
    // ranks: a=0 b=1 c=2 d=3 e=4
    let alphabet = Alphabet::new("abcde", vec!['a', 'b', 'c', 'd', 'e']).unwrap();
    Key::new(&alphabet, vec!['a', 'b', 'c', 'd', 'e']).unwrap()
}

fn cipher_of(relations: Vec<Option<Relation>>, anchor: usize, ch: char) -> Ciphertext {
    Ciphertext {
        version: 1,
        alphabet: "abcde".to_string(),
        length: relations.len(),
        anchor: Anchor { position: anchor, character: ch },
        relations,
    }
}

#[test]
fn canonical_relations_exact() {
    let key = small_key();
    // b -> a: shift -1; e from b: rank 4 - 1 = 3 > 5/2 -> -2; a from e: 0 + 4 = 4, -4 mod 5 = 1 -> shift 1;
    // d from b: 1 + 3 = 4 (no mirror), 3 - 1 = 2 -> shift 2; e from a: 0 + 4 -> shift -1
    let cipher = encrypt("abbd", &key, 1).unwrap();
    assert_eq!(cipher.version, 1);
    assert_eq!(cipher.alphabet, "abcde");
    assert_eq!(cipher.length, 4);
    assert_eq!(cipher.anchor, Anchor { position: 1, character: 'b' });
    assert_eq!(
        cipher.relations,
        vec![
            Some(Relation::Shift { reference: 1, delta: -1 }),
            None,
            Some(Relation::Same { reference: 1 }),
            Some(Relation::Shift { reference: 2, delta: 2 }),
        ]
    );
    assert_eq!(decrypt(&cipher, &key).unwrap(), "abbd");
}

#[test]
fn mirror_relation_detected() {
    let key = small_key();
    // b (rank 1) and e (rank 4): 1 + 4 = 5 = 0 mod 5 -> mirror
    let cipher = encrypt("be", &key, 0).unwrap();
    assert_eq!(cipher.relations[1], Some(Relation::Mirror { reference: 0 }));
    assert_eq!(decrypt(&cipher, &key).unwrap(), "be");
    // a (rank 0) mirrors itself only; e from a: 4 - 0 = 4 > 2 -> -1
    let cipher = encrypt("ae", &key, 0).unwrap();
    assert_eq!(cipher.relations[1], Some(Relation::Shift { reference: 0, delta: -1 }));
}

#[test]
fn decrypt_reports_exact_errors() {
    let key = small_key();
    let ok = cipher_of(vec![None, Some(Relation::Shift { reference: 0, delta: 2 })], 0, 'a');
    assert_eq!(decrypt(&ok, &key).unwrap(), "ac");

    let mut c = ok.clone();
    c.version = 2;
    assert_eq!(
        decrypt(&c, &key).unwrap_err(),
        MusubiError::MalformedCiphertext { reason: "unsupported version 2".to_string() }
    );

    let mut c = ok.clone();
    c.alphabet = "zz".to_string();
    assert_eq!(
        decrypt(&c, &key).unwrap_err(),
        MusubiError::AlphabetMismatch { expected: "abcde".to_string(), got: "zz".to_string() }
    );

    let mut c = ok.clone();
    c.length = 3;
    assert_eq!(
        decrypt(&c, &key).unwrap_err(),
        MusubiError::MalformedCiphertext {
            reason: "relations length 2 does not match declared length 3".to_string()
        }
    );

    let c = cipher_of(vec![], 0, 'a');
    assert_eq!(
        decrypt(&c, &key).unwrap_err(),
        MusubiError::MalformedCiphertext { reason: "ciphertext has zero length".to_string() }
    );

    let mut c = ok.clone();
    c.anchor.position = 2;
    assert_eq!(
        decrypt(&c, &key).unwrap_err(),
        MusubiError::AnchorOutOfRange { position: 2, length: 2 }
    );

    let mut c = ok.clone();
    c.anchor.position = 1;
    assert_eq!(
        decrypt(&c, &key).unwrap_err(),
        MusubiError::MalformedCiphertext {
            reason: "anchor position 1 must have null relation".to_string()
        }
    );

    let mut c = ok.clone();
    c.anchor.character = 'z';
    assert_eq!(
        decrypt(&c, &key).unwrap_err(),
        MusubiError::CharOutsideAlphabet { ch: 'z' }
    );
}

#[test]
fn decrypt_reports_first_bad_slot() {
    let key = small_key();
    let c = cipher_of(
        vec![None, None, Some(Relation::Same { reference: 9 }), None],
        0,
        'a',
    );
    assert_eq!(
        decrypt(&c, &key).unwrap_err(),
        MusubiError::MalformedCiphertext { reason: "missing relation at position 1".to_string() }
    );
    let c = cipher_of(
        vec![
            None,
            Some(Relation::Same { reference: 0 }),
            Some(Relation::Same { reference: 9 }),
            Some(Relation::Same { reference: 0 }),
        ],
        0,
        'a',
    );
    assert_eq!(
        decrypt(&c, &key).unwrap_err(),
        MusubiError::MalformedCiphertext {
            reason: "relation at position 2 references out-of-range index 9".to_string()
        }
    );
}

#[test]
fn decrypt_rejects_empty_slots_before_the_anchor_character() {
    let key = small_key();
    // an empty slot is refused before an anchor character outside the key
    let c = cipher_of(vec![None, Some(Relation::Same { reference: 0 }), None], 0, 'z');
    assert_eq!(
        decrypt(&c, &key).unwrap_err(),
        MusubiError::MalformedCiphertext { reason: "missing relation at position 2".to_string() }
    );
    // and before a dangling reference at an earlier position
    let c = cipher_of(
        vec![None, Some(Relation::Same { reference: 9 }), None],
        0,
        'a',
    );
    assert_eq!(
        decrypt(&c, &key).unwrap_err(),
        MusubiError::MalformedCiphertext { reason: "missing relation at position 2".to_string() }
    );
}

#[test]
fn decrypt_rejects_cycles() {
    let key = small_key();
    let c = cipher_of(
        vec![
            None,
            Some(Relation::Same { reference: 2 }),
            Some(Relation::Same { reference: 1 }),
        ],
        0,
        'a',
    );
    assert_eq!(
        decrypt(&c, &key).unwrap_err(),
        MusubiError::MalformedCiphertext {
            reason: "relation graph has cycles or unreachable positions".to_string()
        }
    );
    let c = cipher_of(vec![None, Some(Relation::Mirror { reference: 1 })], 0, 'a');
    assert!(matches!(decrypt(&c, &key), Err(MusubiError::MalformedCiphertext { .. })));
}

#[test]
fn decrypt_follows_any_tree() {
    let key = small_key();
    // anchor at 2 ('c', rank 2); 0 from 3, 3 from 2, 1 from 0
    let c = cipher_of(
        vec![
            Some(Relation::Shift { reference: 3, delta: -7 }),
            Some(Relation::Mirror { reference: 0 }),
            None,
            Some(Relation::Shift { reference: 2, delta: 2 }),
        ],
        2,
        'c',
    );
    // 3: 2 + 2 = 4 -> e; 0: 4 - 7 = -3 -> 2 -> c; 1: -2 -> 3 -> d
    assert_eq!(decrypt(&c, &key).unwrap(), "cdce");
}

#[test]
fn anchor_defaults_to_the_middle() {
    assert_eq!(musubi::anchor_for("あいしてる", None), Ok(2));
    assert_eq!(musubi::anchor_for("ab", Some(7)), Ok(7));
    assert_eq!(musubi::anchor_for("", Some(0)), Err(MusubiError::EmptyPlaintext));
}

#[test]
fn chain_encoder_weaves_beyond_neighbours() {
    let (_a, key) = fresh_key(0xACED);
    let plaintext = "あいうえおかきくけこさしすせそ";
    let canonical = encrypt(plaintext, &key, 0).unwrap();
    let mut differs = false;
    for seed in 0..8u64 {
        let mut rng = rand::rngs::StdRng::seed_from_u64(seed);
        let woven = encrypt_chain(plaintext, &key, 0, &mut rng).unwrap();
        assert_eq!(decrypt(&woven, &key).unwrap(), plaintext);
        if woven.relations != canonical.relations {
            differs = true;
        }
    }
    assert!(differs);
}

#[test]
fn refused_chain_encryption_draws_nothing() {
    let (_a, key) = fresh_key(11);
    let mut used = rand::rngs::StdRng::seed_from_u64(5);
    let mut fresh = rand::rngs::StdRng::seed_from_u64(5);
    assert!(encrypt_chain("", &key, 0, &mut used).is_err());
    assert!(encrypt_chain("abc", &key, 3, &mut used).is_err());
    assert!(encrypt_chain("ab\u{0}", &key, 0, &mut used).is_err());
    assert_eq!(used.next_u64(), fresh.next_u64());
}

#[test]
fn encrypt_along_follows_the_draws() {
    let key = small_key();
    // anchor 0 ('a'); visit 2 from the anchor, then 1 from 2
    let c = encrypt_along("abc", &key, 0, &vec![2, 1], &vec![0, 2]).unwrap();
    assert_eq!(c.anchor, Anchor { position: 0, character: 'a' });
    assert_eq!(
        c.relations,
        vec![
            None,
            Some(Relation::Shift { reference: 2, delta: -1 }),
            Some(Relation::Shift { reference: 0, delta: 2 }),
        ]
    );
    assert_eq!(decrypt(&c, &key).unwrap(), "abc");
    // a chain straight from the anchor is the canonical encryption
    let c = encrypt_along("abcd", &key, 0, &vec![1, 2, 3], &vec![0, 1, 2]).unwrap();
    assert_eq!(c, encrypt("abcd", &key, 0).unwrap());
}

#[test]
fn encrypt_along_refuses_as_encrypt_does() {
    let key = small_key();
    assert_eq!(
        encrypt_along("", &key, 0, &vec![], &vec![]),
        Err(MusubiError::EmptyPlaintext)
    );
    assert_eq!(
        encrypt_along("ab", &key, 2, &vec![], &vec![]),
        Err(MusubiError::AnchorOutOfRange { position: 2, length: 2 })
    );
    assert_eq!(
        encrypt_along("azb", &key, 0, &vec![1, 2], &vec![0, 0]),
        Err(MusubiError::CharOutsideAlphabet { ch: 'z' })
    );
}
