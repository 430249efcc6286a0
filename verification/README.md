# musubi

A relational classical cipher: a ciphertext reveals one *anchor* character
and describes every other character by its relation (same, shift, mirror)
to another position, in the order fixed by a secret permutation of the
alphabet. A toy cipher for love letters and puzzles, not for secrets.

## Layout

- `src/` — the library, verified with Verus.
  - `alphabet.rs`: alphabets and the 175-character default alphabet.
  - `key.rs`: keys (permutations of an alphabet), their ranks and documents.
  - `relation.rs`: relations and what they compute.
  - `cipher.rs`: the canonical encoder, the chain encoder with the encoder
    along given draws, and the decoder.
  - `decode.rs`, `graph.rs`: the decoding passes and the reference graph.
  - `laws.rs`: round-trip and key properties, proved.
  - `text.rs`, `splash.rs`: text helpers and the splash screen's lines.
  - `rng.rs`: the calls into `rand`.
- `tests/` — tests run against the compiled library.
- `app/` — the `musubi` command line (`keygen`, `encrypt`, `decrypt`): file
  and terminal I/O, argument parsing, and the JSON forms of keys and
  ciphertexts.
