//! Properties of the cipher as a whole, stated over the specifications
//! that the operations' contracts use, and proved.

use vstd::prelude::*;

use crate::cipher::{
    all_in_key, canonical_encryption, canonical_relations, decodable, decoded, relates_plaintext,
    rooted, slot_ok, slot_relates, woven_encryption, CipherView, FORMAT_VERSION,
};
use crate::graph::{decode_at, lemma_decode_in_perm, lemma_decode_stable, lemma_reaches_mono, reaches};
use crate::key::{
    lemma_accepted_is_rearrangement, lemma_rearrangement_accepted, permutation_accepted, rank_in,
    usable_perm,
};
use crate::relation::{apply_in, relation_between, shift_delta, target_rank, Relation};

verus! {

proof fn lemma_index_of(perm: Seq<char>, c: char)
    requires
        perm.contains(c),
    ensures
        0 <= perm.index_of(c) < perm.len(),
        perm[perm.index_of(c)] == c,
{
}

/// A shift between two characters is normalized into `[-n/2, n/2]` for an
/// alphabet of `n` characters.
pub proof fn law_shift_delta_in_range(c: char, ref_c: char, ref_idx: usize, perm: Seq<char>)
    requires
        usable_perm(perm),
        perm.contains(c),
        perm.contains(ref_c),
    ensures
        relation_between(c, ref_c, ref_idx, perm) matches Relation::Shift { delta, .. } ==> -(
        perm.len() / 2) <= delta <= perm.len() / 2,
        relation_between(c, ref_c, ref_idx, perm).ref_index() == ref_idx,
{
    let n = perm.len() as int;
    let r0 = perm.index_of(ref_c);
    let r1 = perm.index_of(c);
    lemma_index_of(perm, c);
    lemma_index_of(perm, ref_c);
    let raw = (r1 - r0) % n;
    vstd::arithmetic::div_mod::lemma_mod_bound(r1 - r0, n);
    let d = shift_delta(r0, r1, n);
    assert(-(n / 2) <= d <= n / 2);
    assert(d as i32 == d);
}

/// Applying the relation that describes `c` from `ref_c` to `ref_c` gives
/// back `c`: the decoder undoes what the encoder wrote.
pub proof fn law_apply_inverts_relation(c: char, ref_c: char, ref_idx: usize, perm: Seq<char>)
    requires
        usable_perm(perm),
        perm.contains(c),
        perm.contains(ref_c),
    ensures
        apply_in(relation_between(c, ref_c, ref_idx, perm), ref_c, perm) == c,
{
    let n = perm.len() as int;
    let r0 = perm.index_of(ref_c);
    let r1 = perm.index_of(c);
    lemma_index_of(perm, c);
    lemma_index_of(perm, ref_c);
    law_shift_delta_in_range(c, ref_c, ref_idx, perm);
    let rel = relation_between(c, ref_c, ref_idx, perm);
    if c == ref_c {
    } else if (r0 + r1) % n == 0 {
        vstd::arithmetic::div_mod::lemma_sub_mod_noop_right(r1, r0 + r1, n);
        vstd::arithmetic::div_mod::lemma_small_mod(r1 as nat, n as nat);
        assert(r1 - (r0 + r1) == -r0);
        assert(target_rank(rel, r0, n) == r1);
    } else {
        let raw = (r1 - r0) % n;
        let d = shift_delta(r0, r1, n);
        assert(d as i32 == d);
        vstd::arithmetic::div_mod::lemma_add_mod_noop_right(r0, r1 - r0, n);
        vstd::arithmetic::div_mod::lemma_small_mod(r1 as nat, n as nat);
        assert((r0 + raw) % n == r1);
        if raw > n / 2 {
            vstd::arithmetic::div_mod::lemma_mod_sub_multiples_vanish(r0 + raw, n);
            assert(r0 + raw - n == r0 + d);
        }
        assert(target_rank(rel, r0, n) == r1);
    }
}

/// What each relation means for a key: `Same` yields the referenced
/// character itself, `Shift { delta }` the character whose rank is the
/// referenced character's rank plus `delta`, and `Mirror` the character whose
/// rank is minus the referenced character's rank, both modulo the alphabet
/// size.
pub proof fn law_relation_meaning(reference: usize, delta: i32, c: char, perm: Seq<char>)
    requires
        usable_perm(perm),
        perm.contains(c),
    ensures
        apply_in((Relation::Same { reference }), c, perm) == c,
        apply_in((Relation::Shift { reference, delta }), c, perm) == perm[(perm.index_of(c)
            + delta) % (perm.len() as int)],
        apply_in((Relation::Mirror { reference }), c, perm) == perm[(perm.len() - perm.index_of(
            c,
        )) % (perm.len() as int)],
{
    let n = perm.len() as int;
    let r = perm.index_of(c);
    lemma_index_of(perm, c);
    vstd::arithmetic::div_mod::lemma_mod_add_multiples_vanish(-r, n);
    assert(n - r == -r + n);
}

/// The relation the encoders write for `c` from `ref_c`: `Same` exactly for
/// equal characters; `Mirror` exactly for distinct characters whose ranks add
/// up to zero modulo the alphabet size; otherwise a `Shift` whose delta, in
/// `[-n/2, n/2]`, carries the reference's rank onto `c`'s rank. Every kind
/// keeps the reference position.
pub proof fn law_relation_choice(c: char, ref_c: char, ref_idx: usize, perm: Seq<char>)
    requires
        usable_perm(perm),
        perm.contains(c),
        perm.contains(ref_c),
    ensures
        c == ref_c ==> relation_between(c, ref_c, ref_idx, perm) == (Relation::Same {
            reference: ref_idx,
        }),
        c != ref_c && (perm.index_of(c) + perm.index_of(ref_c)) % (perm.len() as int) == 0
            ==> relation_between(c, ref_c, ref_idx, perm) == (Relation::Mirror {
            reference: ref_idx,
        }),
        c != ref_c && (perm.index_of(c) + perm.index_of(ref_c)) % (perm.len() as int) != 0
            ==> relation_between(c, ref_c, ref_idx, perm) is Shift,
        c != ref_c && (perm.index_of(c) + perm.index_of(ref_c)) % (perm.len() as int) != 0
            ==> relation_between(c, ref_c, ref_idx, perm).ref_index() == ref_idx,
        c != ref_c && (perm.index_of(c) + perm.index_of(ref_c)) % (perm.len() as int) != 0
            ==> (perm.index_of(ref_c) + relation_between(c, ref_c, ref_idx, perm)->delta) % (
        perm.len() as int) == perm.index_of(c),
        c != ref_c && (perm.index_of(c) + perm.index_of(ref_c)) % (perm.len() as int) != 0
            ==> -(perm.len() / 2) <= relation_between(c, ref_c, ref_idx, perm)->delta
            <= perm.len() / 2,
{
    let n = perm.len() as int;
    let r0 = perm.index_of(ref_c);
    let r1 = perm.index_of(c);
    lemma_index_of(perm, c);
    lemma_index_of(perm, ref_c);
    assert((r1 + r0) % n == (r0 + r1) % n);
    if c != ref_c && (r0 + r1) % n != 0 {
        law_shift_delta_in_range(c, ref_c, ref_idx, perm);
        let raw = (r1 - r0) % n;
        let d = shift_delta(r0, r1, n);
        vstd::arithmetic::div_mod::lemma_mod_bound(r1 - r0, n);
        vstd::arithmetic::div_mod::lemma_fundamental_div_mod(r1 - r0, n);
        vstd::arithmetic::div_mod::lemma_mod_multiples_vanish((r1 - r0) / n, r0 + raw, n);
        assert(r1 == r0 + raw + n * ((r1 - r0) / n));
        vstd::arithmetic::div_mod::lemma_small_mod(r1 as nat, n as nat);
        assert((r0 + raw) % n == r1);
        if raw > n / 2 {
            vstd::arithmetic::div_mod::lemma_mod_sub_multiples_vanish(r0 + raw, n);
            assert(r0 + raw - n == r0 + d);
        }
        assert((r0 + d) % n == r1);
        assert(d as i32 == d);
    }
}

/// Each decoded position follows from its reference by its relation: for a
/// decodable ciphertext, the character decoded at a non-anchor position is
/// its relation applied to the character decoded at the referenced
/// position, so a shift by `delta` lands on the rank of the referenced
/// character plus `delta`. The anchor decodes to the anchor character.
pub proof fn law_decoded_follows_relations(cv: CipherView, perm: Seq<char>, id: Seq<char>, i: int)
    requires
        usable_perm(perm),
        decodable(cv, perm, id),
        0 <= i < cv.length,
    ensures
        decoded(cv, perm)[cv.anchor.position as int] == cv.anchor.character,
        i != cv.anchor.position ==> cv.relations[i] is Some,
        i != cv.anchor.position ==> decoded(cv, perm)[i] == apply_in(
            cv.relations[i]->0,
            decoded(cv, perm)[cv.relations[i]->0.ref_index() as int],
            perm,
        ),
        i != cv.anchor.position && cv.relations[i]->0 is Shift ==> decoded(cv, perm)[i]
            == perm[(perm.index_of(decoded(cv, perm)[cv.relations[i]->0.ref_index() as int])
            + cv.relations[i]->0->delta) % (perm.len() as int)],
{
    let n = cv.length as nat;
    let a = cv.anchor.position as int;
    let ac = cv.anchor.character;
    let rels = cv.relations;
    let out = decoded(cv, perm);
    assert(out[a] == decode_at(rels, perm, a, ac, a, n));
    if i != a {
        assert(slot_ok(cv, i));
        assert(reaches(rels, a, i, n));
        let rel = rels[i]->0;
        let r = rel.ref_index() as int;
        assert(reaches(rels, a, r, (n - 1) as nat));
        lemma_decode_stable(rels, perm, a, ac, r, (n - 1) as nat, n);
        assert(out[i] == decode_at(rels, perm, a, ac, i, n));
        assert(out[r] == decode_at(rels, perm, a, ac, r, n));
        assert(out[i] == apply_in(rel, out[r], perm));
        lemma_decode_in_perm(rels, perm, a, ac, r, n);
        law_relation_meaning(rel.ref_index(), 0, out[r], perm);
        match rel {
            Relation::Shift { reference, delta } => {
                law_relation_meaning(reference, delta, out[r], perm);
            },
            _ => {},
        }
    }
}

/// The ranks of a key and its characters are inverse to each other.
pub proof fn law_rank_and_char_inverse(perm: Seq<char>)
    requires
        perm.no_duplicates(),
    ensures
        forall|c: char| #[trigger]
            perm.contains(c) ==> (rank_in(perm, c) matches Some(r) && 0 <= r < perm.len()
                && perm[r] == c),
        forall|r: int| 0 <= r < perm.len() ==> rank_in(perm, #[trigger] perm[r]) == Some(r),
{
    assert forall|r: int| 0 <= r < perm.len() implies rank_in(perm, #[trigger] perm[r]) == Some(
        r,
    ) by {
        assert(perm.contains(perm[r]));
        lemma_index_of(perm, perm[r]);
    }
}

/// For a duplicate-free alphabet, a permutation is accepted as a key
/// exactly when it is a rearrangement of the alphabet: every character once.
/// So a key written as a document is read back for its own alphabet.
pub proof fn law_accepted_iff_rearrangement(perm: Seq<char>, alphabet: Seq<char>)
    requires
        alphabet.no_duplicates(),
    ensures
        permutation_accepted(perm, alphabet) <==> perm.to_multiset() == alphabet.to_multiset(),
{
    if permutation_accepted(perm, alphabet) {
        lemma_accepted_is_rearrangement(perm, alphabet);
    }
    if perm.to_multiset() == alphabet.to_multiset() {
        lemma_rearrangement_accepted(perm, alphabet);
    }
}

proof fn lemma_decode_relating(cv: CipherView, p: Seq<char>, perm: Seq<char>, i: int, k: nat)
    requires
        usable_perm(perm),
        all_in_key(p, perm),
        cv.length == p.len(),
        cv.relations.len() == p.len(),
        cv.anchor.position < p.len(),
        cv.anchor.character == p[cv.anchor.position as int],
        relates_plaintext(cv, p, perm),
        reaches(cv.relations, cv.anchor.position as int, i, k),
    ensures
        decode_at(cv.relations, perm, cv.anchor.position as int, cv.anchor.character, i, k)
            == p[i],
    decreases k,
{
    let a = cv.anchor.position as int;
    if i != a {
        assert(slot_relates(cv.relations, p, perm, i));
        match cv.relations[i] {
            Some(rel) => {
                let r = rel.ref_index() as int;
                lemma_decode_relating(cv, p, perm, r, (k - 1) as nat);
                law_apply_inverts_relation(p[i], p[r], rel.ref_index(), perm);
            },
            None => {},
        }
    }
}

/// A ciphertext whose slots relate the characters of `p` along a tree rooted
/// at the anchor decrypts to `p`. This covers every encoder of the crate.
pub proof fn law_decrypt_inverts_relating(cv: CipherView, p: Seq<char>, perm: Seq<char>, id: Seq<char>)
    requires
        usable_perm(perm),
        all_in_key(p, perm),
        cv.version == FORMAT_VERSION,
        cv.alphabet == id,
        cv.length == p.len(),
        p.len() > 0,
        cv.relations.len() == p.len(),
        cv.anchor.position < p.len(),
        cv.anchor.character == p[cv.anchor.position as int],
        cv.relations[cv.anchor.position as int] is None,
        relates_plaintext(cv, p, perm),
        rooted(cv),
    ensures
        decodable(cv, perm, id),
        decoded(cv, perm) == p,
{
    let a = cv.anchor.position as int;
    assert forall|j: int| 0 <= j < cv.length && j != a implies #[trigger] slot_ok(
        cv,
        j,
    ) by {
        assert(slot_relates(cv.relations, p, perm, j));
    }
    assert forall|i: int| 0 <= i < p.len() implies #[trigger] decoded(cv, perm)[i] == p[i] by {
        assert(reaches(cv.relations, a, i, cv.length as nat));
        lemma_decode_relating(cv, p, perm, i, cv.length as nat);
    }
}

proof fn lemma_canonical_reaches(p: Seq<char>, perm: Seq<char>, a: int, i: int)
    requires
        0 <= a < p.len(),
        0 <= i < p.len(),
        p.len() <= usize::MAX,
    ensures
        reaches(canonical_relations(p, perm, a), a, i, (if i < a { a - i } else { i - a }) as nat),
    decreases (if i < a { a - i } else { i - a }),
{
    let rels = canonical_relations(p, perm, a);
    if i < a {
        lemma_canonical_reaches(p, perm, a, i + 1);
        assert(rels[i] == Some(relation_between(p[i], p[i + 1], (i + 1) as usize, perm)));
    } else if i > a {
        lemma_canonical_reaches(p, perm, a, i - 1);
        assert(rels[i] == Some(relation_between(p[i], p[i - 1], (i - 1) as usize, perm)));
    }
}

/// Decrypting the canonical encryption of `p` gives back `p`, for every
/// anchor position.
pub proof fn law_round_trip(p: Seq<char>, perm: Seq<char>, id: Seq<char>, a: int)
    requires
        usable_perm(perm),
        all_in_key(p, perm),
        0 <= a < p.len(),
        p.len() <= usize::MAX,
    ensures
        decodable(canonical_encryption(p, perm, id, a), perm, id),
        decoded(canonical_encryption(p, perm, id, a), perm) == p,
{
    let cv = canonical_encryption(p, perm, id, a);
    let rels = canonical_relations(p, perm, a);
    assert forall|i: int| 0 <= i < cv.length implies #[trigger] reaches(
        cv.relations,
        cv.anchor.position as int,
        i,
        cv.length as nat,
    ) by {
        lemma_canonical_reaches(p, perm, a, i);
        lemma_reaches_mono(
            rels,
            a,
            i,
            (if i < a { a - i } else { i - a }) as nat,
            cv.length as nat,
        );
    }
    assert forall|i: int| 0 <= i < cv.length && i != a implies #[trigger] slot_relates(
        rels,
        p,
        perm,
        i,
    ) by {
        law_shift_delta_in_range(p[i], p[if i < a { i + 1 } else { i - 1 }], (if i < a { i + 1 } else { i - 1 }) as usize, perm);
    }
    law_decrypt_inverts_relating(cv, p, perm, id);
}

/// Decrypting what the chain encoder produced gives back the plaintext.
pub proof fn law_round_trip_woven(cv: CipherView, p: Seq<char>, perm: Seq<char>, id: Seq<char>, a: int)
    requires
        usable_perm(perm),
        all_in_key(p, perm),
        0 <= a < p.len(),
        woven_encryption(cv, p, perm, id, a),
    ensures
        decodable(cv, perm, id),
        decoded(cv, perm) == p,
{
    law_decrypt_inverts_relating(cv, p, perm, id);
}

} // verus!
