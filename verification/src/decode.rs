//! Recovering every position of a ciphertext from its anchor.
//!
//! Positions are filled pass by pass: a position is decoded as soon as its
//! reference is known. A pass that decodes nothing means that the remaining
//! positions never reach the anchor.

use vstd::prelude::*;

use crate::cipher::{
    all_slots_ok, apply_relation, dangling_reference_text, decoded, header_ok, is_first_bad_slot,
    lemma_first_bad_slot_unique, malformed_with, missing_relation_text, rooted, slot_ok,
    tangled_graph_text, CipherView, Ciphertext,
};
use crate::error::{MusubiError, Result};
use crate::graph::{
    count_none, decode_at, lemma_count_none_all, lemma_count_none_fill, lemma_count_none_zero,
    lemma_decode_in_perm, lemma_decode_stable, lemma_empty_closed, lemma_reaches_mono, reaches,
};
use crate::key::Key;
use crate::relation::{apply_in, Relation};
use crate::text::{push_decimal, text_with_number};

verus! {

/// The decoding state: `chars` holds the positions decoded so far, with the
/// anchor among them; `remaining` counts the others. Every decoded position
/// reaches the anchor within as many steps as positions have been decoded,
/// and holds the character that the chain of relations gives it.
spec fn state_ok(cv: CipherView, perm: Seq<char>, chars: Seq<Option<char>>, remaining: nat) -> bool {
    let n = cv.length as int;
    let a = cv.anchor.position as int;
    let ac = cv.anchor.character;
    &&& chars.len() == n
    &&& chars[a] == Some(ac)
    &&& remaining <= n - 1
    &&& remaining == count_none(chars)
    &&& forall|j: int|
        0 <= j < n && #[trigger] chars[j] is Some ==> {
            &&& reaches(cv.relations, a, j, (n - 1 - remaining) as nat)
            &&& chars[j]->0 == decode_at(cv.relations, perm, a, ac, j, n as nat)
        }
}

/// Every undecoded position references another undecoded position.
spec fn stuck(cv: CipherView, chars: Seq<Option<char>>) -> bool {
    forall|j: int|
        0 <= j < cv.length && #[trigger] chars[j] is None ==> match cv.relations[j] {
            Some(rel) => rel.ref_index() < cv.length && chars[rel.ref_index() as int] is None,
            None => false,
        }
}

proof fn lemma_fill_step(
    cv: CipherView,
    perm: Seq<char>,
    chars: Seq<Option<char>>,
    remaining: nat,
    i: int,
    rel: Relation,
    ch: char,
)
    requires
        header_ok(cv, perm, cv.alphabet),
        state_ok(cv, perm, chars, remaining),
        0 <= i < cv.length,
        chars[i] is None,
        cv.relations[i] == Some(rel),
        rel.ref_index() < cv.length,
        chars[rel.ref_index() as int] is Some,
        ch == apply_in(rel, chars[rel.ref_index() as int]->0, perm),
    ensures
        remaining > 0,
        state_ok(cv, perm, chars.update(i, Some(ch)), (remaining - 1) as nat),
{
    lemma_count_none_fill(chars, i, ch);
    let n = cv.length as int;
    let a = cv.anchor.position as int;
    let ac = cv.anchor.character;
    let rels = cv.relations;
    let ri = rel.ref_index() as int;
    let f = (n - 1 - remaining) as nat;
    assert(i != a);
    assert(chars[ri] is Some);
    lemma_decode_stable(rels, perm, a, ac, ri, f, (n - 1) as nat);
    lemma_decode_stable(rels, perm, a, ac, ri, f, n as nat);
    assert(decode_at(rels, perm, a, ac, i, n as nat) == apply_in(
        rel,
        decode_at(rels, perm, a, ac, ri, (n - 1) as nat),
        perm,
    ));
    assert(reaches(rels, a, i, f + 1));
    let new_chars = chars.update(i, Some(ch));
    assert forall|j: int| 0 <= j < n && #[trigger] new_chars[j] is Some implies {
        &&& reaches(rels, a, j, f + 1)
        &&& new_chars[j]->0 == decode_at(rels, perm, a, ac, j, n as nat)
    } by {
        if j != i {
            assert(chars[j] is Some);
            lemma_reaches_mono(rels, a, j, f, f + 1);
        }
    }
}

/// One pass over all positions, decoding each undecoded position whose
/// reference is already decoded.
///
/// On the first pass (`checked` false) every slot is examined, and the first
/// bad slot is refused; the result `Ok(progress)` says whether any position
/// was decoded.
fn fill_pass(
    cipher: &Ciphertext,
    key: &Key,
    chars: &mut Vec<Option<char>>,
    remaining: &mut usize,
    Ghost(checked): Ghost<bool>,
) -> (r: Result<bool>)
    requires
        header_ok(cipher@, key.perm(), key.alphabet_id_view()),
        key.perm().len() > 0,
        state_ok(cipher@, key.perm(), old(chars)@, *old(remaining) as nat),
        *old(remaining) > 0,
        checked ==> all_slots_ok(cipher@),
        !checked ==> forall|j: int|
            0 <= j < cipher.length && j != cipher.anchor.position ==> #[trigger] old(chars)@[j]
                is None,
    ensures
        r matches Ok(progress) ==> {
            &&& state_ok(cipher@, key.perm(), final(chars)@, *final(remaining) as nat)
            &&& all_slots_ok(cipher@)
            &&& progress ==> *final(remaining) < *old(remaining)
            &&& !progress ==> final(chars)@ == old(chars)@ && *final(remaining) == *old(remaining)
                && stuck(cipher@, final(chars)@)
        },
        r is Err ==> !all_slots_ok(cipher@),
        forall|i: int| #[trigger]
            is_first_bad_slot(cipher@, i) ==> match cipher.relations@[i] {
                None => malformed_with(r, missing_relation_text(i as nat)),
                Some(rel) => malformed_with(
                    r,
                    dangling_reference_text(i as nat, rel.ref_index() as nat),
                ),
            },
{
    let ghost cv = cipher@;
    let ghost perm = key.perm();
    let ghost start = chars@;
    let ghost start_remaining = *remaining;
    let n = cipher.length;
    let ghost a = cipher.anchor.position as int;
    let mut progress = false;
    let mut i: usize = 0;
    while i < n
        invariant
            cv == cipher@,
            perm == key.perm(),
            perm.len() > 0,
            header_ok(cv, perm, key.alphabet_id_view()),
            n == cv.length,
            a == cv.anchor.position,
            0 <= i <= n,
            state_ok(cv, perm, chars@, *remaining as nat),
            *remaining <= start_remaining,
            start_remaining > 0,
            progress ==> *remaining < start_remaining,
            !progress ==> *remaining == start_remaining && chars@ == start,
            !progress ==> forall|j: int|
                0 <= j < i && #[trigger] chars@[j] is None ==> match cv.relations[j] {
                    Some(rel) => rel.ref_index() < n && chars@[rel.ref_index() as int] is None,
                    None => false,
                },
            checked ==> all_slots_ok(cv),
            !checked ==> forall|j: int| 0 <= j < i && j != a ==> #[trigger] slot_ok(cv, j),
            !checked ==> forall|j: int| i <= j < n && j != a ==> #[trigger] chars@[j] is None,
        decreases n - i,
    {
        if chars[i].is_none() {
            proof {
                assert(i != a);
                if checked {
                    assert(slot_ok(cv, i as int));
                }
            }
            let rel = match cipher.relations[i] {
                Some(rel) => rel,
                None => {
                    proof {
                        assert(is_first_bad_slot(cv, i as int));
                        lemma_first_bad_slot_unique(cv, i as int);
                    }
                    return Err(
                        MusubiError::MalformedCiphertext {
                            reason: text_with_number("missing relation at position ", i),
                        },
                    );
                },
            };
            let ref_idx = rel.reference();
            if ref_idx >= n {
                proof {
                    assert(is_first_bad_slot(cv, i as int));
                    lemma_first_bad_slot_unique(cv, i as int);
                }
                let mut reason = text_with_number("relation at position ", i);
                reason.append(" references out-of-range index ");
                push_decimal(&mut reason, ref_idx);
                return Err(MusubiError::MalformedCiphertext { reason });
            }
            match chars[ref_idx] {
                Some(ref_char) => {
                    proof {
                        lemma_decode_in_perm(
                            cv.relations,
                            perm,
                            a,
                            cv.anchor.character,
                            ref_idx as int,
                            n as nat,
                        );
                    }
                    let ch = match apply_relation(rel, ref_char, key) {
                        Ok(c) => c,
                        Err(e) => {
                            return Err(e);
                        },
                    };
                    proof {
                        lemma_fill_step(cv, perm, chars@, *remaining as nat, i as int, rel, ch);
                    }
                    chars.set(i, Some(ch));
                    progress = true;
                    *remaining = *remaining - 1;
                },
                None => {},
            }
        }
        i = i + 1;
    }
    Ok(progress)
}

/// Decodes every position of `cipher`, whose fixed fields are known to agree
/// with `key`.
pub(crate) fn resolve_positions(cipher: &Ciphertext, key: &Key) -> (r: Result<Vec<char>>)
    requires
        header_ok(cipher@, key.perm(), key.alphabet_id_view()),
    ensures
        r is Ok <==> all_slots_ok(cipher@) && rooted(cipher@),
        r matches Ok(v) ==> v@ == decoded(cipher@, key.perm()),
        forall|i: int| #[trigger]
            is_first_bad_slot(cipher@, i) ==> match cipher.relations@[i] {
                None => malformed_with(r, missing_relation_text(i as nat)),
                Some(rel) => malformed_with(
                    r,
                    dangling_reference_text(i as nat, rel.ref_index() as nat),
                ),
            },
        all_slots_ok(cipher@) && !rooted(cipher@) ==> malformed_with(r, tangled_graph_text()),
{
    proof {
        use_type_invariant(key);
    }
    let ghost cv = cipher@;
    let ghost perm = key.perm();
    let ghost rels = cipher.relations@;
    let n = cipher.length;
    let anchor_pos = cipher.anchor.position;
    let ghost a = anchor_pos as int;
    let ghost ac = cipher.anchor.character;
    let mut chars: Vec<Option<char>> = Vec::new();
    let mut k: usize = 0;
    while k < n
        invariant
            0 <= k <= n,
            chars@.len() == k,
            forall|j: int| 0 <= j < k ==> chars@[j] is None,
        decreases n - k,
    {
        chars.push(None);
        k = k + 1;
    }
    proof {
        lemma_count_none_all(chars@);
        lemma_count_none_fill(chars@, a, ac);
    }
    chars.set(anchor_pos, Some(cipher.anchor.character));
    let mut remaining: usize = n - 1;
    let ghost mut checked = false;
    proof {
        let c = chars@;
        assert forall|j: int| 0 <= j < n && #[trigger] c[j] is Some implies {
            &&& reaches(rels, a, j, (n - 1 - remaining) as nat)
            &&& c[j]->0 == decode_at(rels, perm, a, ac, j, n as nat)
        } by {
            assert(j == a);
        }
        assert(state_ok(cv, perm, chars@, remaining as nat));
    }
    while remaining > 0
        invariant
            cv == cipher@,
            perm == key.perm(),
            perm.len() > 0,
            header_ok(cv, perm, key.alphabet_id_view()),
            state_ok(cv, perm, chars@, remaining as nat),
            rels == cv.relations,
            n == cv.length,
            a == cv.anchor.position,
            ac == cv.anchor.character,
            checked ==> all_slots_ok(cv),
            !checked ==> forall|j: int|
                0 <= j < cv.length && j != cv.anchor.position ==> #[trigger] chars@[j] is None,
        decreases remaining,
    {
        let progress = match fill_pass(cipher, key, &mut chars, &mut remaining, Ghost(checked)) {
            Ok(p) => p,
            Err(e) => {
                return Err(e);
            },
        };
        proof {
            checked = true;
        }
        if !progress {
            proof {
                lemma_count_none_zero(chars@);
                let j = choose|j: int| 0 <= j < n && !(#[trigger] chars@[j] is Some);
                if reaches(rels, a, j, n as nat) {
                    lemma_empty_closed(rels, chars@, a, j, n as nat);
                }
                assert(!rooted(cv));
            }
            return Err(
                MusubiError::MalformedCiphertext {
                    reason: String::from_str("relation graph has cycles or unreachable positions"),
                },
            );
        }
    }
    proof {
        lemma_count_none_zero(chars@);
    }
    let mut out: Vec<char> = Vec::new();
    let mut j: usize = 0;
    while j < n
        invariant
            0 <= j <= n,
            cv == cipher@,
            n == cv.length,
            state_ok(cv, perm, chars@, 0),
            forall|x: int| 0 <= x < n ==> #[trigger] chars@[x] is Some,
            out@ == decoded(cv, perm).take(j as int),
        decreases n - j,
    {
        let c = match chars[j] {
            Some(c) => c,
            None => ' ',
        };
        out.push(c);
        proof {
            assert(decoded(cv, perm).take(j + 1) == decoded(cv, perm).take(j as int).push(c));
        }
        j = j + 1;
    }
    proof {
        assert(decoded(cv, perm).take(n as int) == decoded(cv, perm));
        assert forall|x: int| 0 <= x < n implies #[trigger] reaches(rels, a, x, n as nat) by {
            assert(chars@[x] is Some);
            lemma_reaches_mono(rels, a, x, (n - 1) as nat, n as nat);
        }
        assert forall|x: int| 0 <= x < n && x != a implies #[trigger] slot_ok(cv, x) by {
            assert(chars@[x] is Some);
            assert(reaches(rels, a, x, n as nat));
        }
    }
    Ok(out)
}

} // verus!
