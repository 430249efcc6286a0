//! Encryption, decryption and the [`Ciphertext`] container.

use vstd::prelude::*;

use crate::error::{MusubiError, Result};
use crate::key::Key;
use crate::relation::{apply_in, relation_between, target_rank, Relation};
use crate::graph::{
    decode_at, lemma_apply_in_perm, lemma_reaches_mono, reaches,
};
use crate::decode::resolve_positions;
use crate::rng::{self, lemma_rearranged_same_items};
use crate::text::{decimal, push_char, push_chars, push_decimal, text_with_number};

verus! {

/// The on-disk format version of ciphertexts.
pub const FORMAT_VERSION: u32 = 1;

/// The revealed anchor: its position in the plaintext and its character.
#[derive(Debug, Clone, Copy, PartialEq, Eq, Structural)]
pub struct Anchor {
    /// Index of the anchor in the plaintext.
    pub position: usize,
    /// The plain character at that position.
    pub character: char,
}

/// A complete musubi ciphertext.
///
/// With the key, the plaintext is rebuilt from the anchor and the relations.
/// Each non-anchor position holds exactly one relation; the anchor's slot is
/// `None`.
#[derive(Debug, Clone, PartialEq, Eq)]
pub struct Ciphertext {
    /// Format version (currently [`FORMAT_VERSION`]).
    pub version: u32,
    /// Identifier of the alphabet the ciphertext was produced for.
    pub alphabet: String,
    /// Length of the plaintext in characters.
    pub length: usize,
    /// The revealed character that anchors the chain.
    pub anchor: Anchor,
    /// One slot per position; the anchor's slot is `None`.
    pub relations: Vec<Option<Relation>>,
}

/// The mathematical content of a ciphertext.
pub struct CipherView {
    /// The format version.
    pub version: u32,
    /// The alphabet identifier.
    pub alphabet: Seq<char>,
    /// The declared length.
    pub length: usize,
    /// The revealed anchor.
    pub anchor: Anchor,
    /// The relation slots.
    pub relations: Seq<Option<Relation>>,
}

impl View for Ciphertext {
    type V = CipherView;

    open spec fn view(&self) -> CipherView {
        CipherView {
            version: self.version,
            alphabet: self.alphabet@,
            length: self.length,
            anchor: self.anchor,
            relations: self.relations@,
        }
    }
}

/// `j` is the first position of `p` whose character the key does not hold.
pub open spec fn is_first_foreign(p: Seq<char>, perm: Seq<char>, j: int) -> bool {
    &&& 0 <= j < p.len()
    &&& !perm.contains(p[j])
    &&& forall|k: int| 0 <= k < j ==> perm.contains(p[k])
}

/// Every character of `p` is held by the key.
pub open spec fn all_in_key(p: Seq<char>, perm: Seq<char>) -> bool {
    forall|j: int| 0 <= j < p.len() ==> perm.contains(p[j])
}

/// The relations of the canonical encoder: each non-anchor position is
/// described from its neighbour one step closer to the anchor.
pub open spec fn canonical_relations(p: Seq<char>, perm: Seq<char>, a: int) -> Seq<
    Option<Relation>,
> {
    Seq::new(
        p.len(),
        |i: int|
            if i == a {
                None
            } else if i < a {
                Some(relation_between(p[i], p[i + 1], (i + 1) as usize, perm))
            } else {
                Some(relation_between(p[i], p[i - 1], (i - 1) as usize, perm))
            },
    )
}

/// The canonical ciphertext of `p` under the key `(perm, id)` with the anchor
/// at `a`.
pub open spec fn canonical_encryption(p: Seq<char>, perm: Seq<char>, id: Seq<char>, a: int) -> CipherView {
    CipherView {
        version: FORMAT_VERSION,
        alphabet: id,
        length: p.len() as usize,
        anchor: Anchor { position: a as usize, character: p[a] },
        relations: canonical_relations(p, perm, a),
    }
}

/// The relation that describes `c` from `ref_c` at position `ref_idx`.
fn make_relation(c: char, ref_c: char, ref_idx: usize, key: &Key) -> (r: Relation)
    requires
        key.perm().contains(c),
        key.perm().contains(ref_c),
    ensures
        r == relation_between(c, ref_c, ref_idx, key.perm()),
{
    let n = key.len();
    let r0 = match key.rank_of(ref_c) {
        Some(r) => r,
        None => 0,
    };
    let r1 = match key.rank_of(c) {
        Some(r) => r,
        None => 0,
    };
    let ghost perm = key.perm();
    proof {
        assert(r0 == perm.index_of(ref_c));
        assert(r1 == perm.index_of(c));
    }
    if c == ref_c {
        Relation::Same { reference: ref_idx }
    } else if (r0 == 0 && r1 == 0) || (r0 > 0 && r1 == n - r0) {
        proof {
            if r0 == 0 {
                assert((r0 + r1) as int % n as int == 0);
            } else {
                assert((r0 + r1) as int == n as int);
                vstd::arithmetic::div_mod::lemma_mod_self_0(n as int);
            }
        }
        Relation::Mirror { reference: ref_idx }
    } else {
        proof {
            let s = r0 + r1;
            if s < n {
                vstd::arithmetic::div_mod::lemma_small_mod(s as nat, n as nat);
            } else {
                vstd::arithmetic::div_mod::lemma_mod_sub_multiples_vanish(s as int, n as int);
                vstd::arithmetic::div_mod::lemma_small_mod((s - n) as nat, n as nat);
            }
        }
        let raw: usize = if r1 >= r0 {
            r1 - r0
        } else {
            n - (r0 - r1)
        };
        proof {
            if r1 >= r0 {
                vstd::arithmetic::div_mod::lemma_small_mod(raw as nat, n as nat);
            } else {
                vstd::arithmetic::div_mod::lemma_mod_add_multiples_vanish(r1 - r0, n as int);
                vstd::arithmetic::div_mod::lemma_small_mod(raw as nat, n as nat);
            }
            assert(raw as int == (r1 - r0) % (n as int));
        }
        let delta: i128 = if raw > n / 2 {
            raw as i128 - n as i128
        } else {
            raw as i128
        };
        Relation::Shift { reference: ref_idx, delta: #[verifier::truncate] (delta as i32) }
    }
}

/// Encrypts `plaintext` with `key`, revealing the character at
/// `anchor_position`.
///
/// Each non-anchor position is described from the position one step closer
/// to the anchor: `Same` if the characters are equal, `Mirror` if their ranks
/// add up to zero modulo the alphabet size, `Shift` otherwise.
///
/// Refused with `EmptyPlaintext` for an empty plaintext, `AnchorOutOfRange`
/// for an anchor past the end, and `CharOutsideAlphabet` for the first
/// character the key does not hold.
pub fn encrypt(plaintext: &str, key: &Key, anchor_position: usize) -> (r: Result<Ciphertext>)
    ensures
        r is Ok <==> plaintext@.len() > 0 && anchor_position < plaintext@.len() && all_in_key(
            plaintext@,
            key.perm(),
        ),
        plaintext@.len() == 0 ==> r == Err::<Ciphertext, MusubiError>(MusubiError::EmptyPlaintext),
        plaintext@.len() > 0 && anchor_position >= plaintext@.len() ==> r == Err::<
            Ciphertext,
            MusubiError,
        >(
            MusubiError::AnchorOutOfRange {
                position: anchor_position,
                length: plaintext@.len() as usize,
            },
        ),
        forall|j: int|
            anchor_position < plaintext@.len() && #[trigger] is_first_foreign(
                plaintext@,
                key.perm(),
                j,
            ) ==> r == Err::<Ciphertext, MusubiError>(
                MusubiError::CharOutsideAlphabet { ch: plaintext@[j] },
            ),
        r matches Ok(c) ==> c@ == canonical_encryption(
            plaintext@,
            key.perm(),
            key.alphabet_id_view(),
            anchor_position as int,
        ),
{
    let chars = checked_chars(plaintext, key, anchor_position)?;
    let n = chars.len();
    let ghost p = plaintext@;
    let ghost perm = key.perm();
    let ghost canon = canonical_relations(p, perm, anchor_position as int);
    let mut relations = none_slots(n);
    let mut i = anchor_position;
    while i > 0
        invariant
            chars@ == p,
            n == p.len(),
            anchor_position < n,
            all_in_key(p, perm),
            perm == key.perm(),
            canon == canonical_relations(p, perm, anchor_position as int),
            0 <= i <= anchor_position,
            relations@.len() == n,
            forall|j: int| i <= j < anchor_position ==> relations@[j] == canon[j],
            forall|j: int| 0 <= j < n && !(i <= j < anchor_position) ==> relations@[j] is None,
        decreases i,
    {
        i = i - 1;
        let ref_idx = i + 1;
        let rel = make_relation(chars[i], chars[ref_idx], ref_idx, key);
        relations.set(i, Some(rel));
    }
    let mut i = anchor_position + 1;
    while i < n
        invariant
            chars@ == p,
            n == p.len(),
            anchor_position < n,
            all_in_key(p, perm),
            perm == key.perm(),
            canon == canonical_relations(p, perm, anchor_position as int),
            anchor_position + 1 <= i <= n,
            relations@.len() == n,
            forall|j: int| 0 <= j < i && j != anchor_position ==> relations@[j] == canon[j],
            relations@[anchor_position as int] is None,
        decreases n - i,
    {
        let ref_idx = i - 1;
        let rel = make_relation(chars[i], chars[ref_idx], ref_idx, key);
        relations.set(i, Some(rel));
        i = i + 1;
    }
    proof {
        assert(relations@ == canon);
    }
    Ok(
        Ciphertext {
            version: FORMAT_VERSION,
            alphabet: String::from_str(key.alphabet_id()),
            length: n,
            anchor: Anchor { position: anchor_position, character: chars[anchor_position] },
            relations,
        },
    )
}

/// Slot `x` holds a relation to another position of `p`, and that relation
/// is the one between the two characters of `p`.
pub open spec fn slot_relates(rels: Seq<Option<Relation>>, p: Seq<char>, perm: Seq<char>, x: int) -> bool {
    match rels[x] {
        Some(rel) => {
            &&& rel.ref_index() < p.len()
            &&& rel.ref_index() != x
            &&& rel == relation_between(p[x], p[rel.ref_index() as int], rel.ref_index(), perm)
        },
        None => false,
    }
}

/// Every non-anchor slot of `cv` relates its character of `p` to the
/// character of `p` at its reference.
pub open spec fn relates_plaintext(cv: CipherView, p: Seq<char>, perm: Seq<char>) -> bool {
    forall|i: int|
        0 <= i < cv.length && i != cv.anchor.position ==> #[trigger] slot_relates(
            cv.relations,
            p,
            perm,
            i,
        )
}

/// `cv` is a ciphertext of `p` under the key `(perm, id)` with the anchor at
/// `a`, whose relations form a tree rooted at the anchor: the shape that the
/// chain encoder produces.
pub open spec fn woven_encryption(
    cv: CipherView,
    p: Seq<char>,
    perm: Seq<char>,
    id: Seq<char>,
    a: int,
) -> bool {
    &&& cv.version == FORMAT_VERSION
    &&& cv.alphabet == id
    &&& cv.length == p.len()
    &&& cv.anchor == Anchor { position: a as usize, character: p[a] }
    &&& cv.relations.len() == p.len()
    &&& cv.relations[a] is None
    &&& relates_plaintext(cv, p, perm)
    &&& rooted(cv)
}

/// The draws of the chain encoder for a text of `n` positions with the
/// anchor at `a`: `order` visits every other position once, and `refs[k]`,
/// the reference drawn for the `k`-th visited position, is the anchor or a
/// position visited before it.
pub open spec fn valid_draws(order: Seq<usize>, refs: Seq<usize>, a: usize, n: int) -> bool {
    &&& a < n
    &&& order.len() == n - 1
    &&& order.no_duplicates()
    &&& forall|x: usize| order.contains(x) <==> x < n && x != a
    &&& refs.len() == order.len()
    &&& forall|k: int|
        0 <= k < refs.len() ==> (seq![a] + order.take(k)).contains(#[trigger] refs[k])
}

/// Each visited position `order[k]` of `rels` describes its character of `p`
/// from the character at the drawn reference `refs[k]`.
pub open spec fn relations_along(
    rels: Seq<Option<Relation>>,
    p: Seq<char>,
    perm: Seq<char>,
    order: Seq<usize>,
    refs: Seq<usize>,
) -> bool {
    forall|k: int|
        0 <= k < order.len() ==> rels[#[trigger] order[k] as int] == Some(
            relation_between(p[order[k] as int], p[refs[k] as int], refs[k], perm),
        )
}

/// `cv` is the ciphertext of `p` under the key `(perm, id)` with the anchor
/// at `a` that the draws `(order, refs)` weave.
pub open spec fn woven_along(
    cv: CipherView,
    p: Seq<char>,
    perm: Seq<char>,
    id: Seq<char>,
    a: int,
    order: Seq<usize>,
    refs: Seq<usize>,
) -> bool {
    &&& cv.version == FORMAT_VERSION
    &&& cv.alphabet == id
    &&& cv.length == p.len()
    &&& cv.anchor == Anchor { position: a as usize, character: p[a] }
    &&& cv.relations.len() == p.len()
    &&& cv.relations[a] is None
    &&& relations_along(cv.relations, p, perm, order, refs)
}

/// The `k`-th draw names a position of the text other than the anchor, and
/// a reference inside the text that is the anchor or an earlier position.
proof fn lemma_drawn_ref(order: Seq<usize>, refs: Seq<usize>, a: usize, n: int, k: int)
    requires
        valid_draws(order, refs, a, n),
        0 <= k < order.len(),
    ensures
        order[k] < n,
        order[k] != a,
        refs[k] < n,
        refs[k] != order[k],
        refs[k] == a || exists|j: int| 0 <= j < k && order[j] == refs[k],
{
    assert(order.contains(order[k]));
    let before = seq![a] + order.take(k);
    assert(before.contains(refs[k]));
    let t = choose|t: int| 0 <= t < before.len() && before[t] == refs[k];
    if t == 0 {
        assert(before[0] == a);
    } else {
        assert(before[t] == order[t - 1]);
        assert(order.contains(order[t - 1]));
        assert(order[t - 1] != order[k]);
        assert(0 <= t - 1 < k && order[t - 1] == refs[k]);
    }
}

/// Every position visited by valid draws reaches the anchor within one more
/// step than the number of positions visited before it.
proof fn lemma_draws_reach(
    rels: Seq<Option<Relation>>,
    p: Seq<char>,
    perm: Seq<char>,
    a: usize,
    order: Seq<usize>,
    refs: Seq<usize>,
    k: int,
)
    requires
        valid_draws(order, refs, a, p.len() as int),
        rels.len() == p.len(),
        relations_along(rels, p, perm, order, refs),
        0 <= k < order.len(),
    ensures
        reaches(rels, a as int, order[k] as int, (k + 1) as nat),
    decreases k,
{
    let x = order[k] as int;
    let r = refs[k];
    lemma_drawn_ref(order, refs, a, p.len() as int, k);
    assert(rels[x] == Some(relation_between(p[x], p[r as int], r, perm)));
    if r == a {
        assert(reaches(rels, a as int, a as int, k as nat));
    } else {
        let j = choose|j: int| 0 <= j < k && order[j] == r;
        lemma_draws_reach(rels, p, perm, a, order, refs, j);
        lemma_reaches_mono(rels, a as int, r as int, (j + 1) as nat, k as nat);
    }
}

/// The ciphertext that valid draws weave relates every position to its
/// reference, and its references form a tree rooted at the anchor: it is a
/// woven encryption of the text.
pub proof fn lemma_draws_weave_tree(
    cv: CipherView,
    p: Seq<char>,
    perm: Seq<char>,
    id: Seq<char>,
    a: usize,
    order: Seq<usize>,
    refs: Seq<usize>,
)
    requires
        valid_draws(order, refs, a, p.len() as int),
        woven_along(cv, p, perm, id, a as int, order, refs),
    ensures
        woven_encryption(cv, p, perm, id, a as int),
{
    let n = p.len() as int;
    let rels = cv.relations;
    assert forall|x: int| 0 <= x < cv.length && x != cv.anchor.position implies #[trigger] slot_relates(
        rels,
        p,
        perm,
        x,
    ) by {
        assert(order.contains(x as usize));
        let k = choose|k: int| 0 <= k < order.len() && order[k] == x as usize;
        let r = refs[k];
        lemma_drawn_ref(order, refs, a, n, k);
        assert(rels[x] == Some(relation_between(p[x], p[r as int], r, perm)));
    }
    assert forall|x: int| 0 <= x < cv.length implies #[trigger] reaches(
        rels,
        cv.anchor.position as int,
        x,
        cv.length as nat,
    ) by {
        if x != a {
            assert(order.contains(x as usize));
            let k = choose|k: int| 0 <= k < order.len() && order[k] == x as usize;
            lemma_draws_reach(rels, p, perm, a, order, refs, k);
            lemma_reaches_mono(rels, a as int, x, (k + 1) as nat, n as nat);
        }
    }
}

/// The ciphertext of `chars` under `key` that the draws `(order, refs)`
/// weave, with the anchor at `anchor_position`.
fn weave_chars(
    chars: &Vec<char>,
    key: &Key,
    anchor_position: usize,
    order: &Vec<usize>,
    refs: &Vec<usize>,
) -> (c: Ciphertext)
    requires
        all_in_key(chars@, key.perm()),
        valid_draws(order@, refs@, anchor_position, chars@.len() as int),
    ensures
        woven_along(
            c@,
            chars@,
            key.perm(),
            key.alphabet_id_view(),
            anchor_position as int,
            order@,
            refs@,
        ),
{
    let n = chars.len();
    let ghost p = chars@;
    let ghost perm = key.perm();
    let ghost a = anchor_position as int;
    proof {
        assert forall|k: int| 0 <= k < order@.len() implies #[trigger] order@[k] < n
            && order@[k] != anchor_position && refs@[k] < n by {
            lemma_drawn_ref(order@, refs@, anchor_position, n as int, k);
        }
    }
    let mut relations = none_slots(n);
    let mut k: usize = 0;
    while k < order.len()
        invariant
            chars@ == p,
            n == p.len(),
            perm == key.perm(),
            a == anchor_position,
            anchor_position < n,
            all_in_key(p, perm),
            order@.no_duplicates(),
            refs@.len() == order@.len(),
            forall|k: int|
                0 <= k < order@.len() ==> #[trigger] order@[k] < n && order@[k] != anchor_position
                    && refs@[k] < n,
            0 <= k <= order@.len(),
            relations@.len() == n,
            relations@[a] is None,
            forall|j: int|
                0 <= j < k ==> relations@[#[trigger] order@[j] as int] == Some(
                    relation_between(p[order@[j] as int], p[refs@[j] as int], refs@[j], perm),
                ),
        decreases order@.len() - k,
    {
        let i = order[k];
        let r = refs[k];
        let rel = make_relation(chars[i], chars[r], r, key);
        let ghost old_rels = relations@;
        relations.set(i, Some(rel));
        proof {
            assert forall|j: int| 0 <= j < k + 1 implies relations@[#[trigger] order@[j] as int]
                == Some(
                relation_between(p[order@[j] as int], p[refs@[j] as int], refs@[j], perm),
            ) by {
                if j < k {
                    assert(order@[j] != i);
                    assert(old_rels[order@[j] as int] == relations@[order@[j] as int]);
                }
            }
        }
        k = k + 1;
    }
    Ciphertext {
        version: FORMAT_VERSION,
        alphabet: String::from_str(key.alphabet_id()),
        length: n,
        anchor: Anchor { position: anchor_position, character: chars[anchor_position] },
        relations,
    }
}

/// Encrypts `plaintext` with `key` along the given draws: the `k`-th
/// position of `order` is described from the position `refs[k]`.
///
/// The draws must be valid: `order` visits every non-anchor position once,
/// and each reference is the anchor or a position visited earlier. The
/// errors are those of [`encrypt`].
pub fn encrypt_along(
    plaintext: &str,
    key: &Key,
    anchor_position: usize,
    order: &Vec<usize>,
    refs: &Vec<usize>,
) -> (r: Result<Ciphertext>)
    requires
        anchor_position < plaintext@.len() ==> valid_draws(
            order@,
            refs@,
            anchor_position,
            plaintext@.len() as int,
        ),
    ensures
        r is Ok <==> plaintext@.len() > 0 && anchor_position < plaintext@.len() && all_in_key(
            plaintext@,
            key.perm(),
        ),
        plaintext@.len() == 0 ==> r == Err::<Ciphertext, MusubiError>(MusubiError::EmptyPlaintext),
        plaintext@.len() > 0 && anchor_position >= plaintext@.len() ==> r == Err::<
            Ciphertext,
            MusubiError,
        >(
            MusubiError::AnchorOutOfRange {
                position: anchor_position,
                length: plaintext@.len() as usize,
            },
        ),
        forall|j: int|
            anchor_position < plaintext@.len() && #[trigger] is_first_foreign(
                plaintext@,
                key.perm(),
                j,
            ) ==> r == Err::<Ciphertext, MusubiError>(
                MusubiError::CharOutsideAlphabet { ch: plaintext@[j] },
            ),
        r matches Ok(c) ==> woven_along(
            c@,
            plaintext@,
            key.perm(),
            key.alphabet_id_view(),
            anchor_position as int,
            order@,
            refs@,
        ),
        r matches Ok(c) ==> woven_encryption(
            c@,
            plaintext@,
            key.perm(),
            key.alphabet_id_view(),
            anchor_position as int,
        ),
{
    let chars = checked_chars(plaintext, key, anchor_position)?;
    let c = weave_chars(&chars, key, anchor_position, order, refs);
    proof {
        lemma_draws_weave_tree(
            c@,
            plaintext@,
            key.perm(),
            key.alphabet_id_view(),
            anchor_position,
            order@,
            refs@,
        );
    }
    Ok(c)
}

/// Encrypts `plaintext` with `key`, weaving the relations along a random
/// tree rooted at the anchor.
///
/// Non-anchor positions are visited in a random order, and each one is
/// described from a randomly chosen position that is already described (the
/// anchor first). The output has the same format as [`encrypt`]'s, and
/// [`decrypt`] reads it unchanged. The errors are those of [`encrypt`]; a
/// refused call draws nothing from `rng`.
pub fn encrypt_chain<R: rand::RngCore>(
    plaintext: &str,
    key: &Key,
    anchor_position: usize,
    rng: &mut R,
) -> (r: Result<Ciphertext>)
    ensures
        r is Ok <==> plaintext@.len() > 0 && anchor_position < plaintext@.len() && all_in_key(
            plaintext@,
            key.perm(),
        ),
        plaintext@.len() == 0 ==> r == Err::<Ciphertext, MusubiError>(MusubiError::EmptyPlaintext),
        plaintext@.len() > 0 && anchor_position >= plaintext@.len() ==> r == Err::<
            Ciphertext,
            MusubiError,
        >(
            MusubiError::AnchorOutOfRange {
                position: anchor_position,
                length: plaintext@.len() as usize,
            },
        ),
        forall|j: int|
            anchor_position < plaintext@.len() && #[trigger] is_first_foreign(
                plaintext@,
                key.perm(),
                j,
            ) ==> r == Err::<Ciphertext, MusubiError>(
                MusubiError::CharOutsideAlphabet { ch: plaintext@[j] },
            ),
        r is Err ==> *final(rng) == *old(rng),
        r matches Ok(c) ==> woven_encryption(
            c@,
            plaintext@,
            key.perm(),
            key.alphabet_id_view(),
            anchor_position as int,
        ),
        r matches Ok(c) ==> exists|order: Seq<usize>, refs: Seq<usize>|
            valid_draws(order, refs, anchor_position, plaintext@.len() as int)
                && woven_along(
                c@,
                plaintext@,
                key.perm(),
                key.alphabet_id_view(),
                anchor_position as int,
                order,
                refs,
            ),
{
    let chars = checked_chars(plaintext, key, anchor_position)?;
    let n = chars.len();
    let mut order = positions_except(n, anchor_position);
    let ghost listed = order@;
    rng::shuffle(&mut order, rng);
    proof {
        lemma_rearranged_same_items(listed, order@);
    }
    let mut refs: Vec<usize> = Vec::with_capacity(n);
    let mut resolved: Vec<usize> = Vec::with_capacity(n);
    resolved.push(anchor_position);
    let mut k: usize = 0;
    proof {
        assert(resolved@ == seq![anchor_position] + order@.take(0));
    }
    while k < order.len()
        invariant
            0 <= k <= order@.len(),
            refs@.len() == k,
            resolved@ == seq![anchor_position] + order@.take(k as int),
            forall|j: int|
                0 <= j < k ==> (seq![anchor_position] + order@.take(j)).contains(
                    #[trigger] refs@[j],
                ),
        decreases order@.len() - k,
    {
        let r = match rng::choose_one(&resolved, rng) {
            Some(r) => *r,
            None => anchor_position,
        };
        let ghost old_refs = refs@;
        refs.push(r);
        resolved.push(order[k]);
        proof {
            assert(order@.take(k + 1) == order@.take(k as int).push(order@[k as int]));
            assert forall|j: int| 0 <= j < k + 1 implies (seq![anchor_position] + order@.take(
                j,
            )).contains(#[trigger] refs@[j]) by {
                if j < k {
                    assert(refs@[j] == old_refs[j]);
                }
            }
        }
        k = k + 1;
    }
    let c = weave_chars(&chars, key, anchor_position, &order, &refs);
    proof {
        lemma_draws_weave_tree(
            c@,
            plaintext@,
            key.perm(),
            key.alphabet_id_view(),
            anchor_position,
            order@,
            refs@,
        );
    }
    Ok(c)
}

/// The positions `0..n` other than `skip`, in increasing order.
fn positions_except(n: usize, skip: usize) -> (r: Vec<usize>)
    requires
        skip < n,
    ensures
        r@.no_duplicates(),
        r@.len() == n - 1,
        forall|x: usize| r@.contains(x) <==> x < n && x != skip,
{
    let mut v: Vec<usize> = Vec::new();
    let mut i: usize = 0;
    while i < n
        invariant
            0 <= i <= n,
            skip < n,
            forall|t: int| 0 <= t < v@.len() ==> #[trigger] v@[t] < i && v@[t] != skip,
            forall|t: int, u: int| 0 <= t < u < v@.len() ==> v@[t] < v@[u],
            forall|x: usize| x < i && x != skip ==> #[trigger] v@.contains(x),
            v@.len() == if i > skip { i - 1 } else { i as int },
        decreases n - i,
    {
        if i != skip {
            let ghost old_v = v@;
            v.push(i);
            proof {
                assert(v@[old_v.len() as int] == i);
                assert forall|x: usize| x < i + 1 && x != skip implies #[trigger] v@.contains(x) by {
                    if x < i {
                        assert(old_v.contains(x));
                        let t = choose|t: int| 0 <= t < old_v.len() && old_v[t] == x;
                        assert(v@[t] == x);
                    }
                }
            }
        }
        i = i + 1;
    }
    proof {
        assert forall|x: usize| v@.contains(x) implies x < n && x != skip by {
            let t = choose|t: int| 0 <= t < v@.len() && v@[t] == x;
        }
    }
    v
}

/// The anchor position to encrypt `plaintext` with: the `requested` one, or
/// the middle position when none is requested. An empty plaintext is
/// refused with `EmptyPlaintext`.
pub fn anchor_for(plaintext: &str, requested: Option<usize>) -> (r: Result<usize>)
    ensures
        plaintext@.len() == 0 ==> r == Err::<usize, MusubiError>(MusubiError::EmptyPlaintext),
        plaintext@.len() > 0 ==> r == Ok::<usize, MusubiError>(
            match requested {
                Some(a) => a,
                None => (plaintext@.len() / 2) as usize,
            },
        ),
{
    let n = plaintext.unicode_len();
    if n == 0 {
        return Err(MusubiError::EmptyPlaintext);
    }
    match requested {
        Some(a) => Ok(a),
        None => Ok(n / 2),
    }
}

/// The characters of `plaintext`, after the checks that both encoders make.
fn checked_chars(plaintext: &str, key: &Key, anchor_position: usize) -> (r: Result<Vec<char>>)
    ensures
        r is Ok <==> plaintext@.len() > 0 && anchor_position < plaintext@.len() && all_in_key(
            plaintext@,
            key.perm(),
        ),
        plaintext@.len() == 0 ==> r == Err::<Vec<char>, MusubiError>(MusubiError::EmptyPlaintext),
        plaintext@.len() > 0 && anchor_position >= plaintext@.len() ==> r == Err::<
            Vec<char>,
            MusubiError,
        >(
            MusubiError::AnchorOutOfRange {
                position: anchor_position,
                length: plaintext@.len() as usize,
            },
        ),
        forall|j: int|
            anchor_position < plaintext@.len() && #[trigger] is_first_foreign(
                plaintext@,
                key.perm(),
                j,
            ) ==> r == Err::<Vec<char>, MusubiError>(
                MusubiError::CharOutsideAlphabet { ch: plaintext@[j] },
            ),
        r matches Ok(v) ==> v@ == plaintext@,
{
    let mut chars: Vec<char> = Vec::new();
    push_chars(&mut chars, plaintext);
    proof {
        assert(chars@ == plaintext@);
    }
    let n = chars.len();
    if n == 0 {
        return Err(MusubiError::EmptyPlaintext);
    }
    if anchor_position >= n {
        return Err(MusubiError::AnchorOutOfRange { position: anchor_position, length: n });
    }
    let mut i: usize = 0;
    while i < n
        invariant
            chars@ == plaintext@,
            n == chars@.len(),
            anchor_position < n,
            0 <= i <= n,
            forall|k: int| 0 <= k < i ==> key.perm().contains(chars@[k]),
        decreases n - i,
    {
        let c = chars[i];
        if key.rank_of(c).is_none() {
            proof {
                assert(is_first_foreign(plaintext@, key.perm(), i as int));
                assert forall|j: int| #[trigger]
                    is_first_foreign(plaintext@, key.perm(), j) implies j == i by {
                    if j < i {
                        assert(key.perm().contains(chars@[j]));
                    } else if j > i {
                        assert(key.perm().contains(chars@[i as int]));
                    }
                }
            }
            return Err(MusubiError::CharOutsideAlphabet { ch: c });
        }
        i = i + 1;
    }
    Ok(chars)
}

/// `n` empty relation slots.
fn none_slots(n: usize) -> (r: Vec<Option<Relation>>)
    ensures
        r@.len() == n,
        forall|j: int| 0 <= j < n ==> r@[j] is None,
{
    let mut v: Vec<Option<Relation>> = Vec::new();
    let mut i: usize = 0;
    while i < n
        invariant
            0 <= i <= n,
            v@.len() == i,
            forall|j: int| 0 <= j < i ==> v@[j] is None,
        decreases n - i,
    {
        v.push(None);
        i = i + 1;
    }
    v
}

/// The slot at position `i` holds a relation whose reference lies inside
/// the text.
pub open spec fn slot_ok(cv: CipherView, i: int) -> bool {
    match cv.relations[i] {
        Some(rel) => rel.ref_index() < cv.length,
        None => false,
    }
}

/// Every non-anchor slot holds a relation to a position inside the text.
pub open spec fn all_slots_ok(cv: CipherView) -> bool {
    forall|j: int| 0 <= j < cv.length && j != cv.anchor.position ==> #[trigger] slot_ok(cv, j)
}

/// `i` is the first non-anchor slot that is empty or references a position
/// outside the text.
pub open spec fn is_first_bad_slot(cv: CipherView, i: int) -> bool {
    &&& 0 <= i < cv.length
    &&& i != cv.anchor.position
    &&& !slot_ok(cv, i)
    &&& forall|j: int| 0 <= j < i && j != cv.anchor.position ==> #[trigger] slot_ok(cv, j)
}

/// Every position reaches the anchor by following references.
pub open spec fn rooted(cv: CipherView) -> bool {
    forall|i: int|
        0 <= i < cv.length ==> #[trigger] reaches(
            cv.relations,
            cv.anchor.position as int,
            i,
            cv.length as nat,
        )
}

/// The frame of a ciphertext is sound for the alphabet `id`: version,
/// alphabet, a positive length matched by the number of slots, an anchor
/// position inside the text whose slot is empty.
pub open spec fn frame_ok(cv: CipherView, id: Seq<char>) -> bool {
    &&& cv.version == FORMAT_VERSION
    &&& cv.alphabet == id
    &&& cv.relations.len() == cv.length
    &&& cv.length > 0
    &&& cv.anchor.position < cv.length
    &&& cv.relations[cv.anchor.position as int] is None
}

/// Every non-anchor slot holds a relation.
pub open spec fn no_empty_slots(cv: CipherView) -> bool {
    forall|j: int|
        0 <= j < cv.length && j != cv.anchor.position ==> (#[trigger] cv.relations[j]) is Some
}

/// `i` is the first non-anchor slot that holds no relation.
pub open spec fn is_first_empty_slot(cv: CipherView, i: int) -> bool {
    &&& 0 <= i < cv.length
    &&& i != cv.anchor.position
    &&& cv.relations[i] is None
    &&& forall|j: int| 0 <= j < i && j != cv.anchor.position ==> (#[trigger] cv.relations[j]) is Some
}

/// The fixed fields of a ciphertext agree with the key `(perm, id)`: its
/// frame is sound and the key holds the anchor character.
pub open spec fn header_ok(cv: CipherView, perm: Seq<char>, id: Seq<char>) -> bool {
    &&& frame_ok(cv, id)
    &&& perm.contains(cv.anchor.character)
}

/// The ciphertext can be decrypted with the key `(perm, id)`.
pub open spec fn decodable(cv: CipherView, perm: Seq<char>, id: Seq<char>) -> bool {
    &&& header_ok(cv, perm, id)
    &&& all_slots_ok(cv)
    &&& rooted(cv)
}

/// The text that the ciphertext decodes to under `perm`: each position's
/// character follows from the anchor through the chain of relations.
pub open spec fn decoded(cv: CipherView, perm: Seq<char>) -> Seq<char> {
    Seq::new(
        cv.length as nat,
        |i: int|
            decode_at(
                cv.relations,
                perm,
                cv.anchor.position as int,
                cv.anchor.character,
                i,
                cv.length as nat,
            ),
    )
}

/// `r` is a `MalformedCiphertext` error whose reason reads `text`.
pub open spec fn malformed_with<T>(r: Result<T>, text: Seq<char>) -> bool {
    r matches Err(MusubiError::MalformedCiphertext { reason }) && reason@ == text
}

/// The reason given for a ciphertext of another format version.
pub open spec fn unsupported_version_text(version: u32) -> Seq<char> {
    "unsupported version "@ + decimal(version as nat)
}

/// The reason given when the number of slots differs from the declared length.
pub open spec fn relations_length_text(got: nat, declared: nat) -> Seq<char> {
    "relations length "@ + decimal(got) + " does not match declared length "@ + decimal(declared)
}

/// The reason given for a ciphertext of length zero.
pub open spec fn zero_length_text() -> Seq<char> {
    "ciphertext has zero length"@
}

/// The reason given when the anchor's slot holds a relation.
pub open spec fn anchor_relation_text(position: nat) -> Seq<char> {
    "anchor position "@ + decimal(position) + " must have null relation"@
}

/// The reason given for an empty non-anchor slot.
pub open spec fn missing_relation_text(position: nat) -> Seq<char> {
    "missing relation at position "@ + decimal(position)
}

/// The reason given for a relation that references a position outside the text.
pub open spec fn dangling_reference_text(position: nat, reference: nat) -> Seq<char> {
    "relation at position "@ + decimal(position) + " references out-of-range index "@ + decimal(
        reference,
    )
}

/// The reason given when some position never reaches the anchor.
pub open spec fn tangled_graph_text() -> Seq<char> {
    "relation graph has cycles or unreachable positions"@
}

/// The character that `rel` yields from `ref_char`; refused when the key
/// does not hold `ref_char`.
pub(crate) fn apply_relation(rel: Relation, ref_char: char, key: &Key) -> (r: Result<char>)
    ensures
        key.perm().contains(ref_char) ==> r == Ok::<char, MusubiError>(
            apply_in(rel, ref_char, key.perm()),
        ),
        !key.perm().contains(ref_char) ==> r == Err::<char, MusubiError>(
            MusubiError::CharOutsideAlphabet { ch: ref_char },
        ),
{
    let n = key.len();
    let r_ref = match key.rank_of(ref_char) {
        Some(r) => r,
        None => {
            return Err(MusubiError::CharOutsideAlphabet { ch: ref_char });
        },
    };
    let ghost perm = key.perm();
    proof {
        assert(r_ref == perm.index_of(ref_char));
        lemma_apply_in_perm(rel, ref_char, perm);
    }
    let target: usize = match rel {
        Relation::Same { .. } => r_ref,
        Relation::Shift { delta, .. } => {
            if delta >= 0 {
                let t = (r_ref as u128 + delta as u128) % (n as u128);
                proof {
                    vstd::arithmetic::div_mod::lemma_mod_bound((r_ref + delta) as int, n as int);
                }
                t as usize
            } else {
                let m = ((0i64 - delta as i64) as u128) % (n as u128);
                let t = (r_ref as u128 + n as u128 - m) % (n as u128);
                proof {
                    let d = delta as int;
                    let nn = n as int;
                    let mi = m as int;
                    vstd::arithmetic::div_mod::lemma_fundamental_div_mod(-d, nn);
                    let q = (-d) / nn;
                    assert(-d == nn * q + mi);
                    assert(r_ref + nn - mi == (r_ref + d) + nn * (q + 1)) by (nonlinear_arith)
                        requires
                            -d == nn * q + mi,
                    ;
                    vstd::arithmetic::div_mod::lemma_mod_multiples_vanish(q + 1, r_ref + d, nn);
                    vstd::arithmetic::div_mod::lemma_mod_bound((r_ref + d) as int, nn);
                }
                t as usize
            }
        },
        Relation::Mirror { .. } => {
            proof {
                if r_ref == 0 {
                    assert(-(r_ref as int) == 0);
                    vstd::arithmetic::div_mod::lemma_small_mod(0, n as nat);
                } else {
                    vstd::arithmetic::div_mod::lemma_mod_add_multiples_vanish(
                        -(r_ref as int),
                        n as int,
                    );
                    vstd::arithmetic::div_mod::lemma_small_mod((n - r_ref) as nat, n as nat);
                }
            }
            if r_ref == 0 {
                0
            } else {
                n - r_ref
            }
        },
    };
    proof {
        assert(target as int == target_rank(rel, r_ref as int, n as int));
    }
    match key.char_at(target) {
        Some(c) => Ok(c),
        None => {
            let mut reason = text_with_number("computed rank ", target);
            reason.append(" out of range");
            Err(MusubiError::MalformedCiphertext { reason })
        },
    }
}

/// Decrypts `cipher` with `key`, recovering the plaintext.
///
/// The checks come in this order: the format version, the alphabet, the
/// number of slots against the declared length, a zero length, the anchor
/// position, the anchor's empty slot, the first other slot that is empty,
/// the anchor character. Then every position is decoded from its reference
/// once the reference is known; the first slot (by position) that
/// references a position outside the text is refused, and so is a
/// reference graph in which some position never reaches the anchor.
pub fn decrypt(cipher: &Ciphertext, key: &Key) -> (r: Result<String>)
    ensures
        r is Ok <==> decodable(cipher@, key.perm(), key.alphabet_id_view()),
        r matches Ok(s) ==> s@ == decoded(cipher@, key.perm()),
        cipher.version != FORMAT_VERSION ==> malformed_with(
            r,
            unsupported_version_text(cipher.version),
        ),
        cipher.version == FORMAT_VERSION && cipher.alphabet@ != key.alphabet_id_view() ==> (
        r matches Err(MusubiError::AlphabetMismatch { expected, got }) && expected@
            == key.alphabet_id_view() && got@ == cipher.alphabet@),
        ({
            &&& cipher.version == FORMAT_VERSION
            &&& cipher.alphabet@ == key.alphabet_id_view()
            &&& cipher.relations@.len() != cipher.length
        }) ==> malformed_with(
            r,
            relations_length_text(cipher.relations@.len(), cipher.length as nat),
        ),
        ({
            &&& cipher.version == FORMAT_VERSION
            &&& cipher.alphabet@ == key.alphabet_id_view()
            &&& cipher.relations@.len() == cipher.length
            &&& cipher.length == 0
        }) ==> malformed_with(r, zero_length_text()),
        ({
            &&& cipher.version == FORMAT_VERSION
            &&& cipher.alphabet@ == key.alphabet_id_view()
            &&& cipher.relations@.len() == cipher.length
            &&& cipher.length > 0
            &&& cipher.anchor.position >= cipher.length
        }) ==> r == Err::<String, MusubiError>(
            MusubiError::AnchorOutOfRange {
                position: cipher.anchor.position,
                length: cipher.length,
            },
        ),
        ({
            &&& cipher.version == FORMAT_VERSION
            &&& cipher.alphabet@ == key.alphabet_id_view()
            &&& cipher.relations@.len() == cipher.length
            &&& cipher.anchor.position < cipher.length
            &&& cipher.relations@[cipher.anchor.position as int] is Some
        }) ==> malformed_with(r, anchor_relation_text(cipher.anchor.position as nat)),
        forall|i: int|
            frame_ok(cipher@, key.alphabet_id_view()) && #[trigger] is_first_empty_slot(
                cipher@,
                i,
            ) ==> malformed_with(r, missing_relation_text(i as nat)),
        frame_ok(cipher@, key.alphabet_id_view()) && no_empty_slots(cipher@) && !key.perm().contains(
            cipher.anchor.character,
        ) ==> r == Err::<String, MusubiError>(
            MusubiError::CharOutsideAlphabet { ch: cipher.anchor.character },
        ),
        forall|i: int|
            header_ok(cipher@, key.perm(), key.alphabet_id_view()) && no_empty_slots(cipher@)
                && #[trigger] is_first_bad_slot(cipher@, i) ==> (cipher.relations@[i] matches Some(
                rel,
            ) && malformed_with(r, dangling_reference_text(i as nat, rel.ref_index() as nat))),
        header_ok(cipher@, key.perm(), key.alphabet_id_view()) && all_slots_ok(cipher@)
            && !rooted(cipher@) ==> malformed_with(r, tangled_graph_text()),
{
    if cipher.version != FORMAT_VERSION {
        return Err(
            MusubiError::MalformedCiphertext {
                reason: text_with_number("unsupported version ", cipher.version as usize),
            },
        );
    }
    let expected = String::from_str(key.alphabet_id());
    if !(cipher.alphabet == expected) {
        return Err(MusubiError::AlphabetMismatch { expected, got: cipher.alphabet.clone() });
    }
    let n = cipher.length;
    if cipher.relations.len() != n {
        let mut reason = text_with_number("relations length ", cipher.relations.len());
        reason.append(" does not match declared length ");
        push_decimal(&mut reason, n);
        return Err(MusubiError::MalformedCiphertext { reason });
    }
    if n == 0 {
        return Err(
            MusubiError::MalformedCiphertext {
                reason: String::from_str("ciphertext has zero length"),
            },
        );
    }
    let anchor_pos = cipher.anchor.position;
    if anchor_pos >= n {
        return Err(MusubiError::AnchorOutOfRange { position: anchor_pos, length: n });
    }
    if cipher.relations[anchor_pos].is_some() {
        let mut reason = text_with_number("anchor position ", anchor_pos);
        reason.append(" must have null relation");
        return Err(MusubiError::MalformedCiphertext { reason });
    }
    let mut i: usize = 0;
    while i < n
        invariant
            n == cipher.length,
            anchor_pos == cipher.anchor.position,
            frame_ok(cipher@, key.alphabet_id_view()),
            0 <= i <= n,
            forall|j: int|
                0 <= j < i && j != anchor_pos ==> (#[trigger] cipher.relations@[j]) is Some,
        decreases n - i,
    {
        if i != anchor_pos && cipher.relations[i].is_none() {
            proof {
                assert(is_first_empty_slot(cipher@, i as int));
                lemma_first_empty_slot_unique(cipher@, i as int);
                assert(!slot_ok(cipher@, i as int));
            }
            return Err(
                MusubiError::MalformedCiphertext {
                    reason: text_with_number("missing relation at position ", i),
                },
            );
        }
        i = i + 1;
    }
    if key.rank_of(cipher.anchor.character).is_none() {
        return Err(MusubiError::CharOutsideAlphabet { ch: cipher.anchor.character });
    }
    match resolve_positions(cipher, key) {
        Ok(chars) => Ok(string_from_chars(&chars)),
        Err(e) => Err(e),
    }
}

/// The characters of `chars` as a `String`.
fn string_from_chars(chars: &Vec<char>) -> (r: String)
    ensures
        r@ == chars@,
{
    let mut s = String::new();
    let mut j: usize = 0;
    while j < chars.len()
        invariant
            0 <= j <= chars@.len(),
            s@ == chars@.take(j as int),
        decreases chars@.len() - j,
    {
        push_char(&mut s, chars[j]);
        proof {
            assert(chars@.take(j + 1) == chars@.take(j as int).push(chars@[j as int]));
        }
        j = j + 1;
    }
    proof {
        assert(chars@.take(chars@.len() as int) == chars@);
    }
    s
}

proof fn lemma_first_empty_slot_unique(cv: CipherView, i: int)
    requires
        is_first_empty_slot(cv, i),
    ensures
        forall|j: int| #[trigger] is_first_empty_slot(cv, j) ==> j == i,
{
    assert forall|j: int| #[trigger] is_first_empty_slot(cv, j) implies j == i by {
        if j < i {
            assert(cv.relations[j] is Some);
        } else if i < j {
            assert(cv.relations[i] is Some);
        }
    }
}

pub(crate) proof fn lemma_first_bad_slot_unique(cv: CipherView, i: int)
    requires
        is_first_bad_slot(cv, i),
    ensures
        forall|j: int| #[trigger] is_first_bad_slot(cv, j) ==> j == i,
{
    assert forall|j: int| #[trigger] is_first_bad_slot(cv, j) implies j == i by {
        if j < i {
            assert(slot_ok(cv, j));
        } else if i < j {
            assert(slot_ok(cv, i));
        }
    }
}

} // verus!
