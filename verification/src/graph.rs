//! The reference graph of a ciphertext and what it decodes to.
//!
//! Each non-anchor slot points at a reference position; decoding walks these
//! references back to the anchor. The definitions here say when every
//! position reaches the anchor and which character each position decodes to.

use vstd::prelude::*;

use crate::relation::{apply_in, target_rank, Relation};

verus! {

/// Position `i` reaches the anchor `a` by following at most `k` references.
pub open spec fn reaches(rels: Seq<Option<Relation>>, a: int, i: int, k: nat) -> bool
    decreases k,
{
    &&& 0 <= i < rels.len()
    &&& (i == a || (k > 0 && match rels[i] {
        Some(rel) => reaches(rels, a, rel.ref_index() as int, (k - 1) as nat),
        None => false,
    }))
}

/// The character at position `i`, obtained by applying the relations along
/// at most `k` references from the anchor `a`, whose character is `ac`.
pub open spec fn decode_at(
    rels: Seq<Option<Relation>>,
    perm: Seq<char>,
    a: int,
    ac: char,
    i: int,
    k: nat,
) -> char
    decreases k,
{
    if i == a {
        ac
    } else if k == 0 {
        ac
    } else {
        match rels[i] {
            Some(rel) => apply_in(
                rel,
                decode_at(rels, perm, a, ac, rel.ref_index() as int, (k - 1) as nat),
                perm,
            ),
            None => ac,
        }
    }
}

/// The number of empty entries of `s`.
pub open spec fn count_none(s: Seq<Option<char>>) -> nat
    decreases s.len(),
{
    if s.len() == 0 {
        0
    } else {
        count_none(s.drop_last()) + if s.last() is None {
            1nat
        } else {
            0nat
        }
    }
}

/// Reaching the anchor within `k` references means reaching it within any
/// larger bound.
pub proof fn lemma_reaches_mono(rels: Seq<Option<Relation>>, a: int, i: int, k: nat, m: nat)
    requires
        reaches(rels, a, i, k),
        k <= m,
    ensures
        reaches(rels, a, i, m),
    decreases k,
{
    if i != a {
        match rels[i] {
            Some(rel) => lemma_reaches_mono(rels, a, rel.ref_index() as int, (k - 1) as nat, (m - 1) as nat),
            None => {},
        }
    }
}

/// Once a position reaches the anchor within `k` references, its decoded
/// character no longer depends on the bound.
pub proof fn lemma_decode_stable(
    rels: Seq<Option<Relation>>,
    perm: Seq<char>,
    a: int,
    ac: char,
    i: int,
    k: nat,
    m: nat,
)
    requires
        reaches(rels, a, i, k),
        k <= m,
    ensures
        decode_at(rels, perm, a, ac, i, k) == decode_at(rels, perm, a, ac, i, m),
    decreases k,
{
    if i != a {
        match rels[i] {
            Some(rel) => lemma_decode_stable(
                rels,
                perm,
                a,
                ac,
                rel.ref_index() as int,
                (k - 1) as nat,
                (m - 1) as nat,
            ),
            None => {},
        }
    }
}

/// Decoding only ever yields characters of the permutation, provided the
/// anchor character is one.
pub proof fn lemma_decode_in_perm(
    rels: Seq<Option<Relation>>,
    perm: Seq<char>,
    a: int,
    ac: char,
    i: int,
    k: nat,
)
    requires
        perm.contains(ac),
    ensures
        perm.contains(decode_at(rels, perm, a, ac, i, k)),
    decreases k,
{
    if i != a && k > 0 {
        match rels[i] {
            Some(rel) => {
                let rc = decode_at(rels, perm, a, ac, rel.ref_index() as int, (k - 1) as nat);
                lemma_decode_in_perm(rels, perm, a, ac, rel.ref_index() as int, (k - 1) as nat);
                lemma_apply_in_perm(rel, rc, perm);
            },
            None => {},
        }
    }
}

/// Applying a relation to a character of the permutation yields a character
/// of the permutation.
pub proof fn lemma_apply_in_perm(rel: Relation, rc: char, perm: Seq<char>)
    requires
        perm.contains(rc),
    ensures
        perm.contains(apply_in(rel, rc, perm)),
        0 <= target_rank(rel, perm.index_of(rc), perm.len() as int) < perm.len(),
{
    let n = perm.len() as int;
    let r = perm.index_of(rc);
    let t = target_rank(rel, r, n);
    match rel {
        Relation::Same { .. } => {},
        Relation::Shift { delta, .. } => {
            vstd::arithmetic::div_mod::lemma_mod_bound(r + delta, n);
        },
        Relation::Mirror { .. } => {
            vstd::arithmetic::div_mod::lemma_mod_bound(-r, n);
        },
    }
    assert(perm[t] == apply_in(rel, rc, perm));
}

/// If the anchor is filled and every empty position points at an empty
/// position, then every position that reaches the anchor is filled.
pub proof fn lemma_empty_closed(
    rels: Seq<Option<Relation>>,
    filled: Seq<Option<char>>,
    a: int,
    i: int,
    k: nat,
)
    requires
        filled.len() == rels.len(),
        0 <= a < rels.len(),
        filled[a] is Some,
        forall|j: int|
            0 <= j < rels.len() && #[trigger] filled[j] is None ==> match rels[j] {
                Some(rel) => 0 <= rel.ref_index() < rels.len() && filled[rel.ref_index() as int] is None,
                None => false,
            },
        reaches(rels, a, i, k),
    ensures
        filled[i] is Some,
    decreases k,
{
    if i != a {
        match rels[i] {
            Some(rel) => {
                lemma_empty_closed(rels, filled, a, rel.ref_index() as int, (k - 1) as nat);
            },
            None => {},
        }
    }
}

/// Filling one empty entry lowers the count of empty entries by one.
pub proof fn lemma_count_none_fill(s: Seq<Option<char>>, i: int, c: char)
    requires
        0 <= i < s.len(),
        s[i] is None,
    ensures
        count_none(s.update(i, Some(c))) + 1 == count_none(s),
    decreases s.len(),
{
    let t = s.update(i, Some(c));
    if i == s.len() - 1 {
        assert(t.drop_last() == s.drop_last());
    } else {
        assert(t.drop_last() == s.drop_last().update(i, Some(c)));
        lemma_count_none_fill(s.drop_last(), i, c);
    }
}

/// A sequence with no empty entry has every entry filled; one with empty
/// entries has an empty entry.
pub proof fn lemma_count_none_zero(s: Seq<Option<char>>)
    ensures
        count_none(s) == 0 <==> forall|j: int| 0 <= j < s.len() ==> #[trigger] s[j] is Some,
        count_none(s) <= s.len(),
    decreases s.len(),
{
    if s.len() > 0 {
        lemma_count_none_zero(s.drop_last());
        if count_none(s) == 0 {
            assert forall|j: int| 0 <= j < s.len() implies #[trigger] s[j] is Some by {
                if j < s.len() - 1 {
                    assert(s.drop_last()[j] == s[j]);
                }
            }
        }
        if forall|j: int| 0 <= j < s.len() ==> #[trigger] s[j] is Some {
            assert forall|j: int| 0 <= j < s.drop_last().len() implies #[trigger] s.drop_last()[j] is Some by {
                assert(s.drop_last()[j] == s[j]);
            }
        }
    }
}

/// A sequence of `n` empty entries has `n` empty entries.
pub proof fn lemma_count_none_all(s: Seq<Option<char>>)
    requires
        forall|j: int| 0 <= j < s.len() ==> #[trigger] s[j] is None,
    ensures
        count_none(s) == s.len(),
    decreases s.len(),
{
    if s.len() > 0 {
        assert forall|j: int| 0 <= j < s.drop_last().len() implies #[trigger] s.drop_last()[j] is None by {
            assert(s.drop_last()[j] == s[j]);
        }
        lemma_count_none_all(s.drop_last());
    }
}

} // verus!
