//! Relations: how one character's rank follows from another's.
//!
//! Every non-anchor character of a ciphertext is described by a
//! [`Relation`] to a reference position: the same character, a shift of the
//! rank, or the mirror of the rank around zero.

use vstd::prelude::*;

verus! {

/// The relation between a character and its reference character.
#[derive(Debug, Clone, Copy, PartialEq, Eq, Structural)]
pub enum Relation {
    /// The character is the referenced one.
    Same {
        /// Position of the referenced character.
        reference: usize,
    },
    /// The character's rank is the referenced rank plus `delta`, modulo the
    /// alphabet size.
    Shift {
        /// Position of the referenced character.
        reference: usize,
        /// Signed offset in the key's order.
        delta: i32,
    },
    /// The character's rank is minus the referenced rank, modulo the alphabet
    /// size.
    Mirror {
        /// Position of the referenced character.
        reference: usize,
    },
}

impl Relation {
    /// The referenced position.
    pub open spec fn ref_index(self) -> usize {
        match self {
            Relation::Same { reference } => reference,
            Relation::Shift { reference, .. } => reference,
            Relation::Mirror { reference } => reference,
        }
    }

    /// Position this relation references.
    pub fn reference(self) -> (r: usize)
        ensures
            r == self.ref_index(),
    {
        match self {
            Relation::Same { reference } | Relation::Mirror { reference } | Relation::Shift {
                reference,
                ..
            } => reference,
        }
    }
}

/// The rank that `rel` yields from the reference rank `r` in an alphabet of
/// `n` characters.
pub open spec fn target_rank(rel: Relation, r: int, n: int) -> int {
    match rel {
        Relation::Same { .. } => r,
        Relation::Shift { delta, .. } => (r + delta) % n,
        Relation::Mirror { .. } => (-r) % n,
    }
}

/// The character that `rel` yields from the reference character `ref_c`
/// under the permutation `perm`.
pub open spec fn apply_in(rel: Relation, ref_c: char, perm: Seq<char>) -> char {
    perm[target_rank(rel, perm.index_of(ref_c), perm.len() as int)]
}

/// The offset from rank `r0` to rank `r1` modulo `n`, normalized into
/// `[-n/2, n/2]`.
pub open spec fn shift_delta(r0: int, r1: int, n: int) -> int {
    let raw = (r1 - r0) % n;
    if raw > n / 2 {
        raw - n
    } else {
        raw
    }
}

/// The relation that describes `c` from its reference character `ref_c` at
/// position `ref_idx`: `Same` for equal characters, `Mirror` when the two
/// ranks add up to zero modulo the alphabet size, and `Shift` otherwise.
pub open spec fn relation_between(c: char, ref_c: char, ref_idx: usize, perm: Seq<char>) -> Relation {
    let n = perm.len() as int;
    let r0 = perm.index_of(ref_c);
    let r1 = perm.index_of(c);
    if c == ref_c {
        Relation::Same { reference: ref_idx }
    } else if (r0 + r1) % n == 0 {
        Relation::Mirror { reference: ref_idx }
    } else {
        Relation::Shift { reference: ref_idx, delta: shift_delta(r0, r1, n) as i32 }
    }
}

} // verus!
