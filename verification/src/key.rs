//! The secret key: a permutation of the alphabet that fixes each character's rank.

use std::collections::HashMap;
use vstd::prelude::*;

use crate::alphabet::{char_code_injective, Alphabet};
use crate::error::{MusubiError, Result};
use crate::rng;

verus! {

broadcast use vstd::std_specs::hash::group_hash_axioms;

/// The rank of `c` under the permutation `perm`: its position, or `None`
/// when `perm` does not hold it.
pub open spec fn rank_in(perm: Seq<char>, c: char) -> Option<int> {
    if perm.contains(c) {
        Some(perm.index_of(c))
    } else {
        None
    }
}

/// Position `i` of `perm` is refused for `alphabet`: its character is not
/// in the alphabet, or it already occurred at an earlier position.
pub open spec fn rank_is_bad(perm: Seq<char>, alphabet: Seq<char>, i: int) -> bool {
    !alphabet.contains(perm[i]) || perm.take(i).contains(perm[i])
}

/// `perm` is accepted as a key for `alphabet`: it has the alphabet's length
/// and holds each of its characters once.
pub open spec fn permutation_accepted(perm: Seq<char>, alphabet: Seq<char>) -> bool {
    &&& perm.len() == alphabet.len()
    &&& forall|i: int| 0 <= i < perm.len() ==> !rank_is_bad(perm, alphabet, i)
}

/// The plain content of a key document: the alphabet identifier and the
/// permutation, as keys are written to and read from files.
#[derive(Debug, Clone)]
pub struct KeyDocument {
    /// Identifier of the alphabet the key belongs to.
    pub alphabet: String,
    /// The alphabet's characters in the key's order.
    pub permutation: Vec<char>,
}

/// A secret permutation over the characters of an [`Alphabet`].
#[derive(Debug)]
pub struct Key {
    permutation: Vec<char>,
    alphabet_id: String,
    rank_of: HashMap<u32, usize>,
}

impl Key {
    /// The permutation: the character at each rank.
    pub closed spec fn perm(self) -> Seq<char> {
        self.permutation@
    }

    /// Identifier of the alphabet the key belongs to.
    pub closed spec fn alphabet_id_view(self) -> Seq<char> {
        self.alphabet_id@
    }

    pub(crate) closed spec fn rank_table_ok(self) -> bool {
        &&& forall|r: int|
            0 <= r < self.permutation@.len() ==> {
                &&& #[trigger] self.rank_of@.contains_key(self.permutation@[r] as u32)
                &&& self.rank_of@[self.permutation@[r] as u32] == r
            }
        &&& forall|k: u32| #[trigger]
            self.rank_of@.contains_key(k) ==> {
                &&& self.rank_of@[k] < self.permutation@.len()
                &&& self.permutation@[self.rank_of@[k] as int] as u32 == k
            }
    }

    #[verifier::type_invariant]
    pub(crate) open spec fn well_formed(self) -> bool {
        &&& self.perm().len() > 0
        &&& self.perm().no_duplicates()
        &&& self.rank_table_ok()
    }

    /// Builds a key from a permutation of the alphabet's characters.
    ///
    /// The permutation must hold every character of `alphabet` exactly once.
    pub fn new(alphabet: &Alphabet, permutation: Vec<char>) -> (r: Result<Key>)
        ensures
            r is Ok <==> permutation_accepted(permutation@, alphabet.char_seq()),
            permutation@.len() != alphabet.char_seq().len() ==> r == Err::<Key, MusubiError>(
                MusubiError::PermutationLengthMismatch {
                    expected: alphabet.char_seq().len() as usize,
                    got: permutation@.len() as usize,
                },
            ),
            permutation@.len() == alphabet.char_seq().len() && !permutation_accepted(
                permutation@,
                alphabet.char_seq(),
            ) ==> r == Err::<Key, MusubiError>(MusubiError::PermutationNotBijection),
            r matches Ok(k) ==> k.perm() == permutation@ && k.alphabet_id_view()
                == alphabet.id_view() && usable_perm(k.perm()),
    {
        let n = alphabet.len();
        if permutation.len() != n {
            return Err(
                MusubiError::PermutationLengthMismatch { expected: n, got: permutation.len() },
            );
        }
        let mut rank_of: HashMap<u32, usize> = HashMap::with_capacity(permutation.len());
        let mut rank: usize = 0;
        while rank < permutation.len()
            invariant
                0 <= rank <= permutation@.len(),
                permutation@.len() == alphabet.char_seq().len(),
                forall|j: int| 0 <= j < rank ==> !rank_is_bad(permutation@, alphabet.char_seq(), j),
                forall|j: int|
                    0 <= j < rank ==> {
                        &&& #[trigger] rank_of@.contains_key(permutation@[j] as u32)
                        &&& rank_of@[permutation@[j] as u32] == j
                    },
                forall|k: u32| #[trigger]
                    rank_of@.contains_key(k) ==> {
                        &&& rank_of@[k] < rank
                        &&& permutation@[rank_of@[k] as int] as u32 == k
                    },
            decreases permutation@.len() - rank,
        {
            let ch = permutation[rank];
            if !alphabet.contains(ch) {
                proof {
                    assert(rank_is_bad(permutation@, alphabet.char_seq(), rank as int));
                }
                return Err(MusubiError::PermutationNotBijection);
            }
            let previous = rank_of.insert(ch as u32, rank);
            if previous.is_some() {
                proof {
                    let j = previous->0 as int;
                    assert(permutation@[j] as u32 == ch as u32);
                    char_code_injective(permutation@[j], ch);
                    assert(permutation@.take(rank as int)[j] == ch);
                    assert(rank_is_bad(permutation@, alphabet.char_seq(), rank as int));
                }
                return Err(MusubiError::PermutationNotBijection);
            }
            proof {
                assert forall|j: int| 0 <= j < rank implies permutation@[j] != ch by {
                    if permutation@[j] == ch {
                        assert(rank_of@.contains_key(ch as u32));
                    }
                }
                assert forall|j: int| 0 <= j <= rank implies {
                    &&& #[trigger] rank_of@.contains_key(permutation@[j] as u32)
                    &&& rank_of@[permutation@[j] as u32] == j
                } by {
                    if j < rank && permutation@[j] as u32 == ch as u32 {
                        char_code_injective(permutation@[j], ch);
                    }
                }
                assert(!permutation@.take(rank as int).contains(ch)) by {
                    if permutation@.take(rank as int).contains(ch) {
                        let j = choose|j: int| 0 <= j < rank && permutation@.take(rank as int)[j] == ch;
                        assert(permutation@[j] == ch);
                    }
                }
            }
            rank = rank + 1;
        }
        proof {
            assert(permutation@.no_duplicates()) by {
                assert forall|a: int, b: int|
                    0 <= a < permutation@.len() && 0 <= b < permutation@.len() && a != b implies
                    permutation@[a] != permutation@[b] by {
                    let (lo, hi) = if a < b { (a, b) } else { (b, a) };
                    assert(!rank_is_bad(permutation@, alphabet.char_seq(), hi));
                    assert(permutation@.take(hi)[lo] == permutation@[lo]);
                }
            }
        }
        proof {
            lemma_distinct_perm_usable(permutation@);
        }
        Ok(Key { permutation, alphabet_id: String::from_str(alphabet.id()), rank_of })
    }

    /// A uniformly shuffled key for `alphabet`, drawn with `rng`.
    pub fn random<R: rand::Rng + ?Sized>(alphabet: &Alphabet, rng: &mut R) -> (r: Key)
        ensures
            r.perm().to_multiset() == alphabet.char_seq().to_multiset(),
            r.perm().len() == alphabet.char_seq().len(),
            r.alphabet_id_view() == alphabet.id_view(),
            usable_perm(r.perm()),
    {
        let mut perm = vstd::slice::slice_to_vec(alphabet.chars());
        rng::shuffle(&mut perm, rng);
        proof {
            lemma_rearrangement_accepted(perm@, alphabet.char_seq());
        }
        match Self::new(alphabet, perm) {
            Ok(k) => k,
            Err(_) => {
                proof {
                    assert(false);
                }
                Key { permutation: Vec::new(), alphabet_id: String::new(), rank_of: HashMap::new() }
            },
        }
    }

    /// Identifier of the alphabet this key belongs to.
    pub fn alphabet_id(&self) -> (r: &str)
        ensures
            r@ == self.alphabet_id_view(),
    {
        self.alphabet_id.as_str()
    }

    /// The number of characters of the underlying alphabet; it is positive,
    /// and the permutation holds no character twice.
    pub fn len(&self) -> (r: usize)
        ensures
            r == self.perm().len(),
            r > 0,
            self.perm().no_duplicates(),
            usable_perm(self.perm()),
    {
        proof {
            use_type_invariant(self);
            lemma_distinct_perm_usable(self.perm());
        }
        self.permutation.len()
    }

    /// Always `false`: a key is never empty.
    pub fn is_empty(&self) -> (r: bool)
        ensures
            r == (self.perm().len() == 0),
            !r,
    {
        proof {
            use_type_invariant(self);
        }
        false
    }

    /// The character at `rank`, or `None` when `rank` is out of range.
    pub fn char_at(&self, rank: usize) -> (r: Option<char>)
        ensures
            r == if rank < self.perm().len() {
                Some(self.perm()[rank as int])
            } else {
                None::<char>
            },
    {
        if rank < self.permutation.len() {
            Some(self.permutation[rank])
        } else {
            None
        }
    }

    /// The rank of `c`, or `None` when `c` is not in the key.
    pub fn rank_of(&self, c: char) -> (r: Option<usize>)
        ensures
            r matches Some(i) ==> i < self.perm().len() && self.perm()[i as int] == c,
            r is Some <==> self.perm().contains(c),
            r matches Some(i) ==> rank_in(self.perm(), c) == Some(i as int),
            r is None ==> rank_in(self.perm(), c) == None::<int>,
    {
        proof {
            use_type_invariant(self);
        }
        match self.rank_of.get(&(c as u32)) {
            Some(i) => {
                proof {
                    let p = self.permutation@;
                    char_code_injective(p[*i as int], c);
                    assert(p.contains(c));
                    let j = p.index_of(c);
                    assert(p[j] == c);
                }
                Some(*i)
            },
            None => {
                proof {
                    if self.permutation@.contains(c) {
                        let j = choose|j: int|
                            0 <= j < self.permutation@.len() && self.permutation@[j] == c;
                        assert(self.rank_of@.contains_key(self.permutation@[j] as u32));
                    }
                }
                None
            },
        }
    }

    /// The plain document that a key is written as: its alphabet identifier
    /// and its permutation.
    pub fn to_document(&self) -> (r: KeyDocument)
        ensures
            r.alphabet@ == self.alphabet_id_view(),
            r.permutation@ == self.perm(),
    {
        let permutation = self.permutation.clone();
        proof {
            assert(permutation@ == self.permutation@);
        }
        KeyDocument { alphabet: self.alphabet_id.clone(), permutation }
    }

    /// Reads a key back from its document, checking it against `alphabet`.
    ///
    /// A document for another alphabet is refused with `AlphabetMismatch`;
    /// otherwise the permutation is checked as [`Key::new`] does.
    pub fn from_document(document: KeyDocument, alphabet: &Alphabet) -> (r: Result<Key>)
        ensures
            document.alphabet@ != alphabet.id_view() ==> (r matches Err(
                MusubiError::AlphabetMismatch { expected, got },
            ) && expected@ == alphabet.id_view() && got@ == document.alphabet@),
            document.alphabet@ == alphabet.id_view() ==> (r is Ok <==> permutation_accepted(
                document.permutation@,
                alphabet.char_seq(),
            )),
            document.alphabet@ == alphabet.id_view() && document.permutation@.len()
                != alphabet.char_seq().len() ==> r == Err::<Key, MusubiError>(
                MusubiError::PermutationLengthMismatch {
                    expected: alphabet.char_seq().len() as usize,
                    got: document.permutation@.len() as usize,
                },
            ),
            document.alphabet@ == alphabet.id_view() && document.permutation@.len()
                == alphabet.char_seq().len() && !permutation_accepted(
                document.permutation@,
                alphabet.char_seq(),
            ) ==> r == Err::<Key, MusubiError>(MusubiError::PermutationNotBijection),
            r matches Ok(k) ==> k.perm() == document.permutation@ && k.alphabet_id_view()
                == alphabet.id_view() && usable_perm(k.perm()),
    {
        let expected = String::from_str(alphabet.id());
        if !(document.alphabet == expected) {
            return Err(MusubiError::AlphabetMismatch { expected, got: document.alphabet });
        }
        Self::new(alphabet, document.permutation)
    }
}

impl Clone for Key {
    /// A copy of the key.
    fn clone(&self) -> (r: Key)
        ensures
            r.perm() == self.perm(),
            r.alphabet_id_view() == self.alphabet_id_view(),
    {
        proof {
            use_type_invariant(self);
        }
        let permutation = self.permutation.clone();
        proof {
            assert(permutation@ == self.permutation@);
        }
        Key { permutation, alphabet_id: self.alphabet_id.clone(), rank_of: self.rank_of.clone() }
    }
}

/// A permutation that a key can hold: non-empty and without repeats, with
/// fewer than 2^32 characters so that every shift fits in an `i32`.
pub open spec fn usable_perm(perm: Seq<char>) -> bool {
    &&& perm.len() > 0
    &&& perm.len() < 0x1_0000_0000
    &&& perm.no_duplicates()
}

/// A sequence of characters without repeats holds at most as many items as
/// there are character codes.
pub proof fn lemma_distinct_chars_bounded(s: Seq<char>)
    requires
        s.no_duplicates(),
    ensures
        s.len() <= 0x110000,
{
    broadcast use vstd::seq_lib::seq_to_set_is_finite;

    s.unique_seq_to_set();
    let f = |c: char| (c as u32) as int;
    let chars = s.to_set();
    let codes = chars.map(f);
    assert(vstd::relations::injective_on(f, chars)) by {
        assert forall|a: char, b: char|
            chars.contains(a) && chars.contains(b) && #[trigger] f(a) == #[trigger] f(b) implies a
            == b by {
            assert(a as u32 == b as u32);
            char_code_injective(a, b);
        }
    }
    vstd::set_lib::lemma_map_size(chars, codes, f);
    vstd::set_lib::lemma_int_range(0, 0x110000);
    assert(codes.subset_of(vstd::set_lib::set_int_range(0, 0x110000))) by {
        assert forall|x: int| codes.contains(x) implies vstd::set_lib::set_int_range(
            0,
            0x110000,
        ).contains(x) by {
            let c = choose|c: char| chars.contains(c) && f(c) == x;
            vstd::utf8::char_is_scalar(c);
            assert(f(c) == x);
        }
    }
    vstd::set_lib::lemma_len_subset(codes, vstd::set_lib::set_int_range(0, 0x110000));
}

/// A non-empty permutation without repeats is usable: it is short enough
/// for every shift to fit in an `i32`.
proof fn lemma_distinct_perm_usable(perm: Seq<char>)
    requires
        perm.len() > 0,
        perm.no_duplicates(),
    ensures
        usable_perm(perm),
{
    lemma_distinct_chars_bounded(perm);
}

/// A permutation accepted for a duplicate-free alphabet holds every
/// character of the alphabet exactly once: it is a rearrangement of it.
pub proof fn lemma_accepted_is_rearrangement(perm: Seq<char>, alphabet: Seq<char>)
    requires
        alphabet.no_duplicates(),
        permutation_accepted(perm, alphabet),
    ensures
        perm.to_multiset() == alphabet.to_multiset(),
        perm.no_duplicates(),
{
    broadcast use vstd::seq_lib::to_multiset_contains, vstd::seq_lib::seq_to_set_is_finite;

    assert(perm.no_duplicates()) by {
        assert forall|a: int, b: int|
            0 <= a < perm.len() && 0 <= b < perm.len() && a != b implies perm[a] != perm[b] by {
            let (lo, hi) = if a < b { (a, b) } else { (b, a) };
            assert(!rank_is_bad(perm, alphabet, hi));
            assert(perm.take(hi)[lo] == perm[lo]);
        }
    }
    perm.unique_seq_to_set();
    alphabet.unique_seq_to_set();
    assert(perm.to_set().subset_of(alphabet.to_set())) by {
        assert forall|c: char| perm.to_set().contains(c) implies alphabet.to_set().contains(c) by {
            let i = choose|i: int| 0 <= i < perm.len() && perm[i] == c;
            assert(!rank_is_bad(perm, alphabet, i));
        }
    }
    vstd::set_lib::lemma_subset_equality(perm.to_set(), alphabet.to_set());
    perm.lemma_multiset_has_no_duplicates();
    alphabet.lemma_multiset_has_no_duplicates();
    assert forall|c: char| perm.to_multiset().count(c) == alphabet.to_multiset().count(c) by {
        assert(perm.to_set().contains(c) == alphabet.to_set().contains(c));
        if perm.contains(c) {
            assert(perm.to_multiset().contains(c));
            assert(alphabet.to_multiset().contains(c));
        }
    }
    assert(perm.to_multiset() =~= alphabet.to_multiset());
}

/// A rearrangement of a duplicate-free alphabet is accepted as a key for it.
pub proof fn lemma_rearrangement_accepted(perm: Seq<char>, alphabet: Seq<char>)
    requires
        alphabet.no_duplicates(),
        perm.to_multiset() == alphabet.to_multiset(),
    ensures
        permutation_accepted(perm, alphabet),
        perm.no_duplicates(),
{
    broadcast use vstd::seq_lib::to_multiset_len, vstd::seq_lib::to_multiset_contains;

    alphabet.lemma_multiset_has_no_duplicates();
    perm.lemma_multiset_has_no_duplicates_conv();
    assert(perm.len() == perm.to_multiset().len());
    assert(alphabet.len() == alphabet.to_multiset().len());
    assert forall|i: int| 0 <= i < perm.len() implies !rank_is_bad(perm, alphabet, i) by {
        assert(perm.to_multiset().count(perm[i]) > 0);
        assert(alphabet.to_multiset().count(perm[i]) > 0);
        assert(alphabet.contains(perm[i]));
        if perm.take(i).contains(perm[i]) {
            let j = choose|j: int| 0 <= j < i && perm.take(i)[j] == perm[i];
            assert(perm[j] == perm[i]);
        }
    }
}

} // verus!
