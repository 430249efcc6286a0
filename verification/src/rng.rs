//! The calls into `rand` that the key generator and the chain encoder make.
//!
//! What these calls return depends on the random generator; their contracts
//! state only what holds of every outcome.

use rand::seq::SliceRandom;
use vstd::prelude::*;

verus! {

/// `rand::seq::SliceRandom::shuffle` on the items of `items`.
///
/// The contract claims only that the items are rearranged: the same items,
/// each as often as before, in an order that the generator decides.
#[verifier::external_body]
pub(crate) fn shuffle<T, R: rand::Rng + ?Sized>(items: &mut Vec<T>, rng: &mut R)
    ensures
        final(items)@.to_multiset() == old(items)@.to_multiset(),
{
    items.as_mut_slice().shuffle(rng);
}

/// `rand::seq::SliceRandom::choose` on the items of `items`.
///
/// The contract claims that the result is `None` exactly when `items` is
/// empty, and otherwise one of the items; which one the generator decides.
#[verifier::external_body]
pub(crate) fn choose_one<'a, T, R: rand::Rng + ?Sized>(items: &'a Vec<T>, rng: &mut R) -> (r: Option<&'a T>)
    ensures
        r is None <==> items@.len() == 0,
        r matches Some(x) ==> items@.contains(*x),
{
    SliceRandom::choose(items.as_slice(), rng)
}

/// A rearrangement of a duplicate-free list is duplicate-free and holds the
/// same items.
pub(crate) proof fn lemma_rearranged_same_items<T>(s: Seq<T>, t: Seq<T>)
    requires
        s.no_duplicates(),
        t.to_multiset() == s.to_multiset(),
    ensures
        t.no_duplicates(),
        t.len() == s.len(),
        forall|x: T| t.contains(x) <==> s.contains(x),
{
    broadcast use vstd::seq_lib::to_multiset_len, vstd::seq_lib::to_multiset_contains;

    s.lemma_multiset_has_no_duplicates();
    t.lemma_multiset_has_no_duplicates_conv();
    assert(t.len() == t.to_multiset().len());
    assert(s.len() == s.to_multiset().len());
    assert forall|x: T| t.contains(x) <==> s.contains(x) by {
        assert(t.contains(x) <==> t.to_multiset().count(x) > 0);
        assert(s.contains(x) <==> s.to_multiset().count(x) > 0);
    }
}

} // verus!
