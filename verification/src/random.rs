use vstd::prelude::*;

use rand::seq::IndexedRandom;
use rand::seq::SliceRandom;
use rand::RngExt;

verus! {

/// Relies on rand's `RngExt::random_range` over `0..n`: the sample lies in the
/// range, which is non-empty by the precondition.
#[verifier::external_body]
pub(crate) fn random_below(n: usize) -> (r: usize)
    requires
        n >= 1,
    ensures
        r < n,
{
    rand::rng().random_range(0..n)
}

/// Relies on rand's `SliceRandom::shuffle`: a Fisher-Yates pass that permutes
/// the slice in place, so the multiset of elements is unchanged.
#[verifier::external_body]
pub(crate) fn shuffle<T>(v: &mut Vec<T>)
    ensures
        final(v)@.to_multiset() == old(v)@.to_multiset(),
        final(v)@.len() == old(v)@.len(),
{
    v.shuffle(&mut rand::rng());
}

/// Relies on rand's `IndexedRandom::choose`: `None` exactly on an empty slice,
/// otherwise a uniformly sampled element of the slice.
#[verifier::external_body]
pub(crate) fn choose_coord(v: &Vec<(usize, usize)>) -> (r: Option<(usize, usize)>)
    ensures
        r is Some <==> v@.len() > 0,
        r matches Some(p) ==> v@.contains(p),
{
    v.choose(&mut rand::rng()).copied()
}

} // verus!
