//! The one randomized step of the allocator: an in-place uniform shuffle,
//! delegated to the rand crate.

use vstd::prelude::*;
use crate::names_of;
use rand::seq::SliceRandom;

verus! {

/// Relies on rand's `SliceRandom::shuffle` (Fisher-Yates): it permutes the
/// slice in place, so the multiset of names is unchanged, and the length is
/// kept. Nothing more can be promised of a randomized permutation.
#[verifier::external_body]
pub(crate) fn shuffle_names(v: &mut Vec<String>)
    ensures
        final(v)@.len() == old(v)@.len(),
        names_of(final(v)@).to_multiset() == names_of(old(v)@).to_multiset(),
{
    let mut rng = rand::rng();
    v.shuffle(&mut rng);
}

} // verus!
