//! The one place where the engine touches a source of randomness: shuffling
//! the seven piece types of a fresh bag.

use rand::seq::SliceRandom;
use vstd::prelude::*;

use crate::state::PieceType;

verus! {

/// Relies on rand's `SliceRandom::shuffle`: it reorders the slice in place,
/// keeping exactly the same elements. Nothing is assumed about the order that
/// comes out.
#[verifier::external_body]
pub(crate) fn shuffle_pieces(pieces: &mut [PieceType; 7])
    ensures
        final(pieces)@.to_multiset() == old(pieces)@.to_multiset(),
{
    pieces.shuffle(&mut rand::thread_rng());
}

} // verus!
