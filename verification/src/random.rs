//! Random choices of the `rand` crate.

use rand::seq::SliceRandom;
use rand::RngCore;
use vstd::prelude::*;

verus! {

/// Calls `SliceRandom::shuffle` with the generator of the thread: the items come in some
/// order, each as often as before.
#[verifier::external_body]
pub(crate) fn shuffle(items: &mut Vec<u32>)
    ensures
        final(items)@.to_multiset() == old(items)@.to_multiset(),
{
    items.shuffle(&mut rand::thread_rng());
}

/// Calls `rand::random`: some number.
#[verifier::external_body]
pub(crate) fn random_u32() -> (n: u32) {
    rand::random()
}

/// Calls `SliceRandom::choose` with the generator of the thread: some item, unless there is
/// none.
#[verifier::external_body]
pub(crate) fn choose_one(items: &Vec<u64>) -> (res: Option<u64>)
    ensures
        res is None <==> items@.len() == 0,
        res matches Some(x) ==> items@.contains(x),
{
    items.choose(&mut rand::thread_rng()).copied()
}

/// Calls `RngCore::fill_bytes` with the generator of the thread: some twelve bytes.
#[verifier::external_body]
pub(crate) fn random_tail() -> (tail: [u8; 12]) {
    let mut tail = [0u8; 12];
    rand::thread_rng().fill_bytes(&mut tail);
    tail
}

} // verus!
