//! Random choices, from the `rand` crate.

use rand::rngs::ThreadRng;
use rand::seq::SliceRandom;
use vstd::prelude::*;

verus! {

/// `rand::rngs::ThreadRng`, the thread-local generator.
#[verifier::external_type_specification]
#[verifier::external_body]
pub struct ExThreadRng(ThreadRng);

/// `rand::thread_rng` hands out the thread-local generator; nothing is
/// promised of it.
pub assume_specification[ rand::thread_rng ]() -> ThreadRng;

/// Calls `SliceRandom::choose` on a slice of characters. Claimed: the result
/// is one of the items, and there is one exactly when the slice is not
/// empty. Which item comes back is chance and is not described.
#[verifier::external_body]
pub(crate) fn choose_char(items: &[char], rng: &mut ThreadRng) -> (r: Option<char>)
    ensures
        match r {
            Some(c) => items@.contains(c),
            None => items@.len() == 0,
        },
{
    match items.choose(rng) {
        Some(c) => Some(*c),
        None => None,
    }
}

} // verus!
