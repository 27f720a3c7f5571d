//! Calls into the `rand` crate: the only sources of chance in the library.

use vstd::prelude::*;
use rand::Rng;
use rand::seq::IteratorRandom;

verus! {

/// Relies on `rand::Rng::random_range` over `0..n` with the thread-local
/// generator `rand::rng()`: a value below `n`. It panics on an empty range.
#[verifier::external_body]
pub(crate) fn random_below(n: usize) -> (r: usize)
    requires
        n > 0,
    ensures
        r < n,
{
    rand::rng().random_range(0..n)
}

/// Relies on `rand::seq::IteratorRandom::choose_multiple` over `0..n`: it
/// keeps each element of the range at most once and returns `amount` of them
/// when the range is long enough. It first reserves room for `amount`
/// elements, so `amount` stays within `n`.
#[verifier::external_body]
pub(crate) fn choose_indices(n: usize, amount: usize) -> (r: Vec<usize>)
    requires
        amount <= n,
    ensures
        r@.len() == amount,
        forall|i: int| 0 <= i < r@.len() ==> #[trigger] r@[i] < n,
        forall|i: int, j: int| 0 <= i < j < r@.len() ==> r@[i] != r@[j],
{
    (0..n).choose_multiple(&mut rand::rng(), amount)
}

} // verus!

verus! {

/// Relies on `uuid::Uuid::new_v4` (read through `Uuid::as_u128`): a fresh
/// random identifier; nothing is known of its value.
#[verifier::external_body]
pub(crate) fn new_game_id() -> (r: u128) {
    uuid::Uuid::new_v4().as_u128()
}

} // verus!
