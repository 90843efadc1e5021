//! The source of chance: the calls into the `rand` crate.
//!
//! Nothing is proved of these calls. Their contracts state what the
//! documentation of `rand` promises of every outcome, and the rest of the
//! library is verified for whatever they return.

use vstd::prelude::*;
use rand::rngs::SmallRng;
use rand::Rng;

verus! {

/// `rand::rngs::SmallRng`, the generator that the board draws from. Its
/// state is hidden from the proofs.
#[verifier::external_type_specification]
#[verifier::external_body]
pub struct ExSmallRng(rand::rngs::SmallRng);

/// Calls `Rng::gen_range`, which draws a number from `low` up to, but not
/// including, `high`. It panics unless `low < high`.
#[verifier::external_body]
pub(crate) fn gen_range(rng: &mut SmallRng, low: usize, high: usize) -> (drawn: usize)
    requires
        low < high,
    ensures
        low <= drawn < high,
{
    rng.gen_range(low, high)
}

/// Calls `rand::seq::index::sample`, which draws `amount` distinct indices
/// below `length` in random order. It panics if `amount` exceeds `length`.
/// For a `length` beyond 32 bits it takes a path that, with its debug
/// assertions on, also refuses `amount == length`; such lengths are left
/// out here.
#[verifier::external_body]
pub(crate) fn sample(rng: &mut SmallRng, length: usize, amount: usize) -> (drawn: Vec<usize>)
    requires
        amount <= length,
        length <= u32::MAX,
    ensures
        drawn@.len() == amount,
        forall|k: int| 0 <= k < drawn@.len() ==> #[trigger] drawn@[k] < length,
        drawn@.no_duplicates(),
{
    rand::seq::index::sample(rng, length, amount).into_vec()
}

} // verus!
