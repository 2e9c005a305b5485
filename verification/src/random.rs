//! The pseudorandom numbers that boards and routing tables are drawn from.

use rand::rngs::StdRng;
use rand::{Rng, SeedableRng};
use vstd::prelude::*;

verus! {

/// `rand::rngs::StdRng`, the generator behind every draw of this library. Its
/// state is opaque here.
#[verifier::external_type_specification]
#[verifier::external_body]
pub struct ExStdRng(StdRng);

/// `StdRng::seed_from_u64`: a generator whose stream is fixed by `seed`.
/// Nothing is claimed of the stream.
#[verifier::external_body]
pub(crate) fn seeded(seed: u64) -> (rng: StdRng) {
    StdRng::seed_from_u64(seed)
}

/// `rand::random::<u64>`: a seed from the thread's generator, which the
/// system seeds. Nothing is claimed of it.
#[verifier::external_body]
pub(crate) fn fresh_seed() -> (seed: u64) {
    rand::random()
}

/// The first `count` numbers of 32 bits that a generator seeded with `seed`
/// gives.
pub uninterp spec fn token_stream(seed: u64, count: nat) -> Seq<u32>;

/// `StdRng::seed_from_u64(seed)` and `Rng::sample_iter(Standard)`: the first
/// `count` numbers of 32 bits of the stream that the seed fixes. They depend on
/// the seed and the count alone, and there are `count` of them: the stream does
/// not end. Collecting them fails where their bytes are more than `isize`
/// holds, so `count` is at most an eighth of `usize::MAX`.
#[verifier::external_body]
pub(crate) fn seeded_tokens(seed: u64, count: usize) -> (tokens: Vec<u32>)
    requires
        count <= usize::MAX / 8,
    ensures
        tokens@ == token_stream(seed, count as nat),
        tokens.len() == count,
{
    StdRng::seed_from_u64(seed).sample_iter(rand::distributions::Standard).take(count).collect()
}

/// `Rng::gen::<u32>`: the next 32 bits of the stream. Nothing is claimed of
/// them.
#[verifier::external_body]
pub(crate) fn next_token(rng: &mut StdRng) -> (token: u32) {
    rng.gen()
}

/// `Rng::gen_range(0..n)` on `i32`: a number from 0 up to, not including,
/// `n`. The call panics on an empty range, so `n` is positive.
#[verifier::external_body]
pub(crate) fn below_i32(rng: &mut StdRng, n: i32) -> (r: i32)
    requires
        n > 0,
    ensures
        0 <= r < n,
{
    rng.gen_range(0..n)
}

/// `Rng::gen_range(0..n)` on `usize`: a number from 0 up to, not including,
/// `n`. The call panics on an empty range, so `n` is positive.
#[verifier::external_body]
pub(crate) fn below_usize(rng: &mut StdRng, n: usize) -> (r: usize)
    requires
        n > 0,
    ensures
        r < n,
{
    rng.gen_range(0..n)
}

} // verus!
