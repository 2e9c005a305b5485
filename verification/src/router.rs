//! Routing: which worker a board is handed to.

use crate::grid::Grid;
use crate::hash::{covers_cells, owner_of, StateHash};
use crate::random::{below_usize, next_token, seeded};
use rand::rngs::StdRng;
use vstd::prelude::*;

verus! {

/// The scatter threshold that stands for temperature 1: every board is
/// scattered.
pub const ALWAYS_SCATTER: u64 = 0x1_0000_0000;

/// A routing strategy.
pub enum Router<T: StateHash> {
    /// Ownership by hash: a board always goes to the worker that its hash
    /// names.
    Owner { hasher: T },
    /// Diffusion: a board stays with the worker that made it, unless a draw of
    /// 32 bits falls below `threshold`; then it goes to a worker drawn
    /// uniformly among all. The temperature is `threshold / 2^32`.
    Diffusion { rng: StdRng, threshold: u64 },
}

/// Whether a draw of 32 bits scatters a board under diffusion: it does where
/// it falls below the threshold.
pub fn scatters(draw: u32, threshold: u64) -> (scatter: bool)
    ensures
        scatter == ((draw as u64) < threshold),
{
    (draw as u64) < threshold
}

impl<T: StateHash> Router<T> {
    /// Routing by ownership under `hasher`.
    pub fn owner(hasher: T) -> (router: Router<T>)
        ensures
            router == (Router::Owner { hasher }),
    {
        Router::Owner { hasher }
    }

    /// Routing by diffusion, with draws from `seed`.
    pub fn diffusion(seed: u64, threshold: u64) -> (router: Router<T>)
        ensures
            router is Diffusion,
            router->threshold == threshold,
    {
        Router::Diffusion { rng: seeded(seed), threshold }
    }

    /// Whether the router can route `state`: under ownership the hasher has a
    /// token for every tile of it.
    pub open spec fn accepts(self, state: Seq<Option<i32>>) -> bool {
        match self {
            Router::Owner { hasher } => covers_cells(&hasher, state),
            Router::Diffusion { .. } => true,
        }
    }

    /// Whether `dest` is where `state`, made by worker `from`, may go.
    pub open spec fn sends(self, state: Grid, from: u32, workers: u32, dest: u32) -> bool {
        &&& dest < workers
        &&& match self {
            Router::Owner { hasher } => dest == owner_of(&hasher, state@, workers),
            Router::Diffusion { threshold, .. } => threshold == 0 ==> dest == from,
        }
    }

    /// What a routing leaves of the router: under ownership all of it, under
    /// diffusion the threshold.
    pub open spec fn keeps(self, before: Router<T>) -> bool {
        match before {
            Router::Owner { .. } => self == before,
            Router::Diffusion { threshold, .. } => self is Diffusion && self->threshold
                == threshold,
        }
    }

    /// The worker, among `workers`, that `state` goes to when worker `from`
    /// has made it.
    pub fn route(&mut self, state: &Grid, from: u32, workers: u32) -> (dest: u32)
        requires
            from < workers,
            state@.squared(),
            old(self).accepts(state@.data),
        ensures
            old(self).sends(*state, from, workers, dest),
            final(self).keeps(*old(self)),
    {
        match self {
            Router::Owner { hasher } => state.owner(hasher, workers),
            Router::Diffusion { rng, threshold } => {
                let draw = next_token(rng);
                if scatters(draw, *threshold) {
                    below_usize(rng, workers as usize) as u32
                } else {
                    from
                }
            },
        }
    }
}

/// Under ownership a board goes to one worker: whoever made it, and whenever
/// it is routed, the destination is the same.
pub proof fn lemma_route_stable<T: StateHash>(
    router: Router<T>,
    workers: u32,
    first: Grid,
    from_first: u32,
    dest_first: u32,
    again: Grid,
    from_again: u32,
    dest_again: u32,
)
    requires
        router is Owner,
        first@ == again@,
        router.sends(first, from_first, workers, dest_first),
        router.sends(again, from_again, workers, dest_again),
    ensures
        dest_first == dest_again,
{
}

} // verus!
