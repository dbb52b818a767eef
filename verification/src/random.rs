//! The deterministic random source behind subsampling: a seeded generator
//! of the `rand` crate behind a thin verified sampler.

use vstd::prelude::*;
use rand::Rng;
use rand::SeedableRng;

verus! {

#[verifier::external_type_specification]
#[verifier::external_body]
pub struct ExStdRng(rand::rngs::StdRng);

/// Relies on rand's `SeedableRng::seed_from_u64`: a generator built from a
/// seed. Nothing is assumed of the values it will produce.
#[verifier::external_body]
pub fn rng_from_seed(seed: u64) -> (r: rand::rngs::StdRng)
    ensures
        true,
{
    rand::rngs::StdRng::seed_from_u64(seed)
}

/// Relies on rand's `SeedableRng::from_entropy`: a generator from system
/// entropy. Nothing is assumed of the values it will produce.
#[verifier::external_body]
pub fn rng_from_entropy() -> (r: rand::rngs::StdRng)
    ensures
        true,
{
    rand::rngs::StdRng::from_entropy()
}

/// Relies on rand's `Rng::gen_range`: a sample within the half-open range,
/// whatever value comes back.
#[verifier::external_body]
fn draw_below(rng: &mut rand::rngs::StdRng, n: usize) -> (r: usize)
    requires
        n >= 1,
    ensures
        r < n,
{
    rng.gen_range(0..n)
}

pub struct Random {
    pub rng: rand::rngs::StdRng,
}

impl Random {
    pub fn new(rng: rand::rngs::StdRng) -> (r: Random) {
        Random { rng }
    }

    /// Draw `k` indices below `n`: independently when `replace` is set,
    /// otherwise pairwise distinct by a partial shuffle of `0..n`.
    pub fn sample(&mut self, n: usize, k: usize, replace: bool) -> (r: Vec<usize>)
        requires
            k <= n,
        ensures
            r@.len() == k,
            forall|i: int| 0 <= i < k ==> #[trigger] r@[i] < n,
            !replace ==> forall|i: int, j: int| 0 <= i < j < k ==> r@[i] != r@[j],
    {
        if replace {
            let mut values: Vec<usize> = Vec::new();
            while values.len() < k
                invariant
                    k <= n,
                    values@.len() <= k,
                    forall|i: int| 0 <= i < values@.len() ==> #[trigger] values@[i] < n,
                decreases k - values@.len(),
            {
                let sample = draw_below(&mut self.rng, n);
                values.push(sample);
            }
            values
        } else {
            // partial shuffle: the first k positions end up pairwise distinct
            let mut pool: Vec<usize> = Vec::new();
            let mut i: usize = 0;
            while i < n
                invariant
                    i <= n,
                    pool@.len() == i,
                    forall|t: int| 0 <= t < i ==> #[trigger] pool@[t] == t,
                decreases n - i,
            {
                pool.push(i);
                i = i + 1;
            }
            proof {
                assert forall|a: int, b: int|
                    0 <= a < b < pool@.len() implies pool@[a] != pool@[b] by {}
            }
            let mut j: usize = 0;
            while j < k
                invariant
                    k <= n,
                    pool@.len() == n,
                    j <= k,
                    forall|t: int| 0 <= t < n ==> #[trigger] pool@[t] < n,
                    forall|a: int, b: int| 0 <= a < b < n ==> pool@[a] != pool@[b],
                decreases k - j,
            {
                let d = draw_below(&mut self.rng, n - j);
                let pick = j + d;
                let a = pool[j];
                let b = pool[pick];
                pool.set(j, b);
                pool.set(pick, a);
                j = j + 1;
            }
            let mut values: Vec<usize> = Vec::new();
            let mut t: usize = 0;
            while t < k
                invariant
                    k <= n,
                    pool@.len() == n,
                    forall|a: int| 0 <= a < n ==> #[trigger] pool@[a] < n,
                    forall|a: int, b: int| 0 <= a < b < n ==> pool@[a] != pool@[b],
                    t <= k,
                    values@.len() == t,
                    forall|a: int| 0 <= a < t ==> #[trigger] values@[a] == pool@[a],
                decreases k - t,
            {
                values.push(pool[t]);
                t = t + 1;
            }
            values
        }
    }
}

} // verus!
