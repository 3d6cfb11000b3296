use vstd::prelude::*;

verus! {

#[verifier::external_type_specification]
#[verifier::external_body]
pub struct ExRng(fastrand::Rng);

/// Relies on fastrand::Rng::with_seed: builds a generator whose state is the seed.
pub assume_specification[ fastrand::Rng::with_seed ](seed: u64) -> fastrand::Rng;

/// The boolean that the `draw`-th call (counting from zero) of
/// `fastrand::Rng::bool` returns on a generator built by
/// `fastrand::Rng::with_seed(seed)` and used for nothing else. The generator
/// is a fixed function of its state, so this depends on `seed` and `draw` alone.
pub uninterp spec fn coin_of(seed: u64, draw: nat) -> bool;

/// A player's private pseudo-random stream: a generator together with the
/// seed it was built from and the number of booleans drawn from it so far.
pub struct RandomStream {
    rng: fastrand::Rng,
    seed: Ghost<u64>,
    draws: Ghost<nat>,
}

impl RandomStream {
    /// The seed the stream was built from.
    pub closed spec fn seed(&self) -> u64 {
        self.seed@
    }

    /// The number of booleans drawn so far.
    pub closed spec fn draws(&self) -> nat {
        self.draws@
    }

    /// A fresh stream seeded with `seed`.
    pub fn new(seed: u64) -> (r: Self)
        ensures
            r.seed() == seed,
            r.draws() == 0,
    {
        RandomStream { rng: fastrand::Rng::with_seed(seed), seed: Ghost(seed), draws: Ghost(0) }
    }

    /// Relies on fastrand::Rng::bool: the next boolean of the generator, which
    /// is the one numbered by the draws made so far.
    #[verifier::external_body]
    pub(crate) fn next_bool(&mut self) -> (r: bool)
        ensures
            r == coin_of(old(self).seed(), old(self).draws()),
            final(self).seed() == old(self).seed(),
            final(self).draws() == old(self).draws() + 1,
    {
        let r = self.rng.bool();
        self.draws = Ghost((self.draws@ + 1) as nat);
        r
    }
}

} // verus!
