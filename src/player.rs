use crate::choice::Choice;
use crate::rng::RandomStream;
use crate::strategies::Strategy;
use vstd::arithmetic::div_mod::{lemma_add_mod_noop, lemma_small_mod};
use vstd::prelude::*;
use vstd::string::StringSliceAdditionalSpecFns;

verus! {

/// A roster entry: a name, the strategy it follows, and its own random stream.
pub struct Player {
    strategy: Strategy,
    pub name: &'static str,
    rng: RandomStream,
}

/// The sum of a sequence of bytes.
pub open spec fn byte_sum(b: Seq<u8>) -> nat
    decreases b.len(),
{
    if b.len() == 0 {
        0
    } else {
        byte_sum(b.drop_last()) + b.last() as nat
    }
}

/// The seed of the player called `name`: the sum of its bytes, modulo the
/// range of `usize`.
pub open spec fn name_seed(name: &str) -> u64 {
    (byte_sum(name.spec_bytes()) % (usize::MAX as nat + 1)) as u64
}

/// The seed derived from a player's name: the sum of its bytes, modulo the
/// range of `usize`.
pub fn create_seed_from_str(s: &str) -> (r: usize)
    ensures
        r as nat == byte_sum(s.spec_bytes()) % (usize::MAX as nat + 1),
{
    let b = s.as_bytes();
    let ghost m = usize::MAX as nat + 1;
    let mut acc: usize = 0;
    let mut i: usize = 0;
    proof {
        lemma_small_mod(0, m);
    }
    while i < b.len()
        invariant
            i <= b@.len(),
            b@ == s.spec_bytes(),
            m == usize::MAX as nat + 1,
            acc as nat == byte_sum(b@.take(i as int)) % m,
        decreases b@.len() - i,
    {
        let x = b[i];
        proof {
            let prev = byte_sum(b@.take(i as int));
            assert(b@.take(i as int + 1).drop_last() == b@.take(i as int));
            assert(byte_sum(b@.take(i as int + 1)) == prev + x as nat);
            lemma_add_mod_noop(prev as int, x as int, m as int);
            lemma_small_mod(x as nat, m);
            let sum = acc as nat + x as nat;
            if sum < m {
                lemma_small_mod(sum, m);
            } else {
                assert(sum % m == (sum - m) as nat) by {
                    lemma_small_mod((sum - m) as nat, m);
                    vstd::arithmetic::div_mod::lemma_mod_sub_multiples_vanish(sum as int, m as int);
                }
            }
        }
        acc = acc.wrapping_add(x as usize);
        i = i + 1;
    }
    assert(b@.take(b@.len() as int) == b@);
    acc
}

impl Player {
    /// The strategy this player follows.
    pub closed spec fn kind(&self) -> Strategy {
        self.strategy
    }

    /// The player's own random stream.
    pub closed spec fn stream(&self) -> RandomStream {
        self.rng
    }

    /// The player's display name.
    pub closed spec fn label(&self) -> &'static str {
        self.name
    }

    /// A player with the given strategy and name, whose random stream starts
    /// from `seed`.
    pub fn new(strategy: Strategy, name: &'static str, seed: usize) -> (r: Self)
        ensures
            r.kind() == strategy,
            r.label() == name,
            r.stream().seed() == seed as u64,
            r.stream().draws() == 0,
    {
        Player { strategy, name, rng: RandomStream::new(seed as u64) }
    }

    /// The player's display name.
    pub fn name(&self) -> (r: &'static str)
        ensures
            r == self.label(),
    {
        self.name
    }

    /// The strategy this player follows.
    pub fn strategy(&self) -> (r: Strategy)
        ensures
            r == self.kind(),
    {
        self.strategy
    }

    /// The player's next move given its own and its opponent's history.
    pub fn decide(&mut self, my_choices: &[Choice], other_choices: &[Choice]) -> (r: Choice)
        ensures
            final(self).kind() == old(self).kind(),
            final(self).label() == old(self).label(),
            old(self).kind().decided(my_choices@, other_choices@) matches Some(c) ==> r == c,
            final(self).stream().seed() == old(self).stream().seed(),
            (r, final(self).stream().draws()) == old(self).kind().next_move(
                old(self).stream().seed(),
                old(self).stream().draws(),
                my_choices@,
                other_choices@,
            ),
            !old(self).kind().is_randomized() ==> *final(self) == *old(self),
    {
        self.strategy.play(my_choices, other_choices, &mut self.rng)
    }
}

} // verus!
