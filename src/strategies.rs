use crate::choice::{flipped, Choice};
use crate::rng::{coin_of, RandomStream};
use vstd::prelude::*;

verus! {

/// The named strategy kinds a player can follow.
#[derive(Clone, Copy, Debug, PartialEq, Eq, Structural)]
pub enum Strategy {
    Cooperator,
    Defector,
    TitForTat,
    TitForTwoTats,
    GrimTrigger,
    RandomCoinFlip,
    AlternatorC,
    AlternatorD,
}

/// Tit-for-tat: cooperate first, then repeat the opponent's previous move.
pub open spec fn tit_for_tat_spec(other: Seq<Choice>) -> Choice {
    if other.len() == 0 {
        Choice::Cooperate
    } else {
        other.last()
    }
}

/// Tit-for-two-tats: defect only after two defections in a row.
pub open spec fn tit_for_two_tats_spec(other: Seq<Choice>) -> Choice {
    if other.len() >= 2 && other[other.len() - 1] == Choice::Defect && other[other.len() - 2]
        == Choice::Defect {
        Choice::Defect
    } else {
        Choice::Cooperate
    }
}

/// Grim trigger: defect forever once the opponent has defected.
pub open spec fn grim_trigger_spec(other: Seq<Choice>) -> Choice {
    if other.contains(Choice::Defect) {
        Choice::Defect
    } else {
        Choice::Cooperate
    }
}

/// Alternator: play `first` at the start, then flip the own previous move.
pub open spec fn alternator_spec(first: Choice, mine: Seq<Choice>) -> Choice {
    if mine.len() == 0 {
        first
    } else {
        flipped(mine.last())
    }
}

/// Once the opponent has defected, grim trigger defects on every later call,
/// whatever the opponent plays afterwards.
pub proof fn lemma_grim_trigger_never_forgives(other: Seq<Choice>, later: Seq<Choice>)
    requires
        other.contains(Choice::Defect),
    ensures
        grim_trigger_spec(other + later) == Choice::Defect,
{
    let i = choose|i: int| 0 <= i < other.len() && other[i] == Choice::Defect;
    assert((other + later)[i] == Choice::Defect);
}

impl Strategy {
    /// The move this strategy makes on the given histories, or `None` where
    /// the move is drawn from the player's random stream.
    pub open spec fn decided(self, mine: Seq<Choice>, other: Seq<Choice>) -> Option<Choice> {
        match self {
            Strategy::Cooperator => Some(Choice::Cooperate),
            Strategy::Defector => Some(Choice::Defect),
            Strategy::TitForTat => Some(tit_for_tat_spec(other)),
            Strategy::TitForTwoTats => Some(tit_for_two_tats_spec(other)),
            Strategy::GrimTrigger => Some(grim_trigger_spec(other)),
            Strategy::RandomCoinFlip => None,
            Strategy::AlternatorC => Some(alternator_spec(Choice::Cooperate, mine)),
            Strategy::AlternatorD => Some(alternator_spec(Choice::Defect, mine)),
        }
    }

    /// The move this strategy makes on the given histories from a stream
    /// with the given seed that has had `draws` booleans drawn, and the number
    /// of draws after it.
    pub open spec fn next_move(self, seed: u64, draws: nat, mine: Seq<Choice>, other: Seq<Choice>) -> (
        Choice,
        nat,
    ) {
        match self.decided(mine, other) {
            Some(c) => (c, draws),
            None => (coin_choice(coin_of(seed, draws)), draws + 1),
        }
    }

    pub open spec fn is_randomized(self) -> bool {
        self == Strategy::RandomCoinFlip
    }

    /// Decides the next move from the own and the opponent's history.
    pub fn play(&self, mine: &[Choice], other: &[Choice], rng: &mut RandomStream) -> (r: Choice)
        ensures
            self.decided(mine@, other@) matches Some(c) ==> r == c,
            (r, final(rng).draws()) == self.next_move(old(rng).seed(), old(rng).draws(), mine@, other@),
            final(rng).seed() == old(rng).seed(),
            !self.is_randomized() ==> *final(rng) == *old(rng),
    {
        match self {
            Strategy::Cooperator => cooperator(mine, other, rng),
            Strategy::Defector => defector(mine, other, rng),
            Strategy::TitForTat => tit_for_tat(mine, other, rng),
            Strategy::TitForTwoTats => tit_for_two_tats(mine, other, rng),
            Strategy::GrimTrigger => grim_trigger(mine, other, rng),
            Strategy::RandomCoinFlip => random_coin_flip(mine, other, rng),
            Strategy::AlternatorC => alternator_c(mine, other, rng),
            Strategy::AlternatorD => alternator_d(mine, other, rng),
        }
    }
}

/// Always cooperates.
pub fn cooperator(_mine: &[Choice], _other: &[Choice], _rng: &mut RandomStream) -> (r: Choice)
    ensures
        *final(_rng) == *old(_rng),
        r == Choice::Cooperate,
{
    Choice::Cooperate
}

/// Always defects.
pub fn defector(_mine: &[Choice], _other: &[Choice], _rng: &mut RandomStream) -> (r: Choice)
    ensures
        *final(_rng) == *old(_rng),
        r == Choice::Defect,
{
    Choice::Defect
}

/// The move that a coin showing `heads` stands for.
pub open spec fn coin_choice(heads: bool) -> Choice {
    if heads {
        Choice::Cooperate
    } else {
        Choice::Defect
    }
}

/// The move that a coin showing `heads` stands for.
pub fn coin_to_choice(heads: bool) -> (r: Choice)
    ensures
        r == coin_choice(heads),
{
    if heads {
        Choice::Cooperate
    } else {
        Choice::Defect
    }
}

/// Flips a coin drawn from the player's own random stream.
pub fn random_coin_flip(_mine: &[Choice], _other: &[Choice], rng: &mut RandomStream) -> (r: Choice)
    ensures
        r == coin_choice(coin_of(old(rng).seed(), old(rng).draws())),
        final(rng).seed() == old(rng).seed(),
        final(rng).draws() == old(rng).draws() + 1,
{
    coin_to_choice(rng.next_bool())
}

/// Cooperates first, then mirrors the opponent's most recent move.
pub fn tit_for_tat(_mine: &[Choice], other: &[Choice], _rng: &mut RandomStream) -> (r: Choice)
    ensures
        *final(_rng) == *old(_rng),
        r == tit_for_tat_spec(other@),
{
    if other.len() == 0 {
        Choice::Cooperate
    } else {
        other[other.len() - 1]
    }
}

/// Defects only when the opponent's last two moves were both defections.
pub fn tit_for_two_tats(_mine: &[Choice], other: &[Choice], _rng: &mut RandomStream) -> (r: Choice)
    ensures
        *final(_rng) == *old(_rng),
        r == tit_for_two_tats_spec(other@),
{
    let n = other.len();
    if n >= 2 && other[n - 1] == Choice::Defect && other[n - 2] == Choice::Defect {
        Choice::Defect
    } else {
        Choice::Cooperate
    }
}

/// Cooperates until the opponent defects once, then defects for good.
pub fn grim_trigger(_mine: &[Choice], other: &[Choice], _rng: &mut RandomStream) -> (r: Choice)
    ensures
        *final(_rng) == *old(_rng),
        r == grim_trigger_spec(other@),
{
    let mut i: usize = 0;
    while i < other.len()
        invariant
            i <= other@.len(),
            forall|j: int| 0 <= j < i ==> other@[j] != Choice::Defect,
        decreases other@.len() - i,
    {
        if other[i] == Choice::Defect {
            assert(other@.contains(Choice::Defect)) by {
                assert(other@[i as int] == Choice::Defect);
            }
            return Choice::Defect;
        }
        i = i + 1;
    }
    Choice::Cooperate
}

/// Flips its own previous move, starting with `first`.
fn alternate(first: Choice, mine: &[Choice]) -> (r: Choice)
    ensures
        r == alternator_spec(first, mine@),
{
    if mine.len() == 0 {
        first
    } else {
        match mine[mine.len() - 1] {
            Choice::Defect => Choice::Cooperate,
            Choice::Cooperate => Choice::Defect,
        }
    }
}

/// Alternates its moves, starting with cooperation.
pub fn alternator_c(mine: &[Choice], _other: &[Choice], _rng: &mut RandomStream) -> (r: Choice)
    ensures
        *final(_rng) == *old(_rng),
        r == alternator_spec(Choice::Cooperate, mine@),
{
    alternate(Choice::Cooperate, mine)
}

/// Alternates its moves, starting with defection.
pub fn alternator_d(mine: &[Choice], _other: &[Choice], _rng: &mut RandomStream) -> (r: Choice)
    ensures
        *final(_rng) == *old(_rng),
        r == alternator_spec(Choice::Defect, mine@),
{
    alternate(Choice::Defect, mine)
}

} // verus!
