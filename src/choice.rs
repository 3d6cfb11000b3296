use vstd::prelude::*;

verus! {

/// A single decision in one round of one pairing.
#[derive(Clone, Copy, Debug, PartialEq, Eq, Structural)]
pub enum Choice {
    Defect,
    Cooperate,
}

/// The other move.
pub open spec fn flipped(c: Choice) -> Choice {
    match c {
        Choice::Defect => Choice::Cooperate,
        Choice::Cooperate => Choice::Defect,
    }
}

} // verus!
