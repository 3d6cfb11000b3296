use crate::choice::Choice;
use vstd::prelude::*;

verus! {

/// The points awarded to the two sides of one round.
pub open spec fn payoff(a: Choice, b: Choice) -> (nat, nat) {
    match (a, b) {
        (Choice::Cooperate, Choice::Cooperate) => (3, 3),
        (Choice::Cooperate, Choice::Defect) => (0, 5),
        (Choice::Defect, Choice::Cooperate) => (5, 0),
        (Choice::Defect, Choice::Defect) => (1, 1),
    }
}

/// The cumulative points of the two sides over two move sequences of equal
/// length, round by round.
pub open spec fn pair_scores(a: Seq<Choice>, b: Seq<Choice>) -> (nat, nat)
    decreases a.len(),
{
    if a.len() == 0 || b.len() == 0 {
        (0, 0)
    } else {
        let prev = pair_scores(a.drop_last(), b.drop_last());
        let p = payoff(a.last(), b.last());
        (prev.0 + p.0, prev.1 + p.1)
    }
}

/// Each side earns at most five points per round.
pub proof fn lemma_pair_scores_bounded(a: Seq<Choice>, b: Seq<Choice>)
    requires
        a.len() == b.len(),
    ensures
        pair_scores(a, b).0 <= 5 * a.len(),
        pair_scores(a, b).1 <= 5 * a.len(),
    decreases a.len(),
{
    if a.len() > 0 {
        lemma_pair_scores_bounded(a.drop_last(), b.drop_last());
    }
}

/// Swapping the two sides swaps their scores.
pub proof fn lemma_pair_scores_symmetric(a: Seq<Choice>, b: Seq<Choice>)
    requires
        a.len() == b.len(),
    ensures
        pair_scores(b, a) == (pair_scores(a, b).1, pair_scores(a, b).0),
    decreases a.len(),
{
    if a.len() > 0 {
        lemma_pair_scores_symmetric(a.drop_last(), b.drop_last());
    }
}

/// Two sides that cooperate in every one of `n` rounds score `3 * n` each.
pub proof fn lemma_mutual_cooperation(a: Seq<Choice>, b: Seq<Choice>, n: nat)
    requires
        a.len() == n,
        b.len() == n,
        forall|i: int| 0 <= i < n ==> a[i] == Choice::Cooperate && b[i] == Choice::Cooperate,
    ensures
        pair_scores(a, b) == (3 * n, 3 * n),
    decreases n,
{
    if n > 0 {
        lemma_mutual_cooperation(a.drop_last(), b.drop_last(), (n - 1) as nat);
    }
}

/// Two sides that defect in every one of `n` rounds score `n` each.
pub proof fn lemma_mutual_defection(a: Seq<Choice>, b: Seq<Choice>, n: nat)
    requires
        a.len() == n,
        b.len() == n,
        forall|i: int| 0 <= i < n ==> a[i] == Choice::Defect && b[i] == Choice::Defect,
    ensures
        pair_scores(a, b) == (n, n),
    decreases n,
{
    if n > 0 {
        lemma_mutual_defection(a.drop_last(), b.drop_last(), (n - 1) as nat);
    }
}

/// The points of one round under the payoff matrix.
pub fn compute_payoffs(choice_a: &Choice, choice_b: &Choice) -> (r: (u64, u64))
    ensures
        (r.0 as nat, r.1 as nat) == payoff(*choice_a, *choice_b),
{
    match (choice_a, choice_b) {
        (Choice::Cooperate, Choice::Cooperate) => (3, 3),
        (Choice::Cooperate, Choice::Defect) => (0, 5),
        (Choice::Defect, Choice::Cooperate) => (5, 0),
        (Choice::Defect, Choice::Defect) => (1, 1),
    }
}

/// The scores of both sides of a pairing over its whole history.
pub fn compute_pairing_scores(choices_a: &[Choice], choices_b: &[Choice]) -> (r: (u128, u128))
    requires
        choices_a@.len() == choices_b@.len(),
    ensures
        (r.0 as nat, r.1 as nat) == pair_scores(choices_a@, choices_b@),
{
    let mut acc_a: u128 = 0;
    let mut acc_b: u128 = 0;
    let n = choices_a.len();
    let mut i: usize = 0;
    while i < n
        invariant
            n == choices_a@.len(),
            i <= n,
            choices_a@.len() == choices_b@.len(),
            (acc_a as nat, acc_b as nat) == pair_scores(
                choices_a@.take(i as int),
                choices_b@.take(i as int),
            ),
            acc_a <= 5 * i,
            acc_b <= 5 * i,
        decreases choices_a@.len() - i,
    {
        let (result_a, result_b) = compute_payoffs(&choices_a[i], &choices_b[i]);
        proof {
            let a1 = choices_a@.take(i as int + 1);
            let b1 = choices_b@.take(i as int + 1);
            assert(a1.drop_last() == choices_a@.take(i as int));
            assert(b1.drop_last() == choices_b@.take(i as int));
        }
        acc_a = acc_a + result_a as u128;
        acc_b = acc_b + result_b as u128;
        i = i + 1;
    }
    assert(choices_a@.take(i as int) == choices_a@);
    assert(choices_b@.take(i as int) == choices_b@);
    (acc_a, acc_b)
}

} // verus!
