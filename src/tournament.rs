use crate::choice::Choice;
use crate::pairings::{
    all_pairings, index_pairings, lemma_all_pairings_in_range, lemma_all_pairings_len,
    lemma_occurrences_bounded, lemma_occurrences_concat, occurrences,
};
use crate::payoff::{
    compute_pairing_scores, lemma_mutual_cooperation, lemma_mutual_defection,
    lemma_pair_scores_bounded, pair_scores,
};
use crate::player::{create_seed_from_str, name_seed, Player};
use crate::ranking::{is_ranking, rank};
use crate::strategies::Strategy;
use vstd::prelude::*;

verus! {

/// Why a tournament could not be built.
#[derive(Clone, Copy, Debug, PartialEq, Eq, Structural)]
pub enum TournamentError {
    /// The roster holds no player.
    EmptyRoster,
    /// The iteration count is zero.
    ZeroIterations,
    /// The iteration count is too large for the history lengths or the
    /// score totals.
    IterationsOutOfRange,
}

/// The histories of a match between two deterministic strategies after `r`
/// rounds: each side decides on the histories of the rounds before.
pub open spec fn match_history(sa: Strategy, sb: Strategy, r: nat) -> (Seq<Choice>, Seq<Choice>)
    decreases r,
{
    if r == 0 {
        (Seq::empty(), Seq::empty())
    } else {
        let prev = match_history(sa, sb, (r - 1) as nat);
        (
            prev.0.push(sa.decided(prev.0, prev.1)->0),
            prev.1.push(sb.decided(prev.1, prev.0)->0),
        )
    }
}

/// `after` extends the histories `before` of a match between `sa` and `sb` by
/// one move pair, each move the one its strategy dictates, where the strategy
/// is deterministic.
pub open spec fn round_step(
    sa: Strategy,
    sb: Strategy,
    before: (Seq<Choice>, Seq<Choice>),
    after: (Seq<Choice>, Seq<Choice>),
) -> bool {
    &&& after.0 == before.0.push(after.0.last())
    &&& after.1 == before.1.push(after.1.last())
    &&& sa.decided(before.0, before.1) matches Some(c) ==> after.0.last() == c
    &&& sb.decided(before.1, before.0) matches Some(c) ==> after.1.last() == c
}

/// The move at round `m` of `mine` is the one strategy `s` dictates on the
/// histories of the rounds before it, where `s` dictates one.
pub open spec fn side_follows(s: Strategy, mine: Seq<Choice>, other: Seq<Choice>, m: int) -> bool {
    s.decided(mine.take(m), other.take(m)) matches Some(c) ==> mine[m] == c
}

/// In each of the first `r` rounds of the histories `h` of a match between
/// `sa` and `sb`, each side played what its strategy dictates, where it
/// dictates a move.
pub open spec fn follows_strategies(
    sa: Strategy,
    sb: Strategy,
    h: (Seq<Choice>, Seq<Choice>),
    r: nat,
) -> bool {
    &&& forall|m: int| 0 <= m < r ==> #[trigger] side_follows(sa, h.0, h.1, m)
    &&& forall|m: int| 0 <= m < r ==> #[trigger] side_follows(sb, h.1, h.0, m)
}

/// One more round played by strategies keeps them followed.
proof fn lemma_step_follows(
    sa: Strategy,
    sb: Strategy,
    before: (Seq<Choice>, Seq<Choice>),
    after: (Seq<Choice>, Seq<Choice>),
    r: nat,
)
    requires
        round_step(sa, sb, before, after),
        before.0.len() == r,
        before.1.len() == r,
        follows_strategies(sa, sb, before, r),
    ensures
        follows_strategies(sa, sb, after, r + 1),
{
    assert forall|m: int| 0 <= m < r + 1 implies #[trigger] side_follows(sa, after.0, after.1, m) by {
        if m < r {
            assert(after.0.take(m) =~= before.0.take(m));
            assert(after.1.take(m) =~= before.1.take(m));
            assert(side_follows(sa, before.0, before.1, m));
        } else {
            assert(after.0.take(m) =~= before.0);
            assert(after.1.take(m) =~= before.1);
        }
    }
    assert forall|m: int| 0 <= m < r + 1 implies #[trigger] side_follows(sb, after.1, after.0, m) by {
        if m < r {
            assert(after.0.take(m) =~= before.0.take(m));
            assert(after.1.take(m) =~= before.1.take(m));
            assert(side_follows(sb, before.1, before.0, m));
        } else {
            assert(after.0.take(m) =~= before.0);
            assert(after.1.take(m) =~= before.1);
        }
    }
}

/// The state of a tournament between rounds or within one: the histories
/// of the pairings, and the number of draws from each player's stream.
pub type PlayState = (Seq<(Seq<Choice>, Seq<Choice>)>, Seq<nat>);

/// The state after pairing `k` has played one round from `st`: its first
/// side decides, then its second side, each on the histories before the
/// round and from its own stream, and both moves are appended.
pub open spec fn play_pairing(
    kinds: Seq<Strategy>,
    seeds: Seq<u64>,
    pairs: Seq<(usize, usize)>,
    st: PlayState,
    k: int,
) -> PlayState {
    let i = pairs[k].0 as int;
    let j = pairs[k].1 as int;
    let a = st.0[k].0;
    let b = st.0[k].1;
    let ma = kinds[i].next_move(seeds[i], st.1[i], a, b);
    let d1 = st.1.update(i, ma.1);
    let mb = kinds[j].next_move(seeds[j], d1[j], b, a);
    (st.0.update(k, (a.push(ma.0), b.push(mb.0))), d1.update(j, mb.1))
}

/// The state after the first `k` pairings have played one round from `st`.
pub open spec fn play_upto(
    kinds: Seq<Strategy>,
    seeds: Seq<u64>,
    pairs: Seq<(usize, usize)>,
    st: PlayState,
    k: nat,
) -> PlayState
    decreases k,
{
    if k == 0 {
        st
    } else {
        play_pairing(kinds, seeds, pairs, play_upto(kinds, seeds, pairs, st, (k - 1) as nat), k - 1)
    }
}

/// The state of a tournament with the given strategies, stream seeds and
/// pairings after `r` rounds.
pub open spec fn simulate(
    kinds: Seq<Strategy>,
    seeds: Seq<u64>,
    pairs: Seq<(usize, usize)>,
    r: nat,
) -> PlayState
    decreases r,
{
    if r == 0 {
        (
            Seq::new(pairs.len(), |k: int| (Seq::<Choice>::empty(), Seq::<Choice>::empty())),
            Seq::new(kinds.len(), |i: int| 0nat),
        )
    } else {
        play_upto(kinds, seeds, pairs, simulate(kinds, seeds, pairs, (r - 1) as nat), pairs.len())
    }
}

/// The points player `i` earns from the first `k` pairings.
pub open spec fn total_upto(
    pairs: Seq<(usize, usize)>,
    hs: Seq<(Seq<Choice>, Seq<Choice>)>,
    i: int,
    k: nat,
) -> nat
    decreases k,
{
    if k == 0 {
        0
    } else {
        let j = k - 1;
        let s = pair_scores(hs[j].0, hs[j].1);
        total_upto(pairs, hs, i, j as nat) + (if pairs[j].0 == i {
            s.0
        } else {
            0
        }) + (if pairs[j].1 == i {
            s.1
        } else {
            0
        })
    }
}

/// The points player `i` earns over all pairings.
pub open spec fn player_total(
    pairs: Seq<(usize, usize)>,
    hs: Seq<(Seq<Choice>, Seq<Choice>)>,
    i: int,
) -> nat {
    total_upto(pairs, hs, i, pairs.len())
}

/// A player earns at most five points per round for each side it holds
/// among the first `k` pairings.
proof fn lemma_total_upto_occurrences(
    pairs: Seq<(usize, usize)>,
    hs: Seq<(Seq<Choice>, Seq<Choice>)>,
    i: int,
    k: nat,
    r: nat,
)
    requires
        k <= hs.len(),
        k <= pairs.len(),
        forall|j: int| 0 <= j < hs.len() ==> (#[trigger] hs[j]).0.len() == r && hs[j].1.len() == r,
    ensures
        total_upto(pairs, hs, i, k) <= 5 * r * occurrences(pairs.take(k as int), i),
    decreases k,
{
    if k > 0 {
        let j = k - 1;
        lemma_total_upto_occurrences(pairs, hs, i, j as nat, r);
        lemma_pair_scores_bounded(hs[j].0, hs[j].1);
        assert(pairs.take(k as int).drop_last() =~= pairs.take(j));
        let a = occurrences(pairs.take(j), i);
        let b: nat = (if pairs[j].0 == i {
            1nat
        } else {
            0nat
        }) + (if pairs[j].1 == i {
            1nat
        } else {
            0nat
        });
        assert(5 * r * a + 5 * r * b == 5 * r * (a + b)) by (nonlinear_arith);
        assert(pairs.take(k as int).last() == pairs[j]);
        assert(occurrences(pairs.take(k as int), i) == a + b);
        assert(hs[j].0.len() == r);
        let sc = pair_scores(hs[j].0, hs[j].1);
        if b == 0 {
            assert(5 * r * b == 0) by (nonlinear_arith)
                requires
                    b == 0,
            ;
        } else if b == 1 {
            assert(5 * r * b == 5 * r) by (nonlinear_arith)
                requires
                    b == 1,
            ;
        } else {
            assert(5 * r * b == 10 * r) by (nonlinear_arith)
                requires
                    b == 2,
            ;
        }
        assert((if pairs[j].0 == i {
            sc.0
        } else {
            0
        }) + (if pairs[j].1 == i {
            sc.1
        } else {
            0
        }) <= 5 * r * b);
    }
}

/// Five points a round over `n + 1` sides fits in a `u128` for any round
/// count a `usize` holds, when the `n * (n + 1) / 2` pairings fit in a
/// `usize` too.
proof fn lemma_total_fits(r: int, n: int, p: int)
    requires
        0 <= r <= usize::MAX,
        0 <= n,
        2 * p == n * (n + 1),
        p <= usize::MAX,
    ensures
        5 * r * (n + 1) <= u128::MAX,
{
    assert(usize::MAX <= 0xffff_ffff_ffff_ffff);
    if n >= 0x2_0000_0000 {
        assert(n * (n + 1) >= 0x2_0000_0000 * 0x2_0000_0000) by (nonlinear_arith)
            requires
                n >= 0x2_0000_0000,
        ;
    }
    assert(5 * r * (n + 1) <= 5 * 0xffff_ffff_ffff_ffff * 0x2_0000_0000) by (nonlinear_arith)
        requires
            0 <= r <= 0xffff_ffff_ffff_ffff,
            0 <= n + 1 <= 0x2_0000_0000,
    ;
}

/// Over `r` rounds a cooperator facing a cooperator, or a defector facing a
/// defector, plays its one move every round on both sides.
proof fn lemma_fixed_match(s: Strategy, c: Choice, r: nat)
    requires
        (s == Strategy::Cooperator && c == Choice::Cooperate) || (s == Strategy::Defector && c
            == Choice::Defect),
    ensures
        match_history(s, s, r).0.len() == r,
        match_history(s, s, r).1.len() == r,
        forall|i: int|
            0 <= i < r ==> match_history(s, s, r).0[i] == c && match_history(s, s, r).1[i] == c,
    decreases r,
{
    if r > 0 {
        lemma_fixed_match(s, c, (r - 1) as nat);
    }
}

/// Two cooperators facing each other for `r` rounds score `3 * r` each.
pub proof fn lemma_cooperators_score(r: nat)
    ensures
        pair_scores(
            match_history(Strategy::Cooperator, Strategy::Cooperator, r).0,
            match_history(Strategy::Cooperator, Strategy::Cooperator, r).1,
        ) == (3 * r, 3 * r),
{
    lemma_fixed_match(Strategy::Cooperator, Choice::Cooperate, r);
    let h = match_history(Strategy::Cooperator, Strategy::Cooperator, r);
    lemma_mutual_cooperation(h.0, h.1, r);
}

/// Two defectors facing each other for `r` rounds score `r` each.
pub proof fn lemma_defectors_score(r: nat)
    ensures
        pair_scores(
            match_history(Strategy::Defector, Strategy::Defector, r).0,
            match_history(Strategy::Defector, Strategy::Defector, r).1,
        ) == (r, r),
{
    lemma_fixed_match(Strategy::Defector, Choice::Defect, r);
    let h = match_history(Strategy::Defector, Strategy::Defector, r);
    lemma_mutual_defection(h.0, h.1, r);
}

/// A tournament: a roster, the fixed list of pairings, and the move history
/// of every pairing.
pub struct Tournament {
    n_iterations: u64,
    rounds_played: u64,
    players: Vec<Player>,
    pairings: Vec<(usize, usize)>,
    history: Vec<(Vec<Choice>, Vec<Choice>)>,
}

impl Tournament {
    /// The strategies of the roster, by roster index.
    pub closed spec fn kinds(&self) -> Seq<Strategy> {
        self.players@.map_values(|p: Player| p.kind())
    }

    /// The names of the roster, by roster index.
    pub closed spec fn names(&self) -> Seq<&'static str> {
        self.players@.map_values(|p: Player| p.label())
    }

    /// The seed of each player's random stream, by roster index.
    pub closed spec fn seeds(&self) -> Seq<u64> {
        self.players@.map_values(|p: Player| p.stream().seed())
    }

    /// The number of booleans drawn from each player's stream, by roster index.
    pub closed spec fn draw_counts(&self) -> Seq<nat> {
        self.players@.map_values(|p: Player| p.stream().draws())
    }

    /// The pairings, in the order in which every round plays them.
    pub closed spec fn pairing_list(&self) -> Seq<(usize, usize)> {
        self.pairings@
    }

    /// The move history of each pairing, by position in the pairing list.
    pub closed spec fn histories(&self) -> Seq<(Seq<Choice>, Seq<Choice>)> {
        self.history@.map_values(|h: (Vec<Choice>, Vec<Choice>)| (h.0@, h.1@))
    }

    /// The number of rounds the tournament is to play.
    pub closed spec fn iterations(&self) -> nat {
        self.n_iterations as nat
    }

    /// The number of rounds played so far.
    pub closed spec fn rounds(&self) -> nat {
        self.rounds_played as nat
    }

    /// The tournament's invariant: one pairing for each pair of roster
    /// indices, both histories of every pairing as long as the rounds played,
    /// each player's stream seeded from its name, the whole state the one
    /// its strategies and seeds produce over the rounds played, each move
    /// the one its strategy dictates where it dictates one, and an iteration
    /// count and a pairing list that fit in a `usize`.
    pub closed spec fn wf(&self) -> bool {
        let n = self.players@.len();
        let hs = self.histories();
        &&& 0 < n <= usize::MAX
        &&& self.pairings@ == all_pairings(n)
        &&& hs.len() == self.pairings@.len()
        &&& self.rounds_played <= self.n_iterations
        &&& self.n_iterations <= usize::MAX
        &&& self.pairings@.len() <= usize::MAX
        &&& forall|k: int|
            0 <= k < hs.len() ==> (#[trigger] hs[k]).0.len() == self.rounds_played && hs[k].1.len()
                == self.rounds_played
        &&& forall|i: int| 0 <= i < n ==> #[trigger] self.seeds()[i] == name_seed(self.names()[i])
        &&& (hs, self.draw_counts()) == simulate(
            self.kinds(),
            self.seeds(),
            self.pairings@,
            self.rounds_played as nat,
        )
        &&& forall|k: int|
            0 <= k < hs.len() ==> follows_strategies(
                self.kinds()[self.pairings@[k].0 as int],
                self.kinds()[self.pairings@[k].1 as int],
                #[trigger] hs[k],
                self.rounds_played as nat,
            )
        &&& forall|k: int|
            0 <= k < hs.len() && !self.kinds()[self.pairings@[k].0 as int].is_randomized()
                && !self.kinds()[self.pairings@[k].1 as int].is_randomized() ==> #[trigger] hs[k]
                == match_history(
                self.kinds()[self.pairings@[k].0 as int],
                self.kinds()[self.pairings@[k].1 as int],
                self.rounds_played as nat,
            )
    }

    /// Builds a tournament from `(name, strategy)` entries and the number of
    /// rounds to play.
    pub fn new(configs: Vec<(&'static str, Strategy)>, n_iterations: u64) -> (r: Result<
        Self,
        TournamentError,
    >)
        ensures
            configs@.len() == 0 ==> r == Err::<Self, TournamentError>(TournamentError::EmptyRoster),
            configs@.len() > 0 && n_iterations == 0 ==> r == Err::<Self, TournamentError>(
                TournamentError::ZeroIterations,
            ),
            configs@.len() > 0 && n_iterations > 0 ==> {
                &&& r is Ok <==> n_iterations <= usize::MAX
                &&& r is Err ==> r == Err::<Self, TournamentError>(
                    TournamentError::IterationsOutOfRange,
                )
            },
            r matches Ok(t) ==> {
                &&& t.wf()
                &&& t.kinds() == configs@.map_values(|c: (&'static str, Strategy)| c.1)
                &&& t.names() == configs@.map_values(|c: (&'static str, Strategy)| c.0)
                &&& t.pairing_list() == all_pairings(configs@.len() as nat)
                &&& t.iterations() == n_iterations
                &&& t.rounds() == 0
                &&& forall|i: int|
                    0 <= i < configs@.len() ==> #[trigger] t.seeds()[i] == name_seed(configs@[i].0)
                        && t.draw_counts()[i] == 0
                &&& forall|k: int|
                    0 <= k < t.histories().len() ==> #[trigger] t.histories()[k] == (
                    Seq::<Choice>::empty(),
                    Seq::<Choice>::empty(),
                )
            },
    {
        let n_players = configs.len();
        if n_players == 0 {
            return Err(TournamentError::EmptyRoster);
        }
        if n_iterations == 0 {
            return Err(TournamentError::ZeroIterations);
        }
        if n_iterations > usize::MAX as u64 {
            return Err(TournamentError::IterationsOutOfRange);
        }
        let pairings = index_pairings(n_players);
        let mut players: Vec<Player> = Vec::new();
        let mut i: usize = 0;
        while i < n_players
            invariant
                n_players == configs@.len(),
                i <= n_players,
                players@.len() == i,
                forall|j: int|
                    0 <= j < i ==> (#[trigger] players@[j]).kind() == configs@[j].1
                        && players@[j].label() == configs@[j].0 && players@[j].stream().seed()
                        == name_seed(configs@[j].0) && players@[j].stream().draws() == 0,
            decreases n_players - i,
        {
            let (name, strategy) = configs[i];
            players.push(Player::new(strategy, name, create_seed_from_str(name)));
            i = i + 1;
        }
        let mut history: Vec<(Vec<Choice>, Vec<Choice>)> = Vec::new();
        let mut k: usize = 0;
        let n_pairs = pairings.len();
        while k < n_pairs
            invariant
                n_pairs == pairings@.len(),
                k <= pairings@.len(),
                history@.len() == k,
                forall|j: int|
                    0 <= j < k ==> (#[trigger] history@[j]).0@ == Seq::<Choice>::empty()
                        && history@[j].1@ == Seq::<Choice>::empty(),
            decreases n_pairs - k,
        {
            history.push((Vec::new(), Vec::new()));
            k = k + 1;
        }
        let t = Tournament { n_iterations, rounds_played: 0, players, pairings, history };
        assert(t.kinds() =~= configs@.map_values(|c: (&'static str, Strategy)| c.1));
        assert(t.names() =~= configs@.map_values(|c: (&'static str, Strategy)| c.0));
        assert forall|i: int| 0 <= i < n_players implies #[trigger] t.seeds()[i] == name_seed(
            t.names()[i],
        ) by {}
        assert(t.histories() =~= simulate(t.kinds(), t.seeds(), t.pairings@, 0).0);
        assert(t.draw_counts() =~= simulate(t.kinds(), t.seeds(), t.pairings@, 0).1);
        assert forall|k: int| 0 <= k < t.histories().len() implies #[trigger] t.histories()[k] == (
            Seq::<Choice>::empty(),
            Seq::<Choice>::empty(),
        ) by {}
        Ok(t)
    }

    /// Plays one round: every pairing, in the fixed order, decides both moves
    /// on the histories of the earlier rounds and appends them as a pair.
    pub fn run_iteration(&mut self)
        requires
            old(self).wf(),
            old(self).rounds() < old(self).iterations(),
        ensures
            final(self).wf(),
            final(self).rounds() == old(self).rounds() + 1,
            final(self).iterations() == old(self).iterations(),
            final(self).kinds() == old(self).kinds(),
            final(self).names() == old(self).names(),
            final(self).pairing_list() == old(self).pairing_list(),
            final(self).histories().len() == old(self).histories().len(),
            forall|k: int|
                0 <= k < old(self).histories().len() ==> round_step(
                    old(self).kinds()[old(self).pairing_list()[k].0 as int],
                    old(self).kinds()[old(self).pairing_list()[k].1 as int],
                    old(self).histories()[k],
                    #[trigger] final(self).histories()[k],
                ),
    {
        let ghost old_self = *self;
        let n_players = self.players.len();
        proof {
            lemma_all_pairings_in_range(n_players as nat);
        }
        let mut k: usize = 0;
        while k < self.pairings.len()
            invariant
                old_self.wf(),
                old_self.rounds() < old_self.iterations(),
                self.n_iterations == old_self.n_iterations,
                self.rounds_played == old_self.rounds_played,
                self.pairings@ == old_self.pairings@,
                self.players@.len() == old_self.players@.len(),
                self.history@.len() == old_self.history@.len(),
                self.kinds() == old_self.kinds(),
                self.names() == old_self.names(),
                self.seeds() == old_self.seeds(),
                (self.histories(), self.draw_counts()) == play_upto(
                    old_self.kinds(),
                    old_self.seeds(),
                    old_self.pairings@,
                    simulate(
                        old_self.kinds(),
                        old_self.seeds(),
                        old_self.pairings@,
                        old_self.rounds_played as nat,
                    ),
                    k as nat,
                ),
                k <= self.pairings@.len(),
                forall|q: int|
                    0 <= q < self.pairings@.len() ==> {
                        let p = #[trigger] self.pairings@[q];
                        p.0 <= p.1 < self.players@.len()
                    },
                forall|q: int|
                    k <= q < self.history@.len() ==> #[trigger] self.histories()[q]
                        == old_self.histories()[q],
                forall|q: int|
                    0 <= q < k ==> round_step(
                        old_self.kinds()[old_self.pairings@[q].0 as int],
                        old_self.kinds()[old_self.pairings@[q].1 as int],
                        old_self.histories()[q],
                        #[trigger] self.histories()[q],
                    ),
            decreases self.pairings@.len() - k,
        {
            let (ia, ib) = self.pairings[k];
            let ghost before = self.histories()[k as int];
            let ghost kinds0 = self.kinds();
            let ghost st = (self.histories(), self.draw_counts());
            let ghost seeds0 = self.seeds();
            assert(self.players@[ia as int].kind() == kinds0[ia as int]);
            assert(self.players@[ia as int].stream().seed() == seeds0[ia as int]);
            assert(self.players@[ia as int].stream().draws() == st.1[ia as int]);
            let choice_a = self.players[ia].decide(
                self.history[k].0.as_slice(),
                self.history[k].1.as_slice(),
            );
            assert(self.players@[ia as int].kind() == kinds0[ia as int]);
            assert(self.kinds() =~= kinds0);
            let ghost ma = kinds0[ia as int].next_move(seeds0[ia as int], st.1[ia as int], before.0, before.1);
            let ghost d1 = st.1.update(ia as int, ma.1);
            assert(self.draw_counts() =~= d1);
            assert(self.players@[ib as int].kind() == kinds0[ib as int]);
            assert(self.players@[ib as int].stream().seed() == seeds0[ib as int]);
            assert(self.players@[ib as int].stream().draws() == d1[ib as int]);
            let choice_b = self.players[ib].decide(
                self.history[k].1.as_slice(),
                self.history[k].0.as_slice(),
            );
            assert(self.kinds() =~= kinds0);
            assert(self.names() =~= old_self.names());
            assert(self.seeds() =~= old_self.seeds());
            let ghost mid = self.histories();
            assert(mid[k as int] == before);
            self.history[k].0.push(choice_a);
            self.history[k].1.push(choice_b);
            assert(self.histories()[k as int] == (before.0.push(choice_a), before.1.push(choice_b)));
            assert forall|q: int| 0 <= q < self.history@.len() && q != k implies self.histories()[q]
                == mid[q] by {}
            assert(round_step(
                old_self.kinds()[ia as int],
                old_self.kinds()[ib as int],
                old_self.histories()[k as int],
                self.histories()[k as int],
            ));
            proof {
                let mb = kinds0[ib as int].next_move(seeds0[ib as int], d1[ib as int], before.1, before.0);
                let next = play_pairing(old_self.kinds(), old_self.seeds(), old_self.pairings@, st, k as int);
                assert(self.draw_counts() =~= d1.update(ib as int, mb.1));
                assert(self.histories() =~= next.0);
                assert(self.draw_counts() =~= next.1);
            }
            assert forall|q: int| k < q < self.history@.len() implies #[trigger] self.histories()[q]
                == old_self.histories()[q] by {
                assert(mid[q] == old_self.histories()[q]);
            }
            assert forall|q: int| 0 <= q < k implies round_step(
                old_self.kinds()[old_self.pairings@[q].0 as int],
                old_self.kinds()[old_self.pairings@[q].1 as int],
                old_self.histories()[q],
                #[trigger] self.histories()[q],
            ) by {
                assert(mid[q] == self.histories()[q]);
            }
            k = k + 1;
        }
        let ghost hs_loop = self.histories();
        self.rounds_played = self.rounds_played + 1;
        proof {
            let hs = self.histories();
            assert(hs == hs_loop);
            let ohs = old_self.histories();
            assert forall|q: int| 0 <= q < hs.len() implies follows_strategies(
                self.kinds()[self.pairings@[q].0 as int],
                self.kinds()[self.pairings@[q].1 as int],
                #[trigger] hs[q],
                self.rounds_played as nat,
            ) by {
                assert(ohs[q].0.len() == old_self.rounds_played);
                assert(round_step(
                    old_self.kinds()[old_self.pairings@[q].0 as int],
                    old_self.kinds()[old_self.pairings@[q].1 as int],
                    ohs[q],
                    hs_loop[q],
                ));
                lemma_step_follows(
                    old_self.kinds()[old_self.pairings@[q].0 as int],
                    old_self.kinds()[old_self.pairings@[q].1 as int],
                    ohs[q],
                    hs[q],
                    old_self.rounds_played as nat,
                );
            }
            assert forall|i: int| 0 <= i < self.players@.len() implies #[trigger] self.seeds()[i]
                == name_seed(self.names()[i]) by {
                assert(old_self.seeds()[i] == name_seed(old_self.names()[i]));
            }
            assert forall|q: int| 0 <= q < hs.len() implies (#[trigger] hs[q]).0.len()
                == self.rounds_played && hs[q].1.len() == self.rounds_played by {
                assert(ohs[q].0.len() == old_self.rounds_played);
                assert(round_step(
                    old_self.kinds()[old_self.pairings@[q].0 as int],
                    old_self.kinds()[old_self.pairings@[q].1 as int],
                    ohs[q],
                    hs_loop[q],
                ));
            }
            assert forall|q: int|
                0 <= q < hs.len() && !self.kinds()[self.pairings@[q].0 as int].is_randomized()
                    && !self.kinds()[self.pairings@[q].1 as int].is_randomized() implies #[trigger] hs[q]
                == match_history(
                self.kinds()[self.pairings@[q].0 as int],
                self.kinds()[self.pairings@[q].1 as int],
                self.rounds_played as nat,
            ) by {
                assert(ohs[q] == match_history(
                    self.kinds()[self.pairings@[q].0 as int],
                    self.kinds()[self.pairings@[q].1 as int],
                    old_self.rounds_played as nat,
                ));
                assert(round_step(
                    old_self.kinds()[old_self.pairings@[q].0 as int],
                    old_self.kinds()[old_self.pairings@[q].1 as int],
                    ohs[q],
                    hs_loop[q],
                ));
            }
        }
    }

    /// Plays the rounds that remain until the iteration count is reached.
    pub fn run(&mut self)
        requires
            old(self).wf(),
        ensures
            final(self).wf(),
            final(self).rounds() == final(self).iterations(),
            final(self).iterations() == old(self).iterations(),
            final(self).kinds() == old(self).kinds(),
            final(self).names() == old(self).names(),
            final(self).pairing_list() == old(self).pairing_list(),
            final(self).histories().len() == old(self).histories().len(),
            forall|k: int|
                0 <= k < old(self).histories().len() ==> old(self).histories()[k].0
                    == (#[trigger] final(self).histories()[k]).0.take(old(self).rounds() as int)
                    && old(self).histories()[k].1 == final(self).histories()[k].1.take(
                    old(self).rounds() as int,
                ),
    {
        proof {
            assert forall|k: int| 0 <= k < self.histories().len() implies self.histories()[k].0
                == (#[trigger] self.histories()[k]).0.take(self.rounds() as int)
                && self.histories()[k].1 == self.histories()[k].1.take(self.rounds() as int) by {
                assert(self.histories()[k].0.take(self.rounds() as int) =~= self.histories()[k].0);
                assert(self.histories()[k].1.take(self.rounds() as int) =~= self.histories()[k].1);
            }
        }
        while self.rounds_played < self.n_iterations
            invariant
                self.wf(),
                self.histories().len() == old(self).histories().len(),
                old(self).rounds() <= self.rounds(),
                forall|k: int|
                    0 <= k < old(self).histories().len() ==> old(self).histories()[k].0
                        == (#[trigger] self.histories()[k]).0.take(old(self).rounds() as int)
                        && old(self).histories()[k].1 == self.histories()[k].1.take(
                        old(self).rounds() as int,
                    ),
                self.iterations() == old(self).iterations(),
                self.kinds() == old(self).kinds(),
                self.names() == old(self).names(),
                self.pairing_list() == old(self).pairing_list(),
            decreases self.n_iterations - self.rounds_played,
        {
            let ghost cur = self.histories();
            self.run_iteration();
            proof {
                let r0 = old(self).rounds() as int;
                assert forall|k: int| 0 <= k < old(self).histories().len() implies old(
                    self,
                ).histories()[k].0 == (#[trigger] self.histories()[k]).0.take(r0)
                    && old(self).histories()[k].1 == self.histories()[k].1.take(r0) by {
                    let h = self.histories()[k];
                    assert(h.0 == cur[k].0.push(h.0.last()));
                    assert(h.1 == cur[k].1.push(h.1.last()));
                    assert(h.0.take(r0) =~= cur[k].0.take(r0));
                    assert(h.1.take(r0) =~= cur[k].1.take(r0));
                }
            }
        }
    }

    /// The points of both sides of each pairing over its history, by position
    /// in the pairing list.
    pub fn pairing_scores(&self) -> (r: Vec<(u128, u128)>)
        requires
            self.wf(),
        ensures
            r@.len() == self.histories().len(),
            forall|k: int|
                0 <= k < r@.len() ==> ((#[trigger] r@[k]).0 as nat, r@[k].1 as nat) == pair_scores(
                    self.histories()[k].0,
                    self.histories()[k].1,
                ),
    {
        let mut r: Vec<(u128, u128)> = Vec::new();
        let mut k: usize = 0;
        while k < self.history.len()
            invariant
                self.wf(),
                k <= self.history@.len(),
                r@.len() == k,
                forall|q: int|
                    0 <= q < k ==> ((#[trigger] r@[q]).0 as nat, r@[q].1 as nat) == pair_scores(
                        self.histories()[q].0,
                        self.histories()[q].1,
                    ),
            decreases self.history@.len() - k,
        {
            assert(self.histories()[k as int].0.len() == self.rounds_played);
            r.push(compute_pairing_scores(self.history[k].0.as_slice(), self.history[k].1.as_slice()));
            k = k + 1;
        }
        r
    }

    /// The total of each player over all pairings, by roster index; a
    /// self-pairing counts for both of its sides.
    pub fn total_scores(&self) -> (r: Vec<u128>)
        requires
            self.wf(),
        ensures
            r@.len() == self.kinds().len(),
            forall|i: int|
                0 <= i < r@.len() ==> #[trigger] r@[i] as nat == player_total(
                    self.pairing_list(),
                    self.histories(),
                    i,
                ),
    {
        let n = self.players.len();
        let mut scores: Vec<u128> = Vec::new();
        let mut i: usize = 0;
        while i < n
            invariant
                i <= n,
                scores@.len() == i,
                forall|j: int| 0 <= j < i ==> #[trigger] scores@[j] == 0,
            decreases n - i,
        {
            scores.push(0);
            i = i + 1;
        }
        let ghost pl = self.pairings@;
        let ghost hs = self.histories();
        let ghost rp = self.rounds_played as nat;
        proof {
            lemma_all_pairings_in_range(n as nat);
            lemma_all_pairings_len(n as nat);
            lemma_total_fits(rp as int, n as int, pl.len() as int);
        }
        let mut k: usize = 0;
        while k < self.pairings.len()
            invariant
                self.wf(),
                n == self.players@.len(),
                pl == self.pairings@,
                hs == self.histories(),
                rp == self.rounds_played,
                5 * rp * (n + 1) <= u128::MAX,
                k <= pl.len(),
                scores@.len() == n,
                forall|q: int|
                    0 <= q < pl.len() ==> {
                        let p = #[trigger] pl[q];
                        p.0 <= p.1 < n
                    },
                forall|j: int| 0 <= j < n ==> #[trigger] scores@[j] == total_upto(pl, hs, j, k as nat),
            decreases pl.len() - k,
        {
            let (ia, ib) = self.pairings[k];
            assert(hs[k as int].0.len() == rp);
            let (sa, sb) = compute_pairing_scores(
                self.history[k].0.as_slice(),
                self.history[k].1.as_slice(),
            );
            proof {
                let k1 = (k + 1) as int;
                assert(pl =~= pl.take(k1) + pl.skip(k1));
                lemma_occurrences_concat(pl.take(k1), pl.skip(k1), ia as int);
                lemma_occurrences_concat(pl.take(k1), pl.skip(k1), ib as int);
                lemma_occurrences_bounded(n as nat, ia as int);
                lemma_occurrences_bounded(n as nat, ib as int);
                lemma_total_upto_occurrences(pl, hs, ia as int, k1 as nat, rp);
                lemma_total_upto_occurrences(pl, hs, ib as int, k1 as nat, rp);
                let oa = occurrences(pl.take(k1), ia as int);
                let ob = occurrences(pl.take(k1), ib as int);
                assert(5 * rp * oa <= 5 * rp * (n + 1)) by (nonlinear_arith)
                    requires
                        oa <= n + 1,
                ;
                assert(5 * rp * ob <= 5 * rp * (n + 1)) by (nonlinear_arith)
                    requires
                        ob <= n + 1,
                ;
            }
            let ghost before = scores@;
            scores[ia] = scores[ia] + sa;
            scores[ib] = scores[ib] + sb;
            proof {
                assert forall|j: int| 0 <= j < n implies #[trigger] scores@[j] == total_upto(
                    pl,
                    hs,
                    j,
                    (k + 1) as nat,
                ) by {
                    assert(before[j] == total_upto(pl, hs, j, k as nat));
                }
            }
            k = k + 1;
        }
        scores
    }

    /// The roster indices with their totals, from the highest total down,
    /// ties by ascending roster index.
    pub fn ranking(&self) -> (r: Vec<(usize, u128)>)
        requires
            self.wf(),
        ensures
            is_ranking(
                Seq::new(
                    self.kinds().len(),
                    |i: int| player_total(self.pairing_list(), self.histories(), i) as u128,
                ),
                r@,
            ),
    {
        let scores = self.total_scores();
        let r = rank(&scores);
        assert(scores@ =~= Seq::new(
            self.kinds().len(),
            |i: int| player_total(self.pairing_list(), self.histories(), i) as u128,
        ));
        r
    }

    /// After any number of completed rounds, both histories of every pairing
    /// are exactly as long as the number of rounds.
    pub proof fn lemma_history_lengths(&self)
        requires
            self.wf(),
        ensures
            self.histories().len() == self.pairing_list().len(),
            forall|k: int|
                0 <= k < self.histories().len() ==> (#[trigger] self.histories()[k]).0.len()
                    == self.rounds() && self.histories()[k].1.len() == self.rounds(),
    {
    }

    /// Two tournaments over the same roster (the same names and strategies,
    /// randomized ones included) that have played the same number of rounds
    /// hold the same pairings, the same histories, the same draws from each
    /// player's stream and the same totals.
    pub proof fn lemma_deterministic(t1: &Tournament, t2: &Tournament)
        requires
            t1.wf(),
            t2.wf(),
            t1.kinds() == t2.kinds(),
            t1.names() == t2.names(),
            t1.rounds() == t2.rounds(),
        ensures
            t1.pairing_list() == t2.pairing_list(),
            t1.histories() == t2.histories(),
            t1.draw_counts() == t2.draw_counts(),
            forall|i: int|
                player_total(t1.pairing_list(), t1.histories(), i) == #[trigger] player_total(
                    t2.pairing_list(),
                    t2.histories(),
                    i,
                ),
    {
        assert(t1.players@.len() == t1.kinds().len());
        assert(t2.players@.len() == t2.kinds().len());
        assert forall|i: int| 0 <= i < t1.players@.len() implies t1.seeds()[i] == t2.seeds()[i] by {
            assert(t1.seeds()[i] == name_seed(t1.names()[i]));
            assert(t2.seeds()[i] == name_seed(t2.names()[i]));
        }
        assert(t1.seeds() =~= t2.seeds());
    }

    /// In every pairing, each side's move in every round played is the one
    /// its strategy dictates on the histories of the rounds before, wherever
    /// the strategy dictates one (all but the randomized kind).
    pub proof fn lemma_moves_follow_strategies(&self)
        requires
            self.wf(),
        ensures
            forall|k: int|
                0 <= k < self.histories().len() ==> follows_strategies(
                    self.kinds()[self.pairing_list()[k].0 as int],
                    self.kinds()[self.pairing_list()[k].1 as int],
                    #[trigger] self.histories()[k],
                    self.rounds(),
                ),
    {
    }

    /// A pairing of two deterministic strategies holds exactly the match
    /// those strategies play over the rounds played.
    pub proof fn lemma_deterministic_pairings(&self)
        requires
            self.wf(),
        ensures
            forall|k: int|
                0 <= k < self.histories().len() && !self.kinds()[self.pairing_list()[k].0 as int].is_randomized()
                    && !self.kinds()[self.pairing_list()[k].1 as int].is_randomized() ==> #[trigger] self.histories()[k]
                    == match_history(
                    self.kinds()[self.pairing_list()[k].0 as int],
                    self.kinds()[self.pairing_list()[k].1 as int],
                    self.rounds(),
                ),
    {
    }

    /// The whole state of the tournament, randomized players included, is
    /// the one its strategies, its players' seeds and its pairings produce
    /// over the rounds played; each seed is derived from the player's name.
    pub proof fn lemma_state_is_simulated(&self)
        requires
            self.wf(),
        ensures
            (self.histories(), self.draw_counts()) == simulate(
                self.kinds(),
                self.seeds(),
                self.pairing_list(),
                self.rounds(),
            ),
            self.seeds().len() == self.names().len(),
            forall|i: int| 0 <= i < self.seeds().len() ==> #[trigger] self.seeds()[i] == name_seed(self.names()[i]),
    {
    }

    /// The number of rounds played so far.
    pub fn rounds_played(&self) -> (r: u64)
        ensures
            r == self.rounds(),
    {
        self.rounds_played
    }

    /// The number of rounds the tournament is to play.
    pub fn n_iterations(&self) -> (r: u64)
        ensures
            r == self.iterations(),
    {
        self.n_iterations
    }

    /// The size of the roster.
    pub fn n_players(&self) -> (r: usize)
        ensures
            r == self.kinds().len(),
    {
        self.players.len()
    }

    /// The name of the player at roster index `i`.
    pub fn player_name(&self, i: usize) -> (r: &'static str)
        requires
            i < self.kinds().len(),
        ensures
            r == self.names()[i as int],
    {
        self.players[i].name()
    }

    /// The pairings, in the order in which every round plays them.
    pub fn pairings(&self) -> (r: &Vec<(usize, usize)>)
        ensures
            r@ == self.pairing_list(),
    {
        &self.pairings
    }

    /// The two move histories of the pairing at position `k`.
    pub fn history(&self, k: usize) -> (r: (&[Choice], &[Choice]))
        requires
            k < self.histories().len(),
        ensures
            (r.0@, r.1@) == self.histories()[k as int],
    {
        (self.history[k].0.as_slice(), self.history[k].1.as_slice())
    }
}

} // verus!
