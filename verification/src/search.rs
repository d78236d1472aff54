//! Monte Carlo search: playouts from the legal moves of a position.
use crate::engine::{lemma_word_squares, GameState, Move};
use crate::legality::law_legal_moves_are_proper;
use crate::listing::law_moves_are_few;
use crate::ml::{move_policy_index, slot_of, NetworkOutput};
use crate::playouts::{playout, seed_of, weighed, worth, Balance};
use crate::rules::{captures_fit, Game};
use crate::single::{is_last_greatest, last_greatest, law_last_greatest_is_unique, Single};
pub use crate::playouts::{
    evaluate, is_evaluable, position_seed, rollout, terminal_value, Evaluation, SmallRng,
};
use vstd::prelude::*;

verus! {

/// What a search found: the move it prefers and that move's mean value, how many
/// playouts it ran, and how often each legal move was tried.
#[derive(Debug, Clone, PartialEq)]
pub struct SearchReport {
    pub best_move: Option<Move>,
    pub value: Single,
    pub simulations: u128,
    pub visits: Vec<(Move, u32)>,
}

/// The number of moves after which a playout is broken off.
pub const ROLLOUT_DEPTH: u8 = 72;

/// The sum of visit counts.
pub open spec fn total(counts: Seq<u32>) -> int
    decreases counts.len(),
{
    if counts.len() == 0 {
        0
    } else {
        total(counts.drop_last()) + counts.last()
    }
}

/// The moves of a search with their visit counts.
pub open spec fn tallied(moves: Seq<Move>, counts: Seq<u32>) -> Seq<(Move, u32)> {
    Seq::new(moves.len(), |i: int| (moves[i], counts[i]))
}

/// A search under way. The numbers that playouts are worth, and the scores that
/// decide which move is tried next, are kept by the caller.
#[derive(Debug, Clone)]
pub struct Search {
    pub state: GameState,
    pub moves: Vec<Move>,
    pub visits: Vec<u32>,
    pub rng: SmallRng,
    pub simulations: u128,
    pub played: u128,
    pub primed: bool,
}

impl Search {
    /// The moves are the legal ones, the visits add up to the playouts that were run
    /// and the visit given in advance, and the first playouts went to the moves one
    /// by one.
    pub open spec fn wf(self) -> bool {
        &&& captures_fit(self.state@.position, self.state.turn)
        &&& self.moves@ == self.state@.moves()
        &&& self.visits@.len() == self.moves@.len()
        &&& self.played <= self.simulations
        &&& if self.moves@.len() == 0 {
            self.simulations == 0
        } else {
            self.simulations >= self.moves@.len()
        }
        &&& total(self.visits@) == self.played + if self.primed {
            1int
        } else {
            0
        }
        &&& forall|k: int|
            0 <= k < self.moves@.len() && k < self.played ==> #[trigger] self.visits@[k] >= 1
    }

    /// What the search has counted, with the sums that are kept for it.
    pub open spec fn tally(self, sums: Seq<Single>) -> Tally {
        Tally { visits: self.visits@, sums, rng: self.rng.state, played: self.played }
    }

    /// Whether the next playout tries move `i`: at first each move in turn, then the
    /// last of those with the highest score.
    pub open spec fn tries(self, scores: Seq<Single>, i: int) -> bool {
        if (self.played as usize) < self.moves@.len() {
            i == self.played as usize
        } else {
            is_last_greatest(scores, i)
        }
    }

    /// Starts a search that runs `simulations` playouts, or one for each legal move
    /// if those are more. Without a legal move there is nothing to play.
    pub fn begin(state: GameState, simulations: u128) -> (search: Self)
        requires
            captures_fit(state@.position, state.turn),
        ensures
            search.wf(),
            search.state == state,
            search.played == 0,
            !search.primed,
            search.rng.state == seed_of(state) | 1,
            search.moves@ == state@.moves(),
            forall|k: int|
                0 <= k < search.visits@.len() ==> #[trigger] search.visits@[k] == 0,
            search.simulations == if state@.moves().len() == 0 {
                0
            } else if simulations >= state@.moves().len() {
                simulations as int
            } else {
                state@.moves().len() as int
            },
    {
        let moves = state.legal_moves();
        let mut visits: Vec<u32> = Vec::new();
        while visits.len() < moves.len()
            invariant
                visits@.len() <= moves@.len(),
                total(visits@) == 0,
                forall|k: int| 0 <= k < visits@.len() ==> #[trigger] visits@[k] == 0,
            decreases moves.len() - visits.len(),
        {
            proof {
                lemma_total_push(visits@, 0);
            }
            visits.push(0);
        }
        let least: u128 = moves.len() as u128;
        let simulations: u128 = if moves.len() == 0 {
            0
        } else if simulations >= least {
            simulations
        } else {
            least
        };
        let rng = SmallRng::new(position_seed(state));
        Self { state, moves, visits, rng, simulations, played: 0, primed: false }
    }

    /// The entries of a policy for the moves of the search; zero where the policy
    /// has no such slot.
    pub fn priors(&self, policy: &Vec<Single>) -> (priors: Vec<Single>)
        ensures
            priors@ == priors_of(self.moves@, policy@),
    {
        let mut priors: Vec<Single> = Vec::new();
        let mut i: usize = 0;
        while i < self.moves.len()
            invariant
                i <= self.moves@.len(),
                priors@.len() == i,
                forall|k: int| 0 <= k < i ==> priors@[k] == prior_of(self.moves@[k], policy@),
            decreases self.moves.len() - i,
        {
            let slot: usize = move_policy_index(self.moves[i].from, self.moves[i].to);
            priors.push(
                if slot < policy.len() {
                    policy[slot]
                } else {
                    Single::zero()
                },
            );
            i += 1;
        }
        assert(priors@ =~= priors_of(self.moves@, policy@));
        priors
    }

    /// Gives the move with the highest prior, the last one among equals, one visit
    /// in advance.
    pub fn prime(&mut self, priors: &Vec<Single>) -> (index: usize)
        requires
            old(self).wf(),
            old(self).played == 0,
            !old(self).primed,
            old(self).moves@.len() > 0,
            priors@.len() == old(self).moves@.len(),
        ensures
            final(self).wf(),
            is_last_greatest(priors@, index as int),
            *final(self) == (Search {
                visits: final(self).visits,
                primed: true,
                ..*old(self)
            }),
            final(self).visits@ == old(self).visits@.update(
                index as int,
                (old(self).visits@[index as int] + 1) as u32,
            ),
    {
        let index: usize = match last_greatest(priors) {
            Some(index) => index,
            None => 0,
        };
        proof {
            lemma_total_bounds(self.visits@, index as int);
            lemma_total_update(self.visits@, index as int, (self.visits@[index as int] + 1) as u32);
        }
        let count: u32 = self.visits[index];
        self.visits.set(index, count + 1);
        self.primed = true;
        index
    }

    /// Whether the caller has to score the moves before the next playout.
    pub fn needs_scores(&self) -> (needed: bool)
        ensures
            needed == ((self.played as usize) >= self.moves@.len()),
    {
        (self.played as usize) >= self.moves.len()
    }

    /// The move that the next playout tries.
    pub fn next_index(&self, scores: &Vec<Single>) -> (index: usize)
        requires
            self.moves@.len() > 0,
            (self.played as usize) < self.moves@.len() || scores@.len() == self.moves@.len(),
        ensures
            index < self.moves@.len(),
            self.tries(scores@, index as int),
    {
        if (self.played as usize) < self.moves.len() {
            self.played as usize
        } else {
            match last_greatest(scores) {
                Some(index) => index,
                None => 0,
            }
        }
    }

    /// Runs one playout and counts the visit of the move it tried. Nothing is
    /// counted if the playout came to a position whose captures do not fit into
    /// move records.
    pub fn advance(&mut self, scores: &Vec<Single>) -> (tried: (usize, Option<Evaluation>))
        requires
            old(self).wf(),
            old(self).played < old(self).simulations,
            old(self).state.halfmoves < u16::MAX,
            (old(self).played as usize) < old(self).moves@.len() || scores@.len()
                == old(self).moves@.len(),
            forall|i: int|
                0 <= i < old(self).moves@.len() && #[trigger] old(self).tries(scores@, i)
                    ==> old(self).visits@[i] < u32::MAX,
        ensures
            final(self).wf(),
            tried.0 < old(self).moves@.len(),
            old(self).tries(scores@, tried.0 as int),
            ({
                let played = playout(
                    old(self).state@.play(old(self).moves@[tried.0 as int]),
                    old(self).state.turn,
                    old(self).rng.state,
                    ROLLOUT_DEPTH as nat,
                );
                &&& weighed(tried.1) == played.0
                &&& final(self).rng.state == played.1
            }),
            tried.1 is Some ==> final(self).visits@ == old(self).visits@.update(
                tried.0 as int,
                (old(self).visits@[tried.0 as int] + 1) as u32,
            ),
            tried.1 is None ==> final(self).visits@ == old(self).visits@,
            final(self).played == old(self).played + if tried.1 is Some {
                1int
            } else {
                0
            },
            *final(self) == (Search {
                visits: final(self).visits,
                rng: final(self).rng,
                played: final(self).played,
                ..*old(self)
            }),
    {
        let index: usize = self.next_index(scores);
        let mv = self.moves[index];
        proof {
            lemma_word_squares(self.state.board);
            assert(self.state@.moves().contains(mv));
            law_legal_moves_are_proper(self.state@.position, self.state.turn, mv);
        }
        let child = self.state.apply(mv);
        let side = self.state.turn;
        let mut rng = self.rng;
        let evaluation = rollout(child, side, &mut rng, ROLLOUT_DEPTH);
        self.rng = rng;
        if evaluation.is_some() {
            proof {
                lemma_total_update(
                    self.visits@,
                    index as int,
                    (self.visits@[index as int] + 1) as u32,
                );
            }
            let count: u32 = self.visits[index];
            self.visits.set(index, count + 1);
            self.played = self.played + 1;
            assert forall|k: int| 0 <= k < self.moves@.len() && k
                < self.played implies #[trigger] self.visits@[k] >= 1 by {
                if k < old(self).played {
                    assert(old(self).visits@[k] >= 1);
                } else {
                    assert(old(self).played < self.moves.len());
                    assert(old(self).played as usize == old(self).played);
                }
            }
        }
        (index, evaluation)
    }

    /// What a finished search found. `means` holds the mean value of each move; the
    /// last of those with the highest mean is preferred. Without a legal move the
    /// game is over, and the value is what that is worth for the player to move.
    pub fn finish(self, means: &Vec<Single>) -> (report: SearchReport)
        requires
            self.wf(),
            self.played == self.simulations,
            means@.len() == self.moves@.len(),
        ensures
            report.simulations == self.simulations,
            report.visits@ == tallied(self.moves@, self.visits@),
            self.moves@.len() == 0 ==> {
                &&& report.best_move is None
                &&& self.state@.outcome() is Some
                &&& report.value == Single::of_sign(
                    worth(self.state@.outcome()->0, self.state.turn),
                )
            },
            report.best_move matches Some(mv) ==> self.state@.moves().contains(mv),
            self.moves@.len() > 0 ==> exists|i: int|
                {
                    &&& #[trigger] is_last_greatest(means@, i)
                    &&& report.best_move == Some(self.moves@[i])
                    &&& report.value == means@[i]
                },
    {
        let mut visits: Vec<(Move, u32)> = Vec::new();
        let mut i: usize = 0;
        while i < self.moves.len()
            invariant
                i <= self.moves@.len(),
                self.moves@.len() == self.visits@.len(),
                visits@ =~= tallied(self.moves@, self.visits@).take(i as int),
            decreases self.moves.len() - i,
        {
            visits.push((self.moves[i], self.visits[i]));
            i += 1;
        }
        assert(visits@ =~= tallied(self.moves@, self.visits@));
        match last_greatest(means) {
            Some(best) => SearchReport {
                best_move: Some(self.moves[best]),
                value: means[best],
                simulations: self.simulations,
                visits,
            },
            None => SearchReport {
                best_move: None,
                value: match terminal_value(self.state, self.state.turn) {
                    Some(value) => value,
                    None => Single::zero(),
                },
                simulations: self.simulations,
                visits,
            },
        }
    }
}

/// What a search has counted between two playouts: how often each move was tried, the
/// sum of what its playouts were worth, and the state of the generator.
#[verifier::ext_equal]
pub struct Tally {
    pub visits: Seq<u32>,
    pub sums: Seq<Single>,
    pub rng: u64,
    pub played: u128,
}

/// The tally before the first playout: nothing was tried.
pub open spec fn first_tally(state: GameState) -> Tally {
    let count = state@.moves().len();
    Tally {
        visits: Seq::new(count, |i: int| 0u32),
        sums: Seq::new(count, |i: int| Single::of_sign(0)),
        rng: seed_of(state) | 1,
        played: 0,
    }
}

/// The tally before the first playout of a search that gives the move `preferred` one
/// visit in advance; `sum` is the sum that this move starts with.
pub open spec fn primed_tally(state: GameState, preferred: int, sum: Single) -> Tally {
    let first = first_tally(state);
    Tally {
        visits: first.visits.update(preferred, 1),
        sums: first.sums.update(preferred, sum),
        ..first
    }
}

/// Whether the next playout tries move `i`: at first each move in turn, then the last of
/// those with the highest score. `scores` holds what `score` gives for each move, from
/// its prior, its visits, its sum, and the number of playouts so far.
pub open spec fn is_next<S: Fn(Single, u32, Single, u128) -> Single>(
    moves: Seq<Move>,
    priors: Seq<Single>,
    tally: Tally,
    scores: Seq<Single>,
    i: int,
    score: S,
) -> bool {
    if (tally.played as usize) < moves.len() {
        i == tally.played as usize
    } else {
        &&& scores.len() == moves.len()
        &&& forall|k: int|
            0 <= k < moves.len() ==> call_ensures(
                score,
                (priors[k], tally.visits[k], tally.sums[k], tally.played),
                #[trigger] scores[k],
            )
        &&& is_last_greatest(scores, i)
    }
}

/// The playout that tries move `i`: what came out for the player to move, and the
/// generator's state after it.
pub open spec fn tried(g: Game, tally: Tally, i: int) -> (Option<Balance>, u64) {
    playout(g.play(g.moves()[i]), g.turn, tally.rng, ROLLOUT_DEPTH as nat)
}

/// Whether a playout of move `i` leads from one tally to the next. `gather` adds what the
/// playout was worth to the sum of the move.
pub open spec fn plays_out<
    A: Fn(Single, Evaluation) -> Single,
    S: Fn(Single, u32, Single, u128) -> Single,
>(
    g: Game,
    priors: Seq<Single>,
    before: Tally,
    after: Tally,
    scores: Seq<Single>,
    i: int,
    evaluation: Evaluation,
    gather: A,
    score: S,
) -> bool {
    &&& 0 <= i < g.moves().len()
    &&& is_next(g.moves(), priors, before, scores, i, score)
    &&& tried(g, before, i).0 == Some(evaluation@)
    &&& before.visits[i] < u32::MAX
    &&& call_ensures(gather, (before.sums[i], evaluation), after.sums[i])
    &&& after == (Tally {
        visits: before.visits.update(i, (before.visits[i] + 1) as u32),
        sums: before.sums.update(i, after.sums[i]),
        rng: tried(g, before, i).1,
        played: (before.played + 1) as u128,
    })
}

/// Whether one playout leads from the tally at `t` to the next one.
pub open spec fn goes_on<
    A: Fn(Single, Evaluation) -> Single,
    S: Fn(Single, u32, Single, u128) -> Single,
>(g: Game, priors: Seq<Single>, run: Seq<Tally>, t: int, gather: A, score: S) -> bool {
    exists|scores: Seq<Single>, i: int, evaluation: Evaluation| #[trigger]
        plays_out(g, priors, run[t], run[t + 1], scores, i, evaluation, gather, score)
}

/// Whether the tallies follow each other, one playout apart, from the given first one on.
pub open spec fn is_run<
    A: Fn(Single, Evaluation) -> Single,
    S: Fn(Single, u32, Single, u128) -> Single,
>(g: Game, priors: Seq<Single>, first: Tally, run: Seq<Tally>, gather: A, score: S) -> bool {
    &&& run.len() > 0
    &&& run[0] == first
    &&& forall|t: int| 0 <= t < run.len() - 1 ==> #[trigger] goes_on(g, priors, run, t, gather, score)
}

/// Whether the next playout cannot be counted: it comes to a position whose captures do
/// not fit into move records, or the visits of the move that it tries run over.
pub open spec fn is_stuck<S: Fn(Single, u32, Single, u128) -> Single>(
    g: Game,
    priors: Seq<Single>,
    tally: Tally,
    score: S,
) -> bool {
    exists|scores: Seq<Single>, i: int|
        {
            &&& #[trigger] is_next(g.moves(), priors, tally, scores, i, score)
            &&& 0 <= i < g.moves().len()
            &&& tried(g, tally, i).0 is None || tally.visits[i] == u32::MAX
        }
}

/// Whether a report names the move with the highest mean, the last one among equals.
/// `means` holds what `mean` gives for each move, from its sum and its visits.
pub open spec fn names_best<M: Fn(Single, u32) -> Single>(
    moves: Seq<Move>,
    last: Tally,
    report: SearchReport,
    means: Seq<Single>,
    i: int,
    mean: M,
) -> bool {
    &&& means.len() == moves.len()
    &&& forall|k: int|
        0 <= k < moves.len() ==> call_ensures(
            mean,
            (last.sums[k], last.visits[k]),
            #[trigger] means[k],
        )
    &&& is_last_greatest(means, i)
    &&& report.best_move == Some(moves[i])
    &&& report.value == means[i]
    &&& report.visits@ == tallied(moves, last.visits)
}

/// What a search of `simulations` playouts comes to that starts with a tally: the report
/// on its last tally, or nothing if it gets stuck on the way.
pub open spec fn is_found<
    A: Fn(Single, Evaluation) -> Single,
    S: Fn(Single, u32, Single, u128) -> Single,
    M: Fn(Single, u32) -> Single,
>(
    g: Game,
    priors: Seq<Single>,
    first: Tally,
    simulations: int,
    found: Option<SearchReport>,
    gather: A,
    score: S,
    mean: M,
) -> bool {
    exists|run: Seq<Tally>|
        {
            &&& #[trigger] is_run(g, priors, first, run, gather, score)
            &&& match found {
                Some(report) => {
                    &&& run.len() == simulations + 1
                    &&& report.simulations == simulations
                    &&& exists|means: Seq<Single>, i: int| #[trigger]
                        names_best(g.moves(), run.last(), report, means, i, mean)
                },
                None => {
                    &&& run.len() <= simulations
                    &&& is_stuck(g, priors, run.last(), score)
                },
            }
        }
}

/// The number of playouts of a search: as many as asked for, but at least one for each
/// legal move.
pub open spec fn playouts(g: Game, simulations: u128) -> int {
    if simulations >= g.moves().len() {
        simulations as int
    } else {
        g.moves().len() as int
    }
}

/// The report on a position without legal moves.
pub open spec fn reports_the_end(g: Game, report: SearchReport) -> bool {
    &&& report.best_move is None
    &&& report.simulations == 0
    &&& report.visits@ == Seq::<(Move, u32)>::empty()
    &&& g.outcome() matches Some(result)
    &&& report.value == Single::of_sign(worth(result, g.turn))
}

/// What [`choose_move`] finds: without legal moves the result of the game, and otherwise
/// what a search comes to that starts with nothing tried and has no priors.
pub open spec fn is_choice<
    A: Fn(Single, Evaluation) -> Single,
    S: Fn(Single, u32, Single, u128) -> Single,
    M: Fn(Single, u32) -> Single,
>(
    state: GameState,
    simulations: u128,
    found: Option<SearchReport>,
    gather: A,
    score: S,
    mean: M,
) -> bool {
    if state@.moves().len() == 0 {
        found is Some && reports_the_end(state@, found->0)
    } else {
        is_found(
            state@,
            Seq::new(state@.moves().len(), |i: int| Single::of_sign(0)),
            first_tally(state),
            playouts(state@, simulations),
            found,
            gather,
            score,
            mean,
        )
    }
}

/// Whether a search with a policy starts with one visit for the move `preferred`, worth
/// `value`, and comes to what was found.
pub open spec fn is_guided_from<
    A: Fn(Single, Evaluation) -> Single,
    S: Fn(Single, u32, Single, u128) -> Single,
    M: Fn(Single, u32) -> Single,
>(
    state: GameState,
    simulations: u128,
    policy: Seq<Single>,
    value: Single,
    preferred: int,
    sum: Single,
    found: Option<SearchReport>,
    gather: A,
    score: S,
    mean: M,
) -> bool {
    let priors = priors_of(state@.moves(), policy);
    &&& is_last_greatest(priors, preferred)
    &&& call_ensures(gather, (Single::of_sign(0), Evaluation::Decided(value)), sum)
    &&& is_found(
        state@,
        priors,
        primed_tally(state, preferred, sum),
        playouts(state@, simulations),
        found,
        gather,
        score,
        mean,
    )
}

/// What [`choose_move_with_model`] finds: without legal moves the result of the game, and
/// otherwise what a search comes to that starts with one visit for the move which the
/// policy prefers, and has the policy's entries as priors.
pub open spec fn is_guided_choice<
    A: Fn(Single, Evaluation) -> Single,
    S: Fn(Single, u32, Single, u128) -> Single,
    M: Fn(Single, u32) -> Single,
>(
    state: GameState,
    simulations: u128,
    policy: Seq<Single>,
    value: Single,
    found: Option<SearchReport>,
    gather: A,
    score: S,
    mean: M,
) -> bool {
    if state@.moves().len() == 0 {
        found is Some && reports_the_end(state@, found->0)
    } else {
        exists|preferred: int, sum: Single| #[trigger]
            is_guided_from(
                state,
                simulations,
                policy,
                value,
                preferred,
                sum,
                found,
                gather,
                score,
                mean,
            )
    }
}

/// Searches a position with random playouts. `gather` adds what a playout was worth to the
/// sum of its move; `score` scores a move for the choice of the next one to try, from its
/// prior, which is zero here, its visits, its sum, and the number of playouts so far;
/// `mean` divides a sum by its visits. There is no report if a playout cannot be counted.
pub fn choose_move<
    A: Fn(Single, Evaluation) -> Single,
    S: Fn(Single, u32, Single, u128) -> Single,
    M: Fn(Single, u32) -> Single,
>(state: GameState, simulations: u128, gather: A, score: S, mean: M) -> (found: Option<SearchReport>)
    requires
        captures_fit(state@.position, state.turn),
        state@.moves().len() > 0 ==> state.halfmoves < u16::MAX,
        forall|sum: Single, evaluation: Evaluation| call_requires(gather, (sum, evaluation)),
        forall|prior: Single, visits: u32, sum: Single, played: u128|
            call_requires(score, (prior, visits, sum, played)),
        forall|sum: Single, visits: u32| call_requires(mean, (sum, visits)),
    ensures
        is_choice(state, simulations, found, gather, score, mean),
        found matches Some(report) ==> {
            &&& report.visits@.len() == state@.moves().len()
            &&& state@.moves().len() == 0 ==> report.simulations == 0
            &&& 0 < state@.moves().len() <= simulations ==> report.simulations == simulations
            &&& simulations < state@.moves().len() ==> report.simulations == state@.moves().len()
        },
{
    let search = Search::begin(state, simulations);
    if search.moves.len() == 0 {
        let none: Vec<Single> = Vec::new();
        let report = search.finish(&none);
        assert(report.visits@ =~= Seq::<(Move, u32)>::empty());
        return Some(report);
    }
    let sums = zeros(search.moves.len());
    let priors = zeros(search.moves.len());
    assert(search.tally(sums@) =~= first_tally(state));
    run(search, sums, &priors, &gather, &score, &mean)
}

/// Searches a position with random playouts that a network's output guides: the move
/// that its policy prefers, the last one among equals, gets one visit in advance, worth
/// the network's value, and `score` is given the entry of the policy as the prior of a
/// move. For the rest see [`choose_move`].
pub fn choose_move_with_model<
    A: Fn(Single, Evaluation) -> Single,
    S: Fn(Single, u32, Single, u128) -> Single,
    M: Fn(Single, u32) -> Single,
>(
    state: GameState,
    simulations: u128,
    output: &NetworkOutput,
    gather: A,
    score: S,
    mean: M,
) -> (found: Option<SearchReport>)
    requires
        captures_fit(state@.position, state.turn),
        state@.moves().len() > 0 ==> state.halfmoves < u16::MAX,
        forall|sum: Single, evaluation: Evaluation| call_requires(gather, (sum, evaluation)),
        forall|prior: Single, visits: u32, sum: Single, played: u128|
            call_requires(score, (prior, visits, sum, played)),
        forall|sum: Single, visits: u32| call_requires(mean, (sum, visits)),
    ensures
        is_guided_choice(
            state,
            simulations,
            output.policy@,
            output.value,
            found,
            gather,
            score,
            mean,
        ),
        found matches Some(report) ==> {
            &&& report.visits@.len() == state@.moves().len()
            &&& state@.moves().len() == 0 ==> report.simulations == 0
            &&& 0 < state@.moves().len() <= simulations ==> report.simulations == simulations
            &&& simulations < state@.moves().len() ==> report.simulations == state@.moves().len()
        },
{
    let mut search = Search::begin(state, simulations);
    if search.moves.len() == 0 {
        let none: Vec<Single> = Vec::new();
        let report = search.finish(&none);
        assert(report.visits@ =~= Seq::<(Move, u32)>::empty());
        return Some(report);
    }
    let mut sums = zeros(search.moves.len());
    let priors = search.priors(&output.policy);
    assert(priors@ =~= priors_of(state@.moves(), output.policy@));
    let preferred: usize = search.prime(&priors);
    let sum: Single = gather(sums[preferred], Evaluation::Decided(output.value));
    sums.set(preferred, sum);
    assert(search.tally(sums@) =~= primed_tally(state, preferred as int, sum));
    let found = run(search, sums, &priors, &gather, &score, &mean);
    assert(is_guided_from(
        state,
        simulations,
        output.policy@,
        output.value,
        preferred as int,
        sum,
        found,
        gather,
        score,
        mean,
    ));
    found
}

/// Runs the playouts of a search to the end.
fn run<
    A: Fn(Single, Evaluation) -> Single,
    S: Fn(Single, u32, Single, u128) -> Single,
    M: Fn(Single, u32) -> Single,
>(
    begun: Search,
    starts: Vec<Single>,
    priors: &Vec<Single>,
    gather: &A,
    score: &S,
    mean: &M,
) -> (found: Option<SearchReport>)
    requires
        begun.wf(),
        begun.played == 0,
        begun.moves@.len() > 0,
        begun.state.halfmoves < u16::MAX,
        starts@.len() == begun.moves@.len(),
        priors@.len() == begun.moves@.len(),
        forall|sum: Single, evaluation: Evaluation| call_requires(*gather, (sum, evaluation)),
        forall|prior: Single, visits: u32, sum: Single, played: u128|
            call_requires(*score, (prior, visits, sum, played)),
        forall|sum: Single, visits: u32| call_requires(*mean, (sum, visits)),
    ensures
        is_found(
            begun.state@,
            priors@,
            begun.tally(starts@),
            begun.simulations as int,
            found,
            *gather,
            *score,
            *mean,
        ),
{
    let ghost g = begun.state@;
    let ghost first = begun.tally(starts@);
    let mut search = begun;
    let mut sums = starts;
    let ghost mut tallies: Seq<Tally> = seq![first];
    while search.played < search.simulations
        invariant
            search.wf(),
            search.state@ == g,
            search.moves@.len() > 0,
            search.simulations == begun.simulations,
            g == begun.state@,
            first == begun.tally(starts@),
            search.state.halfmoves < u16::MAX,
            sums@.len() == search.moves@.len(),
            priors@.len() == search.moves@.len(),
            forall|sum: Single, evaluation: Evaluation| call_requires(*gather, (sum, evaluation)),
            forall|prior: Single, visits: u32, sum: Single, played: u128|
                call_requires(*score, (prior, visits, sum, played)),
            is_run(g, priors@, first, tallies, *gather, *score),
            tallies.len() == search.played + 1,
            tallies.last() == search.tally(sums@),
        decreases search.simulations - search.played,
    {
        let scores = scores_of(&search, &sums, priors, score);
        let index: usize = search.next_index(&scores);
        let ghost before = search.tally(sums@);
        proof {
            assert(is_next(g.moves(), priors@, before, scores@, index as int, *score));
            assert forall|i: int|
                0 <= i < search.moves@.len() && #[trigger] search.tries(scores@, i) implies i
                == index by {
                lemma_one_is_tried(search, scores@, i, index as int);
            }
        }
        if search.visits[index] == u32::MAX {
            return None;
        }
        let ghost unplayed = search;
        let (tried_index, evaluation) = search.advance(&scores);
        assert(unplayed.tries(scores@, tried_index as int));
        let evaluation: Evaluation = match evaluation {
            Some(evaluation) => evaluation,
            None => {
                return None;
            },
        };
        let sum: Single = sums[index];
        let ghost weighed_out = evaluation;
        let new_sum: Single = gather(sum, evaluation);
        sums.set(index, new_sum);
        proof {
            let after = search.tally(sums@);
            assert(after =~= Tally {
                visits: before.visits.update(
                    index as int,
                    (before.visits[index as int] + 1) as u32,
                ),
                sums: before.sums.update(index as int, new_sum),
                rng: tried(g, before, index as int).1,
                played: (before.played + 1) as u128,
            });
            assert(plays_out(
                g,
                priors@,
                before,
                after,
                scores@,
                index as int,
                weighed_out,
                *gather,
                *score,
            ));
            lemma_run_grows(g, priors@, first, tallies, after, *gather, *score);
            tallies = tallies.push(after);
        }
    }
    let means = means_of(&search, &sums, mean);
    let ghost last = search.tally(sums@);
    let report = search.finish(&means);
    proof {
        let i = choose|i: int|
            {
                &&& #[trigger] is_last_greatest(means@, i)
                &&& report.best_move == Some(search.moves@[i])
                &&& report.value == means@[i]
            };
        assert(names_best(g.moves(), last, report, means@, i, *mean));
    }
    Some(report)
}

/// One more playout makes a run longer.
proof fn lemma_run_grows<
    A: Fn(Single, Evaluation) -> Single,
    S: Fn(Single, u32, Single, u128) -> Single,
>(
    g: Game,
    priors: Seq<Single>,
    first: Tally,
    run: Seq<Tally>,
    after: Tally,
    gather: A,
    score: S,
)
    requires
        is_run(g, priors, first, run, gather, score),
        exists|scores: Seq<Single>, i: int, evaluation: Evaluation| #[trigger]
            plays_out(g, priors, run.last(), after, scores, i, evaluation, gather, score),
    ensures
        is_run(g, priors, first, run.push(after), gather, score),
{
    let longer = run.push(after);
    assert forall|t: int| 0 <= t < longer.len() - 1 implies #[trigger] goes_on(
        g,
        priors,
        longer,
        t,
        gather,
        score,
    ) by {
        if t < run.len() - 1 {
            assert(goes_on(g, priors, run, t, gather, score));
            assert(longer[t] == run[t] && longer[t + 1] == run[t + 1]);
        } else {
            assert(longer[t] == run.last() && longer[t + 1] == after);
        }
    }
}

/// Only one move is tried next.
proof fn lemma_one_is_tried(search: Search, scores: Seq<Single>, i: int, j: int)
    requires
        search.tries(scores, i),
        search.tries(scores, j),
    ensures
        i == j,
{
    if (search.played as usize) >= search.moves@.len() {
        law_last_greatest_is_unique(scores, i, j);
    }
}

/// The scores of the moves, if the choice of the next one depends on them.
fn scores_of<S: Fn(Single, u32, Single, u128) -> Single>(
    search: &Search,
    sums: &Vec<Single>,
    priors: &Vec<Single>,
    score: &S,
) -> (scores: Vec<Single>)
    requires
        sums@.len() == search.moves@.len(),
        priors@.len() == search.moves@.len(),
        search.visits@.len() == search.moves@.len(),
        forall|prior: Single, visits: u32, sum: Single, played: u128|
            call_requires(*score, (prior, visits, sum, played)),
    ensures
        (search.played as usize) >= search.moves@.len() ==> {
            &&& scores@.len() == search.moves@.len()
            &&& forall|k: int|
                0 <= k < search.moves@.len() ==> call_ensures(
                    *score,
                    (priors@[k], search.visits@[k], sums@[k], search.played),
                    #[trigger] scores@[k],
                )
        },
{
    let mut scores: Vec<Single> = Vec::new();
    if !search.needs_scores() {
        return scores;
    }
    let mut k: usize = 0;
    while k < search.moves.len()
        invariant
            k <= search.moves@.len(),
            scores@.len() == k,
            sums@.len() == search.moves@.len(),
            priors@.len() == search.moves@.len(),
            search.visits@.len() == search.moves@.len(),
            forall|prior: Single, visits: u32, sum: Single, played: u128|
                call_requires(*score, (prior, visits, sum, played)),
            forall|j: int|
                0 <= j < k ==> call_ensures(
                    *score,
                    (priors@[j], search.visits@[j], sums@[j], search.played),
                    #[trigger] scores@[j],
                ),
        decreases search.moves.len() - k,
    {
        scores.push(score(priors[k], search.visits[k], sums[k], search.played));
        k += 1;
    }
    scores
}

/// The mean values of the moves.
fn means_of<M: Fn(Single, u32) -> Single>(
    search: &Search,
    sums: &Vec<Single>,
    mean: &M,
) -> (means: Vec<Single>)
    requires
        sums@.len() == search.moves@.len(),
        search.visits@.len() == search.moves@.len(),
        forall|sum: Single, visits: u32| call_requires(*mean, (sum, visits)),
    ensures
        means@.len() == search.moves@.len(),
        forall|k: int|
            0 <= k < search.moves@.len() ==> call_ensures(
                *mean,
                (sums@[k], search.visits@[k]),
                #[trigger] means@[k],
            ),
{
    let mut means: Vec<Single> = Vec::new();
    let mut k: usize = 0;
    while k < search.moves.len()
        invariant
            k <= search.moves@.len(),
            means@.len() == k,
            sums@.len() == search.moves@.len(),
            search.visits@.len() == search.moves@.len(),
            forall|sum: Single, visits: u32| call_requires(*mean, (sum, visits)),
            forall|j: int|
                0 <= j < k ==> call_ensures(
                    *mean,
                    (sums@[j], search.visits@[j]),
                    #[trigger] means@[j],
                ),
        decreases search.moves.len() - k,
    {
        means.push(mean(sums[k], search.visits[k]));
        k += 1;
    }
    means
}

/// A list of zeros.
fn zeros(count: usize) -> (numbers: Vec<Single>)
    ensures
        numbers@ == Seq::new(count as nat, |i: int| Single::of_sign(0)),
{
    let mut numbers: Vec<Single> = Vec::new();
    while numbers.len() < count
        invariant
            numbers@.len() <= count,
            forall|i: int| 0 <= i < numbers@.len() ==> numbers@[i] == Single::of_sign(0),
        decreases count - numbers.len(),
    {
        numbers.push(Single::zero());
    }
    assert(numbers@ =~= Seq::new(count as nat, |i: int| Single::of_sign(0)));
    numbers
}

/// The entries of a policy for moves.
pub open spec fn priors_of(moves: Seq<Move>, policy: Seq<Single>) -> Seq<Single> {
    Seq::new(moves.len(), |i: int| prior_of(moves[i], policy))
}

/// The entry of a policy for a move; zero where the policy has no such slot.
pub open spec fn prior_of(mv: Move, policy: Seq<Single>) -> Single {
    let slot = slot_of(mv.from as int, mv.to as int);
    if slot < policy.len() {
        policy[slot]
    } else {
        Single::of_sign(0)
    }
}

/// A count more adds to the sum.
proof fn lemma_total_push(counts: Seq<u32>, count: u32)
    ensures
        total(counts.push(count)) == total(counts) + count,
{
    assert(counts.push(count).drop_last() =~= counts);
}

/// Changing one count changes the sum by as much.
pub(crate) proof fn lemma_total_update(counts: Seq<u32>, i: int, count: u32)
    requires
        0 <= i < counts.len(),
    ensures
        total(counts.update(i, count)) == total(counts) - counts[i] + count,
    decreases counts.len(),
{
    let changed = counts.update(i, count);
    if i == counts.len() - 1 {
        assert(changed.drop_last() =~= counts.drop_last());
    } else {
        assert(changed.drop_last() =~= counts.drop_last().update(i, count));
        lemma_total_update(counts.drop_last(), i, count);
    }
}

/// No count is greater than the sum.
proof fn lemma_total_bounds(counts: Seq<u32>, i: int)
    requires
        0 <= i < counts.len(),
    ensures
        0 <= counts[i] <= total(counts),
    decreases counts.len(),
{
    lemma_total_nonnegative(counts.drop_last());
    if i < counts.len() - 1 {
        lemma_total_bounds(counts.drop_last(), i);
    }
}

proof fn lemma_total_nonnegative(counts: Seq<u32>)
    ensures
        total(counts) >= 0,
    decreases counts.len(),
{
    if counts.len() > 0 {
        lemma_total_nonnegative(counts.drop_last());
    }
}

/// In a finished search the visits add up to the playouts, with one more if a visit
/// was given in advance, and every legal move was visited.
pub proof fn law_finished_search_visits_every_move(search: Search)
    requires
        search.wf(),
        search.played == search.simulations,
    ensures
        total(search.visits@) == search.simulations + if search.primed {
            1int
        } else {
            0
        },
        forall|k: int| 0 <= k < search.moves@.len() ==> #[trigger] search.visits@[k] >= 1,
{
}

/// The report of a search names a legal move and lists the legal moves. Each of them was
/// visited, and the visits add up to the playouts and the visits given in advance.
pub proof fn law_reports_are_legal<
    A: Fn(Single, Evaluation) -> Single,
    S: Fn(Single, u32, Single, u128) -> Single,
    M: Fn(Single, u32) -> Single,
>(
    g: Game,
    priors: Seq<Single>,
    first: Tally,
    simulations: int,
    report: SearchReport,
    gather: A,
    score: S,
    mean: M,
)
    requires
        first.visits.len() == g.moves().len(),
        first.played == 0,
        g.moves().len() <= simulations,
        is_found(g, priors, first, simulations, Some(report), gather, score, mean),
    ensures
        report.best_move is Some,
        g.moves().contains(report.best_move->0),
        report.simulations == simulations,
        exists|counts: Seq<u32>|
            {
                &&& counts.len() == g.moves().len()
                &&& report.visits@ == #[trigger] tallied(g.moves(), counts)
                &&& total(counts) == total(first.visits) + simulations
                &&& forall|k: int| 0 <= k < counts.len() ==> #[trigger] counts[k] >= 1
            },
{
    let run = choose|run: Seq<Tally>|
        {
            &&& #[trigger] is_run(g, priors, first, run, gather, score)
            &&& run.len() == simulations + 1
            &&& exists|means: Seq<Single>, i: int| #[trigger]
                names_best(g.moves(), run.last(), report, means, i, mean)
        };
    let (means, i) = choose|means: Seq<Single>, i: int| #[trigger]
        names_best(g.moves(), run.last(), report, means, i, mean);
    assert(g.moves()[i] == report.best_move->0);
    law_moves_are_few(g.position, g.turn);
    lemma_run_counts(g, priors, first, run, simulations, gather, score);
    assert(report.visits@ == tallied(g.moves(), run.last().visits));
}

/// Each playout of a run is counted once, and the first ones visit the moves one by one.
pub(crate) proof fn lemma_run_counts<
    A: Fn(Single, Evaluation) -> Single,
    S: Fn(Single, u32, Single, u128) -> Single,
>(
    g: Game,
    priors: Seq<Single>,
    first: Tally,
    run: Seq<Tally>,
    t: int,
    gather: A,
    score: S,
)
    requires
        first.visits.len() == g.moves().len(),
        first.played == 0,
        g.moves().len() <= u32::MAX,
        is_run(g, priors, first, run, gather, score),
        0 <= t < run.len(),
        t <= u128::MAX,
    ensures
        run[t].visits.len() == g.moves().len(),
        run[t].played == t,
        total(run[t].visits) == total(first.visits) + t,
        forall|k: int|
            0 <= k < g.moves().len() && k < t ==> #[trigger] run[t].visits[k] >= 1,
    decreases t,
{
    if t > 0 {
        lemma_run_counts(g, priors, first, run, t - 1, gather, score);
        assert(goes_on(g, priors, run, t - 1, gather, score));
        let (scores, i, evaluation) = choose|scores: Seq<Single>, i: int, evaluation: Evaluation|
            #[trigger]
            plays_out(g, priors, run[t - 1], run[t], scores, i, evaluation, gather, score);
        let before = run[t - 1].visits;
        lemma_total_update(before, i, (before[i] + 1) as u32);
        assert forall|k: int| 0 <= k < g.moves().len() && k < t implies #[trigger] run[t].visits[k]
            >= 1 by {
            if k == t - 1 {
                assert(run[t - 1].played as usize == t - 1);
            } else {
                assert(before[k] >= 1);
            }
        }
    }
}

/// Visits add up: there are none in an empty list, and one more entry adds its count.
pub proof fn law_visits_add_up(counts: Seq<u32>, count: u32)
    ensures
        total(Seq::empty()) == 0,
        total(counts.push(count)) == total(counts) + count,
{
    lemma_total_push(counts, count);
}

/// Which move a search tries next: as long as not every move was tried, the one whose turn
/// it is, and then the one with the greatest score, the last among equals.
pub proof fn law_searches_try_the_best_score(search: Search, scores: Seq<Single>, i: int)
    requires
        search.played <= usize::MAX,
        scores.len() == search.moves@.len(),
    ensures
        search.tries(scores, i) <==> if search.played < search.moves@.len() {
            i == search.played
        } else {
            &&& 0 <= i < scores.len()
            &&& forall|k: int|
                0 <= k < i ==> (#[trigger] scores[k]).rank() <= scores[i].rank()
            &&& forall|k: int|
                i < k < scores.len() ==> (#[trigger] scores[k]).rank() < scores[i].rank()
        },
{
}

} // verus!
