//! What the reports of searches hold, and that they depend on nothing but the arguments.
use crate::engine::{GameResult, GameState};
use crate::listing::law_moves_are_few;
use crate::playouts::{is_moderate, law_playouts_are_moderate, Evaluation};
use crate::rules::Game;
use crate::search::{
    first_tally, goes_on, is_choice, is_found, is_guided_choice, is_guided_from, is_next, is_run,
    is_stuck, law_reports_are_legal, lemma_run_counts, lemma_total_update, names_best, playouts,
    plays_out, primed_tally, priors_of, tallied, total, tried, SearchReport, Tally, ROLLOUT_DEPTH,
};
use crate::single::{law_last_greatest_is_unique, Single};
use vstd::prelude::*;

verus! {

/// Whether a sum is what `gather` makes of another one and an evaluation.
pub open spec fn gathers<A: Fn(Single, Evaluation) -> Single>(
    gather: A,
    sum: Single,
    evaluation: Evaluation,
    next: Single,
) -> bool {
    call_ensures(gather, (sum, evaluation), next)
}

/// Whether `gather` has one result for each sum and each contents of an evaluation.
pub open spec fn gathers_one_way<A: Fn(Single, Evaluation) -> Single>(gather: A) -> bool {
    forall|sum: Single, a: Evaluation, b: Evaluation, x: Single, y: Single|
        a@ == b@ && #[trigger] gathers(gather, sum, a, x) && #[trigger] gathers(gather, sum, b, y)
            ==> x == y
}

/// Whether a number is the score of a move.
pub open spec fn scores_as<S: Fn(Single, u32, Single, u128) -> Single>(
    score: S,
    prior: Single,
    visits: u32,
    sum: Single,
    played: u128,
    result: Single,
) -> bool {
    call_ensures(score, (prior, visits, sum, played), result)
}

/// Whether `score` has one result for the same arguments.
pub open spec fn scores_one_way<S: Fn(Single, u32, Single, u128) -> Single>(score: S) -> bool {
    forall|prior: Single, visits: u32, sum: Single, played: u128, x: Single, y: Single|
        #[trigger] scores_as(score, prior, visits, sum, played, x) && #[trigger] scores_as(
            score,
            prior,
            visits,
            sum,
            played,
            y,
        ) ==> x == y
}

/// Whether a number is the mean of a sum.
pub open spec fn averages<M: Fn(Single, u32) -> Single>(
    mean: M,
    sum: Single,
    visits: u32,
    result: Single,
) -> bool {
    call_ensures(mean, (sum, visits), result)
}

/// Whether `mean` has one result for the same arguments.
pub open spec fn averages_one_way<M: Fn(Single, u32) -> Single>(mean: M) -> bool {
    forall|sum: Single, visits: u32, x: Single, y: Single| #[trigger]
        averages(mean, sum, visits, x) && #[trigger] averages(mean, sum, visits, y) ==> x == y
}

/// Whether two searches found the same: both nothing, or the same report.
pub open spec fn agree(a: Option<SearchReport>, b: Option<SearchReport>) -> bool {
    match (a, b) {
        (Some(x), Some(y)) => {
            &&& x.best_move == y.best_move
            &&& x.value == y.value
            &&& x.simulations == y.simulations
            &&& x.visits@ == y.visits@
        },
        (None, None) => true,
        _ => false,
    }
}

/// Only one move can be next.
proof fn lemma_next_is_unique<S: Fn(Single, u32, Single, u128) -> Single>(
    g: Game,
    priors: Seq<Single>,
    tally: Tally,
    scores: Seq<Single>,
    i: int,
    others: Seq<Single>,
    j: int,
    score: S,
)
    requires
        scores_one_way(score),
        is_next(g.moves(), priors, tally, scores, i, score),
        is_next(g.moves(), priors, tally, others, j, score),
    ensures
        i == j,
{
    if (tally.played as usize) >= g.moves().len() {
        assert forall|k: int| 0 <= k < scores.len() implies scores[k] == others[k] by {
            assert(scores_as(
                score,
                priors[k],
                tally.visits[k],
                tally.sums[k],
                tally.played,
                scores[k],
            ));
            assert(scores_as(
                score,
                priors[k],
                tally.visits[k],
                tally.sums[k],
                tally.played,
                others[k],
            ));
        }
        assert(scores =~= others);
        law_last_greatest_is_unique(scores, i, j);
    }
}

/// Runs from the same tally go the same way.
proof fn lemma_runs_agree<
    A: Fn(Single, Evaluation) -> Single,
    S: Fn(Single, u32, Single, u128) -> Single,
>(
    g: Game,
    priors: Seq<Single>,
    first: Tally,
    a: Seq<Tally>,
    b: Seq<Tally>,
    t: int,
    gather: A,
    score: S,
)
    requires
        gathers_one_way(gather),
        scores_one_way(score),
        is_run(g, priors, first, a, gather, score),
        is_run(g, priors, first, b, gather, score),
        0 <= t < a.len(),
        t < b.len(),
    ensures
        a[t] == b[t],
    decreases t,
{
    if t > 0 {
        lemma_runs_agree(g, priors, first, a, b, t - 1, gather, score);
        assert(goes_on(g, priors, a, t - 1, gather, score));
        assert(goes_on(g, priors, b, t - 1, gather, score));
        let (scores, i, evaluation) = choose|scores: Seq<Single>, i: int, evaluation: Evaluation|
            #[trigger]
            plays_out(g, priors, a[t - 1], a[t], scores, i, evaluation, gather, score);
        let (others, j, other) = choose|scores: Seq<Single>, i: int, evaluation: Evaluation|
            #[trigger]
            plays_out(g, priors, b[t - 1], b[t], scores, i, evaluation, gather, score);
        lemma_next_is_unique(g, priors, a[t - 1], scores, i, others, j, score);
        assert(gathers(gather, a[t - 1].sums[i], evaluation, a[t].sums[i]));
        assert(gathers(gather, a[t - 1].sums[i], other, b[t].sums[i]));
        assert(a[t] =~= b[t]);
    }
}

/// A run does not go on from where a search is stuck.
proof fn lemma_stuck_is_the_end<
    A: Fn(Single, Evaluation) -> Single,
    S: Fn(Single, u32, Single, u128) -> Single,
>(
    g: Game,
    priors: Seq<Single>,
    run: Seq<Tally>,
    t: int,
    gather: A,
    score: S,
)
    requires
        scores_one_way(score),
        is_stuck(g, priors, run[t], score),
    ensures
        !goes_on(g, priors, run, t, gather, score),
{
    if goes_on(g, priors, run, t, gather, score) {
        let (scores, i, evaluation) = choose|scores: Seq<Single>, i: int, evaluation: Evaluation|
            #[trigger]
            plays_out(g, priors, run[t], run[t + 1], scores, i, evaluation, gather, score);
        let (others, j) = choose|scores: Seq<Single>, i: int|
            {
                &&& #[trigger] is_next(g.moves(), priors, run[t], scores, i, score)
                &&& 0 <= i < g.moves().len()
                &&& tried(g, run[t], i).0 is None || run[t].visits[i] == u32::MAX
            };
        lemma_next_is_unique(g, priors, run[t], scores, i, others, j, score);
    }
}

/// What one search reports, another one from the same tally reports too.
proof fn lemma_reports_agree<
    A: Fn(Single, Evaluation) -> Single,
    S: Fn(Single, u32, Single, u128) -> Single,
    M: Fn(Single, u32) -> Single,
>(
    g: Game,
    priors: Seq<Single>,
    first: Tally,
    simulations: int,
    report: SearchReport,
    other: Option<SearchReport>,
    gather: A,
    score: S,
    mean: M,
)
    requires
        gathers_one_way(gather),
        scores_one_way(score),
        averages_one_way(mean),
        is_found(g, priors, first, simulations, Some(report), gather, score, mean),
        is_found(g, priors, first, simulations, other, gather, score, mean),
    ensures
        agree(Some(report), other),
{
    let a = choose|run: Seq<Tally>|
        {
            &&& #[trigger] is_run(g, priors, first, run, gather, score)
            &&& run.len() == simulations + 1
            &&& exists|means: Seq<Single>, i: int| #[trigger]
                names_best(g.moves(), run.last(), report, means, i, mean)
        };
    match other {
        Some(second) => {
            let b = choose|run: Seq<Tally>|
                {
                    &&& #[trigger] is_run(g, priors, first, run, gather, score)
                    &&& run.len() == simulations + 1
                    &&& exists|means: Seq<Single>, i: int| #[trigger]
                        names_best(g.moves(), run.last(), second, means, i, mean)
                };
            lemma_runs_agree(g, priors, first, a, b, simulations, gather, score);
            let last = a.last();
            assert(last == b.last());
            let (means, i) = choose|means: Seq<Single>, i: int| #[trigger]
                names_best(g.moves(), last, report, means, i, mean);
            let (others, j) = choose|means: Seq<Single>, i: int| #[trigger]
                names_best(g.moves(), last, second, means, i, mean);
            assert forall|k: int| 0 <= k < means.len() implies means[k] == others[k] by {
                assert(averages(mean, last.sums[k], last.visits[k], means[k]));
                assert(averages(mean, last.sums[k], last.visits[k], others[k]));
            }
            assert(means =~= others);
            law_last_greatest_is_unique(means, i, j);
        },
        None => {
            let b = choose|run: Seq<Tally>|
                {
                    &&& #[trigger] is_run(g, priors, first, run, gather, score)
                    &&& run.len() <= simulations
                    &&& is_stuck(g, priors, run.last(), score)
                };
            let t = b.len() - 1;
            lemma_runs_agree(g, priors, first, a, b, t, gather, score);
            lemma_stuck_is_the_end(g, priors, a, t, gather, score);
            assert(goes_on(g, priors, a, t, gather, score));
        },
    }
}

/// Searches from the same tally find the same, where each of the functions handed in has
/// one result for the same arguments.
pub proof fn law_equal_searches_agree<
    A: Fn(Single, Evaluation) -> Single,
    S: Fn(Single, u32, Single, u128) -> Single,
    M: Fn(Single, u32) -> Single,
>(
    g: Game,
    priors: Seq<Single>,
    first: Tally,
    simulations: int,
    a: Option<SearchReport>,
    b: Option<SearchReport>,
    gather: A,
    score: S,
    mean: M,
)
    requires
        gathers_one_way(gather),
        scores_one_way(score),
        averages_one_way(mean),
        is_found(g, priors, first, simulations, a, gather, score, mean),
        is_found(g, priors, first, simulations, b, gather, score, mean),
    ensures
        agree(a, b),
{
    if let Some(report) = a {
        lemma_reports_agree(g, priors, first, simulations, report, b, gather, score, mean);
    } else if let Some(report) = b {
        lemma_reports_agree(g, priors, first, simulations, report, a, gather, score, mean);
    }
}

/// Equal arguments give equal reports: what [`choose_move`](crate::search::choose_move)
/// finds for a position is always the same, where each of the functions handed in has one
/// result for the same arguments.
pub proof fn law_equal_choices_agree<
    A: Fn(Single, Evaluation) -> Single,
    S: Fn(Single, u32, Single, u128) -> Single,
    M: Fn(Single, u32) -> Single,
>(
    state: GameState,
    simulations: u128,
    a: Option<SearchReport>,
    b: Option<SearchReport>,
    gather: A,
    score: S,
    mean: M,
)
    requires
        gathers_one_way(gather),
        scores_one_way(score),
        averages_one_way(mean),
        is_choice(state, simulations, a, gather, score, mean),
        is_choice(state, simulations, b, gather, score, mean),
    ensures
        agree(a, b),
{
    if state@.moves().len() > 0 {
        law_equal_searches_agree(
            state@,
            Seq::new(state@.moves().len(), |i: int| Single::of_sign(0)),
            first_tally(state),
            playouts(state@, simulations),
            a,
            b,
            gather,
            score,
            mean,
        );
    }
}

/// Equal arguments give equal reports with a network's output as well: what
/// [`choose_move_with_model`](crate::search::choose_move_with_model) finds for a position
/// and an output is always the same, where each of the functions handed in has one result
/// for the same arguments.
pub proof fn law_equal_guided_choices_agree<
    A: Fn(Single, Evaluation) -> Single,
    S: Fn(Single, u32, Single, u128) -> Single,
    M: Fn(Single, u32) -> Single,
>(
    state: GameState,
    simulations: u128,
    policy: Seq<Single>,
    value: Single,
    a: Option<SearchReport>,
    b: Option<SearchReport>,
    gather: A,
    score: S,
    mean: M,
)
    requires
        gathers_one_way(gather),
        scores_one_way(score),
        averages_one_way(mean),
        is_guided_choice(state, simulations, policy, value, a, gather, score, mean),
        is_guided_choice(state, simulations, policy, value, b, gather, score, mean),
    ensures
        agree(a, b),
{
    if state@.moves().len() > 0 {
        let (i, x) = choose|preferred: int, sum: Single| #[trigger]
            is_guided_from(
                state,
                simulations,
                policy,
                value,
                preferred,
                sum,
                a,
                gather,
                score,
                mean,
            );
        let (j, y) = choose|preferred: int, sum: Single| #[trigger]
            is_guided_from(
                state,
                simulations,
                policy,
                value,
                preferred,
                sum,
                b,
                gather,
                score,
                mean,
            );
        let priors = priors_of(state@.moves(), policy);
        law_last_greatest_is_unique(priors, i, j);
        let decided = Evaluation::Decided(value);
        assert(gathers(gather, Single::of_sign(0), decided, x));
        assert(gathers(gather, Single::of_sign(0), decided, y));
        law_equal_searches_agree(
            state@,
            priors,
            primed_tally(state, i, x),
            playouts(state@, simulations),
            a,
            b,
            gather,
            score,
            mean,
        );
    }
}

/// What a report of [`choose_move`](crate::search::choose_move) holds: without legal moves
/// there is no move, no playout and no visit; otherwise the playouts are as many as asked
/// for, but at least one for each legal move, the move is legal, the legal moves are listed
/// in their order, each was visited, and the visits add up to the playouts.
pub proof fn law_choices_are_sound<
    A: Fn(Single, Evaluation) -> Single,
    S: Fn(Single, u32, Single, u128) -> Single,
    M: Fn(Single, u32) -> Single,
>(
    state: GameState,
    simulations: u128,
    report: SearchReport,
    gather: A,
    score: S,
    mean: M,
)
    requires
        is_choice(state, simulations, Some(report), gather, score, mean),
    ensures
        state@.moves().len() == 0 ==> {
            &&& report.best_move is None
            &&& report.simulations == 0
            &&& report.visits@.len() == 0
            &&& state@.outcome() == Some(GameResult::Draw) ==> report.value.bits == 0
            &&& state@.outcome() == Some(GameResult::Winner(state.turn)) ==> report.value.bits
                == 0x3f80_0000
            &&& state@.outcome() is Some && state@.outcome() != Some(GameResult::Draw)
                && state@.outcome() != Some(GameResult::Winner(state.turn)) ==> report.value.bits
                == 0xbf80_0000
        },
        state@.moves().len() > 0 ==> {
            &&& report.best_move matches Some(mv)
            &&& state@.moves().contains(mv)
            &&& report.simulations == playouts(state@, simulations)
            &&& state@.moves().len() <= simulations ==> report.simulations == simulations
            &&& simulations < state@.moves().len() ==> report.simulations == state@.moves().len()
            &&& exists|counts: Seq<u32>|
                {
                    &&& counts.len() == state@.moves().len()
                    &&& report.visits@ == #[trigger] tallied(state@.moves(), counts)
                    &&& total(counts) == report.simulations
                    &&& forall|k: int| 0 <= k < counts.len() ==> #[trigger] counts[k] >= 1
                }
        },
{
    let count = state@.moves().len();
    if count > 0 {
        lemma_nothing_tried(count);
        law_reports_are_legal(
            state@,
            Seq::new(count, |i: int| Single::of_sign(0)),
            first_tally(state),
            playouts(state@, simulations),
            report,
            gather,
            score,
            mean,
        );
    }
}

/// What a report of [`choose_move_with_model`](crate::search::choose_move_with_model) holds:
/// the same as one of [`choose_move`](crate::search::choose_move), but for one visit more.
pub proof fn law_guided_choices_are_sound<
    A: Fn(Single, Evaluation) -> Single,
    S: Fn(Single, u32, Single, u128) -> Single,
    M: Fn(Single, u32) -> Single,
>(
    state: GameState,
    simulations: u128,
    policy: Seq<Single>,
    value: Single,
    report: SearchReport,
    gather: A,
    score: S,
    mean: M,
)
    requires
        is_guided_choice(state, simulations, policy, value, Some(report), gather, score, mean),
    ensures
        state@.moves().len() == 0 ==> {
            &&& report.best_move is None
            &&& report.simulations == 0
            &&& report.visits@.len() == 0
            &&& state@.outcome() == Some(GameResult::Draw) ==> report.value.bits == 0
            &&& state@.outcome() == Some(GameResult::Winner(state.turn)) ==> report.value.bits
                == 0x3f80_0000
            &&& state@.outcome() is Some && state@.outcome() != Some(GameResult::Draw)
                && state@.outcome() != Some(GameResult::Winner(state.turn)) ==> report.value.bits
                == 0xbf80_0000
        },
        state@.moves().len() > 0 ==> {
            &&& report.best_move matches Some(mv)
            &&& state@.moves().contains(mv)
            &&& report.simulations == playouts(state@, simulations)
            &&& state@.moves().len() <= simulations ==> report.simulations == simulations
            &&& simulations < state@.moves().len() ==> report.simulations == state@.moves().len()
            &&& exists|counts: Seq<u32>|
                {
                    &&& counts.len() == state@.moves().len()
                    &&& report.visits@ == #[trigger] tallied(state@.moves(), counts)
                    &&& total(counts) == report.simulations + 1
                    &&& forall|k: int| 0 <= k < counts.len() ==> #[trigger] counts[k] >= 1
                }
        },
{
    let count = state@.moves().len();
    if count > 0 {
        let (preferred, sum) = choose|preferred: int, sum: Single| #[trigger]
            is_guided_from(
                state,
                simulations,
                policy,
                value,
                preferred,
                sum,
                Some(report),
                gather,
                score,
                mean,
            );
        lemma_nothing_tried(count);
        lemma_total_update(first_tally(state).visits, preferred, 1);
        law_reports_are_legal(
            state@,
            priors_of(state@.moves(), policy),
            primed_tally(state, preferred, sum),
            playouts(state@, simulations),
            report,
            gather,
            score,
            mean,
        );
    }
}

/// Before the first playout there are no visits.
proof fn lemma_nothing_tried(count: nat)
    ensures
        total(Seq::new(count, |i: int| 0u32)) == 0,
    decreases count,
{
    if count > 0 {
        lemma_nothing_tried((count - 1) as nat);
        assert(Seq::new(count, |i: int| 0u32).drop_last() =~= Seq::new(
            (count - 1) as nat,
            |i: int| 0u32,
        ));
    }
}

/// Whether sums stay within bounds that keep the means from minus one to one. `kept` says
/// which sums are within bounds for a number of visits: zero is for no visits, adding a
/// moderate evaluation leads from one within bounds to the next, and the mean of one
/// within bounds is from minus one to one.
pub open spec fn keeps_bounds<A: Fn(Single, Evaluation) -> Single, M: Fn(Single, u32) -> Single>(
    kept: spec_fn(Single, u32) -> bool,
    gather: A,
    mean: M,
) -> bool {
    &&& kept(Single::of_sign(0), 0)
    &&& forall|sum: Single, visits: u32, evaluation: Evaluation, next: Single|
        kept(sum, visits) && visits < u32::MAX && is_moderate(evaluation@) && #[trigger] gathers(
            gather,
            sum,
            evaluation,
            next,
        ) ==> #[trigger] kept(next, (visits + 1) as u32)
    &&& forall|sum: Single, visits: u32, result: Single|
        kept(sum, visits) && visits > 0 && #[trigger] averages(mean, sum, visits, result)
            ==> result.within_unit()
}

/// Whether all sums of a tally are within bounds.
spec fn is_bounded(kept: spec_fn(Single, u32) -> bool, tally: Tally, count: nat) -> bool {
    &&& tally.sums.len() == count
    &&& tally.visits.len() == count
    &&& forall|k: int| 0 <= k < count ==> kept(#[trigger] tally.sums[k], tally.visits[k])
}

/// Playouts keep sums within bounds.
proof fn lemma_run_is_bounded<
    A: Fn(Single, Evaluation) -> Single,
    S: Fn(Single, u32, Single, u128) -> Single,
    M: Fn(Single, u32) -> Single,
>(
    g: Game,
    priors: Seq<Single>,
    first: Tally,
    run: Seq<Tally>,
    t: int,
    kept: spec_fn(Single, u32) -> bool,
    gather: A,
    score: S,
    mean: M,
)
    requires
        keeps_bounds(kept, gather, mean),
        is_bounded(kept, first, g.moves().len()),
        is_run(g, priors, first, run, gather, score),
        0 <= t < run.len(),
    ensures
        is_bounded(kept, run[t], g.moves().len()),
    decreases t,
{
    if t > 0 {
        lemma_run_is_bounded(g, priors, first, run, t - 1, kept, gather, score, mean);
        assert(goes_on(g, priors, run, t - 1, gather, score));
        let (scores, i, evaluation) = choose|scores: Seq<Single>, i: int, evaluation: Evaluation|
            #[trigger]
            plays_out(g, priors, run[t - 1], run[t], scores, i, evaluation, gather, score);
        let before = run[t - 1];
        law_playouts_are_moderate(
            g.play(g.moves()[i]),
            g.turn,
            before.rng,
            ROLLOUT_DEPTH as nat,
        );
        assert(kept(before.sums[i], before.visits[i]));
        assert(gathers(gather, before.sums[i], evaluation, run[t].sums[i]));
        assert(kept(run[t].sums[i], (before.visits[i] + 1) as u32));
        assert forall|k: int| 0 <= k < g.moves().len() implies kept(
            #[trigger] run[t].sums[k],
            run[t].visits[k],
        ) by {
            if k != i {
                assert(kept(before.sums[k], before.visits[k]));
            }
        }
    }
}

/// A search that starts within bounds reports a value within them.
proof fn lemma_report_is_bounded<
    A: Fn(Single, Evaluation) -> Single,
    S: Fn(Single, u32, Single, u128) -> Single,
    M: Fn(Single, u32) -> Single,
>(
    g: Game,
    priors: Seq<Single>,
    first: Tally,
    simulations: int,
    report: SearchReport,
    kept: spec_fn(Single, u32) -> bool,
    gather: A,
    score: S,
    mean: M,
)
    requires
        keeps_bounds(kept, gather, mean),
        is_bounded(kept, first, g.moves().len()),
        first.played == 0,
        g.moves().len() <= simulations,
        is_found(g, priors, first, simulations, Some(report), gather, score, mean),
    ensures
        report.value.within_unit(),
{
    let run = choose|run: Seq<Tally>|
        {
            &&& #[trigger] is_run(g, priors, first, run, gather, score)
            &&& run.len() == simulations + 1
            &&& exists|means: Seq<Single>, i: int| #[trigger]
                names_best(g.moves(), run.last(), report, means, i, mean)
        };
    let last = run.last();
    let (means, i) = choose|means: Seq<Single>, i: int| #[trigger]
        names_best(g.moves(), last, report, means, i, mean);
    law_moves_are_few(g.position, g.turn);
    lemma_run_counts(g, priors, first, run, simulations, gather, score);
    lemma_run_is_bounded(g, priors, first, run, simulations, kept, gather, score, mean);
    assert(kept(last.sums[i], last.visits[i]));
    assert(last.visits[i] >= 1);
    assert(averages(mean, last.sums[i], last.visits[i], means[i]));
}

/// The value in a report of [`choose_move`](crate::search::choose_move) is one from minus
/// one to one, where sums stay within bounds that keep the means there.
pub proof fn law_choices_are_within_bounds<
    A: Fn(Single, Evaluation) -> Single,
    S: Fn(Single, u32, Single, u128) -> Single,
    M: Fn(Single, u32) -> Single,
>(
    state: GameState,
    simulations: u128,
    report: SearchReport,
    kept: spec_fn(Single, u32) -> bool,
    gather: A,
    score: S,
    mean: M,
)
    requires
        keeps_bounds(kept, gather, mean),
        is_choice(state, simulations, Some(report), gather, score, mean),
    ensures
        report.value.within_unit(),
{
    let count = state@.moves().len();
    if count > 0 {
        assert(is_bounded(kept, first_tally(state), count));
        lemma_report_is_bounded(
            state@,
            Seq::new(count, |i: int| Single::of_sign(0)),
            first_tally(state),
            playouts(state@, simulations),
            report,
            kept,
            gather,
            score,
            mean,
        );
    }
}

/// The same holds of [`choose_move_with_model`](crate::search::choose_move_with_model),
/// where the network's value is one from minus one to one.
pub proof fn law_guided_choices_are_within_bounds<
    A: Fn(Single, Evaluation) -> Single,
    S: Fn(Single, u32, Single, u128) -> Single,
    M: Fn(Single, u32) -> Single,
>(
    state: GameState,
    simulations: u128,
    policy: Seq<Single>,
    value: Single,
    report: SearchReport,
    kept: spec_fn(Single, u32) -> bool,
    gather: A,
    score: S,
    mean: M,
)
    requires
        keeps_bounds(kept, gather, mean),
        value.within_unit(),
        is_guided_choice(state, simulations, policy, value, Some(report), gather, score, mean),
    ensures
        report.value.within_unit(),
{
    let count = state@.moves().len();
    if count > 0 {
        let (preferred, sum) = choose|preferred: int, sum: Single| #[trigger]
            is_guided_from(
                state,
                simulations,
                policy,
                value,
                preferred,
                sum,
                Some(report),
                gather,
                score,
                mean,
            );
        let first = primed_tally(state, preferred, sum);
        assert(gathers(gather, Single::of_sign(0), Evaluation::Decided(value), sum));
        assert(kept(sum, (0u32 + 1) as u32));
        assert(is_bounded(kept, first, count));
        lemma_report_is_bounded(
            state@,
            priors_of(state@.moves(), policy),
            first,
            playouts(state@, simulations),
            report,
            kept,
            gather,
            score,
            mean,
        );
    }
}

} // verus!
