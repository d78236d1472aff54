//! What self-play keeps of a step, told field by field.
use crate::cache::CachedMove;
use crate::choices::{law_choices_are_sound, law_guided_choices_are_sound};
use crate::engine::{GameResult, GameState, Move, Side};
use crate::ml::{features, law_inputs_show_the_game, shows_game};
use crate::playouts::Evaluation;
use crate::rules::Game;
use crate::search::{is_choice, is_guided_choice, tallied, total, SearchReport};
use crate::single::Single;
use crate::training::{
    ahead, are_shares, have_slots, judged, law_policy_holds_the_shares, learned,
    lemma_tallied_total, policy_of, scored, visit_total, Experience, ExperienceSample, Lesson,
    PendingSample, SelfPlayTrainer, SideLabel, TrainingMetrics,
};
use vstd::prelude::*;

verus! {

/// What a result is worth to a player, as a number: one for a win, minus one for a loss and
/// zero for a draw.
pub open spec fn is_worth(result: GameResult, player: Side, number: Single) -> bool {
    &&& result == GameResult::Winner(player) ==> number.bits == 0x3f80_0000
    &&& result == GameResult::Draw ==> number.bits == 0
    &&& result != GameResult::Winner(player) && result != GameResult::Draw ==> number.bits
        == 0xbf80_0000
}

/// Whether a label names a player.
pub open spec fn names_player(label: SideLabel, player: Side) -> bool {
    (label is Black <==> player is Black) && (label is Red <==> player is Red)
}

/// Whether a sample is what a position of a finished game becomes: the same input and
/// policy, the player's label, and what the result is worth to that player.
pub open spec fn samples(sample: Experience, lesson: Lesson, result: GameResult) -> bool {
    &&& sample.state == lesson.state
    &&& sample.policy == lesson.policy
    &&& names_player(sample.player, lesson.player)
    &&& is_worth(result, lesson.player, sample.outcome)
}

/// The samples of a finished game carry the inputs, policies and players of its positions,
/// with the result as the players see it.
pub proof fn law_lessons_are_judged(lesson: Lesson, result: GameResult)
    ensures
        samples(judged(lesson, result), lesson, result),
{
}

/// A finished game is counted, and so is its result, each once; nothing else is counted.
pub proof fn law_games_are_scored(metrics: TrainingMetrics, result: GameResult)
    requires
        metrics.completed_games < u64::MAX,
        metrics.black_wins < u64::MAX,
        metrics.red_wins < u64::MAX,
        metrics.draws < u64::MAX,
    ensures
        ({
            let after = scored(metrics, result);
            let black: int = if result == GameResult::Winner(Side::Black) {
                1
            } else {
                0
            };
            let red: int = if result == GameResult::Winner(Side::Red) {
                1
            } else {
                0
            };
            let drawn: int = if result == GameResult::Draw {
                1
            } else {
                0
            };
            &&& after.completed_games == metrics.completed_games + 1
            &&& after.black_wins == metrics.black_wins + black
            &&& after.red_wins == metrics.red_wins + red
            &&& after.draws == metrics.draws + drawn
            &&& after.self_play_steps == metrics.self_play_steps
            &&& after.train_steps == metrics.train_steps
            &&& after.last_loss == metrics.last_loss
            &&& after.replay_positions == metrics.replay_positions
            &&& after.cached_positions == metrics.cached_positions
        }),
{
}

/// The sample that a completed step adds shows the game before the step, with the player
/// who had the move in it: its turn plane is one exactly if that player is black, and minus
/// one exactly if it is red. It is added to the positions of the game under way or, if the
/// step ends the game, as the last of the finished samples; the other positions of the game
/// become samples before it, and all that was there before stays.
pub proof fn law_steps_keep_their_positions(
    before: SelfPlayTrainer,
    after: SelfPlayTrainer,
    report: SearchReport,
    shares: Seq<Single>,
    mv: Move,
)
    requires
        report.best_move == Some(mv),
        before.advanced(after, report, shares),
    ensures
        match before.game@.play(mv).outcome() {
            None => {
                let lessons = after.lessons();
                let last = lessons.last();
                &&& lessons.len() == before.lessons().len() + 1
                &&& forall|i: int|
                    0 <= i < before.lessons().len() ==> #[trigger] lessons[i] == before.lessons()[i]
                &&& shows_game(before.game@, last.state)
                &&& last.state == features(before.game@)
                &&& last.player == before.game.turn
                &&& last.policy == policy_of(report.visits@, shares)
                &&& turn_shown(last.state, last.player)
                &&& after.experience() == before.experience()
            },
            Some(result) => {
                let start = before.experience().len() as int;
                let count = before.lessons().len() as int;
                let replay = after.experience();
                let last = replay.last();
                &&& after.lessons().len() == 0
                &&& replay.len() == start + count + 1
                &&& forall|i: int| 0 <= i < start ==> #[trigger] replay[i] == before.experience()[i]
                &&& forall|i: int|
                    start <= i < start + count ==> samples(
                        #[trigger] replay[i],
                        before.lessons()[i - start],
                        result,
                    )
                &&& shows_game(before.game@, last.state)
                &&& last.state == features(before.game@)
                &&& names_player(last.player, before.game.turn)
                &&& last.policy == policy_of(report.visits@, shares)
                &&& turn_shown(last.state, before.game.turn)
                &&& is_worth(result, before.game.turn, last.outcome)
            },
        },
{
    law_inputs_show_the_game(before.game@);
    let lesson = before.lesson(report, shares);
    let lessons = before.lessons().push(lesson);
    if let Some(result) = before.game@.play(mv).outcome() {
        let added = lessons.map_values(|lesson: Lesson| judged(lesson, result));
        assert(after.experience() == before.experience() + added);
        assert forall|i: int| 0 <= i < lessons.len() implies samples(
            #[trigger] added[i],
            lessons[i],
            result,
        ) by {}
        let start = before.experience().len() as int;
        let replay = after.experience();
        assert forall|i: int|
            start <= i < start + before.lessons().len() implies samples(
                #[trigger] replay[i],
                before.lessons()[i - start],
                result,
            ) by {
            assert(replay[i] == added[i - start]);
            assert(lessons[i - start] == before.lessons()[i - start]);
        }
        assert(replay.last() == added[lessons.len() - 1]);
    } else {
        assert(after.experience() =~= before.experience());
    }
}

/// Whether the turn plane of an input is that of a player.
pub open spec fn turn_shown(state: Seq<Single>, player: Side) -> bool {
    forall|i: int|
        96 <= i < 128 ==> {
            &&& (#[trigger] state[i]).bits == 0x3f80_0000 <==> player is Black
            &&& state[i].bits == 0xbf80_0000 <==> player is Red
        }
}

/// What a completed step does besides: the move is played, or a new game begins if it ends
/// the old one; the step is counted, and a game that ends with its result; the move, its
/// value and the first of the visits are remembered for the position; and the visits are
/// kept if there were playouts.
pub proof fn law_steps_in_full(
    before: SelfPlayTrainer,
    after: SelfPlayTrainer,
    report: SearchReport,
    shares: Seq<Single>,
    mv: Move,
)
    requires
        report.best_move == Some(mv),
        before.advanced(after, report, shares),
        before.wf(),
        before.counters.self_play_steps < u64::MAX,
        before.counters.completed_games < u64::MAX,
    ensures
        after.counters.self_play_steps == before.counters.self_play_steps + 1,
        after.counters.train_steps == before.counters.train_steps,
        after.counters.last_loss == before.counters.last_loss,
        after.counters.replay_positions == before.counters.replay_positions,
        after.counters.cached_positions == before.counters.cached_positions,
        match before.game@.play(mv).outcome() {
            None => {
                &&& after.game@ == before.game@.play(mv)
                &&& after.counters.completed_games == before.counters.completed_games
                &&& after.counters.black_wins == before.counters.black_wins
                &&& after.counters.red_wins == before.counters.red_wins
                &&& after.counters.draws == before.counters.draws
            },
            Some(result) => {
                &&& after.game.board.black == 0xfff0_0000
                &&& after.game.board.red == 0xfff
                &&& after.game.board.kings == 0
                &&& after.game.turn is Black
                &&& after.game.halfmoves == 0
                &&& after.counters.completed_games == before.counters.completed_games + 1
                &&& after.counters.black_wins > before.counters.black_wins <==> result
                    == GameResult::Winner(Side::Black)
                &&& after.counters.red_wins > before.counters.red_wins <==> result
                    == GameResult::Winner(Side::Red)
                &&& after.counters.draws > before.counters.draws <==> result == GameResult::Draw
                &&& after.counters.black_wins + after.counters.red_wins + after.counters.draws
                    == before.counters.black_wins + before.counters.red_wins
                    + before.counters.draws + 1
            },
        },
        after.remembered().contains_key(before.game),
        after.remembered()[before.game].best_move == mv,
        after.remembered()[before.game].value == report.value,
        after.remembered()[before.game].visits == if report.visits@.len() > 0 {
            report.visits@[0].1
        } else {
            1u32
        },
        forall|other: GameState|
            other != before.game ==> {
                &&& #[trigger] after.remembered().contains_key(other)
                    <==> before.remembered().contains_key(other)
                &&& before.remembered().contains_key(other) ==> after.remembered()[other]
                    == before.remembered()[other]
            },
        report.simulations > 0 ==> after.latest_visits@ == report.visits@,
        report.simulations == 0 ==> after.latest_visits@ == before.latest_visits@,
{
}

/// How a step begins: a game that is over gives way to a new one without positions, and one
/// that is not stays. Nothing else changes. If a move is remembered for the position, the
/// report is that move with its value and its visits, and no playouts; otherwise there is
/// none.
pub proof fn law_steps_begin(
    before: SelfPlayTrainer,
    begun: SelfPlayTrainer,
    known: Option<SearchReport>,
)
    requires
        before.begun(begun, known),
    ensures
        begun.replay == before.replay,
        begun.counters == before.counters,
        begun.remembered() == before.remembered(),
        begun.latest_visits == before.latest_visits,
        before.game@.outcome() is None ==> begun.game == before.game && begun.pending
            == before.pending,
        before.game@.outcome() is Some ==> {
            &&& begun.game.board.black == 0xfff0_0000
            &&& begun.game.board.red == 0xfff
            &&& begun.game.board.kings == 0
            &&& begun.game.turn is Black
            &&& begun.game.halfmoves == 0
            &&& begun.lessons().len() == 0
        },
        known is Some <==> before.remembered().contains_key(begun.game),
        known matches Some(report) ==> {
            let cached = before.remembered()[begun.game];
            &&& report.best_move == Some(cached.best_move)
            &&& report.value == cached.value
            &&& report.simulations == 0
            &&& report.visits@.len() == 1
            &&& report.visits@[0] == (cached.best_move, cached.visits)
        },
{
}

/// The positions to be ready for are the position itself and the one after each legal move,
/// in the order of the moves.
pub proof fn law_positions_ahead(g: Game, i: int)
    requires
        0 <= i < g.moves().len(),
    ensures
        ahead(g).len() == g.moves().len() + 1,
        ahead(g)[0] == g,
        ahead(g)[i + 1] == g.play(g.moves()[i]),
{
}

/// What is remembered from reports: for a position that was not known, the first report on
/// it that names a move decides. The move and the value are those of that report, and the
/// visits are its first count.
pub proof fn law_first_report_is_remembered(
    known: Map<GameState, CachedMove>,
    positions: Seq<GameState>,
    reports: Seq<SearchReport>,
    i: int,
    mv: Move,
)
    requires
        0 <= i < reports.len(),
        positions.len() == reports.len(),
        !known.contains_key(positions[i]),
        reports[i].best_move == Some(mv),
        forall|k: int|
            0 <= k < i && #[trigger] positions[k] == positions[i] ==> reports[k].best_move is None,
    ensures
        ({
            let after = learned(known, positions, reports, reports.len());
            &&& after.contains_key(positions[i])
            &&& after[positions[i]].best_move == mv
            &&& after[positions[i]].value == reports[i].value
            &&& after[positions[i]].visits == if reports[i].visits@.len() > 0 {
                reports[i].visits@[0].1
            } else {
                1u32
            }
        }),
{
    lemma_first_report(known, positions, reports, i, reports.len());
}

/// Before its first report with a move, a position is unknown.
proof fn lemma_still_unknown(
    known: Map<GameState, CachedMove>,
    positions: Seq<GameState>,
    reports: Seq<SearchReport>,
    i: int,
    n: nat,
)
    requires
        n <= i < positions.len(),
        !known.contains_key(positions[i]),
        forall|k: int|
            0 <= k < i && #[trigger] positions[k] == positions[i] ==> reports[k].best_move is None,
    ensures
        !learned(known, positions, reports, n).contains_key(positions[i]),
    decreases n,
{
    if n > 0 {
        lemma_still_unknown(known, positions, reports, i, (n - 1) as nat);
        assert(positions[n - 1] == positions[i] ==> reports[n - 1].best_move is None);
    }
}

pub(crate) proof fn lemma_first_report(
    known: Map<GameState, CachedMove>,
    positions: Seq<GameState>,
    reports: Seq<SearchReport>,
    i: int,
    n: nat,
)
    requires
        0 <= i < n <= reports.len(),
        positions.len() == reports.len(),
        !known.contains_key(positions[i]),
        reports[i].best_move is Some,
        forall|k: int|
            0 <= k < i && #[trigger] positions[k] == positions[i] ==> reports[k].best_move is None,
    ensures
        ({
            let after = learned(known, positions, reports, n);
            &&& after.contains_key(positions[i])
            &&& after[positions[i]].best_move == reports[i].best_move->0
            &&& after[positions[i]].value == reports[i].value
            &&& after[positions[i]].visits == if reports[i].visits@.len() > 0 {
                reports[i].visits@[0].1
            } else {
                1u32
            }
        }),
    decreases n,
{
    if n - 1 > i {
        lemma_first_report(known, positions, reports, i, (n - 1) as nat);
    } else {
        lemma_still_unknown(known, positions, reports, i, i as nat);
    }
}

/// The sum of all visits, from the first on.
pub open spec fn sum_of(visits: Seq<(Move, u32)>) -> int
    decreases visits.len(),
{
    if visits.len() == 0 {
        0
    } else {
        visits[0].1 + sum_of(visits.drop_first())
    }
}

/// Visits add up to the same from either end.
pub proof fn law_visits_have_one_sum(visits: Seq<(Move, u32)>)
    ensures
        visit_total(visits) == sum_of(visits),
        sum_of(visits) >= 0,
    decreases visits.len(),
{
    if visits.len() == 1 {
        assert(visits.drop_last() =~= Seq::<(Move, u32)>::empty());
        assert(visits.drop_first() =~= Seq::<(Move, u32)>::empty());
        assert(visit_total(visits.drop_last()) == 0);
        assert(sum_of(visits.drop_first()) == 0);
    } else if visits.len() > 1 {
        let middle = visits.drop_first().drop_last();
        assert(visits.drop_last().drop_first() =~= middle);
        law_visits_have_one_sum(visits.drop_first());
        law_visits_have_one_sum(visits.drop_last());
        law_visits_have_one_sum(middle);
        assert(visits.drop_first().last() == visits.last());
        assert(visits.drop_last()[0] == visits[0]);
    }
}

/// Whether no entry from one index on has a pair of squares.
pub open spec fn none_from(visits: Seq<(Move, u32)>, start: int, slot: int) -> bool {
    forall|j: int|
        start <= j < visits.len() ==> (#[trigger] visits[j]).0.from * 32 + visits[j].0.to != slot
}

/// What a policy of visits holds: one thousand and twenty-four numbers. The entry at
/// thirty-two times the origin plus the target is what `share` makes of the visits of the
/// last move with these squares and of all visits together; it is zero if no move has them,
/// or if there were no visits at all.
pub proof fn law_policies_share_the_visits<D: Fn(u32, u32) -> Single>(
    visits: Seq<(Move, u32)>,
    shares: Seq<Single>,
    share: D,
    slot: int,
)
    requires
        are_shares(visits, shares, share),
        have_slots(visits),
        0 <= slot < 1024,
    ensures
        policy_of(visits, shares).len() == 1024,
        sum_of(visits) == 0 || none_from(visits, 0, slot) ==> policy_of(visits, shares)[slot].bits
            == 0,
        sum_of(visits) > 0 ==> forall|i: int|
            0 <= i < visits.len() && (#[trigger] visits[i]).0.from * 32 + visits[i].0.to == slot
                && none_from(visits, i + 1, slot) ==> call_ensures(
                share,
                (visits[i].1, sum_of(visits) as u32),
                policy_of(visits, shares)[slot],
            ),
{
    law_visits_have_one_sum(visits);
    law_policy_holds_the_shares(visits, shares, slot);
    if sum_of(visits) > 0 {
        let entry = policy_of(visits, shares)[slot];
        assert forall|i: int|
            0 <= i < visits.len() && (#[trigger] visits[i]).0.from * 32 + visits[i].0.to == slot
                && none_from(visits, i + 1, slot) implies call_ensures(
            share,
            (visits[i].1, sum_of(visits) as u32),
            entry,
        ) by {
            assert(entry == shares[i]);
            assert(call_ensures(share, (visits[i].1, visit_total(visits) as u32), shares[i]));
        }
    }
}

/// Samples are read field by field, and the lists of a trainer entry by entry.
pub proof fn law_samples_are_read_as_they_are(
    trainer: SelfPlayTrainer,
    pending: PendingSample,
    sample: ExperienceSample,
    i: int,
)
    ensures
        pending@.state == pending.state@,
        pending@.policy == pending.policy@,
        pending@.player == pending.player,
        sample@.state == sample.state@,
        sample@.policy == sample.policy@,
        sample@.player == sample.player,
        sample@.outcome == sample.outcome,
        trainer.lessons().len() == trainer.pending@.len(),
        trainer.experience().len() == trainer.replay@.len(),
        0 <= i < trainer.pending@.len() ==> trainer.lessons()[i] == trainer.pending@[i]@,
        0 <= i < trainer.replay@.len() ==> trainer.experience()[i] == trainer.replay@[i]@,
{
}

/// A search of a position with legal moves makes as many playouts as are asked for, or one
/// for each legal move if those are more, and the visits in its report add up to them.
pub proof fn law_searches_make_the_playouts_asked_for<
    A: Fn(Single, Evaluation) -> Single,
    S: Fn(Single, u32, Single, u128) -> Single,
    M: Fn(Single, u32) -> Single,
>(
    state: GameState,
    simulations: u128,
    report: SearchReport,
    gather: A,
    score: S,
    mean: M,
)
    requires
        is_choice(state, simulations, Some(report), gather, score, mean),
        state@.moves().len() > 0,
    ensures
        simulations >= state@.moves().len() ==> report.simulations == simulations,
        simulations < state@.moves().len() ==> report.simulations == state@.moves().len(),
        sum_of(report.visits@) == report.simulations,
{
    law_choices_are_sound(state, simulations, report, gather, score, mean);
    let counts = choose|counts: Seq<u32>|
        {
            &&& counts.len() == state@.moves().len()
            &&& report.visits@ == #[trigger] tallied(state@.moves(), counts)
            &&& total(counts) == report.simulations
        };
    lemma_tallied_total(state@.moves(), counts);
    law_visits_have_one_sum(report.visits@);
}

/// A guided search makes as many playouts as one without a network, and the visits in its
/// report add up to one more: the visit that the network's value counts for.
pub proof fn law_guided_searches_make_the_playouts_asked_for<
    A: Fn(Single, Evaluation) -> Single,
    S: Fn(Single, u32, Single, u128) -> Single,
    M: Fn(Single, u32) -> Single,
>(
    state: GameState,
    simulations: u128,
    policy: Seq<Single>,
    value: Single,
    report: SearchReport,
    gather: A,
    score: S,
    mean: M,
)
    requires
        is_guided_choice(state, simulations, policy, value, Some(report), gather, score, mean),
        state@.moves().len() > 0,
    ensures
        simulations >= state@.moves().len() ==> report.simulations == simulations,
        simulations < state@.moves().len() ==> report.simulations == state@.moves().len(),
        sum_of(report.visits@) == report.simulations + 1,
{
    law_guided_choices_are_sound(state, simulations, policy, value, report, gather, score, mean);
    let counts = choose|counts: Seq<u32>|
        {
            &&& counts.len() == state@.moves().len()
            &&& report.visits@ == #[trigger] tallied(state@.moves(), counts)
            &&& total(counts) == report.simulations + 1
        };
    lemma_tallied_total(state@.moves(), counts);
    law_visits_have_one_sum(report.visits@);
}

} // verus!
