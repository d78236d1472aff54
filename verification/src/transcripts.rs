//! Playouts and searches, told move by move.
use crate::bits::ascending;
use crate::engine::{GameResult, GameState, Move, Piece, Side};
use crate::games::{after_line, is_line};
use crate::listing::law_moves_are_few;
use crate::ml::weighs_up_to;
use crate::playouts::{
    balance, drawn, evaluable, pieces_below, playout, seed_of, stirred, weighed, Balance, Evaluation,
};
use crate::rules::{captures_fit, moves_of, Game, Position};
use crate::search::{
    first_tally, goes_on, is_choice, is_found, is_guided_choice, is_guided_from, is_next, is_run,
    is_stuck, lemma_run_counts, names_best, plays_out, playouts, primed_tally, priors_of, tried,
    SearchReport, Tally,
};
use crate::single::Single;
use vstd::prelude::*;

verus! {

/// The numbers of sixty-four bits.
pub open spec fn span() -> int {
    0x1_0000_0000_0000_0000
}

/// The state of the generator after a number of draws, in numbers.
pub open spec fn state_after(state: int, draws: nat) -> int
    decreases draws,
{
    if draws == 0 {
        state
    } else {
        (state_after(state, (draws - 1) as nat) * 6_364_136_223_846_793_005 + 1) % span()
    }
}

/// The state after some draws and one more is the state after one draw and some more.
proof fn lemma_draws_add(state: int, draws: nat)
    requires
        0 <= state < span(),
    ensures
        state_after(state_after(state, 1), draws) == state_after(state, draws + 1),
        0 <= state_after(state, draws) < span(),
    decreases draws,
{
    reveal_with_fuel(state_after, 2);
    if draws > 0 {
        lemma_draws_add(state, (draws - 1) as nat);
    }
}

/// The generator in numbers: the state is multiplied and one is added, modulo the numbers
/// of sixty-four bits, and what is drawn is the upper half of the new state.
pub proof fn law_generator_in_numbers(state: u64)
    ensures
        stirred(state) == (state * 6_364_136_223_846_793_005 + 1) % span(),
        stirred(state) == state_after(state as int, 1),
        drawn(state) == stirred(state) as int / 0x1_0000_0000,
{
    reveal_with_fuel(state_after, 2);
    let next = stirred(state);
    assert((next >> 32) as u32 == next / 0x1_0000_0000) by (bit_vector);
}

/// The seed of a position puts its parts together bit by bit: seeds of two positions differ
/// in the bits in which the black pieces differ, shifted up by half a word, in those of the
/// red pieces, in those of the kings, shifted by one, and in a fixed pattern if the players
/// to move differ. The number of moves made plays no part. The seed of the empty board with
/// black to move is the first of the two patterns that tell the players apart.
pub proof fn law_seeds_combine_parts(a: GameState, b: GameState)
    ensures
        seed_of(a) ^ seed_of(b) == ((a.board.black ^ b.board.black) as u64) << 32 ^ (a.board.red
            ^ b.board.red) as u64 ^ ((a.board.kings ^ b.board.kings) as u64) << 1 ^ (if a.turn
            == b.turn {
            0u64
        } else {
            0x9e37_79b9_7f4a_7c15u64 ^ 0xbf58_476d_1ce4_e5b9u64
        }),
        a.board.black == 0 && a.board.red == 0 && a.board.kings == 0 && a.turn is Black
            ==> seed_of(a) == 0x9e37_79b9_7f4a_7c15,
{
    assert(((0u32 as u64) << 32) ^ (0u32 as u64) ^ ((0u32 as u64) << 1)
        ^ 0x9e37_79b9_7f4a_7c15u64 == 0x9e37_79b9_7f4a_7c15u64) by (bit_vector);
    let (ba, bb) = (a.board.black, b.board.black);
    let (ra, rb) = (a.board.red, b.board.red);
    let (ka, kb) = (a.board.kings, b.board.kings);
    let same = a.turn == b.turn;
    let first = a.turn is Black;
    assert((((ba as u64) << 32) ^ ra as u64 ^ ((ka as u64) << 1) ^ (if first {
        0x9e37_79b9_7f4a_7c15u64
    } else {
        0xbf58_476d_1ce4_e5b9u64
    })) ^ (((bb as u64) << 32) ^ rb as u64 ^ ((kb as u64) << 1) ^ (if first == same {
        0x9e37_79b9_7f4a_7c15u64
    } else {
        0xbf58_476d_1ce4_e5b9u64
    })) == ((ba ^ bb) as u64) << 32 ^ (ra ^ rb) as u64 ^ ((ka ^ kb) as u64) << 1 ^ (if same {
        0u64
    } else {
        0x9e37_79b9_7f4a_7c15u64 ^ 0xbf58_476d_1ce4_e5b9u64
    })) by (bit_vector);
}

/// Whether a line of moves is what the generator plays from a game: at each move the game
/// is not over, and the move is the one that the number drawn points at, counted round the
/// list of legal moves.
pub open spec fn is_random_line(g: Game, rng: u64, line: Seq<Move>) -> bool {
    &&& is_line(g, line)
    &&& forall|t: int| 0 <= t < line.len() ==> #[trigger] is_drawn(g, rng, line, t)
}

/// Whether the move at a place of a line is the one that the number drawn points at.
pub open spec fn is_drawn(g: Game, rng: u64, line: Seq<Move>, t: int) -> bool {
    let moves = after_line(g, line.take(t)).moves();
    let number = state_after(rng as int, (t + 1) as nat) / 0x1_0000_0000;
    &&& after_line(g, line.take(t)).outcome() is None
    &&& moves.len() > 0
    &&& line[t] == moves[number % moves.len() as int]
}

/// Whether a line is a playout of at most `depth` moves with a result: it ends where the
/// game is over or at the last of the moves, and the result is the balance there. There is
/// none if the legal moves that it takes cannot be listed.
pub open spec fn ends_playout(
    g: Game,
    side: Side,
    rng: u64,
    depth: nat,
    line: Seq<Move>,
    result: Option<Balance>,
    state: u64,
) -> bool {
    let end = after_line(g, line);
    &&& line.len() <= depth
    &&& state == state_after(rng as int, line.len())
    &&& match result {
        Some(weighed) => {
            &&& weighed == balance(end, side)
            &&& end.judgeable()
            &&& end.outcome() is Some || line.len() == depth
        },
        None => {
            ||| !end.judgeable()
            ||| {
                &&& line.len() == depth
                &&& end.outcome() is None
                &&& !captures_fit(end.position, Side::Black) || !captures_fit(
                    end.position,
                    Side::Red,
                )
            }
        },
    }
}

/// A playout plays a random line of legal moves, until the game is over or the moves are
/// made, and weighs what came out.
pub proof fn law_playouts_play_random_lines(g: Game, side: Side, rng: u64, depth: nat)
    ensures
        exists|line: Seq<Move>| #[trigger]
            is_random_line(g, rng, line) && ends_playout(
                g,
                side,
                rng,
                depth,
                line,
                playout(g, side, rng, depth).0,
                playout(g, side, rng, depth).1,
            ),
{
    let line = lemma_playout_line(g, side, rng, depth);
    assert(is_random_line(g, rng, line));
}

#[verifier::spinoff_prover]
#[verifier::rlimit(60)]
proof fn lemma_playout_line(g: Game, side: Side, rng: u64, depth: nat) -> (line: Seq<Move>)
    ensures
        is_random_line(g, rng, line),
        ends_playout(
            g,
            side,
            rng,
            depth,
            line,
            playout(g, side, rng, depth).0,
            playout(g, side, rng, depth).1,
        ),
    decreases depth,
{
    reveal(playout);
    if depth == 0 || !g.judgeable() || g.outcome() is Some {
        let line = Seq::<Move>::empty();
        assert(after_line(g, line) == g);
        assert(state_after(rng as int, 0) == rng);
        line
    } else {
        law_generator_in_numbers(rng);
        let moves = g.moves();
        let index = drawn(rng) as int % moves.len() as int;
        let mv = moves[index];
        let next = g.play(mv);
        let state = stirred(rng);
        let rest = lemma_playout_line(next, side, state, (depth - 1) as nat);
        let line = seq![mv] + rest;
        assert(line.drop_first() =~= rest);
        assert(line[0] == mv);
        assert(moves.contains(mv));
        assert(after_line(g, line) == after_line(next, rest));
        lemma_draws_add(rng as int, rest.len());
        assert forall|t: int| 0 <= t < line.len() implies #[trigger] is_drawn(g, rng, line, t) by {
            if t == 0 {
                assert(line.take(0) =~= Seq::<Move>::empty());
                assert(after_line(g, line.take(0)) == g);
            } else {
                assert(is_drawn(next, state, rest, t - 1));
                assert(line.take(t).drop_first() =~= rest.take(t - 1));
                assert(line.take(t)[0] == mv);
                assert(after_line(g, line.take(t)) == after_line(next, rest.take(t - 1)));
                lemma_draws_add(rng as int, t as nat);
                assert(line[t] == rest[t - 1]);
            }
        }
        line
    }
}

/// Whether a position can be weighed: the game can be judged, and if it is not over the
/// legal moves of both sides can be listed.
pub proof fn law_what_can_be_weighed(g: Game)
    ensures
        evaluable(g) <==> g.judgeable() && (g.outcome() is Some || (captures_fit(
            g.position,
            Side::Black,
        ) && captures_fit(g.position, Side::Red))),
{
}

/// What an evaluation weighs. A game that is over is worth one to its winner, minus one to
/// the loser and nothing if drawn. Otherwise the pieces of both sides are listed in the
/// order of their squares, and the mobility is how many more legal moves the side has than
/// the other one.
pub proof fn law_evaluations_in_numbers(g: Game, side: Side, enemy: Side)
    requires
        enemy != side,
    ensures
        g.outcome() == Some(GameResult::Winner(side)) ==> balance(g, side) == Balance::Decided(
            Single { bits: 0x3f80_0000 },
        ),
        g.outcome() == Some(GameResult::Winner(enemy)) ==> balance(g, side) == Balance::Decided(
            Single { bits: 0xbf80_0000 },
        ),
        g.outcome() == Some(GameResult::Draw) ==> balance(g, side) == Balance::Decided(
            Single { bits: 0 },
        ),
        g.outcome() is None ==> {
            &&& balance(g, side) matches Balance::Open { black, red, mobility }
            &&& mobility + moves_of(g.position, enemy).len() == moves_of(g.position, side).len()
            &&& lists_pieces(g.position.black, g.position.kings, black, Piece::BlackMan,
                Piece::BlackKing)
            &&& lists_pieces(g.position.red, g.position.kings, red, Piece::RedMan, Piece::RedKing)
        },
{
    lemma_pieces_listed(g.position, Side::Black, 32);
    lemma_pieces_listed(g.position, Side::Red, 32);
}

/// Whether a list holds a piece for each square of a set, in rising order: a king where the
/// square is marked, and a man elsewhere.
pub open spec fn lists_pieces(
    squares: Set<int>,
    kings: Set<int>,
    pieces: Seq<Piece>,
    man: Piece,
    king: Piece,
) -> bool {
    &&& pieces.len() == ascending(squares, 32).len()
    &&& forall|i: int|
        0 <= i < pieces.len() ==> #[trigger] pieces[i] == if kings.contains(
            ascending(squares, 32)[i] as int,
        ) {
            king
        } else {
            man
        }
}

proof fn lemma_pieces_listed(p: Position, side: Side, n: nat)
    requires
        n <= 32,
    ensures
        ({
            let pieces = pieces_below(p, side, n);
            let list = ascending(p.of(side), n);
            &&& pieces.len() == list.len()
            &&& forall|i: int|
                0 <= i < pieces.len() ==> #[trigger] pieces[i] == match (
                    side,
                    p.kings.contains(list[i] as int),
                ) {
                    (Side::Black, false) => Piece::BlackMan,
                    (Side::Black, true) => Piece::BlackKing,
                    (Side::Red, false) => Piece::RedMan,
                    (Side::Red, true) => Piece::RedKing,
                }
        }),
    decreases n,
{
    if n > 0 {
        lemma_pieces_listed(p, side, (n - 1) as nat);
    }
}

/// What a search wrote down: the move tried by each playout, and before the first and after
/// each playout the visits and the sums of all moves and the state of the generator.
pub struct Transcript {
    pub tried: Seq<int>,
    pub visits: Seq<Seq<u32>>,
    pub sums: Seq<Seq<Single>>,
    pub states: Seq<u64>,
}

/// Whether `k` is the last of the greatest numbers.
pub open spec fn tops(numbers: Seq<Single>, k: int) -> bool {
    &&& 0 <= k < numbers.len()
    &&& forall|m: int| 0 <= m < numbers.len() ==> (#[trigger] numbers[m]).rank() <= numbers[k].rank()
    &&& forall|m: int| k < m < numbers.len() ==> (#[trigger] numbers[m]).rank() < numbers[k].rank()
}

/// Whether move `k` has the best score at a time: the scores are what `score` gives for the
/// priors, the visits and the sums so far, and the number of playouts so far.
pub open spec fn scores_best<S: Fn(Single, u32, Single, u128) -> Single>(
    count: nat,
    priors: Seq<Single>,
    t: Transcript,
    time: int,
    k: int,
    scores: Seq<Single>,
    score: S,
) -> bool {
    &&& scores.len() == count
    &&& forall|m: int|
        0 <= m < count ==> call_ensures(
            score,
            (priors[m], t.visits[time][m], t.sums[time][m], time as u128),
            #[trigger] scores[m],
        )
    &&& tops(scores, k)
}

/// Whether move `k` is the one to try at a time: at first every move in turn, and then the
/// one with the best score.
pub open spec fn is_up<S: Fn(Single, u32, Single, u128) -> Single>(
    count: nat,
    priors: Seq<Single>,
    t: Transcript,
    time: int,
    k: int,
    score: S,
) -> bool {
    &&& 0 <= k < count
    &&& time < count ==> k == time
    &&& count <= time <= usize::MAX ==> exists|scores: Seq<Single>| #[trigger]
        scores_best(count, priors, t, time, k, scores, score)
}

/// Whether a playout of seventy-two moves from the game after move `k` came out as noted:
/// what came out was gathered into the sum of the move, and the generator went on.
pub open spec fn is_noted<A: Fn(Single, Evaluation) -> Single>(
    g: Game,
    t: Transcript,
    time: int,
    k: int,
    evaluation: Evaluation,
    gather: A,
) -> bool {
    &&& playout(g.play(g.moves()[k]), g.turn, t.states[time], 72) == (
        Some(evaluation@),
        t.states[time + 1],
    )
    &&& call_ensures(gather, (t.sums[time][k], evaluation), t.sums[time + 1][k])
}

/// Whether one playout was written down correctly: the move to try was tried, its visits
/// went up by one, its sum was gathered, and those of the other moves stayed.
pub open spec fn is_turn<
    A: Fn(Single, Evaluation) -> Single,
    S: Fn(Single, u32, Single, u128) -> Single,
>(g: Game, priors: Seq<Single>, t: Transcript, time: int, gather: A, score: S) -> bool {
    let k = t.tried[time];
    let count = g.moves().len();
    &&& is_up(count, priors, t, time, k, score)
    &&& t.visits[time + 1].len() == count
    &&& t.sums[time + 1].len() == count
    &&& t.visits[time + 1][k] == t.visits[time][k] + 1
    &&& forall|m: int|
        0 <= m < count && m != k ==> #[trigger] t.visits[time + 1][m] == t.visits[time][m]
    &&& forall|m: int|
        0 <= m < count && m != k ==> #[trigger] t.sums[time + 1][m] == t.sums[time][m]
    &&& exists|evaluation: Evaluation| #[trigger] is_noted(g, t, time, k, evaluation, gather)
}

/// Whether a transcript is that of a search which starts with the given visits, sums and
/// state of the generator.
pub open spec fn is_transcript<
    A: Fn(Single, Evaluation) -> Single,
    S: Fn(Single, u32, Single, u128) -> Single,
>(
    g: Game,
    priors: Seq<Single>,
    visits: Seq<u32>,
    sums: Seq<Single>,
    state: u64,
    t: Transcript,
    gather: A,
    score: S,
) -> bool {
    &&& t.visits.len() == t.tried.len() + 1
    &&& t.sums.len() == t.tried.len() + 1
    &&& t.states.len() == t.tried.len() + 1
    &&& t.visits[0] == visits
    &&& t.sums[0] == sums
    &&& t.states[0] == state
    &&& forall|time: int|
        0 <= time < t.tried.len() ==> #[trigger] is_turn(g, priors, t, time, gather, score)
}

/// Whether a report sums up a transcript: it counts the playouts, lists the legal moves in
/// order with their visits, and names the move with the best mean, the last one among
/// equals, with that mean.
pub open spec fn sums_up<M: Fn(Single, u32) -> Single>(
    g: Game,
    t: Transcript,
    report: SearchReport,
    means: Seq<Single>,
    k: int,
    mean: M,
) -> bool {
    let moves = g.moves();
    &&& report.simulations == t.tried.len()
    &&& report.visits@.len() == moves.len()
    &&& forall|m: int|
        0 <= m < moves.len() ==> #[trigger] report.visits@[m] == (moves[m], t.visits.last()[m])
    &&& means.len() == moves.len()
    &&& forall|m: int|
        0 <= m < moves.len() ==> call_ensures(
            mean,
            (t.sums.last()[m], t.visits.last()[m]),
            #[trigger] means[m],
        )
    &&& tops(means, k)
    &&& report.best_move == Some(moves[k])
    &&& report.value == means[k]
}

/// What a transcript of a search for a number of playouts comes to: with all of them made,
/// a report that sums it up; and with fewer made, none, because the next one comes to a
/// position whose moves cannot be listed or because its visits run over.
pub open spec fn comes_to<
    S: Fn(Single, u32, Single, u128) -> Single,
    M: Fn(Single, u32) -> Single,
>(
    g: Game,
    priors: Seq<Single>,
    t: Transcript,
    wanted: int,
    found: Option<SearchReport>,
    score: S,
    mean: M,
) -> bool {
    let made = t.tried.len() as int;
    match found {
        Some(report) => {
            &&& made == wanted
            &&& exists|means: Seq<Single>, k: int| #[trigger]
                sums_up(g, t, report, means, k, mean)
        },
        None => {
            &&& made < wanted
            &&& exists|k: int|
                {
                    &&& #[trigger] is_up(g.moves().len(), priors, t, made, k, score)
                    &&& t.visits.last()[k] == u32::MAX || playout(
                        g.play(g.moves()[k]),
                        g.turn,
                        t.states.last(),
                        72,
                    ).0 is None
                }
        },
    }
}

/// The move that a playout of a run tried.
spec fn step_of<
    A: Fn(Single, Evaluation) -> Single,
    S: Fn(Single, u32, Single, u128) -> Single,
>(g: Game, priors: Seq<Single>, run: Seq<Tally>, time: int, gather: A, score: S) -> (
    Seq<Single>,
    int,
    Evaluation,
) {
    choose|scores: Seq<Single>, i: int, evaluation: Evaluation| #[trigger]
        plays_out(g, priors, run[time], run[time + 1], scores, i, evaluation, gather, score)
}

/// A run of tallies as a transcript.
spec fn transcript_of<
    A: Fn(Single, Evaluation) -> Single,
    S: Fn(Single, u32, Single, u128) -> Single,
>(g: Game, priors: Seq<Single>, run: Seq<Tally>, gather: A, score: S) -> Transcript {
    Transcript {
        tried: Seq::new(
            (run.len() - 1) as nat,
            |time: int| step_of(g, priors, run, time, gather, score).1,
        ),
        visits: Seq::new(run.len(), |time: int| run[time].visits),
        sums: Seq::new(run.len(), |time: int| run[time].sums),
        states: Seq::new(run.len(), |time: int| run[time].rng),
    }
}

/// The move that is next is the one that is up.
proof fn lemma_next_is_up<S: Fn(Single, u32, Single, u128) -> Single>(
    g: Game,
    priors: Seq<Single>,
    t: Transcript,
    tally: Tally,
    time: int,
    scores: Seq<Single>,
    k: int,
    score: S,
)
    requires
        g.moves().len() <= u32::MAX,
        0 <= time < t.visits.len(),
        time < t.sums.len(),
        t.visits[time] == tally.visits,
        t.sums[time] == tally.sums,
        tally.played == time,
        0 <= k < g.moves().len(),
        is_next(g.moves(), priors, tally, scores, k, score),
    ensures
        is_up(g.moves().len(), priors, t, time, k, score),
{
    let count = g.moves().len();
    if count <= time <= usize::MAX {
        assert(tally.played as usize == time);
        assert(scores_best(count, priors, t, time, k, scores, score));
    }
}

/// The tallies of a run keep one sum for each move.
proof fn lemma_run_sums<
    A: Fn(Single, Evaluation) -> Single,
    S: Fn(Single, u32, Single, u128) -> Single,
>(
    g: Game,
    priors: Seq<Single>,
    first: Tally,
    run: Seq<Tally>,
    time: int,
    gather: A,
    score: S,
)
    requires
        first.sums.len() == g.moves().len(),
        is_run(g, priors, first, run, gather, score),
        0 <= time < run.len(),
    ensures
        run[time].sums.len() == g.moves().len(),
    decreases time,
{
    if time > 0 {
        lemma_run_sums(g, priors, first, run, time - 1, gather, score);
        assert(goes_on(g, priors, run, time - 1, gather, score));
        let (scores, i, evaluation) = step_of(g, priors, run, time - 1, gather, score);
        assert(plays_out(
            g,
            priors,
            run[time - 1],
            run[time],
            scores,
            i,
            evaluation,
            gather,
            score,
        ));
    }
}

/// A run is written down correctly.
proof fn lemma_run_is_transcript<
    A: Fn(Single, Evaluation) -> Single,
    S: Fn(Single, u32, Single, u128) -> Single,
>(g: Game, priors: Seq<Single>, first: Tally, run: Seq<Tally>, gather: A, score: S)
    requires
        first.visits.len() == g.moves().len(),
        first.sums.len() == g.moves().len(),
        first.played == 0,
        is_run(g, priors, first, run, gather, score),
        run.len() - 1 <= u128::MAX,
    ensures
        is_transcript(
            g,
            priors,
            first.visits,
            first.sums,
            first.rng,
            transcript_of(g, priors, run, gather, score),
            gather,
            score,
        ),
{
    let t = transcript_of(g, priors, run, gather, score);
    law_moves_are_few(g.position, g.turn);
    assert forall|time: int| 0 <= time < t.tried.len() implies #[trigger] is_turn(
        g,
        priors,
        t,
        time,
        gather,
        score,
    ) by {
        lemma_run_counts(g, priors, first, run, time, gather, score);
        lemma_run_counts(g, priors, first, run, time + 1, gather, score);
        lemma_run_sums(g, priors, first, run, time, gather, score);
        lemma_run_sums(g, priors, first, run, time + 1, gather, score);
        assert(goes_on(g, priors, run, time, gather, score));
        let (scores, k, evaluation) = step_of(g, priors, run, time, gather, score);
        assert(plays_out(
            g,
            priors,
            run[time],
            run[time + 1],
            scores,
            k,
            evaluation,
            gather,
            score,
        ));
        assert(t.tried[time] == k);
        lemma_next_is_up(g, priors, t, run[time], time, scores, k, score);
        assert(is_noted(g, t, time, k, evaluation, gather));
    }
}

/// What a search found comes from a transcript.
proof fn lemma_found_is_transcript<
    A: Fn(Single, Evaluation) -> Single,
    S: Fn(Single, u32, Single, u128) -> Single,
    M: Fn(Single, u32) -> Single,
>(
    g: Game,
    priors: Seq<Single>,
    first: Tally,
    wanted: int,
    found: Option<SearchReport>,
    gather: A,
    score: S,
    mean: M,
) -> (t: Transcript)
    requires
        first.visits.len() == g.moves().len(),
        first.sums.len() == g.moves().len(),
        first.played == 0,
        0 < wanted <= u128::MAX,
        is_found(g, priors, first, wanted, found, gather, score, mean),
    ensures
        is_transcript(g, priors, first.visits, first.sums, first.rng, t, gather, score),
        comes_to(g, priors, t, wanted, found, score, mean),
{
    law_moves_are_few(g.position, g.turn);
    match found {
        Some(report) => {
            let run = choose|run: Seq<Tally>|
                {
                    &&& #[trigger] is_run(g, priors, first, run, gather, score)
                    &&& run.len() == wanted + 1
                    &&& exists|means: Seq<Single>, i: int| #[trigger]
                        names_best(g.moves(), run.last(), report, means, i, mean)
                };
            let t = transcript_of(g, priors, run, gather, score);
            lemma_run_is_transcript(g, priors, first, run, gather, score);
            let (means, i) = choose|means: Seq<Single>, i: int| #[trigger]
                names_best(g.moves(), run.last(), report, means, i, mean);
            assert(t.visits.last() == run.last().visits);
            assert(t.sums.last() == run.last().sums);
            assert(report.simulations == wanted);
            assert(sums_up(g, t, report, means, i, mean));
            t
        },
        None => {
            let run = choose|run: Seq<Tally>|
                {
                    &&& #[trigger] is_run(g, priors, first, run, gather, score)
                    &&& run.len() <= wanted
                    &&& is_stuck(g, priors, run.last(), score)
                };
            let t = transcript_of(g, priors, run, gather, score);
            lemma_run_is_transcript(g, priors, first, run, gather, score);
            let made = run.len() - 1;
            lemma_run_counts(g, priors, first, run, made, gather, score);
            let (scores, k) = choose|scores: Seq<Single>, i: int|
                {
                    &&& #[trigger] is_next(g.moves(), priors, run.last(), scores, i, score)
                    &&& 0 <= i < g.moves().len()
                    &&& tried(g, run.last(), i).0 is None || run.last().visits[i] == u32::MAX
                };
            lemma_next_is_up(g, priors, t, run.last(), made, scores, k, score);
            assert(is_up(g.moves().len(), priors, t, made, k, score));
            t
        },
    }
}

/// A zero for each legal move.
pub open spec fn blank(state: GameState) -> Seq<Single> {
    Seq::new(state@.moves().len(), |i: int| Single { bits: 0 })
}

/// Whether a transcript is that of a search without priors, which starts with no visits
/// and sums of zero.
pub open spec fn is_plain_transcript<
    A: Fn(Single, Evaluation) -> Single,
    S: Fn(Single, u32, Single, u128) -> Single,
>(state: GameState, t: Transcript, gather: A, score: S) -> bool {
    is_transcript(
        state@,
        blank(state),
        Seq::new(state@.moves().len(), |i: int| 0u32),
        blank(state),
        seed_of(state) | 1,
        t,
        gather,
        score,
    )
}

/// What a search does, playout by playout. It starts with no visits, with sums of zero and
/// with the generator at the seed of the position, made odd. It makes as many playouts as
/// are asked for, or one for each legal move if those are more.
pub proof fn law_searches_have_transcripts<
    A: Fn(Single, Evaluation) -> Single,
    S: Fn(Single, u32, Single, u128) -> Single,
    M: Fn(Single, u32) -> Single,
>(
    state: GameState,
    simulations: u128,
    found: Option<SearchReport>,
    gather: A,
    score: S,
    mean: M,
)
    requires
        is_choice(state, simulations, found, gather, score, mean),
        state@.moves().len() > 0,
    ensures
        ({
            let count = state@.moves().len();
            let wanted = if simulations < count {
                count as int
            } else {
                simulations as int
            };
            exists|t: Transcript|
                {
                    &&& #[trigger] is_plain_transcript(state, t, gather, score)
                    &&& comes_to(state@, blank(state), t, wanted, found, score, mean)
                }
        }),
{
    let count = state@.moves().len();
    law_moves_are_few(state@.position, state.turn);
    let zeros = blank(state);
    let priors = Seq::new(count, |i: int| Single::of_sign(0));
    assert(priors =~= zeros);
    let first = first_tally(state);
    assert(first.sums =~= zeros);
    assert(first.visits =~= Seq::new(count, |i: int| 0u32));
    let t = lemma_found_is_transcript(
        state@,
        zeros,
        first,
        playouts(state@, simulations),
        found,
        gather,
        score,
        mean,
    );
    assert(is_plain_transcript(state, t, gather, score));
}

/// Whether priors are the entries of a policy for the moves: of a policy for thirty-two
/// times thirty-two pairs of squares, and zero where it is too short.
pub open spec fn are_priors(moves: Seq<Move>, policy: Seq<Single>, priors: Seq<Single>) -> bool {
    &&& priors.len() == moves.len()
    &&& forall|m: int|
        0 <= m < moves.len() ==> #[trigger] priors[m] == if moves[m].from * 32 + moves[m].to
            < policy.len() {
            policy[moves[m].from * 32 + moves[m].to]
        } else {
            Single { bits: 0 }
        }
}

/// One visit for a move, and none for the others.
pub open spec fn one_visit(count: nat, preferred: int) -> Seq<u32> {
    Seq::new(
        count,
        |i: int|
            if i == preferred {
                1u32
            } else {
                0u32
            },
    )
}

/// A sum for a move, and zero for the others.
pub open spec fn one_sum(count: nat, preferred: int, sum: Single) -> Seq<Single> {
    Seq::new(
        count,
        |i: int|
            if i == preferred {
                sum
            } else {
                Single { bits: 0 }
            },
    )
}

/// Whether a guided search has a transcript: it starts with one visit for the move whose
/// prior is the greatest, with the network's value gathered into its sum.
pub open spec fn is_guided_transcript<
    A: Fn(Single, Evaluation) -> Single,
    S: Fn(Single, u32, Single, u128) -> Single,
>(
    state: GameState,
    policy: Seq<Single>,
    value: Single,
    priors: Seq<Single>,
    preferred: int,
    sum: Single,
    t: Transcript,
    gather: A,
    score: S,
) -> bool {
    let count = state@.moves().len();
    &&& are_priors(state@.moves(), policy, priors)
    &&& tops(priors, preferred)
    &&& call_ensures(gather, (Single { bits: 0 }, Evaluation::Decided(value)), sum)
    &&& is_transcript(
        state@,
        priors,
        one_visit(count, preferred),
        one_sum(count, preferred, sum),
        seed_of(state) | 1,
        t,
        gather,
        score,
    )
}

/// What a guided search does, playout by playout. It makes as many playouts as are asked
/// for, or one for each legal move if those are more, besides the visit that the network's
/// value counts for.
pub proof fn law_guided_searches_have_transcripts<
    A: Fn(Single, Evaluation) -> Single,
    S: Fn(Single, u32, Single, u128) -> Single,
    M: Fn(Single, u32) -> Single,
>(
    state: GameState,
    simulations: u128,
    policy: Seq<Single>,
    value: Single,
    found: Option<SearchReport>,
    gather: A,
    score: S,
    mean: M,
)
    requires
        is_guided_choice(state, simulations, policy, value, found, gather, score, mean),
        state@.moves().len() > 0,
    ensures
        ({
            let count = state@.moves().len();
            let wanted = if simulations < count {
                count as int
            } else {
                simulations as int
            };
            exists|priors: Seq<Single>, preferred: int, sum: Single, t: Transcript|
                {
                    &&& #[trigger] is_guided_transcript(
                        state,
                        policy,
                        value,
                        priors,
                        preferred,
                        sum,
                        t,
                        gather,
                        score,
                    )
                    &&& comes_to(state@, priors, t, wanted, found, score, mean)
                }
        }),
{
    let count = state@.moves().len();
    law_moves_are_few(state@.position, state.turn);
    let (preferred, sum) = choose|preferred: int, sum: Single| #[trigger]
        is_guided_from(
            state,
            simulations,
            policy,
            value,
            preferred,
            sum,
            found,
            gather,
            score,
            mean,
        );
    let priors = priors_of(state@.moves(), policy);
    let first = primed_tally(state, preferred, sum);
    let t = lemma_found_is_transcript(
        state@,
        priors,
        first,
        playouts(state@, simulations),
        found,
        gather,
        score,
        mean,
    );
    assert(first.visits =~= one_visit(count, preferred));
    assert(first.sums =~= one_sum(count, preferred, sum));
    assert(are_priors(state@.moves(), policy, priors));
    assert(tops(priors, preferred));
    assert(is_guided_transcript(
        state,
        policy,
        value,
        priors,
        preferred,
        sum,
        t,
        gather,
        score,
    ));
}

/// An evaluation is read as it is: a value of a game that is over, or the two lists of
/// pieces, each under its colour, and the lead in moves.
pub proof fn law_evaluations_are_read_as_they_are(
    value: Single,
    black: Vec<Piece>,
    red: Vec<Piece>,
    mobility: i128,
)
    ensures
        Evaluation::Decided(value)@ == Balance::Decided(value),
        (Evaluation::Open { black, red, mobility })@ == (Balance::Open {
            black: black@,
            red: red@,
            mobility: mobility as int,
        }),
        weighed(Some(Evaluation::Decided(value))) == Some(Balance::Decided(value)),
        weighed(Some(Evaluation::Open { black, red, mobility })) == Some(
            Balance::Open { black: black@, red: red@, mobility: mobility as int },
        ),
        weighed(None) is None,
{
}

/// What an untrained network takes a position to be worth is weighed for the player to
/// move: a game that is over by its result for that player, and any other by the pieces of
/// both sides and by how many more legal moves that player has than the other.
pub proof fn law_untrained_values_are_for_the_player_to_move<W: Fn(Evaluation) -> Single>(
    g: Game,
    evaluation: Evaluation,
    value: Single,
    weigh: W,
    enemy: Side,
)
    requires
        weighs_up_to(g, evaluation, value, weigh),
        enemy != g.turn,
    ensures
        call_ensures(weigh, (evaluation,), value),
        g.outcome() == Some(GameResult::Winner(g.turn)) ==> evaluation@ == Balance::Decided(
            Single { bits: 0x3f80_0000 },
        ),
        g.outcome() == Some(GameResult::Winner(enemy)) ==> evaluation@ == Balance::Decided(
            Single { bits: 0xbf80_0000 },
        ),
        g.outcome() == Some(GameResult::Draw) ==> evaluation@ == Balance::Decided(
            Single { bits: 0 },
        ),
        g.outcome() is None ==> {
            &&& evaluation@ matches Balance::Open { black, red, mobility }
            &&& mobility + moves_of(g.position, enemy).len() == moves_of(g.position, g.turn).len()
            &&& lists_pieces(
                g.position.black,
                g.position.kings,
                black,
                Piece::BlackMan,
                Piece::BlackKing,
            )
            &&& lists_pieces(g.position.red, g.position.kings, red, Piece::RedMan, Piece::RedKing)
        },
{
    law_evaluations_in_numbers(g, g.turn, enemy);
}

} // verus!
