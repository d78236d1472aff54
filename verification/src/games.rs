//! Whole games: what holds after any number of legal moves.
use crate::engine::{opening, GameResult, GameState, Move, Side};
use crate::geometry::on_board;
use crate::legality::{
    is_step, law_captures_are_forced, law_legal_moves_are_proper, law_play_counts_pieces,
    law_play_keeps_soundness, law_start_has_no_captures, law_start_is_sound,
    lemma_on_board_finite, sides_on_board, sound,
};
use crate::listing::law_moves_are_listed_once;
use crate::rules::{
    after_jump, captures_fit, captures_fit_within, jump_toward, jumps_fit, lemma_listed_within,
    moves_of, quiet_move, sequences, sequences_after, start, step_toward, Game, Position,
};
use vstd::prelude::*;
use vstd::set_lib::{lemma_int_range, lemma_map_size, lemma_set_disjoint_lens, set_int_range};

verus! {

/// Whether the moves can be made one after the other: each time the legal moves can
/// be listed, and the next move is one of them.
pub open spec fn is_line(g: Game, line: Seq<Move>) -> bool
    decreases line.len(),
{
    line.len() > 0 ==> {
        &&& captures_fit(g.position, g.turn)
        &&& g.moves().contains(line[0])
        &&& is_line(g.play(line[0]), line.drop_first())
    }
}

/// The game after moves were made one after the other.
pub open spec fn after_line(g: Game, line: Seq<Move>) -> Game
    decreases line.len(),
{
    if line.len() == 0 {
        g
    } else {
        after_line(g.play(line[0]), line.drop_first())
    }
}

/// Legal moves keep a position sound, take turns, are counted one by one, and never
/// add a piece.
pub proof fn law_lines_keep_games_sound(g: Game, line: Seq<Move>)
    requires
        sound(g.position),
        is_line(g, line),
    ensures
        sound(after_line(g, line).position),
        after_line(g, line).halfmoves == g.halfmoves + line.len(),
        after_line(g, line).turn == if line.len() % 2 == 0 {
            g.turn
        } else {
            g.turn.other()
        },
        forall|side: Side|
            (#[trigger] after_line(g, line).position.of(side)).len() <= g.position.of(side).len(),
    decreases line.len(),
{
    if line.len() > 0 {
        let next = g.play(line[0]);
        law_play_keeps_soundness(g.position, g.turn, line[0]);
        law_play_counts_pieces(g.position, g.turn, line[0]);
        law_lines_keep_games_sound(next, line.drop_first());
        assert forall|side: Side|
            (#[trigger] after_line(g, line).position.of(side)).len() <= g.position.of(side).len() by {
            assert(after_line(next, line.drop_first()).position.of(side).len()
                <= next.position.of(side).len());
            assert(side == g.turn || side == g.turn.other());
        }
    }
}

/// In every game from the starting position the position is sound, the halfmoves are
/// the moves made, black moves first, and neither side has more than its twelve
/// pieces.
pub proof fn law_games_from_the_start_are_sound(line: Seq<Move>)
    requires
        is_line(opening(), line),
    ensures
        sound(after_line(opening(), line).position),
        after_line(opening(), line).halfmoves == line.len(),
        after_line(opening(), line).turn is Black <==> line.len() % 2 == 0,
        after_line(opening(), line).position.black.len() <= 12,
        after_line(opening(), line).position.red.len() <= 12,
{
    law_start_is_sound();
    law_lines_keep_games_sound(opening(), line);
    let after = after_line(opening(), line).position;
    lemma_int_range(20, 32);
    lemma_int_range(0, 12);
    assert(start().black =~= set_int_range(20, 32));
    assert(start().red =~= set_int_range(0, 12));
    assert(after.of(Side::Black).len() <= start().of(Side::Black).len());
    assert(after.of(Side::Red).len() <= start().of(Side::Red).len());
}

/// Every game from the starting position is over by the move limit: a game that has
/// gone on for so long is a draw.
pub proof fn law_games_end_at_the_move_limit(line: Seq<Move>)
    requires
        is_line(opening(), line),
        line.len() >= GameState::DRAW_HALFMOVES,
    ensures
        after_line(opening(), line).outcome() == Some(GameResult::Draw),
{
    law_games_from_the_start_are_sound(line);
}

/// A game without an outcome can go on: the move limit is not reached, both sides
/// have pieces, and the player to move has a legal move.
pub proof fn law_undecided_games_go_on(g: Game)
    ensures
        g.outcome() is None <==> {
            &&& g.halfmoves < GameState::DRAW_HALFMOVES
            &&& g.position.black != Set::<int>::empty()
            &&& g.position.red != Set::<int>::empty()
            &&& g.moves().len() > 0
        },
{
}

/// Every chain of jumps fits into a move record where the enemy has no more than
/// seven pieces.
pub proof fn law_few_enemies_fit(p: Position, side: Side)
    requires
        sides_on_board(p),
        p.of(side.other()).len() <= 7,
    ensures
        captures_fit(p, side),
{
    lemma_on_board_finite(p.of(side.other()));
    assert forall|at: int| #[trigger] p.of(side).contains(at) implies jumps_fit(p, side, at, 7) by {
        lemma_enemies_bound_jumps(p, side, at, 7);
    }
}

/// Each jump takes an enemy, so there are no more jumps than enemies.
proof fn lemma_enemies_bound_jumps(p: Position, side: Side, at: int, room: nat)
    requires
        p.of(side.other()).finite(),
        p.of(side.other()).len() <= room,
    ensures
        jumps_fit(p, side, at, room),
    decreases room,
{
    reveal(jumps_fit);
    assert forall|i: int| 0 <= i < p.dirs(side, at).len() implies match jump_toward(
        p,
        side,
        at,
        #[trigger] p.dirs(side, at)[i],
    ) {
        Some(jump) => room > 0 && jumps_fit(
            after_jump(p, side, at, jump),
            side,
            jump.to,
            (room - 1) as nat,
        ),
        None => true,
    } by {
        if let Some(jump) = jump_toward(p, side, at, p.dirs(side, at)[i]) {
            let enemies = p.of(side.other());
            let next = after_jump(p, side, at, jump);
            assert(next.of(side.other()) =~= enemies.remove(jump.over));
            lemma_enemies_bound_jumps(next, side, jump.to, (room - 1) as nat);
        }
    }
}

/// The legal lines of a length.
pub open spec fn lines(g: Game, length: nat) -> Set<Seq<Move>> {
    Set::new(|line: Seq<Move>| line.len() == length && is_line(g, line))
}

/// The legal lines of `length` and one more moves that begin with one of the given
/// moves.
spec fn lines_after(g: Game, moves: Seq<Move>, length: nat) -> Set<Seq<Move>> {
    Set::new(
        |line: Seq<Move>|
            line.len() == length + 1 && moves.contains(line[0]) && lines(
                g.play(line[0]),
                length,
            ).contains(line.drop_first()),
    )
}

/// Counting the move sequences of a length counts the legal lines of that length,
/// each of them once.
pub proof fn law_sequences_count_lines(g: Game, depth: nat)
    requires
        sides_on_board(g.position),
        captures_fit_within(g.position, g.turn, depth),
    ensures
        lines(g, depth).finite(),
        lines(g, depth).len() == sequences(g.position, g.turn, depth),
    decreases depth, 0nat, 0nat,
{
    if depth == 0 {
        assert forall|line: Seq<Move>| lines(g, 0).contains(line) <==> set![
            Seq::<Move>::empty(),
        ].contains(line) by {
            if line.len() == 0 {
                assert(line =~= Seq::<Move>::empty());
            }
        }
        assert(lines(g, 0) =~= set![Seq::<Move>::empty()]);
    } else {
        let rest = (depth - 1) as nat;
        lemma_listed_within(g.position, g.turn, depth);
        law_moves_are_listed_once(g.position, g.turn);
        assert forall|line: Seq<Move>| lines(g, depth).contains(line) <==> lines_after(
            g,
            g.moves(),
            rest,
        ).contains(line) by {}
        assert(lines(g, depth) =~= lines_after(g, g.moves(), rest));
        lemma_lines_after(g, g.moves(), rest);
    }
}

/// The lines that begin with one more move: as many as there are lines after it, and none
/// of them begins with another move.
proof fn lemma_one_move_more(g: Game, moves: Seq<Move>, length: nat)
    requires
        moves.len() > 0,
        moves.no_duplicates(),
        lines_after(g, moves.drop_last(), length).finite(),
        lines(g.play(moves.last()), length).finite(),
    ensures
        lines_after(g, moves, length).finite(),
        lines_after(g, moves, length).len() == lines_after(g, moves.drop_last(), length).len()
            + lines(g.play(moves.last()), length).len(),
{
    let fewer = moves.drop_last();
    let mv = moves.last();
    let tails = lines(g.play(mv), length);
    let begin = |tail: Seq<Move>| seq![mv] + tail;
    let added = tails.map(begin);
    let before = lines_after(g, fewer, length);
    let all = lines_after(g, moves, length);
    assert forall|a: Seq<Move>, b: Seq<Move>|
        tails.contains(a) && tails.contains(b) && #[trigger] begin(a) == #[trigger] begin(
            b,
        ) implies a == b by {
        assert((seq![mv] + a).drop_first() =~= a);
        assert((seq![mv] + b).drop_first() =~= b);
    }
    lemma_map_size(tails, added, begin);
    assert forall|line: Seq<Move>| added.contains(line) <==> line.len() == length + 1 && line[0]
        == mv && tails.contains(line.drop_first()) by {
        if added.contains(line) {
            let tail = choose|tail: Seq<Move>| tails.contains(tail) && begin(tail) == line;
            assert(line.drop_first() =~= tail);
        }
        if line.len() == length + 1 && line[0] == mv && tails.contains(line.drop_first()) {
            assert(begin(line.drop_first()) =~= line);
        }
    }
    assert forall|first: Move| moves.contains(first) <==> fewer.contains(first) || first == mv by {
        if moves.contains(first) && first != mv {
            let k = choose|k: int| 0 <= k < moves.len() && moves[k] == first;
            assert(fewer[k] == first);
        }
        if fewer.contains(first) {
            let k = choose|k: int| 0 <= k < fewer.len() && fewer[k] == first;
            assert(moves[k] == first);
        }
        assert(moves[moves.len() - 1] == mv);
    }
    assert(!fewer.contains(mv)) by {
        if fewer.contains(mv) {
            let k = choose|k: int| 0 <= k < fewer.len() && fewer[k] == mv;
            assert(moves[k] == moves[moves.len() - 1]);
        }
    }
    assert(before.disjoint(added));
    assert(all =~= before + added);
    lemma_set_disjoint_lens(before, added);
}

proof fn lemma_lines_after(g: Game, moves: Seq<Move>, length: nat)
    requires
        sides_on_board(g.position),
        captures_fit(g.position, g.turn),
        captures_fit_within(g.position, g.turn, length + 1),
        moves.no_duplicates(),
        forall|i: int| 0 <= i < moves.len() ==> g.moves().contains(#[trigger] moves[i]),
    ensures
        lines_after(g, moves, length).finite(),
        lines_after(g, moves, length).len() == sequences_after(g.position, g.turn, moves, length),
    decreases length, 1nat, moves.len(),
{
    if moves.len() == 0 {
        assert(lines_after(g, moves, length) =~= Set::<Seq<Move>>::empty());
    } else {
        let mv = moves.last();
        assert(g.moves().contains(moves[moves.len() - 1]));
        lemma_lines_after(g, moves.drop_last(), length);
        lemma_next_lines(g, mv, length);
        law_sequences_count_lines(g.play(mv), length);
        lemma_one_move_more(g, moves, length);
    }
}

/// After a legal move the pieces are on the board, and the moves can still be listed.
proof fn lemma_next_lines(g: Game, mv: Move, length: nat)
    requires
        sides_on_board(g.position),
        captures_fit_within(g.position, g.turn, length + 1),
        g.moves().contains(mv),
    ensures
        sides_on_board(g.play(mv).position),
        captures_fit_within(g.play(mv).position, g.play(mv).turn, length),
{
    lemma_listed_within(g.position, g.turn, length + 1);
    lemma_play_stays_on_board(g, mv);
    let i = choose|i: int| 0 <= i < g.moves().len() && g.moves()[i] == mv;
    assert(captures_fit_within(
        g.position.play(g.turn, moves_of(g.position, g.turn)[i]),
        g.turn.other(),
        length,
    ));
}

/// A legal move leaves every piece on a square of the board.
proof fn lemma_play_stays_on_board(g: Game, mv: Move)
    requires
        sides_on_board(g.position),
        captures_fit(g.position, g.turn),
        g.moves().contains(mv),
    ensures
        sides_on_board(g.play(mv).position),
{
    law_legal_moves_are_proper(g.position, g.turn, mv);
    let next = g.play(mv).position;
    assert forall|side: Side, s: int| #[trigger] next.of(side).contains(s) implies on_board(s) by {
        assert(g.position.of(side).contains(s) || s == mv.to);
    }
}

/// There is one sequence of no moves, and there are as many of one move as there are
/// legal moves. To count them, no more than these have to be listed.
pub proof fn law_short_sequences(p: Position, side: Side)
    ensures
        sequences(p, side, 0) == 1,
        sequences(p, side, 1) == moves_of(p, side).len(),
        captures_fit_within(p, side, 0),
        captures_fit_within(p, side, 1) <==> captures_fit(p, side),
{
    reveal_with_fuel(captures_fit_within, 2);
    lemma_single_moves(p, side, moves_of(p, side));
}

proof fn lemma_single_moves(p: Position, side: Side, moves: Seq<Move>)
    ensures
        sequences_after(p, side, moves, 0) == moves.len(),
    decreases moves.len(),
{
    if moves.len() > 0 {
        lemma_single_moves(p, side, moves.drop_last());
        assert(sequences(p.play(side, moves.last()), side.other(), 0) == 1);
    }
}

/// A new game is not over: black can move.
pub proof fn law_opening_goes_on()
    ensures
        opening().outcome() is None,
        captures_fit(opening().position, opening().turn),
        opening().moves().len() > 0,
{
    let p = start();
    law_start_has_no_captures(Side::Black);
    let mv = quiet_move(20, 16);
    assert(sides_on_board(p));
    assert(is_step(p, Side::Black, mv)) by {
        assert(!p.kings.contains(20));
        let dir = p.dirs(Side::Black, 20)[1];
        assert(dir == (-1i8, 1i8));
        assert(step_toward(p, 20, p.dirs(Side::Black, 20)[1]) == Some(16int));
    }
    law_captures_are_forced(p, Side::Black, mv);
    assert(p.black.contains(20));
    assert(p.red.contains(0));
}

/// How games end, by who wins. A game of one hundred and sixty halfmoves is a draw. Before
/// that, red wins when black has no piece, black wins when red has none, and a player who
/// has to move and cannot loses to the other one. Otherwise the game goes on.
pub proof fn law_who_wins(g: Game)
    ensures
        ({
            let no_black = forall|s: int| !#[trigger] g.position.black.contains(s);
            let no_red = forall|s: int| !#[trigger] g.position.red.contains(s);
            let blocked = moves_of(g.position, g.turn).len() == 0;
            &&& g.outcome() == Some(GameResult::Draw) <==> g.halfmoves >= 160
            &&& g.outcome() == Some(GameResult::Winner(Side::Red)) <==> g.halfmoves < 160 && (
            no_black || (!no_red && g.turn is Black && blocked))
            &&& g.outcome() == Some(GameResult::Winner(Side::Black)) <==> g.halfmoves < 160
                && !no_black && (no_red || (g.turn is Red && blocked))
            &&& g.outcome() is None <==> g.halfmoves < 160 && !no_black && !no_red && !blocked
        }),
{
    let black = g.position.black;
    let red = g.position.red;
    if forall|s: int| !#[trigger] black.contains(s) {
        assert(black =~= Set::<int>::empty());
    }
    if forall|s: int| !#[trigger] red.contains(s) {
        assert(red =~= Set::<int>::empty());
    }
    if black == Set::<int>::empty() {
        assert(forall|s: int| !#[trigger] black.contains(s));
    }
    if red == Set::<int>::empty() {
        assert(forall|s: int| !#[trigger] red.contains(s));
    }
}

/// A player who has pieces on the board, with enemies left and before the move limit, but
/// has no legal move, loses; the winner is the other player.
pub proof fn law_blocked_players_lose(g: Game, a: int, b: int)
    requires
        g.halfmoves < 160,
        g.position.black.contains(a),
        g.position.red.contains(b),
        g.moves().len() == 0,
    ensures
        g.turn is Black ==> g.outcome() == Some(GameResult::Winner(Side::Red)),
        g.turn is Red ==> g.outcome() == Some(GameResult::Winner(Side::Black)),
{
    law_who_wins(g);
}

/// Whether a game can be judged: its result does not depend on the legal moves, or they
/// can be listed.
pub proof fn law_what_can_be_judged(g: Game)
    ensures
        g.judgeable() <==> {
            ||| g.halfmoves >= 160
            ||| forall|s: int| !#[trigger] g.position.black.contains(s)
            ||| forall|s: int| !#[trigger] g.position.red.contains(s)
            ||| captures_fit(g.position, g.turn)
        },
{
    let black = g.position.black;
    let red = g.position.red;
    if forall|s: int| !#[trigger] black.contains(s) {
        assert(black =~= Set::<int>::empty());
    }
    if forall|s: int| !#[trigger] red.contains(s) {
        assert(red =~= Set::<int>::empty());
    }
    if black == Set::<int>::empty() {
        assert(forall|s: int| !#[trigger] black.contains(s));
    }
    if red == Set::<int>::empty() {
        assert(forall|s: int| !#[trigger] red.contains(s));
    }
}

/// A move gives the turn to the other player and is counted, and the legal moves of a game
/// are those of its player to move.
pub proof fn law_moves_pass_the_turn(g: Game, mv: Move)
    ensures
        g.play(mv).turn is Black <==> g.turn is Red,
        g.play(mv).halfmoves == g.halfmoves + 1,
        g.play(mv).position == g.position.play(g.turn, mv),
        g.moves() == moves_of(g.position, g.turn),
{
}

/// The move sequences of a length can be counted exactly if, after every shorter legal line,
/// the legal moves can be listed.
pub proof fn law_countable_means_listable(g: Game, depth: nat)
    ensures
        captures_fit_within(g.position, g.turn, depth) <==> forall|line: Seq<Move>|
            #[trigger] is_line(g, line) && line.len() < depth ==> captures_fit(
                after_line(g, line).position,
                after_line(g, line).turn,
            ),
    decreases depth,
{
    reveal(captures_fit_within);
    if depth > 0 {
        let rest = (depth - 1) as nat;
        if captures_fit_within(g.position, g.turn, depth) {
            assert forall|line: Seq<Move>| #[trigger]
                is_line(g, line) && line.len() < depth implies captures_fit(
                after_line(g, line).position,
                after_line(g, line).turn,
            ) by {
                if line.len() > 0 {
                    let mv = line[0];
                    let i = choose|i: int| 0 <= i < g.moves().len() && g.moves()[i] == mv;
                    assert(captures_fit_within(
                        g.position.play(g.turn, moves_of(g.position, g.turn)[i]),
                        g.turn.other(),
                        rest,
                    ));
                    law_countable_means_listable(g.play(mv), rest);
                    assert(is_line(g.play(mv), line.drop_first()));
                }
            }
        } else {
            let none = Seq::<Move>::empty();
            assert(is_line(g, none) && after_line(g, none) == g);
            if captures_fit(g.position, g.turn) {
                let i = choose|i: int|
                    0 <= i < moves_of(g.position, g.turn).len() && !captures_fit_within(
                        g.position.play(g.turn, #[trigger] moves_of(g.position, g.turn)[i]),
                        g.turn.other(),
                        rest,
                    );
                let mv = g.moves()[i];
                law_countable_means_listable(g.play(mv), rest);
                let tail = choose|tail: Seq<Move>| #[trigger]
                    is_line(g.play(mv), tail) && tail.len() < rest && !captures_fit(
                        after_line(g.play(mv), tail).position,
                        after_line(g.play(mv), tail).turn,
                    );
                let line = seq![mv] + tail;
                assert(line.drop_first() =~= tail);
                assert(line[0] == mv);
                assert(g.moves().contains(mv));
                assert(is_line(g, line));
                assert(after_line(g, line) == after_line(g.play(mv), tail));
            }
        }
    }
}

} // verus!
