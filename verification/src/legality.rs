//! What the legal moves are, and what playing one does.
use crate::bits::{ascending, lemma_ascending_lists, lemma_ascending_members};
use crate::chains::{
    after_chain, is_complete_chain, law_chain_takes_enemies_once, law_chains_are_the_complete_ones,
    lemma_jump_geometry, overs,
};
use crate::engine::{Move, Piece, Side};
use crate::geometry::{coords_of, crowns, law_index_then_coords, offset_of, on_board};
use crate::rules::{
    after_jump, all_captures, all_steps, can_jump, captures_fit, captures_from, captures_of, chains,
    jump_toward, jumps_fit, landing, lemma_branch, move_along, moves_of, piece_on, quiet_move, slot, start,
    step_toward, steps_of, steps_within, Jump, Position,
};
use vstd::prelude::*;

verus! {

/// Whether all pieces stand on squares of the board, no square is claimed by both
/// sides, and only occupied squares are marked as kings.
pub open spec fn sound(p: Position) -> bool {
    &&& forall|s: int| #[trigger] p.occupied().contains(s) ==> on_board(s)
    &&& forall|s: int| #[trigger] p.black.contains(s) ==> !p.red.contains(s)
    &&& p.kings.subset_of(p.occupied())
}

/// Whether some piece of a side can capture.
pub open spec fn must_capture(p: Position, side: Side) -> bool {
    exists|at: int| #[trigger] p.of(side).contains(at) && can_jump(p, side, at)
}

/// Whether a move takes a piece of `side` one square in one of its directions, to
/// a free square.
pub open spec fn is_step(p: Position, side: Side, mv: Move) -> bool {
    let at = mv.from as int;
    &&& p.of(side).contains(at)
    &&& mv == quiet_move(at, mv.to as int)
    &&& exists|i: int|
        0 <= i < p.dirs(side, at).len() && step_toward(p, at, #[trigger] p.dirs(side, at)[i])
            == Some(mv.to as int)
}

/// Whether a move records the chain of jumps `chain` of a piece of `side`, and the
/// chain is complete.
pub open spec fn is_capture_along(p: Position, side: Side, mv: Move, chain: Seq<Jump>) -> bool {
    let at = mv.from as int;
    &&& p.of(side).contains(at)
    &&& chain.len() > 0
    &&& is_complete_chain(p, side, at, chain)
    &&& mv == move_along(at, chain)
}

/// Whether a move records a complete chain of jumps of a piece of `side`.
pub open spec fn is_capture(p: Position, side: Side, mv: Move) -> bool {
    exists|chain: Seq<Jump>| is_capture_along(p, side, mv, chain)
}

/// What the board words can hold: squares of the board.
pub open spec fn sides_on_board(p: Position) -> bool {
    forall|side: Side, s: int| #[trigger] p.of(side).contains(s) ==> on_board(s)
}

/// Each listed capture comes from one of the listed squares.
pub(crate) proof fn lemma_captures_of_origin(
    p: Position,
    side: Side,
    squares: Seq<u8>,
    i: int,
) -> (r: (int, int))
    requires
        0 <= i < captures_of(p, side, squares).len(),
    ensures
        0 <= r.0 < squares.len(),
        0 <= r.1 < captures_from(p, side, squares[r.0] as int).len(),
        captures_of(p, side, squares)[i] == captures_from(p, side, squares[r.0] as int)[r.1],
    decreases squares.len(),
{
    let fewer = captures_of(p, side, squares.drop_last());
    if i < fewer.len() {
        lemma_captures_of_origin(p, side, squares.drop_last(), i)
    } else {
        (squares.len() - 1, i - fewer.len())
    }
}

/// The captures of each listed square are listed.
proof fn lemma_captures_of_lists(
    p: Position,
    side: Side,
    squares: Seq<u8>,
    s: int,
    j: int,
) -> (i: int)
    requires
        0 <= s < squares.len(),
        0 <= j < captures_from(p, side, squares[s] as int).len(),
    ensures
        0 <= i < captures_of(p, side, squares).len(),
        captures_of(p, side, squares)[i] == captures_from(p, side, squares[s] as int)[j],
    decreases squares.len(),
{
    let fewer = captures_of(p, side, squares.drop_last());
    if s == squares.len() - 1 {
        fewer.len() + j
    } else {
        lemma_captures_of_lists(p, side, squares.drop_last(), s, j)
    }
}

/// Each listed step comes from one of the listed squares.
pub(crate) proof fn lemma_steps_of_origin(
    p: Position,
    side: Side,
    squares: Seq<u8>,
    i: int,
) -> (r: (int, int))
    requires
        0 <= i < steps_of(p, side, squares).len(),
    ensures
        0 <= r.0 < squares.len(),
        ({
            let at = squares[r.0] as int;
            let steps = steps_within(p, side, at, p.dirs(side, at).len());
            0 <= r.1 < steps.len() && steps_of(p, side, squares)[i] == steps[r.1]
        }),
    decreases squares.len(),
{
    let fewer = steps_of(p, side, squares.drop_last());
    if i < fewer.len() {
        lemma_steps_of_origin(p, side, squares.drop_last(), i)
    } else {
        (squares.len() - 1, i - fewer.len())
    }
}

/// The steps of each listed square are listed.
proof fn lemma_steps_of_lists(p: Position, side: Side, squares: Seq<u8>, s: int, j: int) -> (i: int)
    requires
        0 <= s < squares.len(),
        ({
            let at = squares[s] as int;
            0 <= j < steps_within(p, side, at, p.dirs(side, at).len()).len()
        }),
    ensures
        0 <= i < steps_of(p, side, squares).len(),
        ({
            let at = squares[s] as int;
            steps_of(p, side, squares)[i] == steps_within(p, side, at, p.dirs(side, at).len())[j]
        }),
    decreases squares.len(),
{
    let fewer = steps_of(p, side, squares.drop_last());
    if s == squares.len() - 1 {
        fewer.len() + j
    } else {
        lemma_steps_of_lists(p, side, squares.drop_last(), s, j)
    }
}

/// A step of a piece leads in one of its directions.
pub(crate) proof fn lemma_steps_within_dir(
    p: Position,
    side: Side,
    at: int,
    n: nat,
    j: int,
) -> (d: int)
    requires
        n <= p.dirs(side, at).len(),
        0 <= j < steps_within(p, side, at, n).len(),
    ensures
        0 <= d < n,
        step_toward(p, at, p.dirs(side, at)[d]) is Some,
        steps_within(p, side, at, n)[j] == quiet_move(
            at,
            step_toward(p, at, p.dirs(side, at)[d])->0,
        ),
    decreases n,
{
    let fewer = steps_within(p, side, at, (n - 1) as nat);
    if j < fewer.len() {
        lemma_steps_within_dir(p, side, at, (n - 1) as nat, j)
    } else {
        n - 1
    }
}

/// Each direction with a free square gives a step.
proof fn lemma_steps_within_lists(p: Position, side: Side, at: int, n: nat, d: int) -> (j: int)
    requires
        0 <= d < n <= p.dirs(side, at).len(),
        step_toward(p, at, p.dirs(side, at)[d]) is Some,
    ensures
        0 <= j < steps_within(p, side, at, n).len(),
        steps_within(p, side, at, n)[j] == quiet_move(
            at,
            step_toward(p, at, p.dirs(side, at)[d])->0,
        ),
    decreases n,
{
    if d == n - 1 {
        steps_within(p, side, at, (n - 1) as nat).len() as int
    } else {
        lemma_steps_within_lists(p, side, at, (n - 1) as nat, d)
    }
}

/// A piece that can jump has a capture.
proof fn lemma_jumper_has_capture(p: Position, side: Side, at: int) -> (i: int)
    requires
        on_board(at),
        p.of(side).contains(at),
        captures_fit(p, side),
        can_jump(p, side, at),
    ensures
        0 <= i < all_captures(p, side).len(),
{
    let chain = lemma_some_chain(p, side, at, 7);
    let j = lemma_chain_index(p, side, at, chain);
    let s = lemma_ascending_lists(p.of(side), 32, at);
    lemma_captures_of_lists(p, side, ascending(p.of(side), 32), s, j)
}

/// There is always some complete chain, and it is not empty where a jump is possible.
#[verifier::spinoff_prover]
#[verifier::rlimit(60)]
pub(crate) proof fn lemma_some_chain(p: Position, side: Side, at: int, room: nat) -> (chain: Seq<Jump>)
    requires
        jumps_fit(p, side, at, room),
    ensures
        is_complete_chain(p, side, at, chain),
        can_jump(p, side, at) ==> chain.len() > 0,
    decreases room,
{
    if can_jump(p, side, at) {
        let dirs = p.dirs(side, at);
        let d = choose|d: int|
            0 <= d < dirs.len() && jump_toward(p, side, at, #[trigger] dirs[d])
                is Some;
        let jump = jump_toward(p, side, at, dirs[d])->0;
        assert(jump_toward(p, side, at, p.dirs(side, at)[d]) == Some(jump));
        lemma_branch(p, side, at, room, d as nat, jump);
        let tail = lemma_some_chain(
            after_jump(p, side, at, jump),
            side,
            jump.to,
            (room - 1) as nat,
        );
        let chain = seq![jump] + tail;
        assert(chain.drop_first() =~= tail);
        assert(chain[0] == jump);
        chain
    } else {
        Seq::empty()
    }
}

/// The place of a complete chain among the captures of its piece.
proof fn lemma_chain_index(p: Position, side: Side, at: int, chain: Seq<Jump>) -> (j: int)
    requires
        on_board(at),
        jumps_fit(p, side, at, 7),
        is_complete_chain(p, side, at, chain),
        chain.len() > 0,
    ensures
        0 <= j < captures_from(p, side, at).len(),
        captures_from(p, side, at)[j] == move_along(at, chain),
{
    law_chains_are_the_complete_ones(p, side, at, 7, chain);
    let list = chains(p, side, at, 7);
    let j = choose|j: int| 0 <= j < list.len() && list[j] == chain;
    assert(Seq::<Jump>::empty() + chain =~= chain);
    let dirs = p.dirs(side, at);
    let d = choose|d: int|
        0 <= d < dirs.len() && jump_toward(p, side, at, #[trigger] dirs[d]) == Some(
            chain[0],
        );
    assert(jump_toward(p, side, at, p.dirs(side, at)[d]) is Some);
    assert(can_jump(p, side, at));
    j
}

/// The captures of a side are exactly the records of complete chains of jumps.
pub proof fn law_captures_are_complete_chains(p: Position, side: Side, mv: Move)
    requires
        sides_on_board(p),
        captures_fit(p, side),
    ensures
        all_captures(p, side).contains(mv) <==> is_capture(p, side, mv),
        all_captures(p, side).len() > 0 <==> must_capture(p, side),
{
    let squares = ascending(p.of(side), 32);
    if all_captures(p, side).contains(mv) {
        let i = choose|i: int|
            0 <= i < all_captures(p, side).len() && all_captures(p, side)[i] == mv;
        let chain = lemma_capture_at(p, side, i);
        assert(is_capture_along(p, side, mv, chain));
    }
    if is_capture(p, side, mv) {
        let chain = choose|chain: Seq<Jump>| is_capture_along(p, side, mv, chain);
        let at = mv.from as int;
        let j = lemma_chain_index(p, side, at, chain);
        let s = lemma_ascending_lists(p.of(side), 32, at);
        let i = lemma_captures_of_lists(p, side, squares, s, j);
        assert(all_captures(p, side)[i] == mv);
    }
    if all_captures(p, side).len() > 0 {
        let chain = lemma_capture_at(p, side, 0);
        let at = all_captures(p, side)[0].from as int;
        assert(p.of(side).contains(at));
        let dirs = p.dirs(side, at);
        let d = choose|d: int|
            0 <= d < dirs.len() && jump_toward(p, side, at, #[trigger] dirs[d])
                == Some(chain[0]);
        assert(jump_toward(p, side, at, p.dirs(side, at)[d]) is Some);
        assert(can_jump(p, side, at));
    }
    if must_capture(p, side) {
        let at = choose|at: int| #[trigger] p.of(side).contains(at) && can_jump(p, side, at);
        let i = lemma_jumper_has_capture(p, side, at);
    }
}

/// The chain behind a listed capture.
proof fn lemma_capture_at(p: Position, side: Side, i: int) -> (chain: Seq<Jump>)
    requires
        sides_on_board(p),
        captures_fit(p, side),
        0 <= i < all_captures(p, side).len(),
    ensures
        is_capture_along(p, side, all_captures(p, side)[i], chain),
{
    let squares = ascending(p.of(side), 32);
    let (s, j) = lemma_captures_of_origin(p, side, squares, i);
    lemma_ascending_members(p.of(side), 32, s);
    let at = squares[s] as int;
    let chain = chains(p, side, at, 7)[j];
    law_chains_are_the_complete_ones(p, side, at, 7, chain);
    assert(chains(p, side, at, 7).contains(chain));
    assert(Seq::<Jump>::empty() + chain =~= chain);
    assert(captures_from(p, side, at)[j] == move_along(at, chain));
    chain
}

/// The moves of a side without captures are exactly the steps of its pieces.
pub proof fn law_steps_are_single_steps(p: Position, side: Side, mv: Move)
    requires
        sides_on_board(p),
    ensures
        all_steps(p, side).contains(mv) <==> is_step(p, side, mv),
{
    let squares = ascending(p.of(side), 32);
    if all_steps(p, side).contains(mv) {
        let i = choose|i: int| 0 <= i < all_steps(p, side).len() && all_steps(p, side)[i] == mv;
        let (s, j) = lemma_steps_of_origin(p, side, squares, i);
        lemma_ascending_members(p.of(side), 32, s);
        let at = squares[s] as int;
        let d = lemma_steps_within_dir(p, side, at, p.dirs(side, at).len(), j);
        let (dr, dc) = p.dirs(side, at)[d];
        law_index_then_coords(coords_of(at).0 + dr, coords_of(at).1 + dc);
        assert(step_toward(p, at, p.dirs(side, at)[d]) == Some(mv.to as int));
    }
    if is_step(p, side, mv) {
        let at = mv.from as int;
        let dirs = p.dirs(side, at);
        let d = choose|d: int|
            0 <= d < dirs.len() && step_toward(p, at, #[trigger] dirs[d]) == Some(mv.to as int);
        let j = lemma_steps_within_lists(p, side, at, dirs.len(), d);
        let s = lemma_ascending_lists(p.of(side), 32, at);
        let i = lemma_steps_of_lists(p, side, squares, s, j);
        assert(all_steps(p, side)[i] == mv);
    }
}

/// Captures are forced: a side that can capture has its captures as its only
/// legal moves, and one that cannot has exactly its steps.
pub proof fn law_captures_are_forced(p: Position, side: Side, mv: Move)
    requires
        sides_on_board(p),
        captures_fit(p, side),
    ensures
        moves_of(p, side).contains(mv) <==> if must_capture(p, side) {
            is_capture(p, side, mv)
        } else {
            is_step(p, side, mv)
        },
{
    law_captures_are_complete_chains(p, side, mv);
    law_steps_are_single_steps(p, side, mv);
}

/// The capture slots of a record name the squares that its chain takes.
proof fn lemma_record_takes(at: int, chain: Seq<Jump>)
    requires
        chain.len() <= 7,
        forall|k: int| 0 <= k < chain.len() ==> on_board((#[trigger] chain[k]).over),
    ensures
        move_along(at, chain).taken() == overs(chain),
        move_along(at, chain).capture_len == chain.len(),
{
    let mv = move_along(at, chain);
    assert forall|i: int| 0 <= i < 7 implies #[trigger] mv.captures@[i] == slot(
        chain,
        i,
    ) by {}
    assert forall|s: int| mv.taken().contains(s) == overs(chain).contains(s) by {
        if overs(chain).contains(s) {
            let k = choose|k: int| 0 <= k < chain.len() && #[trigger] chain[k].over == s;
            assert(mv.captures@[k] == Some(s as u8));
        }
        if mv.taken().contains(s) {
            let i = choose|i: int|
                0 <= i < 7 && #[trigger] mv.captures@[i] is Some && mv.captures@[i]->0 == s;
            assert(chain[i].over == s);
        }
    }
    assert(mv.taken() =~= overs(chain));
}

/// A step takes nothing.
proof fn lemma_step_takes(from: int, to: int)
    ensures
        quiet_move(from, to).taken() == Set::<int>::empty(),
{
    let mv = quiet_move(from, to);
    assert forall|i: int| 0 <= i < 7 implies #[trigger] mv.captures@[i] is None by {}
    assert(mv.taken() =~= Set::<int>::empty());
}

/// The square that a step leads to.
proof fn lemma_step_geometry(p: Position, side: Side, mv: Move)
    requires
        sides_on_board(p),
        is_step(p, side, mv),
    ensures
        on_board(mv.from as int),
        on_board(mv.to as int),
        mv.from != mv.to,
        !p.occupied().contains(mv.to as int),
{
    let at = mv.from as int;
    let dirs = p.dirs(side, at);
    let d = choose|d: int|
        0 <= d < dirs.len() && step_toward(p, at, #[trigger] dirs[d]) == Some(mv.to as int);
    let (dr, dc) = dirs[d];
    law_index_then_coords(coords_of(at).0 + dr, coords_of(at).1 + dc);
}

/// What every record of a legal move is like: it names only squares of the board,
/// starts on a piece of the mover and ends on a free square or, after a round trip,
/// where it started; it takes at most seven pieces, all of the enemy and none
/// twice, and uses the capture slots from the first one on.
pub open spec fn proper_record(p: Position, side: Side, mv: Move) -> bool {
    &&& mv.within_board()
    &&& p.of(side).contains(mv.from as int)
    &&& !p.occupied().contains(mv.to as int) || mv.to == mv.from
    &&& mv.taken().subset_of(p.of(side.other()))
    &&& mv.capture_len <= 7
    &&& forall|i: int| 0 <= i < 7 ==> (#[trigger] mv.captures@[i] is Some <==> i < mv.capture_len)
    &&& forall|i: int, j: int|
        0 <= i < j < mv.capture_len ==> #[trigger] mv.captures@[i] != #[trigger] mv.captures@[j]
}

/// The record of a complete chain is proper.
proof fn lemma_capture_record(p: Position, side: Side, mv: Move, chain: Seq<Jump>)
    requires
        sides_on_board(p),
        captures_fit(p, side),
        is_capture_along(p, side, mv, chain),
    ensures
        proper_record(p, side, mv),
        mv.capture_len > 0,
{
    let at = mv.from as int;
    law_chain_takes_enemies_once(p, side, at, 7, chain);
    lemma_record_takes(at, chain);
    assert forall|i: int| 0 <= i < 7 implies #[trigger] mv.captures@[i] == slot(
        chain,
        i,
    ) by {}
    assert(chain.last() == chain[chain.len() - 1]);
    assert forall|s: int| mv.taken().contains(s) implies p.of(side.other()).contains(s) by {
        let k = choose|k: int| 0 <= k < chain.len() && #[trigger] chain[k].over == s;
    }
    assert forall|i: int| 0 <= i < 7 && #[trigger] mv.captures@[i] is Some implies on_board(
        mv.captures@[i]->0 as int,
    ) by {
        assert(on_board(chain[i].over));
    }
    assert forall|i: int, j: int| 0 <= i < j < mv.capture_len implies #[trigger] mv.captures@[i]
        != #[trigger] mv.captures@[j] by {
        assert(on_board(chain[i].over) && on_board(chain[j].over));
        assert(chain[i].over != chain[j].over);
    }
}

/// The record of a step is proper.
proof fn lemma_step_record(p: Position, side: Side, mv: Move)
    requires
        sides_on_board(p),
        is_step(p, side, mv),
    ensures
        proper_record(p, side, mv),
        mv.capture_len == 0,
{
    lemma_step_geometry(p, side, mv);
    lemma_step_takes(mv.from as int, mv.to as int);
    assert forall|i: int| 0 <= i < 7 implies #[trigger] mv.captures@[i] is None by {}
}

/// Legal moves have proper records, and they take something exactly when the
/// mover can capture.
pub proof fn law_legal_moves_are_proper(p: Position, side: Side, mv: Move)
    requires
        sides_on_board(p),
        captures_fit(p, side),
        moves_of(p, side).contains(mv),
    ensures
        proper_record(p, side, mv),
        mv.capture_len > 0 <==> must_capture(p, side),
{
    law_captures_are_forced(p, side, mv);
    if must_capture(p, side) {
        let chain = choose|chain: Seq<Jump>| is_capture_along(p, side, mv, chain);
        lemma_capture_record(p, side, mv, chain);
    } else {
        lemma_step_record(p, side, mv);
    }
}

/// Playing a legal move in a sound position leads to a sound position.
pub proof fn law_play_keeps_soundness(p: Position, side: Side, mv: Move)
    requires
        sound(p),
        captures_fit(p, side),
        moves_of(p, side).contains(mv),
    ensures
        sound(p.play(side, mv)),
{
    assert(sides_on_board(p)) by {
        assert forall|side: Side, s: int| #[trigger] p.of(side).contains(s) implies on_board(s) by {
            assert(p.occupied().contains(s));
        }
    }
    law_legal_moves_are_proper(p, side, mv);
    let q = p.play(side, mv);
    assert forall|s: int| #[trigger] q.occupied().contains(s) implies on_board(s) by {
        assert(p.occupied().contains(s) || s == mv.to);
    }
    lemma_mover_survives(p, side, mv);
}

/// The mover is never among the pieces it takes.
proof fn lemma_mover_survives(p: Position, side: Side, mv: Move)
    requires
        sound(p),
        sides_on_board(p),
        captures_fit(p, side),
        moves_of(p, side).contains(mv),
    ensures
        !mv.taken().contains(mv.to as int),
        !mv.taken().contains(mv.from as int),
{
    law_legal_moves_are_proper(p, side, mv);
    assert(p.occupied().contains(mv.from as int));
    if mv.taken().contains(mv.to as int) {
        assert(p.of(side.other()).contains(mv.to as int));
        assert(p.occupied().contains(mv.to as int));
    }
}

/// The starting position is sound.
pub proof fn law_start_is_sound()
    ensures
        sound(start()),
{
}

/// At the start neither side can capture, and the moves of both can be listed.
pub proof fn law_start_has_no_captures(side: Side)
    ensures
        !must_capture(start(), side),
        captures_fit(start(), side),
{
    let p = start();
    assert forall|at: int| #[trigger] p.of(side).contains(at) implies jumps_fit(p, side, at, 7)
        && !can_jump(p, side, at) by {
        assert forall|i: int| 0 <= i < p.dirs(side, at).len() implies jump_toward(
            p,
            side,
            at,
            #[trigger] p.dirs(side, at)[i],
        ) is None by {
            let (dr, dc) = p.dirs(side, at)[i];
            assert(!p.kings.contains(at));
            if let Some(over) = offset_of(at, dr as int, dc as int) {
                law_index_then_coords(coords_of(at).0 + dr, coords_of(at).1 + dc);
            }
        }
        reveal(jumps_fit);
    }
}

/// A legal move keeps the number of the mover's pieces and lowers that of the
/// enemy's by the number of pieces it takes.
pub proof fn law_play_counts_pieces(p: Position, side: Side, mv: Move)
    requires
        sound(p),
        captures_fit(p, side),
        moves_of(p, side).contains(mv),
    ensures
        p.play(side, mv).of(side).len() == p.of(side).len(),
        p.play(side, mv).of(side.other()).len() + mv.capture_len == p.of(side.other()).len(),
{
    assert(sides_on_board(p)) by {
        assert forall|side: Side, s: int| #[trigger] p.of(side).contains(s) implies on_board(s) by {
            assert(p.occupied().contains(s));
        }
    }
    law_legal_moves_are_proper(p, side, mv);
    lemma_mover_survives(p, side, mv);
    let q = p.play(side, mv);
    let from = mv.from as int;
    let to = mv.to as int;
    lemma_on_board_finite(p.of(side));
    lemma_on_board_finite(p.of(side.other()));
    assert forall|s: int| mv.taken().contains(s) implies !p.of(side).contains(s) by {
        assert(p.of(side.other()).contains(s));
    }
    assert(q.of(side) =~= p.of(side).remove(from).insert(to));
    assert(q.of(side.other()) =~= p.of(side.other()).difference(mv.taken()));
    lemma_taken_count(mv, mv.capture_len as nat);
    assert(mv.taken_within(mv.capture_len as int) =~= mv.taken());
    let other = p.of(side.other());
    vstd::set_lib::lemma_set_disjoint_lens(other.difference(mv.taken()), mv.taken());
    assert(other.difference(mv.taken()).union(mv.taken()) =~= other);
}

/// A set of squares of the board is finite.
pub(crate) proof fn lemma_on_board_finite(squares: Set<int>)
    requires
        forall|s: int| #[trigger] squares.contains(s) ==> on_board(s),
    ensures
        squares.finite(),
{
    vstd::set_lib::lemma_int_range(0, 32);
    assert(squares.subset_of(vstd::set_lib::set_int_range(0, 32)));
    vstd::set_lib::lemma_set_subset_finite(vstd::set_lib::set_int_range(0, 32), squares);
}

/// Distinct capture slots name as many squares as there are slots in use.
proof fn lemma_taken_count(mv: Move, n: nat)
    requires
        n <= mv.capture_len <= 7,
        forall|i: int| 0 <= i < 7 ==> (#[trigger] mv.captures@[i] is Some <==> i < mv.capture_len),
        forall|i: int, j: int|
            0 <= i < j < mv.capture_len ==> #[trigger] mv.captures@[i] != #[trigger] mv.captures@[j],
    ensures
        mv.taken_within(n as int).finite(),
        mv.taken_within(n as int).len() == n,
    decreases n,
{
    if n == 0 {
        assert(mv.taken_within(0) =~= Set::<int>::empty());
    } else {
        lemma_taken_count(mv, (n - 1) as nat);
        let last = mv.captures@[n - 1]->0 as int;
        let fewer = mv.taken_within(n - 1);
        assert(mv.taken_within(n as int) =~= fewer.insert(last));
        assert(!fewer.contains(last));
    }
}

/// Whether a chain touches down, at least once, where men of `side` are crowned.
pub open spec fn passes_crown_row(side: Side, chain: Seq<Jump>) -> bool {
    exists|k: int| 0 <= k < chain.len() && crowns(side, (#[trigger] chain[k]).to)
}

/// Where the pieces are after a chain of jumps: the mover on its last square, and
/// none on the squares taken. The mover is a king if it was one or touched down on
/// the crown row.
#[verifier::spinoff_prover]
#[verifier::rlimit(60)]
proof fn lemma_after_chain(p: Position, side: Side, at: int, room: nat, chain: Seq<Jump>)
    requires
        on_board(at),
        p.of(side).contains(at),
        p.kings.subset_of(p.occupied()),
        jumps_fit(p, side, at, room),
        is_complete_chain(p, side, at, chain),
    ensures
        ({
            let q = after_chain(p, side, at, chain);
            let to = landing(at, chain);
            &&& q.of(side.other()) == p.of(side.other()).difference(overs(chain))
            &&& q.of(side) == p.of(side).remove(at).insert(to).difference(overs(chain))
            &&& forall|s: int|
                s != to ==> (#[trigger] q.kings.contains(s) <==> p.kings.contains(s) && s != at
                    && !overs(chain).contains(s))
            &&& q.kings.contains(to) <==> p.kings.contains(at) || passes_crown_row(side, chain)
        }),
    decreases chain.len(),
{
    law_chain_takes_enemies_once(p, side, at, room, chain);
    let q = after_chain(p, side, at, chain);
    let to = landing(at, chain);
    if chain.len() == 0 {
        assert(overs(chain) =~= Set::<int>::empty());
        assert(p.of(side).remove(at).insert(at) =~= p.of(side));
        assert(p.of(side).difference(overs(chain)) =~= p.of(side));
        assert(p.of(side.other()).difference(overs(chain)) =~= p.of(side.other()));
    } else {
        let jump = chain[0];
        let next = after_jump(p, side, at, jump);
        let tail = chain.drop_first();
        lemma_jump_geometry(p, side, at, jump);
        assert(p.occupied().contains(at));
        let dirs = p.dirs(side, at);
        let d = choose|d: int|
            0 <= d < dirs.len() && jump_toward(p, side, at, #[trigger] dirs[d])
                == Some(jump);
        lemma_branch(p, side, at, room, d as nat, jump);
        assert(next.kings.subset_of(next.occupied()));
        lemma_after_chain(next, side, jump.to, (room - 1) as nat, tail);
        assert(landing(jump.to, tail) == to) by {
            if tail.len() > 0 {
                assert(tail.last() == chain.last());
            }
        }
        assert forall|s: int| overs(chain).contains(s) == (s == jump.over || overs(tail).contains(s))
            by {
            if overs(chain).contains(s) {
                let k = choose|k: int| 0 <= k < chain.len() && #[trigger] chain[k].over == s;
                if k > 0 {
                    assert(tail[k - 1].over == s);
                }
            }
            if overs(tail).contains(s) {
                let k = choose|k: int| 0 <= k < tail.len() && #[trigger] tail[k].over == s;
                assert(chain[k + 1].over == s);
            }
            if s == jump.over {
                assert(chain[0].over == s);
            }
        }
        assert(passes_crown_row(side, chain) == (crowns(side, jump.to) || passes_crown_row(
            side,
            tail,
        ))) by {
            if passes_crown_row(side, chain) {
                let k = choose|k: int|
                    0 <= k < chain.len() && crowns(side, (#[trigger] chain[k]).to);
                if k > 0 {
                    assert(crowns(side, tail[k - 1].to));
                }
            }
            if passes_crown_row(side, tail) {
                let k = choose|k: int| 0 <= k < tail.len() && crowns(side, (#[trigger] tail[k]).to);
                assert(crowns(side, chain[k + 1].to));
            }
            if crowns(side, jump.to) {
                assert(crowns(side, chain[0].to));
            }
        }
        assert(chain[chain.len() - 1] == chain.last());
        assert(!overs(chain).contains(to)) by {
            if overs(chain).contains(to) {
                let k = choose|k: int| 0 <= k < chain.len() && #[trigger] chain[k].over == to;
            }
        }
        assert(q.of(side.other()) =~= p.of(side.other()).difference(overs(chain)));
        assert(q.of(side) =~= p.of(side).remove(at).insert(to).difference(overs(chain)));
    }
}

/// Playing the record of a capture puts the pieces of both sides where making its
/// jumps one after the other puts them. The kings are the same as well, unless a
/// man touched down on the crown row on its way and moved on: then it jumps on as
/// a king, and the record leaves it a man.
pub proof fn law_capture_is_its_jumps(p: Position, side: Side, mv: Move, chain: Seq<Jump>)
    requires
        sound(p),
        captures_fit(p, side),
        is_capture_along(p, side, mv, chain),
    ensures
        p.play(side, mv).black == after_chain(p, side, mv.from as int, chain).black,
        p.play(side, mv).red == after_chain(p, side, mv.from as int, chain).red,
        p.kings.contains(mv.from as int) || !passes_crown_row(side, chain.drop_last()) ==> p.play(
            side,
            mv,
        ) == after_chain(p, side, mv.from as int, chain),
{
    let at = mv.from as int;
    assert(p.occupied().contains(at));
    law_chain_takes_enemies_once(p, side, at, 7, chain);
    lemma_record_takes(at, chain);
    lemma_after_chain(p, side, at, 7, chain);
    let q = after_chain(p, side, at, chain);
    let r = p.play(side, mv);
    let to = landing(at, chain);
    assert(chain.last() == chain[chain.len() - 1]);
    assert(mv.to == to);
    assert(r.of(side) =~= q.of(side));
    assert(r.of(side.other()) =~= q.of(side.other()));
    if p.kings.contains(at) || !passes_crown_row(side, chain.drop_last()) {
        assert(passes_crown_row(side, chain) ==> p.kings.contains(at) || crowns(side, to)) by {
            if passes_crown_row(side, chain) {
                let k = choose|k: int|
                    0 <= k < chain.len() && crowns(side, (#[trigger] chain[k]).to);
                if k < chain.len() - 1 {
                    assert(chain.drop_last()[k] == chain[k]);
                }
            }
        }
        if crowns(side, to) {
            assert(crowns(side, chain[chain.len() - 1].to));
        }
        assert(r.kings =~= q.kings);
    }
}

/// After a capture the mover cannot jump on from where it landed.
pub proof fn law_capture_ends_where_no_jump_is_left(
    p: Position,
    side: Side,
    at: int,
    chain: Seq<Jump>,
)
    requires
        is_complete_chain(p, side, at, chain),
    ensures
        !can_jump(after_chain(p, side, at, chain), side, landing(at, chain)),
    decreases chain.len(),
{
    if chain.len() > 0 {
        let tail = chain.drop_first();
        law_capture_ends_where_no_jump_is_left(
            after_jump(p, side, at, chain[0]),
            side,
            chain[0].to,
            tail,
        );
        if tail.len() > 0 {
            assert(tail.last() == chain.last());
        }
    }
}

/// Where the pieces of both sides are after a chain of jumps, whatever is marked as a
/// king. The mover ends as a king at least if it began as one, if it ends on the crown
/// row, or if its last square was marked all along.
proof fn lemma_after_jumps(p: Position, side: Side, at: int, room: nat, chain: Seq<Jump>)
    requires
        on_board(at),
        jumps_fit(p, side, at, room),
        is_complete_chain(p, side, at, chain),
        chain.len() > 0,
    ensures
        ({
            let q = after_chain(p, side, at, chain);
            let to = landing(at, chain);
            &&& q.of(side.other()) == p.of(side.other()).difference(overs(chain))
            &&& q.of(side) == p.of(side).remove(at).insert(to).difference(overs(chain))
            &&& p.kings.contains(at) || crowns(side, to) || p.kings.contains(to)
                ==> q.kings.contains(to)
        }),
    decreases chain.len(),
{
    law_chain_takes_enemies_once(p, side, at, room, chain);
    let q = after_chain(p, side, at, chain);
    let to = landing(at, chain);
    let jump = chain[0];
    let next = after_jump(p, side, at, jump);
    let tail = chain.drop_first();
    lemma_jump_geometry(p, side, at, jump);
    let dirs = p.dirs(side, at);
    let d = choose|d: int|
        0 <= d < dirs.len() && jump_toward(p, side, at, #[trigger] dirs[d]) == Some(jump);
    lemma_branch(p, side, at, room, d as nat, jump);
    lemma_overs_of_tail(chain);
    assert(chain[chain.len() - 1] == chain.last());
    assert(!overs(chain).contains(to)) by {
        if overs(chain).contains(to) {
            let k = choose|k: int| 0 <= k < chain.len() && #[trigger] chain[k].over == to;
        }
    }
    if tail.len() == 0 {
        assert(overs(tail) =~= Set::<int>::empty());
        assert(after_chain(next, side, jump.to, tail) == next);
    } else {
        lemma_after_jumps(next, side, jump.to, (room - 1) as nat, tail);
        assert(tail.last() == chain.last());
        assert(!overs(tail).contains(jump.to)) by {
            if overs(tail).contains(jump.to) {
                let k = choose|k: int| 0 <= k < tail.len() && #[trigger] tail[k].over == jump.to;
                assert(chain[k + 1].over == jump.to);
            }
        }
    }
    assert(q.of(side.other()) =~= p.of(side.other()).difference(overs(chain)));
    assert(q.of(side) =~= p.of(side).remove(at).insert(to).difference(overs(chain)));
}

/// A chain takes what its first jump takes and what the others take.
proof fn lemma_overs_of_tail(chain: Seq<Jump>)
    requires
        chain.len() > 0,
    ensures
        overs(chain) == overs(chain.drop_first()).insert(chain[0].over),
{
    let tail = chain.drop_first();
    assert forall|s: int| overs(chain).contains(s) == (s == chain[0].over || overs(tail).contains(
        s,
    )) by {
        if overs(chain).contains(s) {
            let k = choose|k: int| 0 <= k < chain.len() && #[trigger] chain[k].over == s;
            if k > 0 {
                assert(tail[k - 1].over == s);
            }
        }
        if overs(tail).contains(s) {
            let k = choose|k: int| 0 <= k < tail.len() && #[trigger] tail[k].over == s;
            assert(chain[k + 1].over == s);
        }
        if s == chain[0].over {
            assert(chain[0].over == s);
        }
    }
    assert(overs(chain) =~= overs(tail).insert(chain[0].over));
}

/// A capture is never cut short: once its record was played, the mover cannot jump on.
pub proof fn law_play_leaves_no_jump(p: Position, side: Side, mv: Move)
    requires
        sides_on_board(p),
        captures_fit(p, side),
        all_captures(p, side).contains(mv),
    ensures
        !can_jump(p.play(side, mv), side, mv.to as int),
{
    law_captures_are_complete_chains(p, side, mv);
    let chain = choose|chain: Seq<Jump>| is_capture_along(p, side, mv, chain);
    let at = mv.from as int;
    law_chain_takes_enemies_once(p, side, at, 7, chain);
    lemma_record_takes(at, chain);
    lemma_after_jumps(p, side, at, 7, chain);
    law_capture_ends_where_no_jump_is_left(p, side, at, chain);
    let q = after_chain(p, side, at, chain);
    let r = p.play(side, mv);
    let to = landing(at, chain);
    assert(chain.last() == chain[chain.len() - 1]);
    assert(mv.to == to);
    assert(r.of(side) =~= q.of(side));
    assert(r.of(side.other()) =~= q.of(side.other()));
    assert(r.black == q.black && r.red == q.red);
    lemma_man_jumps_no_further(r, q, side, to);
}

/// Where a king cannot jump, a man cannot either.
proof fn lemma_man_jumps_no_further(r: Position, q: Position, side: Side, at: int)
    requires
        r.black == q.black,
        r.red == q.red,
        r.kings.contains(at) ==> q.kings.contains(at),
        !can_jump(q, side, at),
    ensures
        !can_jump(r, side, at),
{
    if can_jump(r, side, at) {
        let dirs = r.dirs(side, at);
        let d = choose|d: int|
            0 <= d < dirs.len() && jump_toward(r, side, at, #[trigger] dirs[d]) is Some;
        let e: int = if r.kings.contains(at) == q.kings.contains(at) || side is Black {
            d
        } else {
            d + 2
        };
        assert(q.dirs(side, at)[e] == dirs[d]);
        assert(jump_toward(q, side, at, q.dirs(side, at)[e]) is Some);
    }
}

/// What a move does, square by square: the squares in its capture slots are cleared, the
/// mover leaves its square and stands on the target, and everything else stays. The target
/// is marked as holding a king if the mover was one, if it is on the mover's far row, or if
/// it was marked already.
pub proof fn law_play_square_by_square(p: Position, side: Side, mv: Move, square: int)
    requires
        mv.within_board(),
    ensures
        ({
            let q = p.play(side, mv);
            let (own, enemy) = if side is Black {
                (p.black, p.red)
            } else {
                (p.red, p.black)
            };
            let (own_after, enemy_after) = if side is Black {
                (q.black, q.red)
            } else {
                (q.red, q.black)
            };
            let cleared = exists|i: int|
                0 <= i < 7 && #[trigger] mv.captures@[i] is Some && mv.captures@[i]->0 == square;
            let far = if side is Black {
                mv.to < 4
            } else {
                mv.to >= 28
            };
            &&& own_after.contains(square) <==> !cleared && (square == mv.to || own.contains(square)
                && square != mv.from)
            &&& enemy_after.contains(square) <==> !cleared && enemy.contains(square)
            &&& q.kings.contains(square) <==> (square == mv.to && (p.kings.contains(mv.from as int)
                || far)) || (p.kings.contains(square) && square != mv.from && !cleared)
        }),
{
}

/// What stands on a square: a black piece if black is there, else a red one if red is, and
/// a king exactly if the square is marked.
pub proof fn law_pieces_on_squares(p: Position, square: int)
    ensures
        piece_on(p, square) is None <==> !p.black.contains(square) && !p.red.contains(square),
        piece_on(p, square) == Some(Piece::BlackMan) <==> p.black.contains(square)
            && !p.kings.contains(square),
        piece_on(p, square) == Some(Piece::BlackKing) <==> p.black.contains(square)
            && p.kings.contains(square),
        piece_on(p, square) == Some(Piece::RedMan) <==> p.red.contains(square) && !p.black.contains(
            square,
        ) && !p.kings.contains(square),
        piece_on(p, square) == Some(Piece::RedKing) <==> p.red.contains(square)
            && !p.black.contains(square) && p.kings.contains(square),
{
}

} // verus!
