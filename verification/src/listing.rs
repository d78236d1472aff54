//! The list of legal moves: its order, that it holds no move twice, and that it is not long.
use crate::bits::{ascending, lemma_ascending_members, lemma_ascending_order};
use crate::chains::{
    is_complete_chain, is_jump, law_chain_takes_enemies_once, law_chains_are_the_complete_ones,
};
use crate::engine::{Move, Side};
use crate::geometry::{
    coords_of, law_index_then_coords, law_squares_are_numbered_in_rows, offset_of, on_board,
};
use crate::legality::{
    lemma_captures_of_origin, lemma_steps_of_origin, lemma_steps_within_dir, sides_on_board,
};
use crate::rules::{
    after_jump, can_jump, captures_fit, captures_from, captures_of, chains, chains_within,
    jump_toward, jumps_fit, lemma_branch, lemma_jump_needs_room, move_along, moves_of, slot,
    steps_of, steps_within, Jump, Position,
};
use vstd::prelude::*;

verus! {

/// Different directions of a piece lead to different squares.
proof fn lemma_directions_differ(p: Position, side: Side, at: int, i: int, j: int)
    requires
        0 <= i < j < p.dirs(side, at).len(),
    ensures
        ({
            let a = p.dirs(side, at)[i];
            let b = p.dirs(side, at)[j];
            let to = offset_of(at, a.0 as int, a.1 as int);
            to is Some ==> to != offset_of(at, b.0 as int, b.1 as int)
        }),
{
    let a = p.dirs(side, at)[i];
    let b = p.dirs(side, at)[j];
    let (row, col) = coords_of(at);
    if offset_of(at, a.0 as int, a.1 as int) is Some {
        law_index_then_coords(row + a.0, col + a.1);
    }
    if offset_of(at, b.0 as int, b.1 as int) is Some {
        law_index_then_coords(row + b.0, col + b.1);
    }
}

/// No step of a piece is listed twice.
proof fn lemma_steps_within_differ(p: Position, side: Side, at: int, n: nat, i: int, j: int)
    requires
        n <= p.dirs(side, at).len(),
        0 <= i < j < steps_within(p, side, at, n).len(),
    ensures
        steps_within(p, side, at, n)[i] != steps_within(p, side, at, n)[j],
    decreases n,
{
    let fewer = steps_within(p, side, at, (n - 1) as nat);
    if j < fewer.len() {
        lemma_steps_within_differ(p, side, at, (n - 1) as nat, i, j);
    } else {
        let d = lemma_steps_within_dir(p, side, at, (n - 1) as nat, i);
        lemma_directions_differ(p, side, at, d, n - 1);
        let a = p.dirs(side, at)[d];
        let b = p.dirs(side, at)[n - 1];
        let (row, col) = coords_of(at);
        law_index_then_coords(row + a.0, col + a.1);
        law_index_then_coords(row + b.0, col + b.1);
    }
}

/// No step of the pieces on different squares is listed twice.
proof fn lemma_steps_of_differ(p: Position, side: Side, squares: Seq<u8>, i: int, j: int)
    requires
        forall|a: int, b: int| 0 <= a < b < squares.len() ==> squares[a] < squares[b],
        0 <= i < j < steps_of(p, side, squares).len(),
    ensures
        steps_of(p, side, squares)[i] != steps_of(p, side, squares)[j],
    decreases squares.len(),
{
    let at = squares.last() as int;
    let all = p.dirs(side, at).len();
    let fewer = steps_of(p, side, squares.drop_last());
    let last = steps_within(p, side, at, all);
    if j < fewer.len() {
        lemma_steps_of_differ(p, side, squares.drop_last(), i, j);
    } else if i >= fewer.len() {
        lemma_steps_within_differ(p, side, at, all, i - fewer.len(), j - fewer.len());
    } else {
        let (s, k) = lemma_steps_of_origin(p, side, squares.drop_last(), i);
        let other = squares[s] as int;
        let d = lemma_steps_within_dir(p, side, other, p.dirs(side, other).len(), k);
        let e = lemma_steps_within_dir(p, side, at, all, j - fewer.len());
        assert(steps_of(p, side, squares)[i].from == squares[s]);
        assert(steps_of(p, side, squares)[j].from == squares.last());
    }
}

/// The first jump of a generated chain goes in one of the directions looked at.
proof fn lemma_first_jump(p: Position, side: Side, at: int, room: nat, n: nat, i: int) -> (d: int)
    requires
        n <= p.dirs(side, at).len(),
        0 <= i < chains_within(p, side, at, room, n).len(),
    ensures
        0 <= d < n,
        chains_within(p, side, at, room, n)[i].len() > 0,
        jump_toward(p, side, at, p.dirs(side, at)[d]) == Some(
            chains_within(p, side, at, room, n)[i][0],
        ),
    decreases n,
{
    let fewer = chains_within(p, side, at, room, (n - 1) as nat);
    if i < fewer.len() {
        lemma_first_jump(p, side, at, room, (n - 1) as nat, i)
    } else {
        let jump = jump_toward(p, side, at, p.dirs(side, at)[n - 1])->0;
        let tails = chains(after_jump(p, side, at, jump), side, jump.to, (room - 1) as nat);
        assert(chains_within(p, side, at, room, n)[i] == seq![jump] + tails[i - fewer.len()]);
        n - 1
    }
}

/// No chain is generated twice.
proof fn lemma_chains_differ(p: Position, side: Side, at: int, room: nat, i: int, j: int)
    requires
        jumps_fit(p, side, at, room),
        0 <= i < j < chains(p, side, at, room).len(),
    ensures
        chains(p, side, at, room)[i] != chains(p, side, at, room)[j],
    decreases room, 5nat,
{
    if can_jump(p, side, at) {
        lemma_jump_needs_room(p, side, at, room);
        lemma_chains_within_differ(p, side, at, room, p.dirs(side, at).len(), i, j);
    }
}

proof fn lemma_chains_within_differ(
    p: Position,
    side: Side,
    at: int,
    room: nat,
    n: nat,
    i: int,
    j: int,
)
    requires
        n <= p.dirs(side, at).len(),
        jumps_fit(p, side, at, room),
        0 <= i < j < chains_within(p, side, at, room, n).len(),
    ensures
        chains_within(p, side, at, room, n)[i] != chains_within(p, side, at, room, n)[j],
    decreases room, n,
{
    let list = chains_within(p, side, at, room, n);
    let fewer = chains_within(p, side, at, room, (n - 1) as nat);
    if j < fewer.len() {
        lemma_chains_within_differ(p, side, at, room, (n - 1) as nat, i, j);
    } else {
        let jump = jump_toward(p, side, at, p.dirs(side, at)[n - 1])->0;
        lemma_branch(p, side, at, room, (n - 1) as nat, jump);
        let next = after_jump(p, side, at, jump);
        let tails = chains(next, side, jump.to, (room - 1) as nat);
        let second = seq![jump] + tails[j - fewer.len()];
        assert(list[j] == second);
        if i < fewer.len() {
            let d = lemma_first_jump(p, side, at, room, (n - 1) as nat, i);
            lemma_directions_differ(p, side, at, d, n - 1);
            assert(list[i][0].over != second[0].over);
        } else {
            let first = seq![jump] + tails[i - fewer.len()];
            assert(list[i] == first);
            lemma_chains_differ(
                next,
                side,
                jump.to,
                (room - 1) as nat,
                i - fewer.len(),
                j - fewer.len(),
            );
            assert(first.drop_first() =~= tails[i - fewer.len()]);
            assert(second.drop_first() =~= tails[j - fewer.len()]);
        }
    }
}

/// A jump is known by the square it goes over.
proof fn lemma_jump_by_over(p: Position, side: Side, at: int, a: Jump, b: Jump)
    requires
        is_jump(p, side, at, a),
        is_jump(p, side, at, b),
        a.over == b.over,
    ensures
        a == b,
{
    let dirs = p.dirs(side, at);
    let i = choose|i: int|
        0 <= i < dirs.len() && jump_toward(p, side, at, #[trigger] dirs[i]) == Some(a);
    let j = choose|j: int|
        0 <= j < dirs.len() && jump_toward(p, side, at, #[trigger] dirs[j]) == Some(b);
    if i < j {
        lemma_directions_differ(p, side, at, i, j);
    }
    if j < i {
        lemma_directions_differ(p, side, at, j, i);
    }
}

/// A chain is known by the squares it goes over.
proof fn lemma_chain_by_overs(p: Position, side: Side, at: int, a: Seq<Jump>, b: Seq<Jump>)
    requires
        is_complete_chain(p, side, at, a),
        is_complete_chain(p, side, at, b),
        a.len() == b.len(),
        forall|k: int| 0 <= k < a.len() ==> (#[trigger] a[k]).over == b[k].over,
    ensures
        a == b,
    decreases a.len(),
{
    if a.len() > 0 {
        lemma_jump_by_over(p, side, at, a[0], b[0]);
        let next = after_jump(p, side, at, a[0]);
        assert forall|k: int| 0 <= k < a.drop_first().len() implies (#[trigger] a.drop_first()[k]).over
            == b.drop_first()[k].over by {
            assert(a.drop_first()[k] == a[k + 1]);
        }
        lemma_chain_by_overs(next, side, a[0].to, a.drop_first(), b.drop_first());
        assert(a =~= seq![a[0]] + a.drop_first());
        assert(b =~= seq![b[0]] + b.drop_first());
    } else {
        assert(a =~= b);
    }
}

/// Different chains have different records.
proof fn lemma_records_differ(p: Position, side: Side, at: int, a: Seq<Jump>, b: Seq<Jump>)
    requires
        on_board(at),
        jumps_fit(p, side, at, 7),
        is_complete_chain(p, side, at, a),
        is_complete_chain(p, side, at, b),
        move_along(at, a) == move_along(at, b),
    ensures
        a == b,
{
    law_chain_takes_enemies_once(p, side, at, 7, a);
    law_chain_takes_enemies_once(p, side, at, 7, b);
    assert(a.len() == b.len());
    let first = move_along(at, a).captures;
    let second = move_along(at, b).captures;
    assert forall|k: int| 0 <= k < a.len() implies (#[trigger] a[k]).over == b[k].over by {
        assert(first@[k] == slot(a, k));
        assert(second@[k] == slot(b, k));
    }
    lemma_chain_by_overs(p, side, at, a, b);
}

/// No capture of the pieces on different squares is listed twice.
proof fn lemma_captures_of_differ(p: Position, side: Side, squares: Seq<u8>, i: int, j: int)
    requires
        forall|a: int, b: int| 0 <= a < b < squares.len() ==> squares[a] < squares[b],
        forall|a: int|
            0 <= a < squares.len() ==> on_board(#[trigger] squares[a] as int) && jumps_fit(
                p,
                side,
                squares[a] as int,
                7,
            ),
        0 <= i < j < captures_of(p, side, squares).len(),
    ensures
        captures_of(p, side, squares)[i] != captures_of(p, side, squares)[j],
    decreases squares.len(),
{
    let at = squares.last() as int;
    let fewer = captures_of(p, side, squares.drop_last());
    let last = captures_from(p, side, at);
    if j < fewer.len() {
        lemma_captures_of_differ(p, side, squares.drop_last(), i, j);
    } else if i >= fewer.len() {
        let list = chains(p, side, at, 7);
        let k = i - fewer.len();
        let l = j - fewer.len();
        assert(jumps_fit(p, side, squares[squares.len() - 1] as int, 7));
        lemma_chains_differ(p, side, at, 7, k, l);
        assert(list.contains(list[k]) && list.contains(list[l]));
        law_chains_are_the_complete_ones(p, side, at, 7, list[k]);
        law_chains_are_the_complete_ones(p, side, at, 7, list[l]);
        assert(Seq::<Jump>::empty() + list[k] =~= list[k]);
        assert(Seq::<Jump>::empty() + list[l] =~= list[l]);
        if last[k] == last[l] {
            lemma_records_differ(p, side, at, list[k], list[l]);
        }
    } else {
        let (s, k) = lemma_captures_of_origin(p, side, squares.drop_last(), i);
        assert(captures_of(p, side, squares)[i].from == squares[s]);
        assert(captures_of(p, side, squares)[j].from == squares.last());
    }
}

/// The list of legal moves holds no move twice.
pub proof fn law_moves_are_listed_once(p: Position, side: Side)
    requires
        sides_on_board(p),
        captures_fit(p, side),
    ensures
        moves_of(p, side).no_duplicates(),
{
    let squares = ascending(p.of(side), 32);
    assert forall|a: int, b: int| 0 <= a < b < squares.len() implies squares[a] < squares[b] by {
        lemma_ascending_order(p.of(side), 32, a, b);
    }
    assert forall|a: int| 0 <= a < squares.len() implies on_board(#[trigger] squares[a] as int)
        && jumps_fit(p, side, squares[a] as int, 7) by {
        lemma_ascending_members(p.of(side), 32, a);
    }
    let moves = moves_of(p, side);
    assert forall|i: int, j: int| 0 <= i < j < moves.len() implies moves[i] != moves[j] by {
        if captures_of(p, side, squares).len() > 0 {
            lemma_captures_of_differ(p, side, squares, i, j);
        } else {
            lemma_steps_of_differ(p, side, squares, i, j);
        }
    }
    assert forall|i: int, j: int| 0 <= i < moves.len() && 0 <= j < moves.len() && i
        != j implies moves[i] != moves[j] by {
        if i > j {
            assert(moves[j] != moves[i]);
        }
    }
}

/// The room that `room` further jumps leave for different chains: four for each jump.
spec fn fourfold(room: nat) -> nat
    decreases room,
{
    if room == 0 {
        1
    } else {
        4 * fourfold((room - 1) as nat)
    }
}

/// There is at least one way.
proof fn lemma_fourfold_positive(room: nat)
    ensures
        fourfold(room) >= 1,
    decreases room,
{
    if room > 0 {
        lemma_fourfold_positive((room - 1) as nat);
    }
}

/// Each jump has at most four directions.
proof fn lemma_chains_are_few(p: Position, side: Side, at: int, room: nat)
    ensures
        chains(p, side, at, room).len() <= fourfold(room),
    decreases room, 5nat,
{
    lemma_fourfold_positive(room);
    if room > 0 && can_jump(p, side, at) {
        lemma_chains_within_are_few(p, side, at, room, p.dirs(side, at).len());
        let rest = fourfold((room - 1) as nat);
        let n = p.dirs(side, at).len();
        assert(n * rest <= 4 * rest) by (nonlinear_arith)
            requires
                n <= 4,
                rest >= 0,
        ;
    }
}

proof fn lemma_chains_within_are_few(p: Position, side: Side, at: int, room: nat, n: nat)
    requires
        room > 0,
        n <= 4,
    ensures
        chains_within(p, side, at, room, n).len() <= n * fourfold((room - 1) as nat),
    decreases room, n,
{
    let rest = fourfold((room - 1) as nat);
    if n > 0 {
        lemma_chains_within_are_few(p, side, at, room, (n - 1) as nat);
        if let Some(jump) = jump_toward(p, side, at, p.dirs(side, at)[n - 1]) {
            lemma_chains_are_few(
                after_jump(p, side, at, jump),
                side,
                jump.to,
                (room - 1) as nat,
            );
        }
        assert((n - 1) * rest + rest == n * rest) by (nonlinear_arith);
    }
}

/// A list of squares up to a bound is no longer than the bound.
proof fn lemma_ascending_is_short(squares: Set<int>, bound: nat)
    ensures
        ascending(squares, bound).len() <= bound,
    decreases bound,
{
    if bound > 0 {
        lemma_ascending_is_short(squares, (bound - 1) as nat);
    }
}

/// The captures of a few pieces are few.
proof fn lemma_captures_are_few(p: Position, side: Side, squares: Seq<u8>)
    ensures
        captures_of(p, side, squares).len() <= 16384 * squares.len(),
    decreases squares.len(),
{
    if squares.len() > 0 {
        lemma_captures_are_few(p, side, squares.drop_last());
        lemma_chains_are_few(p, side, squares.last() as int, 7);
        reveal_with_fuel(fourfold, 8);
    }
}

/// The steps of a piece are no more than its directions.
proof fn lemma_steps_within_are_few(p: Position, side: Side, at: int, n: nat)
    ensures
        steps_within(p, side, at, n).len() <= n,
    decreases n,
{
    if n > 0 {
        lemma_steps_within_are_few(p, side, at, (n - 1) as nat);
    }
}

/// The steps of a few pieces are few.
proof fn lemma_steps_are_few(p: Position, side: Side, squares: Seq<u8>)
    ensures
        steps_of(p, side, squares).len() <= 4 * squares.len(),
    decreases squares.len(),
{
    if squares.len() > 0 {
        let at = squares.last() as int;
        lemma_steps_are_few(p, side, squares.drop_last());
        lemma_steps_within_are_few(p, side, at, p.dirs(side, at).len());
    }
}

/// There are never more legal moves than thirty-two pieces can have with chains of seven
/// jumps in four directions.
pub proof fn law_moves_are_few(p: Position, side: Side)
    ensures
        moves_of(p, side).len() <= 32 * 16384,
{
    let squares = ascending(p.of(side), 32);
    lemma_ascending_is_short(p.of(side), 32);
    lemma_captures_are_few(p, side, squares);
    lemma_steps_are_few(p, side, squares);
}

/// Whether a move stands before another one in a list of legal moves: by its origin, then,
/// for steps, by its target, and for captures by the first captured square in which the two
/// differ.
pub open spec fn precedes(a: Move, b: Move) -> bool {
    ||| a.from < b.from
    ||| {
        &&& a.from == b.from
        &&& a.capture_len == 0 && b.capture_len == 0
        &&& a.to < b.to
    }
    ||| {
        &&& a.from == b.from
        &&& exists|k: int|
            {
                &&& 0 <= k < 7
                &&& #[trigger] a.captures@[k] is Some && b.captures@[k] is Some
                &&& a.captures@[k]->0 < b.captures@[k]->0
                &&& forall|l: int| 0 <= l < k ==> #[trigger] a.captures@[l] == b.captures@[l]
            }
    }
}

/// Whether a chain stands before another one: by the first square jumped over in which the
/// two differ.
spec fn comes_first(a: Seq<Jump>, b: Seq<Jump>) -> bool {
    exists|k: int|
        {
            &&& 0 <= k < a.len()
            &&& k < b.len()
            &&& (#[trigger] a[k]).over < b[k].over
            &&& forall|l: int| 0 <= l < k ==> (#[trigger] a[l]).over == b[l].over
        }
}

/// Later directions lead to later squares.
proof fn lemma_directions_rise(p: Position, side: Side, at: int, i: int, j: int)
    requires
        0 <= i < j < p.dirs(side, at).len(),
    ensures
        ({
            let a = p.dirs(side, at)[i];
            let b = p.dirs(side, at)[j];
            let first = offset_of(at, a.0 as int, a.1 as int);
            let second = offset_of(at, b.0 as int, b.1 as int);
            first is Some && second is Some ==> 0 <= first->0 < second->0 < 32
        }),
{
    let a = p.dirs(side, at)[i];
    let b = p.dirs(side, at)[j];
    let (row, col) = coords_of(at);
    law_squares_are_numbered_in_rows(row + a.0, col + a.1, row + b.0, col + b.1);
    law_squares_are_numbered_in_rows(row + b.0, col + b.1, row + a.0, col + a.1);
}

/// The steps of a piece rise.
proof fn lemma_steps_within_rise(p: Position, side: Side, at: int, n: nat, i: int, j: int)
    requires
        n <= p.dirs(side, at).len(),
        0 <= i < j < steps_within(p, side, at, n).len(),
    ensures
        steps_within(p, side, at, n)[i].from == steps_within(p, side, at, n)[j].from,
        steps_within(p, side, at, n)[i].capture_len == 0,
        steps_within(p, side, at, n)[j].capture_len == 0,
        steps_within(p, side, at, n)[i].to < steps_within(p, side, at, n)[j].to,
    decreases n,
{
    let fewer = steps_within(p, side, at, (n - 1) as nat);
    if j < fewer.len() {
        lemma_steps_within_rise(p, side, at, (n - 1) as nat, i, j);
    } else {
        let d = lemma_steps_within_dir(p, side, at, (n - 1) as nat, i);
        lemma_directions_rise(p, side, at, d, n - 1);
    }
}

/// The steps of the pieces on rising squares rise.
proof fn lemma_steps_of_rise(p: Position, side: Side, squares: Seq<u8>, i: int, j: int)
    requires
        forall|a: int, b: int| 0 <= a < b < squares.len() ==> squares[a] < squares[b],
        0 <= i < j < steps_of(p, side, squares).len(),
    ensures
        precedes(steps_of(p, side, squares)[i], steps_of(p, side, squares)[j]),
    decreases squares.len(),
{
    let at = squares.last() as int;
    let all = p.dirs(side, at).len();
    let fewer = steps_of(p, side, squares.drop_last());
    if j < fewer.len() {
        lemma_steps_of_rise(p, side, squares.drop_last(), i, j);
    } else if i >= fewer.len() {
        lemma_steps_within_rise(p, side, at, all, i - fewer.len(), j - fewer.len());
    } else {
        let (s, k) = lemma_steps_of_origin(p, side, squares.drop_last(), i);
        let other = squares[s] as int;
        let d = lemma_steps_within_dir(p, side, other, p.dirs(side, other).len(), k);
        let e = lemma_steps_within_dir(p, side, at, all, j - fewer.len());
        assert(steps_of(p, side, squares)[i].from == squares[s]);
        assert(steps_of(p, side, squares)[j].from == squares.last());
    }
}

/// The chains of a piece rise.
proof fn lemma_chains_rise(p: Position, side: Side, at: int, room: nat, i: int, j: int)
    requires
        jumps_fit(p, side, at, room),
        0 <= i < j < chains(p, side, at, room).len(),
    ensures
        comes_first(chains(p, side, at, room)[i], chains(p, side, at, room)[j]),
    decreases room, 5nat,
{
    if can_jump(p, side, at) {
        lemma_jump_needs_room(p, side, at, room);
        lemma_chains_within_rise(p, side, at, room, p.dirs(side, at).len(), i, j);
    }
}

proof fn lemma_chains_within_rise(
    p: Position,
    side: Side,
    at: int,
    room: nat,
    n: nat,
    i: int,
    j: int,
)
    requires
        n <= p.dirs(side, at).len(),
        jumps_fit(p, side, at, room),
        0 <= i < j < chains_within(p, side, at, room, n).len(),
    ensures
        comes_first(
            chains_within(p, side, at, room, n)[i],
            chains_within(p, side, at, room, n)[j],
        ),
    decreases room, n,
{
    let list = chains_within(p, side, at, room, n);
    let fewer = chains_within(p, side, at, room, (n - 1) as nat);
    if j < fewer.len() {
        lemma_chains_within_rise(p, side, at, room, (n - 1) as nat, i, j);
    } else {
        let jump = jump_toward(p, side, at, p.dirs(side, at)[n - 1])->0;
        lemma_branch(p, side, at, room, (n - 1) as nat, jump);
        let next = after_jump(p, side, at, jump);
        let tails = chains(next, side, jump.to, (room - 1) as nat);
        let second = seq![jump] + tails[j - fewer.len()];
        assert(list[j] == second);
        if i < fewer.len() {
            let d = lemma_first_jump(p, side, at, room, (n - 1) as nat, i);
            lemma_directions_rise(p, side, at, d, n - 1);
            assert(list[i][0].over < second[0].over);
        } else {
            let a = tails[i - fewer.len()];
            let b = tails[j - fewer.len()];
            let first = seq![jump] + a;
            assert(list[i] == first);
            lemma_chains_rise(
                next,
                side,
                jump.to,
                (room - 1) as nat,
                i - fewer.len(),
                j - fewer.len(),
            );
            let k = choose|k: int|
                {
                    &&& 0 <= k < a.len()
                    &&& k < b.len()
                    &&& (#[trigger] a[k]).over < b[k].over
                    &&& forall|l: int| 0 <= l < k ==> (#[trigger] a[l]).over == b[l].over
                };
            assert(first[k + 1] == a[k] && second[k + 1] == b[k]);
            assert forall|l: int| 0 <= l < k + 1 implies (#[trigger] first[l]).over
                == second[l].over by {
                if l > 0 {
                    assert(first[l] == a[l - 1] && second[l] == b[l - 1]);
                }
            }
        }
    }
}

/// Records stand in the order of their chains.
#[verifier::spinoff_prover]
#[verifier::rlimit(60)]
proof fn lemma_records_rise(p: Position, side: Side, at: int, a: Seq<Jump>, b: Seq<Jump>)
    requires
        on_board(at),
        jumps_fit(p, side, at, 7),
        is_complete_chain(p, side, at, a),
        is_complete_chain(p, side, at, b),
        comes_first(a, b),
    ensures
        precedes(move_along(at, a), move_along(at, b)),
{
    law_chain_takes_enemies_once(p, side, at, 7, a);
    law_chain_takes_enemies_once(p, side, at, 7, b);
    let first = move_along(at, a).captures;
    let second = move_along(at, b).captures;
    let k = choose|k: int|
        {
            &&& 0 <= k < a.len()
            &&& k < b.len()
            &&& (#[trigger] a[k]).over < b[k].over
            &&& forall|l: int| 0 <= l < k ==> (#[trigger] a[l]).over == b[l].over
        };
    assert forall|l: int| 0 <= l < 7 implies first@[l] == slot(a, l) && second@[l] == slot(
        b,
        l,
    ) by {}
    assert(on_board(a[k].over) && on_board(b[k].over));
    assert forall|l: int| 0 <= l < k implies #[trigger] first@[l] == second@[l] by {
        assert(a[l].over == b[l].over);
    }
    assert(first@[k] is Some && second@[k] is Some);
    assert(first@[k]->0 < second@[k]->0);
}

/// The captures of the pieces on rising squares rise.
proof fn lemma_captures_of_rise(p: Position, side: Side, squares: Seq<u8>, i: int, j: int)
    requires
        forall|a: int, b: int| 0 <= a < b < squares.len() ==> squares[a] < squares[b],
        forall|a: int|
            0 <= a < squares.len() ==> on_board(#[trigger] squares[a] as int) && jumps_fit(
                p,
                side,
                squares[a] as int,
                7,
            ),
        0 <= i < j < captures_of(p, side, squares).len(),
    ensures
        precedes(captures_of(p, side, squares)[i], captures_of(p, side, squares)[j]),
    decreases squares.len(),
{
    let at = squares.last() as int;
    let fewer = captures_of(p, side, squares.drop_last());
    let last = captures_from(p, side, at);
    if j < fewer.len() {
        lemma_captures_of_rise(p, side, squares.drop_last(), i, j);
    } else if i >= fewer.len() {
        let list = chains(p, side, at, 7);
        let k = i - fewer.len();
        let l = j - fewer.len();
        assert(jumps_fit(p, side, squares[squares.len() - 1] as int, 7));
        lemma_chains_rise(p, side, at, 7, k, l);
        assert(list.contains(list[k]) && list.contains(list[l]));
        law_chains_are_the_complete_ones(p, side, at, 7, list[k]);
        law_chains_are_the_complete_ones(p, side, at, 7, list[l]);
        assert(Seq::<Jump>::empty() + list[k] =~= list[k]);
        assert(Seq::<Jump>::empty() + list[l] =~= list[l]);
        lemma_records_rise(p, side, at, list[k], list[l]);
        assert(last[k] == move_along(at, list[k]) && last[l] == move_along(at, list[l]));
    } else {
        let (s, k) = lemma_captures_of_origin(p, side, squares.drop_last(), i);
        assert(captures_of(p, side, squares)[i].from == squares[s]);
        assert(captures_of(p, side, squares)[j].from == squares.last());
    }
}

/// The legal moves are listed in order: by origin, then steps by target and captures by
/// what they take first.
pub proof fn law_moves_are_in_order(p: Position, side: Side, i: int, j: int)
    requires
        sides_on_board(p),
        captures_fit(p, side),
        0 <= i < j < moves_of(p, side).len(),
    ensures
        precedes(moves_of(p, side)[i], moves_of(p, side)[j]),
{
    let squares = ascending(p.of(side), 32);
    assert forall|a: int, b: int| 0 <= a < b < squares.len() implies squares[a] < squares[b] by {
        lemma_ascending_order(p.of(side), 32, a, b);
    }
    assert forall|a: int| 0 <= a < squares.len() implies on_board(#[trigger] squares[a] as int)
        && jumps_fit(p, side, squares[a] as int, 7) by {
        lemma_ascending_members(p.of(side), 32, a);
    }
    if captures_of(p, side, squares).len() > 0 {
        lemma_captures_of_rise(p, side, squares, i, j);
    } else {
        lemma_steps_of_rise(p, side, squares, i, j);
    }
}

} // verus!
