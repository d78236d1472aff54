//! The legal moves, told over rows, columns and occupied fields.
use crate::chains::{
    is_complete_chain, is_jump, law_chain_takes_enemies_once, lemma_jump_geometry,
};
use crate::engine::{lemma_starting_bits, opening, GameState, Move, Side};
use crate::geometry::{coords_of, law_coords_then_index, law_index_then_coords, on_board};
use crate::legality::{
    is_capture, is_capture_along, is_step, law_captures_are_forced, lemma_some_chain, must_capture,
    sides_on_board,
};
use crate::rules::{
    after_jump, can_jump, captures_fit, jump_toward, jumps_fit, landing, lemma_branch, move_along,
    moves_of, quiet_move, slot, step_toward, Jump, Position,
};
use vstd::prelude::*;

verus! {

/// Whether a field is one that pieces stand on.
pub open spec fn playable(row: int, col: int) -> bool {
    0 <= row < 8 && 0 <= col < 8 && (row + col) % 2 == 1
}

/// The number of a playable field: they are counted row by row.
pub open spec fn number(row: int, col: int) -> int {
    row * 4 + col / 2
}

/// A board as the player to move sees it: the own pieces, the enemy's, which fields are
/// marked as holding kings, where the own men are headed, and the row on which they are
/// crowned.
#[verifier::ext_equal]
pub struct Camps {
    pub own: Set<int>,
    pub enemy: Set<int>,
    pub kings: Set<int>,
    pub forward: int,
    pub last_row: int,
}

/// The board as a side sees it. Black goes up to the first row, red down to the last.
pub open spec fn camps(p: Position, side: Side) -> Camps {
    match side {
        Side::Black => Camps {
            own: p.black,
            enemy: p.red,
            kings: p.kings,
            forward: -1,
            last_row: 0,
        },
        Side::Red => Camps {
            own: p.red,
            enemy: p.black,
            kings: p.kings,
            forward: 1,
            last_row: 7,
        },
    }
}

impl Camps {
    /// Whether the piece on a field may go in a direction at all.
    pub open spec fn heads(self, row: int, col: int, dr: int, dc: int) -> bool {
        &&& dr == 1 || dr == -1
        &&& dc == 1 || dc == -1
        &&& dr == self.forward || self.kings.contains(number(row, col))
    }

    /// Whether nothing stands on a field.
    pub open spec fn is_free(self, row: int, col: int) -> bool {
        !self.own.contains(number(row, col)) && !self.enemy.contains(number(row, col))
    }

    /// Whether the piece on a field can jump in a direction: an enemy stands on the next
    /// field, and the one behind is on the board and free.
    pub open spec fn may_jump(self, row: int, col: int, dr: int, dc: int) -> bool {
        &&& self.heads(row, col, dr, dc)
        &&& 0 <= row + 2 * dr < 8
        &&& 0 <= col + 2 * dc < 8
        &&& self.enemy.contains(number(row + dr, col + dc))
        &&& self.is_free(row + 2 * dr, col + 2 * dc)
    }

    /// Whether the piece on a field can step in a direction: the next field is on the
    /// board and free.
    pub open spec fn may_step(self, row: int, col: int, dr: int, dc: int) -> bool {
        &&& self.heads(row, col, dr, dc)
        &&& 0 <= row + dr < 8
        &&& 0 <= col + dc < 8
        &&& self.is_free(row + dr, col + dc)
    }

    /// The board after a jump.
    pub open spec fn hop(self, row: int, col: int, dr: int, dc: int) -> Camps {
        let from = number(row, col);
        let over = number(row + dr, col + dc);
        let to = number(row + 2 * dr, col + 2 * dc);
        let kings = self.kings.remove(from).remove(over);
        Camps {
            own: self.own.remove(from).insert(to).remove(over),
            enemy: self.enemy.remove(over),
            kings: if self.kings.contains(from) || row + 2 * dr == self.last_row {
                kings.insert(to)
            } else {
                kings
            },
            ..self
        }
    }

    /// Whether the piece on a field can make jumps in the given directions one after the
    /// other.
    pub open spec fn is_walk(self, row: int, col: int, dirs: Seq<(int, int)>) -> bool
        decreases dirs.len(),
    {
        dirs.len() > 0 ==> {
            let (dr, dc) = dirs[0];
            &&& self.may_jump(row, col, dr, dc)
            &&& self.hop(row, col, dr, dc).is_walk(row + 2 * dr, col + 2 * dc, dirs.drop_first())
        }
    }

    /// Whether the piece on a field can make jumps in the given directions one after the
    /// other, and cannot jump on from where it ends.
    pub open spec fn is_full_walk(self, row: int, col: int, dirs: Seq<(int, int)>) -> bool
        decreases dirs.len(),
    {
        if dirs.len() == 0 {
            forall|dr: int, dc: int| !#[trigger] self.may_jump(row, col, dr, dc)
        } else {
            let (dr, dc) = dirs[0];
            &&& self.may_jump(row, col, dr, dc)
            &&& self.hop(row, col, dr, dc).is_full_walk(
                row + 2 * dr,
                col + 2 * dc,
                dirs.drop_first(),
            )
        }
    }

    /// Whether some own piece can jump.
    pub open spec fn someone_jumps(self) -> bool {
        exists|row: int, col: int, dr: int, dc: int|
            playable(row, col) && self.own.contains(number(row, col)) && #[trigger] self.may_jump(
                row,
                col,
                dr,
                dc,
            )
    }
}

/// The fields that jumps in the given directions go over.
pub open spec fn taken_on(row: int, col: int, dirs: Seq<(int, int)>) -> Seq<int>
    decreases dirs.len(),
{
    if dirs.len() == 0 {
        Seq::empty()
    } else {
        let (dr, dc) = dirs[0];
        seq![number(row + dr, col + dc)] + taken_on(
            row + 2 * dr,
            col + 2 * dc,
            dirs.drop_first(),
        )
    }
}

/// The field on which jumps in the given directions end.
pub open spec fn end_of(row: int, col: int, dirs: Seq<(int, int)>) -> int
    decreases dirs.len(),
{
    if dirs.len() == 0 {
        number(row, col)
    } else {
        let (dr, dc) = dirs[0];
        end_of(row + 2 * dr, col + 2 * dc, dirs.drop_first())
    }
}

/// Whether a move is the record of a walk: it names the fields where the walk begins and
/// ends, and in its first slots the fields that are jumped over, in their order.
pub open spec fn records_walk(mv: Move, row: int, col: int, dirs: Seq<(int, int)>) -> bool {
    &&& mv.from == number(row, col)
    &&& mv.to == end_of(row, col, dirs)
    &&& mv.capture_len == dirs.len()
    &&& dirs.len() <= 7
    &&& forall|i: int|
        0 <= i < 7 ==> #[trigger] mv.captures@[i] == if i < dirs.len() {
            Some(taken_on(row, col, dirs)[i] as u8)
        } else {
            None
        }
}

/// Whether a move is the record of a capture: of a piece of its own, walking as far as it
/// can.
pub open spec fn is_full_capture(c: Camps, mv: Move) -> bool {
    exists|row: int, col: int, dirs: Seq<(int, int)>|
        {
            &&& playable(row, col)
            &&& c.own.contains(number(row, col))
            &&& dirs.len() > 0
            &&& #[trigger] c.is_full_walk(row, col, dirs)
            &&& records_walk(mv, row, col, dirs)
        }
}

/// Whether a move is the record of a step.
pub open spec fn is_plain_step(c: Camps, mv: Move) -> bool {
    exists|row: int, col: int, dr: int, dc: int|
        {
            &&& playable(row, col)
            &&& c.own.contains(number(row, col))
            &&& #[trigger] c.may_step(row, col, dr, dc)
            &&& mv.from == number(row, col)
            &&& mv.to == number(row + dr, col + dc)
            &&& mv.capture_len == 0
            &&& forall|i: int| 0 <= i < 7 ==> #[trigger] mv.captures@[i] is None
        }
}

/// A jump in a direction, found or told over fields, is the same.
#[verifier::spinoff_prover]
#[verifier::rlimit(60)]
proof fn lemma_jump_on_fields(p: Position, side: Side, at: int, dr: int, dc: int)
    requires
        on_board(at),
    ensures
        ({
            let (row, col) = coords_of(at);
            let jump = Jump {
                over: number(row + dr, col + dc),
                to: number(row + 2 * dr, col + 2 * dc),
            };
            &&& camps(p, side).may_jump(row, col, dr, dc) ==> {
                &&& is_jump(p, side, at, jump)
                &&& on_board(jump.to)
                &&& coords_of(jump.to) == (row + 2 * dr, col + 2 * dc)
                &&& camps(after_jump(p, side, at, jump), side) == camps(p, side).hop(
                    row,
                    col,
                    dr,
                    dc,
                )
                &&& exists|d: int|
                    0 <= d < p.dirs(side, at).len() && jump_toward(
                        p,
                        side,
                        at,
                        #[trigger] p.dirs(side, at)[d],
                    ) == Some(jump)
            }
        }),
{
    let (row, col) = coords_of(at);
    let c = camps(p, side);
    let jump = Jump { over: number(row + dr, col + dc), to: number(row + 2 * dr, col + 2 * dc) };
    law_coords_then_index(at);
    if c.may_jump(row, col, dr, dc) {
        let king = p.kings.contains(at);
        let d: int = if king {
            dr + 1 + (dc + 1) / 2
        } else {
            (dc + 1) / 2
        };
        assert(p.dirs(side, at)[d] == (dr as i8, dc as i8));
        law_index_then_coords(row + dr, col + dc);
        law_index_then_coords(row + 2 * dr, col + 2 * dc);
        assert(jump_toward(p, side, at, p.dirs(side, at)[d]) == Some(jump));
        let next = camps(after_jump(p, side, at, jump), side);
        let hopped = c.hop(row, col, dr, dc);
        assert(next.own =~= hopped.own);
        assert(next.enemy =~= hopped.enemy);
        assert(next.kings =~= hopped.kings);
        assert(next =~= hopped);
    }
}

/// Every jump goes in some direction over fields.
proof fn lemma_jump_has_direction(p: Position, side: Side, at: int, jump: Jump) -> (dir: (int, int))
    requires
        on_board(at),
        is_jump(p, side, at, jump),
    ensures
        ({
            let (row, col) = coords_of(at);
            let (dr, dc) = dir;
            &&& camps(p, side).may_jump(row, col, dr, dc)
            &&& jump.over == number(row + dr, col + dc)
            &&& jump.to == number(row + 2 * dr, col + 2 * dc)
            &&& coords_of(jump.over) == (row + dr, col + dc)
        }),
{
    let dirs = p.dirs(side, at);
    let d = choose|d: int|
        0 <= d < dirs.len() && jump_toward(p, side, at, #[trigger] dirs[d]) == Some(jump);
    let (dr, dc) = dirs[d];
    let (row, col) = coords_of(at);
    law_coords_then_index(at);
    law_index_then_coords(row + dr, col + dc);
    law_index_then_coords(row + dr * 2, col + dc * 2);
    lemma_jump_geometry(p, side, at, jump);
    (dr as int, dc as int)
}

/// Where there is no jump there is none over fields, and the other way round.
proof fn lemma_can_jump_on_fields(p: Position, side: Side, at: int)
    requires
        on_board(at),
    ensures
        can_jump(p, side, at) <==> exists|dr: int, dc: int| #[trigger]
            camps(p, side).may_jump(coords_of(at).0, coords_of(at).1, dr, dc),
{
    let (row, col) = coords_of(at);
    let c = camps(p, side);
    if can_jump(p, side, at) {
        let dirs = p.dirs(side, at);
        let d = choose|d: int|
            0 <= d < dirs.len() && jump_toward(p, side, at, #[trigger] dirs[d]) is Some;
        let jump = jump_toward(p, side, at, dirs[d])->0;
        assert(is_jump(p, side, at, jump)) by {
            assert(jump_toward(p, side, at, p.dirs(side, at)[d]) == Some(jump));
        }
        let (dr, dc) = lemma_jump_has_direction(p, side, at, jump);
        assert(c.may_jump(row, col, dr, dc));
    }
    if exists|dr: int, dc: int| #[trigger] c.may_jump(row, col, dr, dc) {
        let (dr, dc) = choose|dr: int, dc: int| #[trigger] c.may_jump(row, col, dr, dc);
        lemma_jump_on_fields(p, side, at, dr, dc);
        let d = choose|d: int|
            0 <= d < p.dirs(side, at).len() && jump_toward(
                p,
                side,
                at,
                #[trigger] p.dirs(side, at)[d],
            ) is Some;
        assert(jump_toward(p, side, at, p.dirs(side, at)[d]) is Some);
    }
}

/// A complete chain is a full walk.
proof fn lemma_chain_walks(p: Position, side: Side, at: int, chain: Seq<Jump>) -> (dirs: Seq<
    (int, int),
>)
    requires
        on_board(at),
        is_complete_chain(p, side, at, chain),
    ensures
        camps(p, side).is_full_walk(coords_of(at).0, coords_of(at).1, dirs),
        dirs.len() == chain.len(),
        end_of(coords_of(at).0, coords_of(at).1, dirs) == landing(at, chain),
        taken_on(coords_of(at).0, coords_of(at).1, dirs) == chain.map_values(|j: Jump| j.over),
    decreases chain.len(),
{
    let (row, col) = coords_of(at);
    let c = camps(p, side);
    law_coords_then_index(at);
    if chain.len() == 0 {
        lemma_can_jump_on_fields(p, side, at);
        let dirs = Seq::<(int, int)>::empty();
        assert(taken_on(row, col, dirs) =~= chain.map_values(|j: Jump| j.over));
        assert(c.is_full_walk(row, col, dirs));
        dirs
    } else {
        let jump = chain[0];
        let dir = lemma_jump_has_direction(p, side, at, jump);
        let (dr, dc) = dir;
        lemma_jump_on_fields(p, side, at, dr, dc);
        let next = after_jump(p, side, at, jump);
        let tail = chain.drop_first();
        let rest = lemma_chain_walks(next, side, jump.to, tail);
        let dirs = seq![dir] + rest;
        assert(dirs.drop_first() =~= rest);
        assert(dirs[0] == dir);
        if tail.len() > 0 {
            assert(tail.last() == chain.last());
        }
        let overs = chain.map_values(|j: Jump| j.over);
        assert(overs =~= seq![jump.over] + tail.map_values(|j: Jump| j.over));
        assert(taken_on(row, col, dirs) =~= overs);
        dirs
    }
}

/// A full walk is a complete chain.
proof fn lemma_walk_chains(p: Position, side: Side, at: int, dirs: Seq<(int, int)>) -> (chain: Seq<
    Jump,
>)
    requires
        on_board(at),
        camps(p, side).is_full_walk(coords_of(at).0, coords_of(at).1, dirs),
    ensures
        is_complete_chain(p, side, at, chain),
        dirs.len() == chain.len(),
        end_of(coords_of(at).0, coords_of(at).1, dirs) == landing(at, chain),
        taken_on(coords_of(at).0, coords_of(at).1, dirs) == chain.map_values(|j: Jump| j.over),
    decreases dirs.len(),
{
    let (row, col) = coords_of(at);
    law_coords_then_index(at);
    if dirs.len() == 0 {
        lemma_can_jump_on_fields(p, side, at);
        let chain = Seq::<Jump>::empty();
        assert(taken_on(row, col, dirs) =~= chain.map_values(|j: Jump| j.over));
        chain
    } else {
        let (dr, dc) = dirs[0];
        lemma_jump_on_fields(p, side, at, dr, dc);
        let jump = Jump {
            over: number(row + dr, col + dc),
            to: number(row + 2 * dr, col + 2 * dc),
        };
        let next = after_jump(p, side, at, jump);
        let rest = lemma_walk_chains(next, side, jump.to, dirs.drop_first());
        let chain = seq![jump] + rest;
        assert(chain.drop_first() =~= rest);
        assert(chain[0] == jump);
        if rest.len() > 0 {
            assert(rest.last() == chain.last());
        }
        let overs = chain.map_values(|j: Jump| j.over);
        assert(overs =~= seq![jump.over] + rest.map_values(|j: Jump| j.over));
        assert(taken_on(row, col, dirs) =~= overs);
        chain
    }
}

/// The record of a chain is the record of its walk.
proof fn lemma_records_agree(
    p: Position,
    side: Side,
    mv: Move,
    at: int,
    chain: Seq<Jump>,
    dirs: Seq<(int, int)>,
)
    requires
        on_board(at),
        jumps_fit(p, side, at, 7),
        is_complete_chain(p, side, at, chain),
        dirs.len() == chain.len(),
        end_of(coords_of(at).0, coords_of(at).1, dirs) == landing(at, chain),
        taken_on(coords_of(at).0, coords_of(at).1, dirs) == chain.map_values(|j: Jump| j.over),
    ensures
        mv == move_along(at, chain) <==> records_walk(mv, coords_of(at).0, coords_of(at).1, dirs),
{
    let (row, col) = coords_of(at);
    law_coords_then_index(at);
    law_chain_takes_enemies_once(p, side, at, 7, chain);
    let record = move_along(at, chain);
    let overs = chain.map_values(|j: Jump| j.over);
    if chain.len() > 0 {
        assert(chain.last() == chain[chain.len() - 1]);
    }
    assert(on_board(landing(at, chain)));
    assert forall|i: int| 0 <= i < 7 implies #[trigger] record.captures@[i] == slot(chain, i) by {}
    assert forall|i: int| 0 <= i < chain.len() implies overs[i] == (#[trigger] chain[i]).over by {}
    if records_walk(mv, row, col, dirs) {
        assert forall|i: int| 0 <= i < 7 implies mv.captures@[i] == record.captures@[i] by {
            if i < chain.len() {
                assert(overs[i] == chain[i].over);
            }
        }
        assert(mv.captures =~= record.captures);
    }
    if mv == record {
        assert forall|i: int| 0 <= i < 7 implies #[trigger] mv.captures@[i] == if i < dirs.len() {
            Some(taken_on(row, col, dirs)[i] as u8)
        } else {
            None
        } by {
            if i < chain.len() {
                assert(overs[i] == chain[i].over);
            }
        }
    }
}

/// A piece stands on a playable field.
proof fn lemma_field_of(at: int)
    requires
        on_board(at),
    ensures
        playable(coords_of(at).0, coords_of(at).1),
        number(coords_of(at).0, coords_of(at).1) == at,
{
    law_coords_then_index(at);
}

/// A playable field has a square.
proof fn lemma_square_of(row: int, col: int)
    requires
        playable(row, col),
    ensures
        on_board(number(row, col)),
        coords_of(number(row, col)) == (row, col),
{
    law_index_then_coords(row, col);
}

/// A step is a step over fields.
#[verifier::spinoff_prover]
#[verifier::rlimit(60)]
proof fn lemma_steps_on_fields(p: Position, side: Side, mv: Move)
    requires
        sides_on_board(p),
    ensures
        is_step(p, side, mv) <==> is_plain_step(camps(p, side), mv),
{
    let c = camps(p, side);
    if is_step(p, side, mv) {
        let at = mv.from as int;
        assert(p.of(side).contains(at));
        lemma_field_of(at);
        let (row, col) = coords_of(at);
        let dirs = p.dirs(side, at);
        let d = choose|d: int|
            0 <= d < dirs.len() && step_toward(p, at, #[trigger] dirs[d]) == Some(mv.to as int);
        let (dr, dc) = dirs[d];
        law_index_then_coords(row + dr, col + dc);
        assert(c.may_step(row, col, dr as int, dc as int));
        let quiet = quiet_move(at, mv.to as int);
        assert forall|i: int| 0 <= i < 7 implies #[trigger] mv.captures@[i] is None by {
            assert(quiet.captures@[i] is None);
        }
    }
    if is_plain_step(c, mv) {
        let (row, col, dr, dc) = choose|row: int, col: int, dr: int, dc: int|
            {
                &&& playable(row, col)
                &&& c.own.contains(number(row, col))
                &&& #[trigger] c.may_step(row, col, dr, dc)
                &&& mv.from == number(row, col)
                &&& mv.to == number(row + dr, col + dc)
                &&& mv.capture_len == 0
                &&& forall|i: int| 0 <= i < 7 ==> #[trigger] mv.captures@[i] is None
            };
        lemma_square_of(row, col);
        let at = number(row, col);
        let king = p.kings.contains(at);
        let d: int = if king {
            dr + 1 + (dc + 1) / 2
        } else {
            (dc + 1) / 2
        };
        assert(p.dirs(side, at)[d] == (dr as i8, dc as i8));
        law_index_then_coords(row + dr, col + dc);
        assert(step_toward(p, at, p.dirs(side, at)[d]) == Some(mv.to as int));
        let quiet = quiet_move(at, mv.to as int);
        assert(mv.captures =~= quiet.captures);
        assert(mv == quiet);
    }
}

/// A capture is a full walk over fields.
proof fn lemma_captures_on_fields(p: Position, side: Side, mv: Move)
    requires
        sides_on_board(p),
        captures_fit(p, side),
    ensures
        is_capture(p, side, mv) <==> is_full_capture(camps(p, side), mv),
{
    let c = camps(p, side);
    if is_capture(p, side, mv) {
        let chain = choose|chain: Seq<Jump>| is_capture_along(p, side, mv, chain);
        let at = mv.from as int;
        assert(p.of(side).contains(at));
        lemma_field_of(at);
        let dirs = lemma_chain_walks(p, side, at, chain);
        lemma_records_agree(p, side, mv, at, chain, dirs);
        assert(c.is_full_walk(coords_of(at).0, coords_of(at).1, dirs));
    }
    if is_full_capture(c, mv) {
        let (row, col, dirs) = choose|row: int, col: int, dirs: Seq<(int, int)>|
            {
                &&& playable(row, col)
                &&& c.own.contains(number(row, col))
                &&& dirs.len() > 0
                &&& #[trigger] c.is_full_walk(row, col, dirs)
                &&& records_walk(mv, row, col, dirs)
            };
        lemma_square_of(row, col);
        let at = number(row, col);
        assert(p.of(side).contains(at));
        let chain = lemma_walk_chains(p, side, at, dirs);
        lemma_records_agree(p, side, mv, at, chain, dirs);
        assert(is_capture_along(p, side, mv, chain));
    }
}

/// Somebody can jump over fields exactly if somebody must capture.
proof fn lemma_jumpers_on_fields(p: Position, side: Side)
    requires
        sides_on_board(p),
    ensures
        must_capture(p, side) <==> camps(p, side).someone_jumps(),
{
    let c = camps(p, side);
    if must_capture(p, side) {
        let at = choose|at: int| #[trigger] p.of(side).contains(at) && can_jump(p, side, at);
        lemma_field_of(at);
        lemma_can_jump_on_fields(p, side, at);
        let (dr, dc) = choose|dr: int, dc: int| #[trigger]
            c.may_jump(coords_of(at).0, coords_of(at).1, dr, dc);
        assert(c.may_jump(coords_of(at).0, coords_of(at).1, dr, dc));
    }
    if c.someone_jumps() {
        let (row, col, dr, dc) = choose|row: int, col: int, dr: int, dc: int|
            playable(row, col) && c.own.contains(number(row, col)) && #[trigger] c.may_jump(
                row,
                col,
                dr,
                dc,
            );
        lemma_square_of(row, col);
        let at = number(row, col);
        lemma_can_jump_on_fields(p, side, at);
        assert(p.of(side).contains(at));
    }
}

/// What the legal moves are, told over fields: if an own piece can jump, they are the
/// captures in which a piece jumps on as long as it can; otherwise they are the steps.
pub proof fn law_legal_moves_over_fields(p: Position, side: Side, mv: Move)
    requires
        sides_on_board(p),
        captures_fit(p, side),
    ensures
        moves_of(p, side).contains(mv) <==> if camps(p, side).someone_jumps() {
            is_full_capture(camps(p, side), mv)
        } else {
            is_plain_step(camps(p, side), mv)
        },
{
    law_captures_are_forced(p, side, mv);
    lemma_jumpers_on_fields(p, side);
    lemma_captures_on_fields(p, side, mv);
    lemma_steps_on_fields(p, side, mv);
}

/// A piece has a legal move that begins with taking the piece next to it in a direction
/// exactly if an enemy stands there and the field behind is on the board and empty. The
/// piece must be a king, or the direction that of its side's men: up for black, down for
/// red. A side with such a piece has no legal move without a capture.
pub proof fn law_open_jumps_must_be_taken(
    p: Position,
    side: Side,
    row: int,
    col: int,
    dr: int,
    dc: int,
)
    requires
        sides_on_board(p),
        captures_fit(p, side),
        playable(row, col),
        side is Black ==> p.black.contains(row * 4 + col / 2),
        side is Red ==> p.red.contains(row * 4 + col / 2),
        dr == 1 || dr == -1,
        dc == 1 || dc == -1,
        side is Black ==> dr == -1 || p.kings.contains(row * 4 + col / 2),
        side is Red ==> dr == 1 || p.kings.contains(row * 4 + col / 2),
        0 <= row + dr < 8,
        0 <= col + dc < 8,
    ensures
        ({
            let over = (row + dr) * 4 + (col + dc) / 2;
            let to = (row + 2 * dr) * 4 + (col + 2 * dc) / 2;
            let open = {
                &&& 0 <= row + 2 * dr < 8
                &&& 0 <= col + 2 * dc < 8
                &&& side is Black ==> p.red.contains(over)
                &&& side is Red ==> p.black.contains(over)
                &&& !p.black.contains(to)
                &&& !p.red.contains(to)
            };
            &&& open <==> exists|mv: Move| #[trigger]
                moves_of(p, side).contains(mv) && mv.from == row * 4 + col / 2 && mv.captures@[0]
                    == Some(over as u8)
            &&& open ==> forall|mv: Move| #[trigger]
                moves_of(p, side).contains(mv) ==> mv.capture_len > 0 && mv.captures@[0] is Some
        }),
{
    let at = number(row, col);
    let over = number(row + dr, col + dc);
    let c = camps(p, side);
    lemma_square_of(row, col);
    lemma_square_of(row + dr, col + dc);
    assert(p.of(side).contains(at));
    let open = c.may_jump(row, col, dr, dc);
    if open {
        lemma_jump_on_fields(p, side, at, dr, dc);
        let jump = Jump { over, to: number(row + 2 * dr, col + 2 * dc) };
        let d = choose|d: int|
            0 <= d < p.dirs(side, at).len() && jump_toward(
                p,
                side,
                at,
                #[trigger] p.dirs(side, at)[d],
            ) == Some(jump);
        lemma_branch(p, side, at, 7, d as nat, jump);
        let next = after_jump(p, side, at, jump);
        let tail = lemma_some_chain(next, side, jump.to, 6);
        let chain = seq![jump] + tail;
        assert(chain.drop_first() =~= tail);
        assert(chain[0] == jump);
        law_chain_takes_enemies_once(p, side, at, 7, chain);
        let mv = move_along(at, chain);
        assert(mv.captures@[0] == slot(chain, 0));
        assert(is_capture_along(p, side, mv, chain));
        lemma_can_jump_on_fields(p, side, at);
        law_captures_are_forced(p, side, mv);
        assert(moves_of(p, side).contains(mv));
        assert forall|other: Move| #[trigger] moves_of(p, side).contains(other) implies
            other.capture_len > 0 && other.captures@[0] is Some by {
            law_captures_are_forced(p, side, other);
            let chain = choose|chain: Seq<Jump>| is_capture_along(p, side, other, chain);
            law_chain_takes_enemies_once(p, side, other.from as int, 7, chain);
            assert(other.captures@[0] == slot(chain, 0));
        }
    }
    if exists|mv: Move| #[trigger]
        moves_of(p, side).contains(mv) && mv.from == at && mv.captures@[0] == Some(over as u8) {
        let mv = choose|mv: Move| #[trigger]
            moves_of(p, side).contains(mv) && mv.from == at && mv.captures@[0] == Some(over as u8);
        law_captures_are_forced(p, side, mv);
        if !must_capture(p, side) {
            assert(quiet_move(at, mv.to as int).captures@[0] is None);
        }
        let chain = choose|chain: Seq<Jump>| is_capture_along(p, side, mv, chain);
        law_chain_takes_enemies_once(p, side, at, 7, chain);
        assert(mv.captures@[0] == slot(chain, 0));
        let (er, ec) = lemma_jump_has_direction(p, side, at, chain[0]);
        assert(chain[0].over == over);
        assert(er == dr && ec == dc);
    }
}

/// The legal moves can be listed exactly if no piece can make eight jumps one after the
/// other.
pub proof fn law_listable_means_at_most_seven_jumps(p: Position, side: Side)
    requires
        sides_on_board(p),
    ensures
        captures_fit(p, side) <==> forall|row: int, col: int, dirs: Seq<(int, int)>|
            playable(row, col) && camps(p, side).own.contains(number(row, col)) && dirs.len() == 8
                ==> !#[trigger] camps(p, side).is_walk(row, col, dirs),
{
    let c = camps(p, side);
    if captures_fit(p, side) {
        assert forall|row: int, col: int, dirs: Seq<(int, int)>|
            playable(row, col) && c.own.contains(number(row, col)) && dirs.len()
                == 8 implies !#[trigger] c.is_walk(row, col, dirs) by {
            lemma_square_of(row, col);
            assert(p.of(side).contains(number(row, col)));
            if c.is_walk(row, col, dirs) {
                lemma_fit_bounds_walks(p, side, number(row, col), 7, dirs);
            }
        }
    } else {
        let at = choose|at: int| #[trigger] p.of(side).contains(at) && !jumps_fit(p, side, at, 7);
        lemma_field_of(at);
        let dirs = lemma_long_walk(p, side, at, 7);
        assert(c.is_walk(coords_of(at).0, coords_of(at).1, dirs));
    }
}

/// Where chains fit, no walk is longer than the room.
proof fn lemma_fit_bounds_walks(
    p: Position,
    side: Side,
    at: int,
    room: nat,
    dirs: Seq<(int, int)>,
)
    requires
        on_board(at),
        jumps_fit(p, side, at, room),
        camps(p, side).is_walk(coords_of(at).0, coords_of(at).1, dirs),
    ensures
        dirs.len() <= room,
    decreases dirs.len(),
{
    if dirs.len() > 0 {
        let (row, col) = coords_of(at);
        let (dr, dc) = dirs[0];
        lemma_jump_on_fields(p, side, at, dr, dc);
        let jump = Jump {
            over: number(row + dr, col + dc),
            to: number(row + 2 * dr, col + 2 * dc),
        };
        let d = choose|d: int|
            0 <= d < p.dirs(side, at).len() && jump_toward(
                p,
                side,
                at,
                #[trigger] p.dirs(side, at)[d],
            ) == Some(jump);
        lemma_branch(p, side, at, room, d as nat, jump);
        lemma_fit_bounds_walks(
            after_jump(p, side, at, jump),
            side,
            jump.to,
            (room - 1) as nat,
            dirs.drop_first(),
        );
    }
}

/// Where chains do not fit, some walk is longer than the room.
proof fn lemma_long_walk(p: Position, side: Side, at: int, room: nat) -> (dirs: Seq<(int, int)>)
    requires
        on_board(at),
        !jumps_fit(p, side, at, room),
    ensures
        camps(p, side).is_walk(coords_of(at).0, coords_of(at).1, dirs),
        dirs.len() == room + 1,
    decreases room,
{
    reveal(jumps_fit);
    let all = p.dirs(side, at);
    let d = choose|d: int|
        0 <= d < p.dirs(side, at).len() && !(match jump_toward(
            p,
            side,
            at,
            #[trigger] p.dirs(side, at)[d],
        ) {
            Some(jump) => room > 0 && jumps_fit(
                after_jump(p, side, at, jump),
                side,
                jump.to,
                (room - 1) as nat,
            ),
            None => true,
        });
    let jump = jump_toward(p, side, at, all[d])->0;
    assert(is_jump(p, side, at, jump)) by {
        assert(jump_toward(p, side, at, p.dirs(side, at)[d]) == Some(jump));
    }
    let dir = lemma_jump_has_direction(p, side, at, jump);
    lemma_jump_on_fields(p, side, at, dir.0, dir.1);
    let next = after_jump(p, side, at, jump);
    let rest = if room == 0 {
        Seq::empty()
    } else {
        lemma_long_walk(next, side, jump.to, (room - 1) as nat)
    };
    let dirs = seq![dir] + rest;
    assert(camps(next, side).is_walk(coords_of(jump.to).0, coords_of(jump.to).1, rest));
    assert(dirs.drop_first() =~= rest);
    assert(dirs[0] == dir);
    dirs
}

/// A game opens with black to move, its men on the dark fields of the last three rows and
/// the red men on those of the first three, and no kings.
pub proof fn law_games_open_with_three_rows(row: int, col: int)
    requires
        playable(row, col),
    ensures
        opening().turn is Black,
        opening().halfmoves == 0,
        opening().position.black.contains(number(row, col)) <==> row >= 5,
        opening().position.red.contains(number(row, col)) <==> row <= 2,
        !opening().position.kings.contains(number(row, col)),
        GameState::fresh()@ == opening(),
{
    lemma_starting_bits();
}

} // verus!
