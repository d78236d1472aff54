//! The rules of the game, stated over sets of squares.
use crate::bits::ascending;
use crate::engine::{GameResult, GameState, Move, Piece, Side};
use crate::geometry::{crowns, directions, offset_of};
use vstd::prelude::*;

verus! {

/// What stands on the board: the squares of either side, and the squares that
/// are marked as holding kings.
#[verifier::ext_equal]
pub struct Position {
    pub black: Set<int>,
    pub red: Set<int>,
    pub kings: Set<int>,
}

impl Position {
    /// The squares of one side.
    pub open spec fn of(self, side: Side) -> Set<int> {
        match side {
            Side::Black => self.black,
            Side::Red => self.red,
        }
    }

    /// The squares of either side.
    pub open spec fn occupied(self) -> Set<int> {
        self.black.union(self.red)
    }

    /// The position after `side` has moved from `from` to `to` and the squares in
    /// `taken` were cleared. A king stays a king, and a man that arrives on the
    /// far row becomes one.
    pub open spec fn after(self, side: Side, from: int, to: int, taken: Set<int>) -> Position {
        let kings = self.kings.remove(from).difference(taken);
        let moved = self.of(side).remove(from).insert(to).difference(taken);
        let rest = self.of(side.other()).difference(taken);
        Position {
            black: if side is Black {
                moved
            } else {
                rest
            },
            red: if side is Red {
                moved
            } else {
                rest
            },
            kings: if self.kings.contains(from) || crowns(side, to) {
                kings.insert(to)
            } else {
                kings
            },
        }
    }

    /// The directions open to the piece of `side` on `at`.
    pub open spec fn dirs(self, side: Side, at: int) -> Seq<(i8, i8)> {
        directions(side, self.kings.contains(at))
    }

    /// The position after a move record was carried out.
    pub open spec fn play(self, side: Side, mv: Move) -> Position {
        self.after(side, mv.from as int, mv.to as int, mv.taken())
    }
}

/// The position at the start of a game: black has the three rows at the bottom,
/// red the three rows at the top, and there are no kings.
pub open spec fn start() -> Position {
    Position {
        black: Set::new(|square: int| 20 <= square < 32),
        red: Set::new(|square: int| 0 <= square < 12),
        kings: Set::empty(),
    }
}

/// The piece on a square.
pub open spec fn piece_on(p: Position, square: int) -> Option<Piece> {
    let king = p.kings.contains(square);
    if p.black.contains(square) {
        Some(
            if king {
                Piece::BlackKing
            } else {
                Piece::BlackMan
            },
        )
    } else if p.red.contains(square) {
        Some(
            if king {
                Piece::RedKing
            } else {
                Piece::RedMan
            },
        )
    } else {
        None
    }
}

/// One jump: the square of the piece that is taken and the square landed on.
pub struct Jump {
    pub over: int,
    pub to: int,
}

/// The jump that the piece of `side` on `at` can make in a direction, if any: an
/// enemy stands on the next square and the one behind it is free.
pub open spec fn jump_toward(p: Position, side: Side, at: int, dir: (i8, i8)) -> Option<Jump> {
    match (
        offset_of(at, dir.0 as int, dir.1 as int),
        offset_of(at, dir.0 * 2, dir.1 * 2),
    ) {
        (Some(over), Some(to)) => if p.of(side.other()).contains(over) && !p.occupied().contains(
            to,
        ) {
            Some(Jump { over, to })
        } else {
            None
        },
        _ => None,
    }
}

/// Whether the piece of `side` on `at` has a jump among its first `n` directions.
pub open spec fn can_jump_within(p: Position, side: Side, at: int, n: int) -> bool {
    exists|i: int| 0 <= i < n && jump_toward(p, side, at, #[trigger] p.dirs(side, at)[i]) is Some
}

/// Whether the piece of `side` on `at` has a jump.
pub open spec fn can_jump(p: Position, side: Side, at: int) -> bool {
    can_jump_within(p, side, at, p.dirs(side, at).len() as int)
}

/// The position after one jump.
pub open spec fn after_jump(p: Position, side: Side, at: int, jump: Jump) -> Position {
    p.after(side, at, jump.to, set![jump.over])
}

/// Whether no chain of jumps that starts on `at` is longer than `room`.
#[verifier::opaque]
pub open spec fn jumps_fit(p: Position, side: Side, at: int, room: nat) -> bool
    decreases room,
{
    forall|i: int|
        0 <= i < p.dirs(side, at).len() ==> match jump_toward(
            p,
            side,
            at,
            #[trigger] p.dirs(side, at)[i],
        ) {
            Some(jump) => room > 0 && jumps_fit(
                after_jump(p, side, at, jump),
                side,
                jump.to,
                (room - 1) as nat,
            ),
            None => true,
        }
}

/// Whether every chain of jumps open to `side` fits into the seven capture slots
/// of a move record.
pub open spec fn captures_fit(p: Position, side: Side) -> bool {
    forall|at: int| #[trigger] p.of(side).contains(at) ==> jumps_fit(p, side, at, 7)
}

/// The complete chains of jumps that start on `at`, of at most `room` jumps. A
/// chain goes on for as long as the piece can jump; where it cannot jump at all
/// the only chain is the empty one.
pub open spec fn chains(p: Position, side: Side, at: int, room: nat) -> Seq<Seq<Jump>>
    decreases room, 5nat,
{
    if room > 0 && can_jump(p, side, at) {
        chains_within(p, side, at, room, p.dirs(side, at).len())
    } else {
        seq![Seq::empty()]
    }
}

/// The complete chains that begin with a jump in one of the first `n` directions.
pub open spec fn chains_within(p: Position, side: Side, at: int, room: nat, n: nat) -> Seq<
    Seq<Jump>,
>
    decreases room, n,
{
    if room == 0 || n == 0 {
        Seq::empty()
    } else {
        chains_within(p, side, at, room, (n - 1) as nat) + match jump_toward(
            p,
            side,
            at,
            p.dirs(side, at)[n - 1],
        ) {
            Some(jump) => starting_with(
                jump,
                chains(after_jump(p, side, at, jump), side, jump.to, (room - 1) as nat),
            ),
            None => Seq::empty(),
        }
    }
}

/// The given chains, each with one more jump in front.
pub open spec fn starting_with(jump: Jump, tails: Seq<Seq<Jump>>) -> Seq<Seq<Jump>> {
    tails.map_values(|tail: Seq<Jump>| seq![jump] + tail)
}

/// Where a chain of jumps ends.
pub open spec fn landing(origin: int, chain: Seq<Jump>) -> int {
    if chain.len() == 0 {
        origin
    } else {
        chain.last().to
    }
}

/// The entry of a capture slot after a chain of jumps.
pub open spec fn slot(chain: Seq<Jump>, i: int) -> Option<u8> {
    if i < chain.len() {
        Some(chain[i].over as u8)
    } else {
        None
    }
}

/// The move record of a chain of jumps.
pub open spec fn move_along(origin: int, chain: Seq<Jump>) -> Move {
    Move {
        from: origin as u8,
        to: landing(origin, chain) as u8,
        captures: [
            slot(chain, 0),
            slot(chain, 1),
            slot(chain, 2),
            slot(chain, 3),
            slot(chain, 4),
            slot(chain, 5),
            slot(chain, 6),
        ],
        capture_len: chain.len() as u8,
    }
}

/// The move records of chains that continue `prefix`.
pub open spec fn moves_along(origin: int, prefix: Seq<Jump>, tails: Seq<Seq<Jump>>) -> Seq<Move> {
    tails.map_values(|tail: Seq<Jump>| move_along(origin, prefix + tail))
}

/// The captures of the piece of `side` on `at`.
pub open spec fn captures_from(p: Position, side: Side, at: int) -> Seq<Move> {
    if can_jump(p, side, at) {
        moves_along(at, Seq::empty(), chains(p, side, at, 7))
    } else {
        Seq::empty()
    }
}

/// The captures of the pieces of `side` on the listed squares.
pub open spec fn captures_of(p: Position, side: Side, squares: Seq<u8>) -> Seq<Move>
    decreases squares.len(),
{
    if squares.len() == 0 {
        Seq::empty()
    } else {
        captures_of(p, side, squares.drop_last()) + captures_from(p, side, squares.last() as int)
    }
}

/// The move without captures between two squares.
pub open spec fn quiet_move(from: int, to: int) -> Move {
    Move {
        from: from as u8,
        to: to as u8,
        captures: [None, None, None, None, None, None, None],
        capture_len: 0,
    }
}

/// The free square next to `at` in a direction, if there is one.
pub open spec fn step_toward(p: Position, at: int, dir: (i8, i8)) -> Option<int> {
    match offset_of(at, dir.0 as int, dir.1 as int) {
        Some(to) => if p.occupied().contains(to) {
            None
        } else {
            Some(to)
        },
        None => None,
    }
}

/// The steps of the piece of `side` on `at` in its first `n` directions.
pub open spec fn steps_within(p: Position, side: Side, at: int, n: nat) -> Seq<Move>
    decreases n,
{
    if n == 0 {
        Seq::empty()
    } else {
        let fewer = steps_within(p, side, at, (n - 1) as nat);
        match step_toward(p, at, p.dirs(side, at)[n - 1]) {
            Some(to) => fewer.push(quiet_move(at, to)),
            None => fewer,
        }
    }
}

/// The steps of the pieces of `side` on the listed squares.
pub open spec fn steps_of(p: Position, side: Side, squares: Seq<u8>) -> Seq<Move>
    decreases squares.len(),
{
    if squares.len() == 0 {
        Seq::empty()
    } else {
        let at = squares.last() as int;
        steps_of(p, side, squares.drop_last()) + steps_within(p, side, at, p.dirs(side, at).len())
    }
}

/// All captures of a side, square by square.
pub open spec fn all_captures(p: Position, side: Side) -> Seq<Move> {
    captures_of(p, side, ascending(p.of(side), 32))
}

/// All moves of a side that take nothing, square by square.
pub open spec fn all_steps(p: Position, side: Side) -> Seq<Move> {
    steps_of(p, side, ascending(p.of(side), 32))
}

/// The legal moves of a side, in the order in which they are generated. A side
/// that can capture has to.
pub open spec fn moves_of(p: Position, side: Side) -> Seq<Move> {
    if all_captures(p, side).len() > 0 {
        all_captures(p, side)
    } else {
        all_steps(p, side)
    }
}

/// A game under way: the position, the player to move, and the number of moves
/// made so far.
#[verifier::ext_equal]
pub struct Game {
    pub position: Position,
    pub turn: Side,
    pub halfmoves: int,
}

impl Game {
    /// The legal moves of the player to move.
    pub open spec fn moves(self) -> Seq<Move> {
        moves_of(self.position, self.turn)
    }

    /// The game after the player to move has made a move.
    pub open spec fn play(self, mv: Move) -> Game {
        Game {
            position: self.position.play(self.turn, mv),
            turn: self.turn.other(),
            halfmoves: self.halfmoves + 1,
        }
    }

    /// How the game ended, if it did: in a draw when the move limit is reached,
    /// with the loss of a side that has no piece left, or with the loss of the
    /// player to move who has no legal move. The reasons are looked at in this
    /// order.
    pub open spec fn outcome(self) -> Option<GameResult> {
        if self.halfmoves >= GameState::DRAW_HALFMOVES {
            Some(GameResult::Draw)
        } else if self.position.black == Set::<int>::empty() {
            Some(GameResult::Winner(Side::Red))
        } else if self.position.red == Set::<int>::empty() {
            Some(GameResult::Winner(Side::Black))
        } else if self.moves().len() == 0 {
            Some(GameResult::Winner(self.turn.other()))
        } else {
            None
        }
    }

    /// Whether the outcome can be found: either it does not depend on the legal
    /// moves, or they can be listed.
    pub open spec fn judgeable(self) -> bool {
        ||| self.halfmoves >= GameState::DRAW_HALFMOVES
        ||| self.position.black == Set::<int>::empty()
        ||| self.position.red == Set::<int>::empty()
        ||| captures_fit(self.position, self.turn)
    }
}

/// The number of different move sequences of length `depth`, with `side` to move.
pub open spec fn sequences(p: Position, side: Side, depth: nat) -> nat
    decreases depth, 0nat,
{
    if depth == 0 {
        1
    } else {
        sequences_after(p, side, moves_of(p, side), (depth - 1) as nat)
    }
}

/// The number of move sequences that begin with one of the given moves and go on
/// for `depth` moves.
pub open spec fn sequences_after(p: Position, side: Side, moves: Seq<Move>, depth: nat) -> nat
    decreases depth, moves.len() + 1,
{
    if moves.len() == 0 {
        0
    } else {
        sequences_after(p, side, moves.drop_last(), depth) + sequences(
            p.play(side, moves.last()),
            side.other(),
            depth,
        )
    }
}

/// Whether the legal moves can be listed in every position that is reached within
/// `depth` moves.
#[verifier::opaque]
pub open spec fn captures_fit_within(p: Position, side: Side, depth: nat) -> bool
    decreases depth,
{
    depth > 0 ==> {
        &&& captures_fit(p, side)
        &&& forall|i: int|
            0 <= i < moves_of(p, side).len() ==> captures_fit_within(
                p.play(side, #[trigger] moves_of(p, side)[i]),
                side.other(),
                (depth - 1) as nat,
            )
    }
}

/// One more direction adds one more chance to jump.
pub(crate) proof fn lemma_can_jump_within_next(p: Position, side: Side, at: int, n: int)
    requires
        0 <= n < p.dirs(side, at).len(),
    ensures
        can_jump_within(p, side, at, n + 1) == (can_jump_within(p, side, at, n) || jump_toward(
            p,
            side,
            at,
            p.dirs(side, at)[n],
        ) is Some),
{
    if jump_toward(p, side, at, p.dirs(side, at)[n]) is Some {
        assert(can_jump_within(p, side, at, n + 1));
    }
}

/// Chains that continue with one more jump are recorded as continuations of the
/// longer prefix.
pub(crate) proof fn lemma_moves_along_continue(
    origin: int,
    prefix: Seq<Jump>,
    earlier: Seq<Seq<Jump>>,
    jump: Jump,
    tails: Seq<Seq<Jump>>,
)
    ensures
        moves_along(origin, prefix, earlier + starting_with(jump, tails)) == moves_along(
            origin,
            prefix,
            earlier,
        ) + moves_along(origin, prefix.push(jump), tails),
{
    let all = earlier + starting_with(jump, tails);
    let left = moves_along(origin, prefix, all);
    let right = moves_along(origin, prefix, earlier) + moves_along(
        origin,
        prefix.push(jump),
        tails,
    );
    assert forall|i: int| 0 <= i < left.len() implies left[i] == right[i] by {
        if i >= earlier.len() {
            let tail = tails[i - earlier.len()];
            assert(all[i] == seq![jump] + tail);
            assert(prefix + (seq![jump] + tail) =~= prefix.push(jump) + tail);
        }
    }
    assert(left =~= right);
}

/// Without a jump among the first directions there is no chain in them.
pub(crate) proof fn lemma_no_chains(p: Position, side: Side, at: int, room: nat, n: nat)
    requires
        n <= p.dirs(side, at).len(),
        !can_jump_within(p, side, at, n as int),
    ensures
        chains_within(p, side, at, room, n).len() == 0,
    decreases n,
{
    if n > 0 {
        lemma_can_jump_within_next(p, side, at, n - 1);
        lemma_no_chains(p, side, at, room, (n - 1) as nat);
    }
}

/// A piece that can jump has room for it.
pub(crate) proof fn lemma_jump_needs_room(p: Position, side: Side, at: int, room: nat)
    requires
        jumps_fit(p, side, at, room),
        can_jump(p, side, at),
    ensures
        room > 0,
{
    reveal(jumps_fit);
}

/// What a jump in one direction adds: its continuations fit as well, and they
/// make up the chains of that direction.
pub(crate) proof fn lemma_branch(
    p: Position,
    side: Side,
    at: int,
    room: nat,
    n: nat,
    jump: Jump,
)
    requires
        n < p.dirs(side, at).len(),
        jump_toward(p, side, at, p.dirs(side, at)[n as int]) == Some(jump),
        jumps_fit(p, side, at, room),
    ensures
        room > 0,
        jumps_fit(after_jump(p, side, at, jump), side, jump.to, (room - 1) as nat),
        chains_within(p, side, at, room, n + 1) == chains_within(p, side, at, room, n)
            + starting_with(
            jump,
            chains(after_jump(p, side, at, jump), side, jump.to, (room - 1) as nat),
        ),
{
    reveal(jumps_fit);
}

/// What listing moves down to a depth means for the first of them.
pub(crate) proof fn lemma_listed_within(p: Position, side: Side, depth: nat)
    requires
        depth > 0,
        captures_fit_within(p, side, depth),
    ensures
        captures_fit(p, side),
        forall|i: int|
            0 <= i < moves_of(p, side).len() ==> captures_fit_within(
                p.play(side, #[trigger] moves_of(p, side)[i]),
                side.other(),
                (depth - 1) as nat,
            ),
{
    reveal(captures_fit_within);
}

/// Where the first moves cannot be listed, later ones cannot be either.
pub(crate) proof fn lemma_unlisted(p: Position, side: Side, depth: nat)
    requires
        depth > 0,
        !captures_fit(p, side),
    ensures
        !captures_fit_within(p, side, depth),
{
    reveal(captures_fit_within);
}

/// More first moves never give fewer sequences.
pub(crate) proof fn lemma_sequences_grow(
    p: Position,
    side: Side,
    moves: Seq<Move>,
    n: int,
    depth: nat,
)
    requires
        0 <= n <= moves.len(),
    ensures
        sequences_after(p, side, moves.take(n), depth) <= sequences_after(p, side, moves, depth),
    decreases moves.len(),
{
    if n == moves.len() {
        assert(moves.take(n) =~= moves);
    } else {
        assert(moves.drop_last().take(n) =~= moves.take(n));
        lemma_sequences_grow(p, side, moves.drop_last(), n, depth);
    }
}

} // verus!
