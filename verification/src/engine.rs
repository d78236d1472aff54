//! Boards, moves and games as words of bits.
use crate::bits::{
    ascending, bit_indices, has_bit, law_bits_are_squares, law_words_are_known_by_their_squares,
    lemma_ascending_lists, lemma_ascending_members, lemma_clear_bit, lemma_no_bits, lemma_set_bit,
    lemma_union_bits, squares_of,
};
use crate::geometry::{
    coords_of, move_dirs, offset_square, on_board, promotes, square_at, square_name,
};
use crate::legality::{law_legal_moves_are_proper, sides_on_board};
use crate::rules::{
    after_jump, all_captures, all_steps, can_jump, can_jump_within, captures_fit,
    captures_fit_within, captures_of, chains, chains_within, jump_toward, jumps_fit, landing,
    lemma_branch, lemma_can_jump_within_next, lemma_jump_needs_room, lemma_listed_within,
    lemma_moves_along_continue, lemma_no_chains, lemma_sequences_grow, lemma_unlisted, move_along,
    moves_along, moves_of, piece_on, quiet_move, sequences, sequences_after, start, steps_of,
    steps_within, Game, Jump, Position,
};
pub use crate::geometry::{notation, square_coords, square_index};
use vstd::prelude::*;

verus! {

/// The two players.
#[derive(Debug, Clone, Copy, PartialEq, Eq, Structural)]
pub enum Side {
    Black,
    Red,
}

impl Side {
    /// The other player.
    pub open spec fn other(self) -> Side {
        match self {
            Side::Black => Side::Red,
            Side::Red => Side::Black,
        }
    }

    /// The other player.
    pub fn opponent(self) -> (other: Self)
        ensures
            other == self.other(),
    {
        match self {
            Self::Black => Self::Red,
            Self::Red => Self::Black,
        }
    }

    /// The player's name as text.
    pub open spec fn name(self) -> Seq<char> {
        match self {
            Side::Black => "Black"@,
            Side::Red => "Red"@,
        }
    }

    /// The player's name.
    pub fn label(self) -> (text: &'static str)
        ensures
            text@ == self.name(),
    {
        match self {
            Self::Black => "Black",
            Self::Red => "Red",
        }
    }
}

/// A piece with its owner and rank.
#[derive(Debug, Clone, Copy, PartialEq, Eq, Structural)]
pub enum Piece {
    BlackMan,
    BlackKing,
    RedMan,
    RedKing,
}

impl Piece {
    /// The player that the piece belongs to.
    pub open spec fn owner(self) -> Side {
        if self is BlackMan || self is BlackKing {
            Side::Black
        } else {
            Side::Red
        }
    }
}

/// A move record: the squares it leads from and to, and the squares of the
/// pieces it takes, in the order of the jumps. The first `capture_len` slots are
/// in use.
#[derive(Debug, Clone, Copy, PartialEq, Eq)]
pub struct Move {
    pub from: u8,
    pub to: u8,
    pub captures: [Option<u8>; 7],
    pub capture_len: u8,
}

impl Move {
    /// The squares named in the capture slots.
    pub open spec fn taken(self) -> Set<int> {
        self.taken_within(7)
    }

    /// The squares named in the first `n` capture slots.
    pub open spec fn taken_within(self, n: int) -> Set<int> {
        Set::new(
            |square: int|
                exists|i: int|
                    0 <= i < n && #[trigger] self.captures@[i] is Some && self.captures@[i]->0
                        == square,
        )
    }

    /// The move without captures between two squares.
    pub fn quiet(from: u8, to: u8) -> (mv: Self)
        ensures
            mv == quiet_move(from as int, to as int),
    {
        let mv = Self { from, to, captures: [None; 7], capture_len: 0 };
        assert(mv.captures =~= quiet_move(from as int, to as int).captures);
        mv
    }

    /// Adds one jump to the record of a chain.
    fn extend(
        &mut self,
        Ghost(origin): Ghost<u8>,
        Ghost(chain): Ghost<Seq<Jump>>,
        over: u8,
        to: u8,
    )
        requires
            chain.len() < 7,
            *old(self) == move_along(origin as int, chain),
        ensures
            *final(self) == move_along(
                origin as int,
                chain.push(Jump { over: over as int, to: to as int }),
            ),
    {
        let ghost longer = chain.push(Jump { over: over as int, to: to as int });
        self.to = to;
        self.captures[self.capture_len as usize] = Some(over);
        self.capture_len += 1;
        assert(self.captures =~= move_along(origin as int, longer).captures);
    }

    /// Takes the last jump out of the record of a chain, back to the square it
    /// started from.
    fn retract(&mut self, Ghost(origin): Ghost<u8>, Ghost(chain): Ghost<Seq<Jump>>, from: u8)
        requires
            0 < chain.len() <= 7,
            landing(origin as int, chain.drop_last()) == from,
            *old(self) == move_along(origin as int, chain),
        ensures
            *final(self) == move_along(origin as int, chain.drop_last()),
    {
        self.capture_len -= 1;
        self.captures[self.capture_len as usize] = None;
        self.to = from;
        assert(self.captures =~= move_along(origin as int, chain.drop_last()).captures);
    }

    /// Whether the move takes anything.
    pub fn is_capture(self) -> (captures: bool)
        ensures
            captures == (self.capture_len > 0),
    {
        self.capture_len > 0
    }

    /// The move as text.
    pub open spec fn name(self) -> Seq<char> {
        square_name(self.from as int) + (if self.capture_len > 0 {
            "x"@
        } else {
            "-"@
        }) + square_name(self.to as int)
    }

    /// The move as players write it, such as `c3-d4` or, for a capture, `c3xe5`.
    pub fn notation(self) -> (text: String)
        requires
            coords_of(self.from as int).0 <= 8,
            coords_of(self.to as int).0 <= 8,
        ensures
            text@ == self.name(),
    {
        let mut text = notation(self.from);
        if self.is_capture() {
            text.append("x");
        } else {
            text.append("-");
        }
        text.append(notation(self.to).as_str());
        text
    }

    /// Whether every square that the record names is on the board.
    pub open spec fn within_board(self) -> bool {
        &&& on_board(self.from as int)
        &&& on_board(self.to as int)
        &&& forall|i: int|
            0 <= i < 7 && #[trigger] self.captures@[i] is Some ==> on_board(
                self.captures@[i]->0 as int,
            )
    }

    /// Whether every square that the record names is on the board; see
    /// [`Move::within_board`].
    pub fn is_within_board(self) -> (within: bool)
        ensures
            within == self.within_board(),
    {
        if self.from >= 32 || self.to >= 32 {
            return false;
        }
        let mut i: usize = 0;
        while i < 7
            invariant
                i <= 7,
                on_board(self.from as int),
                on_board(self.to as int),
                forall|k: int|
                    0 <= k < i && #[trigger] self.captures@[k] is Some ==> on_board(
                        self.captures@[k]->0 as int,
                    ),
            decreases 7 - i,
        {
            if let Some(square) = self.captures[i] {
                if square >= 32 {
                    assert(self.captures@[i as int] is Some);
                    return false;
                }
            }
            i += 1;
        }
        true
    }
}

/// Three words of bits, one bit for each square: the black pieces, the red
/// pieces, and those of them that are kings.
#[derive(Debug, Clone, Copy, PartialEq, Eq, Structural)]
pub struct BitBoard {
    pub black: u32,
    pub red: u32,
    pub kings: u32,
}

impl View for BitBoard {
    type V = Position;

    open spec fn view(&self) -> Position {
        Position {
            black: squares_of(self.black),
            red: squares_of(self.red),
            kings: squares_of(self.kings),
        }
    }
}

impl BitBoard {
    /// The black men at the start of a game.
    pub const BLACK_START: u32 = 0xfff0_0000;

    /// The red men at the start of a game.
    pub const RED_START: u32 = 0x0000_0fff;

    /// The bits of one side.
    pub fn side_bits(self, side: Side) -> (bits: u32)
        ensures
            squares_of(bits) == self@.of(side),
            bits == (match side {
                Side::Black => self.black,
                Side::Red => self.red,
            }),
    {
        match side {
            Side::Black => self.black,
            Side::Red => self.red,
        }
    }

    /// The bits of both sides.
    pub fn occupied(self) -> (bits: u32)
        ensures
            squares_of(bits) == self@.occupied(),
            bits == self.black | self.red,
    {
        proof {
            lemma_union_bits(self.black, self.red);
        }
        self.black | self.red
    }

    /// The board after `side` has carried out a move: the mover leaves its square
    /// and arrives on the target, the captured pieces disappear, a king stays a
    /// king and a man that arrives on the far row becomes one.
    pub fn apply(self, side: Side, mv: Move) -> (next: Self)
        requires
            mv.within_board(),
        ensures
            next@ == self@.play(side, mv),
    {
        let from_mask: u32 = 1u32 << mv.from;
        let to_mask: u32 = 1u32 << mv.to;
        let moved_king: bool = self.kings & from_mask != 0;
        let mut next: Self = self;
        match side {
            Side::Black => {
                next.black = (next.black & !from_mask) | to_mask;
            },
            Side::Red => {
                next.red = (next.red & !from_mask) | to_mask;
            },
        }
        next.kings = next.kings & !from_mask;
        proof {
            let from = mv.from as u32;
            let to = mv.to as u32;
            lemma_clear_bit(self.side_word(side), from);
            lemma_set_bit(self.side_word(side) & !from_mask, to);
            lemma_clear_bit(self.kings, from);
        }
        let ghost lifted = next@;
        let mut i: usize = 0;
        while i < 7
            invariant
                i <= 7,
                mv.within_board(),
                next@.black == lifted.black.difference(mv.taken_within(i as int)),
                next@.red == lifted.red.difference(mv.taken_within(i as int)),
                next@.kings == lifted.kings.difference(mv.taken_within(i as int)),
            decreases 7 - i,
        {
            if let Some(captured) = mv.captures[i] {
                let mask: u32 = 1u32 << captured;
                proof {
                    lemma_clear_bit(next.black, captured as u32);
                    lemma_clear_bit(next.red, captured as u32);
                    lemma_clear_bit(next.kings, captured as u32);
                }
                next.black = next.black & !mask;
                next.red = next.red & !mask;
                next.kings = next.kings & !mask;
            }
            i += 1;
        }
        if moved_king || promotes(side, mv.to) {
            proof {
                lemma_set_bit(next.kings, mv.to as u32);
            }
            next.kings = next.kings | to_mask;
        }
        next
    }

    /// The board without pieces.
    pub fn empty() -> (board: Self)
        ensures
            board.black == 0,
            board.red == 0,
            board.kings == 0,
            board@.occupied() == Set::<int>::empty(),
            board@.kings == Set::<int>::empty(),
    {
        proof {
            lemma_no_bits(0);
        }
        Self { black: 0, red: 0, kings: 0 }
    }

    /// The board at the start of a game: the black men on the three rows at the
    /// bottom, the red men on the three rows at the top.
    pub fn starting_position() -> (board: Self)
        ensures
            board.black == Self::BLACK_START,
            board.red == Self::RED_START,
            board.kings == 0,
            board@ == start(),
    {
        proof {
            lemma_starting_bits();
        }
        Self { black: Self::BLACK_START, red: Self::RED_START, kings: 0 }
    }

    /// The piece on a field, if the field is playable and holds one. Where both
    /// sides claim the square, the black piece is seen.
    pub fn piece_at(self, row: usize, col: usize) -> (piece: Option<Piece>)
        ensures
            piece == match square_at(row as int, col as int) {
                Some(square) => piece_on(self@, square),
                None => None,
            },
    {
        let square: u8 = match square_index(row, col) {
            Some(square) => square,
            None => {
                return None;
            },
        };
        let mask: u32 = 1u32 << square;
        let king: bool = self.kings & mask != 0;
        assert(self@.kings.contains(square as int) == king);
        assert(self@.black.contains(square as int) == (self.black & mask != 0));
        assert(self@.red.contains(square as int) == (self.red & mask != 0));
        if self.black & mask != 0 {
            Some(
                if king {
                    Piece::BlackKing
                } else {
                    Piece::BlackMan
                },
            )
        } else if self.red & mask != 0 {
            Some(
                if king {
                    Piece::RedKing
                } else {
                    Piece::RedMan
                },
            )
        } else {
            None
        }
    }

    /// Whether every chain of jumps open to `side` fits into a move record, so
    /// that [`BitBoard::legal_moves`] can list the moves.
    pub fn captures_fit(self, side: Side) -> (fits: bool)
        ensures
            fits == captures_fit(self@, side),
    {
        let squares = bit_indices(self.side_bits(side));
        let ghost p = self@;
        let mut i: usize = 0;
        while i < squares.len()
            invariant
                i <= squares.len(),
                p == self@,
                squares@ == ascending(p.of(side), 32),
                forall|j: int|
                    0 <= j < i ==> jumps_fit(p, side, #[trigger] squares@[j] as int, 7),
            decreases squares.len() - i,
        {
            proof {
                lemma_ascending_members(p.of(side), 32, i as int);
            }
            if !self.chain_fits(side, squares[i], 7) {
                return false;
            }
            i += 1;
        }
        assert forall|at: int| #[trigger] p.of(side).contains(at) implies jumps_fit(
            p,
            side,
            at,
            7,
        ) by {
            let j = lemma_ascending_lists(p.of(side), 32, at);
            assert(squares@[j] == at);
        }
        true
    }

    /// Whether no chain of jumps from `from` is longer than `room`.
    fn chain_fits(self, side: Side, from: u8, room: u8) -> (fits: bool)
        requires
            on_board(from as int),
        ensures
            fits == jumps_fit(self@, side, from as int, room as nat),
        decreases room,
    {
        let ghost p = self@;
        let king: bool = self.kings & (1u32 << from) != 0;
        let dirs = move_dirs(side, king);
        let mut k: usize = 0;
        while k < dirs.len()
            invariant
                k <= dirs.len(),
                p == self@,
                on_board(from as int),
                dirs@ == p.dirs(side, from as int),
                forall|i: int|
                    0 <= i < k ==> match jump_toward(
                        p,
                        side,
                        from as int,
                        #[trigger] p.dirs(side, from as int)[i],
                    ) {
                        Some(jump) => room > 0 && jumps_fit(
                            after_jump(p, side, from as int, jump),
                            side,
                            jump.to,
                            (room - 1) as nat,
                        ),
                        None => true,
                    },
            decreases dirs.len() - k,
        {
            let (dr, dc) = dirs[k];
            assert(p.dirs(side, from as int)[k as int] == (dr, dc));
            if let Some((over, to)) = self.find_jump(side, from, dr, dc) {
                if room == 0 || !self.jump(side, from, over, to).chain_fits(side, to, room - 1) {
                    proof {
                        if jumps_fit(p, side, from as int, room as nat) {
                            let jump = Jump { over: over as int, to: to as int };
                            lemma_branch(p, side, from as int, room as nat, k as nat, jump);
                        }
                    }
                    return false;
                }
            }
            k += 1;
        }
        reveal(jumps_fit);
        true
    }

    /// The legal moves of `side`: its captures if it has any, and its other moves
    /// if it has none.
    pub fn legal_moves(self, side: Side) -> (moves: Vec<Move>)
        requires
            captures_fit(self@, side),
        ensures
            moves@ == moves_of(self@, side),
    {
        let captures = self.capture_moves(side);
        if captures.len() == 0 {
            self.quiet_moves(side)
        } else {
            captures
        }
    }

    /// The number of move sequences of length `depth`, with `side` to move.
    pub fn perft(self, side: Side, depth: u32) -> (nodes: u64)
        requires
            captures_fit_within(self@, side, depth as nat),
            sequences(self@, side, depth as nat) <= u64::MAX,
        ensures
            nodes == sequences(self@, side, depth as nat),
    {
        self.checked_perft(side, depth).unwrap()
    }

    /// The number of move sequences of length `depth`, with `side` to move, if the
    /// legal moves can be listed in all positions on the way and the number is not
    /// too large.
    pub fn checked_perft(self, side: Side, depth: u32) -> (nodes: Option<u64>)
        ensures
            nodes is Some <==> captures_fit_within(self@, side, depth as nat) && sequences(
                self@,
                side,
                depth as nat,
            ) <= u64::MAX,
            nodes matches Some(n) ==> n == sequences(self@, side, depth as nat),
        decreases depth,
    {
        if depth == 0 {
            reveal(captures_fit_within);
            return Some(1);
        }
        let ghost p = self@;
        let ghost rest = (depth - 1) as nat;
        if !self.captures_fit(side) {
            proof {
                lemma_unlisted(p, side, depth as nat);
            }
            return None;
        }
        let moves = self.legal_moves(side);
        let mut nodes: u64 = 0;
        let mut i: usize = 0;
        while i < moves.len()
            invariant
                i <= moves.len(),
                p == self@,
                depth > 0,
                rest == depth - 1,
                captures_fit(p, side),
                moves@ == moves_of(p, side),
                forall|j: int|
                    0 <= j < i ==> captures_fit_within(
                        p.play(side, #[trigger] moves@[j]),
                        side.other(),
                        rest,
                    ),
                nodes == sequences_after(p, side, moves@.take(i as int), rest),
            decreases moves.len() - i,
        {
            let mv = moves[i];
            proof {
                assert(moves@.take(i + 1).drop_last() =~= moves@.take(i as int));
                assert(moves@.take(i + 1).last() == mv);
                lemma_sequences_grow(p, side, moves@, i + 1, rest);
                lemma_word_squares(self);
                assert(moves_of(p, side).contains(mv));
                law_legal_moves_are_proper(p, side, mv);
                if captures_fit_within(p, side, depth as nat) {
                    lemma_listed_within(p, side, depth as nat);
                    assert(captures_fit_within(
                        p.play(side, moves_of(p, side)[i as int]),
                        side.other(),
                        rest,
                    ));
                }
            }
            let count: u64 = match self.apply(side, mv).checked_perft(side.opponent(), depth - 1) {
                Some(count) => count,
                None => {
                    return None;
                },
            };
            nodes = match nodes.checked_add(count) {
                Some(sum) => sum,
                None => {
                    return None;
                },
            };
            i += 1;
        }
        assert(moves@.take(moves.len() as int) =~= moves@);
        reveal(captures_fit_within);
        Some(nodes)
    }

    /// The moves of `side` that take nothing.
    pub(crate) fn quiet_moves(self, side: Side) -> (moves: Vec<Move>)
        ensures
            moves@ == all_steps(self@, side),
    {
        let mut moves: Vec<Move> = Vec::new();
        let occupied: u32 = self.occupied();
        let squares = bit_indices(self.side_bits(side));
        let ghost p = self@;
        let mut i: usize = 0;
        while i < squares.len()
            invariant
                i <= squares.len(),
                p == self@,
                squares_of(occupied) == p.occupied(),
                squares@ == ascending(p.of(side), 32),
                moves@ == steps_of(p, side, squares@.take(i as int)),
            decreases squares.len() - i,
        {
            let from: u8 = squares[i];
            proof {
                lemma_ascending_members(p.of(side), 32, i as int);
            }
            let king: bool = self.kings & (1u32 << from) != 0;
            let dirs = move_dirs(side, king);
            let ghost before = moves@;
            let mut k: usize = 0;
            while k < dirs.len()
                invariant
                    k <= dirs.len(),
                    p == self@,
                    on_board(from as int),
                    squares_of(occupied) == p.occupied(),
                    dirs@ == p.dirs(side, from as int),
                    moves@ == before + steps_within(p, side, from as int, k as nat),
                decreases dirs.len() - k,
            {
                let (dr, dc) = dirs[k];
                if let Some(to) = offset_square(from, dr, dc) {
                    let to_mask: u32 = 1u32 << to;
                    if occupied & to_mask == 0 {
                        assert(!squares_of(occupied).contains(to as int));
                        moves.push(Move::quiet(from, to));
                    } else {
                        assert(squares_of(occupied).contains(to as int));
                    }
                }
                k += 1;
            }
            proof {
                assert(squares@.take(i + 1).drop_last() =~= squares@.take(i as int));
            }
            i += 1;
        }
        assert(squares@.take(squares.len() as int) =~= squares@);
        moves
    }

    /// The captures of `side`.
    pub(crate) fn capture_moves(self, side: Side) -> (moves: Vec<Move>)
        requires
            captures_fit(self@, side),
        ensures
            moves@ == all_captures(self@, side),
    {
        let mut moves: Vec<Move> = Vec::new();
        let squares = bit_indices(self.side_bits(side));
        let ghost p = self@;
        let mut i: usize = 0;
        while i < squares.len()
            invariant
                i <= squares.len(),
                p == self@,
                captures_fit(p, side),
                squares@ == ascending(p.of(side), 32),
                moves@ == captures_of(p, side, squares@.take(i as int)),
            decreases squares.len() - i,
        {
            let from: u8 = squares[i];
            proof {
                lemma_ascending_members(p.of(side), 32, i as int);
            }
            let mut path = Move::quiet(from, from);
            assert(path == move_along(from as int, Seq::empty())) by {
                assert(path.captures =~= move_along(from as int, Seq::empty()).captures);
            }
            self.collect_captures(side, from, from, &mut path, &mut moves, Ghost(Seq::empty()));
            proof {
                assert(squares@.take(i + 1).drop_last() =~= squares@.take(i as int));
            }
            i += 1;
        }
        assert(squares@.take(squares.len() as int) =~= squares@);
        moves
    }

    /// The jump of the piece of `side` on `from` in one direction, if there is
    /// one: the square jumped over and the square landed on.
    fn find_jump(self, side: Side, from: u8, dr: i8, dc: i8) -> (jump: Option<(u8, u8)>)
        requires
            on_board(from as int),
            -1 <= dr <= 1,
            -1 <= dc <= 1,
        ensures
            jump is Some <==> jump_toward(self@, side, from as int, (dr, dc)) is Some,
            jump matches Some((over, to)) ==> on_board(over as int) && on_board(to as int)
                && jump_toward(self@, side, from as int, (dr, dc)) == Some(
                Jump { over: over as int, to: to as int },
            ),
    {
        let enemy: u32 = self.side_bits(side.opponent());
        let occupied: u32 = self.occupied();
        if let Some(mid) = offset_square(from, dr, dc) {
            if let Some(to) = offset_square(from, dr * 2, dc * 2) {
                let mid_mask: u32 = 1u32 << mid;
                let to_mask: u32 = 1u32 << to;
                assert(squares_of(enemy).contains(mid as int) == (enemy & mid_mask != 0));
                assert(squares_of(occupied).contains(to as int) == (occupied & to_mask != 0));
                if enemy & mid_mask != 0 && occupied & to_mask == 0 {
                    return Some((mid, to));
                }
            }
        }
        None
    }

    /// The board after one jump.
    fn jump(self, side: Side, from: u8, over: u8, to: u8) -> (next: Self)
        requires
            on_board(from as int),
            on_board(over as int),
            on_board(to as int),
        ensures
            next@ == after_jump(self@, side, from as int, Jump { over: over as int, to: to as int }),
    {
        let single = Move {
            from,
            to,
            captures: [Some(over), None, None, None, None, None, None],
            capture_len: 1,
        };
        assert(single.captures@[0] == Some(over));
        assert(single.taken() =~= set![over as int]);
        self.apply(side, single)
    }

    /// Follows every chain of jumps that goes on from `from` and records the
    /// complete ones. `path` holds the jumps made so far, which are `prefix`.
    #[verifier::rlimit(40)]
    fn collect_captures(
        self,
        side: Side,
        origin: u8,
        from: u8,
        path: &mut Move,
        moves: &mut Vec<Move>,
        Ghost(prefix): Ghost<Seq<Jump>>,
    )
        requires
            on_board(from as int),
            prefix.len() <= 7,
            landing(origin as int, prefix) == from,
            *old(path) == move_along(origin as int, prefix),
            jumps_fit(self@, side, from as int, (7 - prefix.len()) as nat),
        ensures
            *final(path) == *old(path),
            final(moves)@ == old(moves)@ + if prefix.len() == 0 && !can_jump(
                self@,
                side,
                from as int,
            ) {
                Seq::empty()
            } else {
                moves_along(
                    origin as int,
                    prefix,
                    chains(self@, side, from as int, (7 - prefix.len()) as nat),
                )
            },
        decreases 7 - prefix.len(),
    {
        let ghost p = self@;
        let ghost room = (7 - prefix.len()) as nat;
        let king: bool = self.kings & (1u32 << from) != 0;
        let mut extended: bool = false;
        let dirs = move_dirs(side, king);
        let mut k: usize = 0;
        while k < dirs.len()
            invariant
                k <= dirs.len(),
                p == self@,
                room == 7 - prefix.len(),
                prefix.len() <= 7,
                on_board(from as int),
                landing(origin as int, prefix) == from,
                dirs@ == p.dirs(side, from as int),
                jumps_fit(p, side, from as int, room),
                extended == can_jump_within(p, side, from as int, k as int),
                *path == move_along(origin as int, prefix),
                moves@ == old(moves)@ + moves_along(
                    origin as int,
                    prefix,
                    chains_within(p, side, from as int, room, k as nat),
                ),
            decreases dirs.len() - k,
        {
            let (dr, dc) = dirs[k];
            proof {
                lemma_can_jump_within_next(p, side, from as int, k as int);
                assert(p.dirs(side, from as int)[k as int] == (dr, dc));
            }
            if let Some((mid, to)) = self.find_jump(side, from, dr, dc) {
                let ghost jump = Jump { over: mid as int, to: to as int };
                let ghost earlier = chains_within(p, side, from as int, room, k as nat);
                proof {
                    lemma_branch(p, side, from as int, room, k as nat, jump);
                }
                let next = self.jump(side, from, mid, to);
                path.extend(Ghost(origin), Ghost(prefix), mid, to);
                next.collect_captures(side, origin, to, path, moves, Ghost(prefix.push(jump)));
                path.retract(Ghost(origin), Ghost(prefix.push(jump)), from);
                extended = true;
                proof {
                    assert(prefix.push(jump).drop_last() =~= prefix);
                    lemma_moves_along_continue(
                        origin as int,
                        prefix,
                        earlier,
                        jump,
                        chains(next@, side, to as int, (room - 1) as nat),
                    );
                }
            }
            k += 1;
        }
        proof {
            if extended {
                lemma_jump_needs_room(p, side, from as int, room);
            } else {
                lemma_no_chains(p, side, from as int, room, dirs@.len());
                assert(prefix + Seq::<Jump>::empty() =~= prefix);
                assert(moves_along(origin as int, prefix, seq![Seq::empty()]) =~= seq![
                    move_along(origin as int, prefix),
                ]);
            }
        }
        if !extended && path.capture_len > 0 {
            path.from = origin;
            moves.push(*path);
        }
    }

    /// The word of one side.
    spec fn side_word(self, side: Side) -> u32 {
        match side {
            Side::Black => self.black,
            Side::Red => self.red,
        }
    }
}

/// A word of bits holds squares of the board only.
pub(crate) proof fn lemma_word_squares(board: BitBoard)
    ensures
        sides_on_board(board@),
{
}

/// The two words of the starting position hold the squares of the first and of
/// the last three rows.
pub(crate) proof fn lemma_starting_bits()
    ensures
        squares_of(BitBoard::BLACK_START) == start().black,
        squares_of(BitBoard::RED_START) == start().red,
        squares_of(0) == start().kings,
{
    lemma_no_bits(0);
    assert forall|s: int| has_bit(0xfff0_0000, s) == (20 <= s < 32) by {
        let t = s as u32;
        assert(t < 32 ==> ((0xfff0_0000u32 & (1u32 << t) != 0) == (20 <= t))) by (bit_vector);
    }
    assert forall|s: int| has_bit(0x0000_0fff, s) == (0 <= s < 12) by {
        let t = s as u32;
        assert(t < 32 ==> ((0x0000_0fffu32 & (1u32 << t) != 0) == (t < 12))) by (bit_vector);
    }
    assert(squares_of(0xfff0_0000) =~= start().black);
    assert(squares_of(0x0000_0fff) =~= start().red);
}

/// The owner of a piece.
pub fn piece_side(piece: Piece) -> (side: Side)
    ensures
        side == piece.owner(),
{
    match piece {
        Piece::BlackMan | Piece::BlackKing => Side::Black,
        Piece::RedMan | Piece::RedKing => Side::Red,
    }
}

/// How a game ended.
#[derive(Debug, Clone, Copy, PartialEq, Eq, Structural)]
pub enum GameResult {
    Winner(Side),
    Draw,
}

/// A game under way: the board, the player to move, and the number of moves made
/// so far.
#[derive(Debug, Clone, Copy, PartialEq, Eq, Structural)]
pub struct GameState {
    pub board: BitBoard,
    pub turn: Side,
    pub halfmoves: u16,
}

impl View for GameState {
    type V = Game;

    open spec fn view(&self) -> Game {
        Game { position: self.board@, turn: self.turn, halfmoves: self.halfmoves as int }
    }
}

impl Default for BitBoard {
    fn default() -> (board: Self)
        ensures
            board@ == start(),
            board == (BitBoard { black: Self::BLACK_START, red: Self::RED_START, kings: 0 }),
    {
        Self::starting_position()
    }
}

impl Default for GameState {
    fn default() -> (state: Self)
        ensures
            state@ == opening(),
            state == Self::fresh(),
    {
        Self::new()
    }
}

/// The game before its first move; black begins.
pub open spec fn opening() -> Game {
    Game { position: start(), turn: Side::Black, halfmoves: 0 }
}

impl GameState {
    /// The words of a new game.
    pub open spec fn fresh() -> GameState {
        GameState {
            board: BitBoard {
                black: BitBoard::BLACK_START,
                red: BitBoard::RED_START,
                kings: 0,
            },
            turn: Side::Black,
            halfmoves: 0,
        }
    }

    /// The number of moves after which a game is drawn.
    pub const DRAW_HALFMOVES: u16 = 160;

    /// A new game.
    pub fn new() -> (state: Self)
        ensures
            state@ == opening(),
            state == Self::fresh(),
    {
        Self { board: BitBoard::starting_position(), turn: Side::Black, halfmoves: 0 }
    }

    /// The legal moves of the player to move.
    pub fn legal_moves(self) -> (moves: Vec<Move>)
        requires
            captures_fit(self@.position, self.turn),
        ensures
            moves@ == self@.moves(),
    {
        self.board.legal_moves(self.turn)
    }

    /// The game after the player to move has made a move.
    pub fn apply(self, mv: Move) -> (next: Self)
        requires
            mv.within_board(),
            self.halfmoves < u16::MAX,
        ensures
            next@ == self@.play(mv),
    {
        Self {
            board: self.board.apply(self.turn, mv),
            turn: self.turn.opponent(),
            halfmoves: self.halfmoves + 1,
        }
    }

    /// Whether [`GameState::result`] can tell how the game stands.
    pub fn is_judgeable(self) -> (judgeable: bool)
        ensures
            judgeable == self@.judgeable(),
    {
        proof {
            lemma_no_bits(self.board.black);
            lemma_no_bits(self.board.red);
        }
        self.halfmoves >= Self::DRAW_HALFMOVES || self.board.black == 0 || self.board.red == 0
            || self.board.captures_fit(self.turn)
    }

    /// How the game ended, if it did.
    pub fn result(self) -> (result: Option<GameResult>)
        requires
            self@.judgeable(),
        ensures
            result == self@.outcome(),
    {
        proof {
            lemma_no_bits(self.board.black);
            lemma_no_bits(self.board.red);
        }
        if self.halfmoves >= Self::DRAW_HALFMOVES {
            return Some(GameResult::Draw);
        }
        if self.board.black == 0 {
            return Some(GameResult::Winner(Side::Red));
        }
        if self.board.red == 0 {
            return Some(GameResult::Winner(Side::Black));
        }
        if self.legal_moves().len() == 0 {
            return Some(GameResult::Winner(self.turn.opponent()));
        }
        None
    }
}

/// The opponent's opponent is the player, and nobody is their own opponent.
pub proof fn law_opponents_are_mutual(side: Side)
    ensures
        side.other().other() == side,
        side.other() != side,
{
}

/// A game is known by its position, the player to move and the number of moves made:
/// no two states stand for the same game.
pub proof fn law_states_are_known_by_their_games(a: GameState, b: GameState)
    requires
        a@ == b@,
    ensures
        a == b,
{
    law_words_are_known_by_their_squares(a.board.black, b.board.black);
    law_words_are_known_by_their_squares(a.board.red, b.board.red);
    law_words_are_known_by_their_squares(a.board.kings, b.board.kings);
}

/// A move is written as the names of its squares with a cross between them if it takes
/// anything, and with a dash if not.
pub proof fn law_move_names(mv: Move)
    ensures
        mv.name().len() == 5,
        mv.name()[0] == square_name(mv.from as int)[0],
        mv.name()[1] == square_name(mv.from as int)[1],
        mv.name()[2] == if mv.capture_len > 0 {
            'x'
        } else {
            '-'
        },
        mv.name()[3] == square_name(mv.to as int)[0],
        mv.name()[4] == square_name(mv.to as int)[1],
{
    reveal_strlit("x");
    reveal_strlit("-");
}

/// A quiet move leads from the one square to the other and takes nothing.
pub proof fn law_quiet_moves_take_nothing(from: u8, to: u8)
    ensures
        ({
            let mv = quiet_move(from as int, to as int);
            &&& mv.from == from
            &&& mv.to == to
            &&& mv.capture_len == 0
            &&& forall|i: int| 0 <= i < 7 ==> #[trigger] mv.captures@[i] is None
        }),
{
}

/// A state is read off its words: a piece stands on a square exactly if the bit of the
/// square is set in the word of its colour, and the square is marked as holding a king
/// exactly if it is set in the third word.
pub proof fn law_states_are_read_off_their_words(state: GameState, square: u32)
    requires
        square < 32,
    ensures
        state@.position.black.contains(square as int) <==> (state.board.black >> square) % 2 == 1,
        state@.position.red.contains(square as int) <==> (state.board.red >> square) % 2 == 1,
        state@.position.kings.contains(square as int) <==> (state.board.kings >> square) % 2 == 1,
        state@.turn == state.turn,
        state@.halfmoves == state.halfmoves,
{
    law_bits_are_squares(state.board.black, square);
    law_bits_are_squares(state.board.red, square);
    law_bits_are_squares(state.board.kings, square);
}

/// A record is within the board exactly if all the numbers of squares in it, up to nine of
/// them, are below thirty-two.
pub proof fn law_records_within_the_board(mv: Move)
    ensures
        mv.within_board() <==> {
            &&& mv.from < 32
            &&& mv.to < 32
            &&& forall|i: int, square: u8|
                0 <= i < 7 && #[trigger] mv.captures@[i] == Some(square) ==> #[trigger] below_end(
                    square,
                )
        },
{
    if mv.within_board() {
        assert forall|i: int, square: u8|
            0 <= i < 7 && #[trigger] mv.captures@[i] == Some(square) implies #[trigger] below_end(
            square,
        ) by {}
    } else {
        if mv.from < 32 && mv.to < 32 {
            let i = choose|i: int|
                0 <= i < 7 && #[trigger] mv.captures@[i] is Some && !on_board(
                    mv.captures@[i]->0 as int,
                );
            assert(!below_end(mv.captures@[i]->0));
        }
    }
}

/// Whether a number is that of a square of the board.
pub open spec fn below_end(square: u8) -> bool {
    square < 32
}

} // verus!
