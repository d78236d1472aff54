//! What positions are worth, and random playouts from them.
use crate::bits::squares_of;
use crate::engine::{lemma_word_squares, GameResult, GameState, Move, Piece, Side};
use crate::legality::law_legal_moves_are_proper;
use crate::rules::{captures_fit, moves_of, Game, Position};
use crate::single::Single;
use vstd::prelude::*;

verus! {

/// The generator's state after one draw.
pub open spec fn stirred(state: u64) -> u64 {
    state.wrapping_mul(6_364_136_223_846_793_005).wrapping_add(1)
}

/// The number drawn: the upper half of the next state.
pub open spec fn drawn(state: u64) -> u32 {
    (stirred(state) >> 32) as u32
}

/// A linear congruential generator.
#[derive(Debug, Clone, Copy)]
pub struct SmallRng {
    pub state: u64,
}

impl SmallRng {
    /// A generator that starts from a seed; the state is always odd at first.
    pub fn new(seed: u64) -> (rng: Self)
        ensures
            rng.state == seed | 1,
            rng.state % 2 == 1,
    {
        assert((seed | 1) % 2 == 1) by (bit_vector);
        Self { state: seed | 1 }
    }

    /// The next number.
    pub fn next_u32(&mut self) -> (number: u32)
        ensures
            number == drawn(old(self).state),
            final(self).state == stirred(old(self).state),
    {
        self.state = self.state.wrapping_mul(6_364_136_223_846_793_005).wrapping_add(1);
        (self.state >> 32) as u32
    }

    /// The next index into a list of `len` entries.
    pub fn next_index(&mut self, len: usize) -> (index: usize)
        requires
            len > 0,
        ensures
            index == drawn(old(self).state) as int % len as int,
            index < len,
            final(self).state == stirred(old(self).state),
    {
        (self.next_u32() as usize) % len
    }
}

/// The seed of the playouts from a position. It does not depend on the number of
/// moves made.
pub open spec fn seed_of(state: GameState) -> u64 {
    ((state.board.black as u64) << 32) ^ state.board.red as u64 ^ ((state.board.kings as u64) << 1)
        ^ (match state.turn {
        Side::Black => 0x9e37_79b9_7f4a_7c15u64,
        Side::Red => 0xbf58_476d_1ce4_e5b9u64,
    })
}

/// The seed of the playouts from a position; see [`seed_of`].
pub fn position_seed(state: GameState) -> (seed: u64)
    ensures
        seed == seed_of(state),
{
    let side: u64 = match state.turn {
        Side::Black => 0x9e37_79b9_7f4a_7c15,
        Side::Red => 0xbf58_476d_1ce4_e5b9,
    };
    ((state.board.black as u64) << 32) ^ state.board.red as u64 ^ ((state.board.kings as u64) << 1)
        ^ side
}

/// What a result is worth for a side: one for its win, minus one for its loss,
/// nothing for a draw.
pub open spec fn worth(result: GameResult, side: Side) -> int {
    match result {
        GameResult::Winner(winner) => if winner == side {
            1
        } else {
            -1
        },
        GameResult::Draw => 0,
    }
}

/// What the game is worth for a side, if it is over.
pub fn terminal_value(state: GameState, side: Side) -> (value: Option<Single>)
    requires
        state@.judgeable(),
    ensures
        value == match state@.outcome() {
            Some(result) => Some(Single::of_sign(worth(result, side))),
            None => None,
        },
{
    match state.result() {
        Some(result) => Some(result_value(result, side)),
        None => None,
    }
}

/// What a result is worth for a side; see [`worth`].
pub(crate) fn result_value(result: GameResult, side: Side) -> (value: Single)
    ensures
        value == Single::of_sign(worth(result, side)),
{
    match result {
        GameResult::Winner(winner) => if winner == side {
            Single::one()
        } else {
            Single::minus_one()
        },
        GameResult::Draw => Single::zero(),
    }
}

/// The piece that a side has on a square.
pub open spec fn rank_of(p: Position, side: Side, square: int) -> Piece {
    match (side, p.kings.contains(square)) {
        (Side::Black, false) => Piece::BlackMan,
        (Side::Black, true) => Piece::BlackKing,
        (Side::Red, false) => Piece::RedMan,
        (Side::Red, true) => Piece::RedKing,
    }
}

/// The pieces of a side on its squares below `bound`, in the order of the squares.
pub open spec fn pieces_below(p: Position, side: Side, bound: nat) -> Seq<Piece>
    decreases bound,
{
    if bound == 0 {
        Seq::empty()
    } else {
        let fewer = pieces_below(p, side, (bound - 1) as nat);
        if p.of(side).contains(bound - 1) {
            fewer.push(rank_of(p, side, bound - 1))
        } else {
            fewer
        }
    }
}

/// The pieces of a side, in the order of their squares.
pub fn material(state: GameState, side: Side) -> (pieces: Vec<Piece>)
    ensures
        pieces@ == pieces_below(state@.position, side, 32),
{
    let bits: u32 = state.board.side_bits(side);
    let mut pieces: Vec<Piece> = Vec::new();
    let ghost p = state@.position;
    let mut square: u32 = 0;
    while square < 32
        invariant
            square <= 32,
            p == state.board@,
            squares_of(bits) == p.of(side),
            pieces@ == pieces_below(p, side, square as nat),
        decreases 32 - square,
    {
        let mask: u32 = 1u32 << square;
        let is_king: bool = state.board.kings & mask != 0;
        assert(p.of(side).contains(square as int) == (bits & mask != 0));
        assert(p.kings.contains(square as int) == is_king);
        if bits & mask != 0 {
            let piece = match (side, is_king) {
                (Side::Black, false) => Piece::BlackMan,
                (Side::Black, true) => Piece::BlackKing,
                (Side::Red, false) => Piece::RedMan,
                (Side::Red, true) => Piece::RedKing,
            };
            pieces.push(piece);
        }
        square += 1;
    }
    pieces
}

/// What an evaluation of a position weighs: the value of a game that is over, or
/// the pieces of both sides, each list in the order of the squares, and by how
/// many legal moves one side is ahead.
#[derive(Debug, Clone)]
pub enum Evaluation {
    Decided(Single),
    Open { black: Vec<Piece>, red: Vec<Piece>, mobility: i128 },
}

/// The contents of an [`Evaluation`].
pub enum Balance {
    Decided(Single),
    Open { black: Seq<Piece>, red: Seq<Piece>, mobility: int },
}

impl View for Evaluation {
    type V = Balance;

    open spec fn view(&self) -> Balance {
        match *self {
            Evaluation::Decided(value) => Balance::Decided(value),
            Evaluation::Open { black, red, mobility } => Balance::Open {
                black: black@,
                red: red@,
                mobility: mobility as int,
            },
        }
    }
}

/// Whether a position can be evaluated: its outcome can be found, and if it has
/// none, the legal moves of both sides can be listed.
pub open spec fn evaluable(g: Game) -> bool {
    g.judgeable() && (g.outcome() is None ==> captures_fit(g.position, Side::Black)
        && captures_fit(g.position, Side::Red))
}

/// What an evaluation for `side` weighs.
pub open spec fn balance(g: Game, side: Side) -> Balance {
    match g.outcome() {
        Some(result) => Balance::Decided(Single::of_sign(worth(result, side))),
        None => Balance::Open {
            black: pieces_below(g.position, Side::Black, 32),
            red: pieces_below(g.position, Side::Red, 32),
            mobility: moves_of(g.position, side).len() - moves_of(g.position, side.other()).len(),
        },
    }
}

/// Whether [`evaluate`] can weigh a position.
pub fn is_evaluable(state: GameState) -> (fits: bool)
    ensures
        fits == evaluable(state@),
{
    state.is_judgeable() && (state.result().is_some() || (state.board.captures_fit(Side::Black)
        && state.board.captures_fit(Side::Red)))
}

/// Weighs a position for a side.
pub fn evaluate(state: GameState, side: Side) -> (evaluation: Evaluation)
    requires
        evaluable(state@),
    ensures
        evaluation@ == balance(state@, side),
{
    if let Some(value) = terminal_value(state, side) {
        return Evaluation::Decided(value);
    }
    let black = material(state, Side::Black);
    let red = material(state, Side::Red);
    let mobility: i128 = state.board.legal_moves(side).len() as i128 - state.board.legal_moves(
        side.opponent(),
    ).len() as i128;
    Evaluation::Open { black, red, mobility }
}

/// Where a random playout of at most `depth` moves leads: the balance for `side`
/// where it stops, and the generator's state by then. There is no balance if the
/// playout comes to a position whose captures do not fit into move records.
#[verifier::opaque]
pub open spec fn playout(g: Game, side: Side, rng: u64, depth: nat) -> (Option<Balance>, u64)
    decreases depth,
{
    if depth == 0 {
        (
            if evaluable(g) {
                Some(balance(g, side))
            } else {
                None
            },
            rng,
        )
    } else if !g.judgeable() {
        (None, rng)
    } else if g.outcome() is Some {
        (Some(balance(g, side)), rng)
    } else {
        let index = drawn(rng) as int % g.moves().len() as int;
        playout(g.play(g.moves()[index]), side, stirred(rng), (depth - 1) as nat)
    }
}

/// The first move of a playout.
proof fn lemma_playout_step(g: Game, side: Side, rng: u64, depth: nat)
    requires
        depth > 0,
    ensures
        !g.judgeable() ==> playout(g, side, rng, depth) == (None::<Balance>, rng),
        g.judgeable() && g.outcome() is Some ==> playout(g, side, rng, depth) == (
            Some(balance(g, side)),
            rng,
        ),
        g.judgeable() && g.outcome() is None ==> playout(g, side, rng, depth) == playout(
            g.play(g.moves()[drawn(rng) as int % g.moves().len() as int]),
            side,
            stirred(rng),
            (depth - 1) as nat,
        ),
{
    reveal(playout);
}

/// A random legal move.
fn random_move(state: GameState, rng: &mut SmallRng) -> (mv: Move)
    requires
        captures_fit(state@.position, state.turn),
        state@.moves().len() > 0,
    ensures
        mv == state@.moves()[drawn(old(rng).state) as int % state@.moves().len() as int],
        mv.within_board(),
        final(rng).state == stirred(old(rng).state),
{
    let moves = state.legal_moves();
    let index: usize = rng.next_index(moves.len());
    let mv = moves[index];
    proof {
        lemma_word_squares(state.board);
        assert(state@.moves().contains(mv));
        law_legal_moves_are_proper(state@.position, state.turn, mv);
    }
    mv
}

/// Plays random legal moves until the game is over or `depth` moves were made, and
/// weighs what came out for `root_side`; see [`playout`].
pub fn rollout(state: GameState, root_side: Side, rng: &mut SmallRng, depth: u8) -> (evaluation:
    Option<Evaluation>)
    ensures
        weighed(evaluation) == playout(state@, root_side, old(rng).state, depth as nat).0,
        final(rng).state == playout(state@, root_side, old(rng).state, depth as nat).1,
{
    let mut current: GameState = state;
    let mut left: u8 = depth;
    while left > 0
        invariant
            playout(current@, root_side, rng.state, left as nat) == playout(
                state@,
                root_side,
                old(rng).state,
                depth as nat,
            ),
        decreases left,
    {
        proof {
            lemma_playout_step(current@, root_side, rng.state, left as nat);
        }
        if !current.is_judgeable() {
            return None;
        }
        if let Some(value) = terminal_value(current, root_side) {
            return Some(Evaluation::Decided(value));
        }
        let mv = random_move(current, rng);
        current = current.apply(mv);
        left -= 1;
    }
    reveal(playout);
    if is_evaluable(current) {
        Some(evaluate(current, root_side))
    } else {
        None
    }
}

/// The contents of a playout's evaluation.
pub open spec fn weighed(evaluation: Option<Evaluation>) -> Option<Balance> {
    match evaluation {
        Some(e) => Some(e@),
        None => None,
    }
}

/// What is won by one side is lost by the other.
pub proof fn law_worth_is_zero_sum(result: GameResult, side: Side)
    ensures
        worth(result, side) + worth(result, side.other()) == 0,
{
}

/// The evaluation for the other side weighs the same pieces, with the lead in legal
/// moves turned round.
pub proof fn law_balance_is_zero_sum(g: Game, side: Side)
    ensures
        match (balance(g, side), balance(g, side.other())) {
            (
                Balance::Open { black, red, mobility },
                Balance::Open { black: b, red: r, mobility: m },
            ) => g.outcome() is None && black == b && red == r && m == -mobility,
            (Balance::Decided(value), Balance::Decided(v)) => g.outcome() matches Some(result)
                && value == Single::of_sign(worth(result, side)) && v == Single::of_sign(
                -worth(result, side),
            ),
            _ => false,
        },
{
}

/// A playout stops at once in a game that is over, and draws no number for it.
pub proof fn law_playouts_stop_when_the_game_is_over(g: Game, side: Side, rng: u64, depth: nat)
    requires
        g.outcome() is Some,
        g.judgeable(),
    ensures
        playout(g, side, rng, depth) == (Some(balance(g, side)), rng),
{
    reveal(playout);
}

/// Whether the value of a decided game is one from minus one to one.
pub open spec fn is_moderate(weighed: Balance) -> bool {
    weighed matches Balance::Decided(value) ==> value.within_unit()
}

/// What comes out of a playout is moderate: a decided game is worth minus one, nothing or
/// one.
pub proof fn law_playouts_are_moderate(g: Game, side: Side, rng: u64, depth: nat)
    ensures
        playout(g, side, rng, depth).0 matches Some(weighed) ==> is_moderate(weighed),
    decreases depth,
{
    reveal(playout);
    if depth > 0 && g.judgeable() && g.outcome() is None {
        let index = drawn(rng) as int % g.moves().len() as int;
        law_playouts_are_moderate(
            g.play(g.moves()[index]),
            side,
            stirred(rng),
            (depth - 1) as nat,
        );
    }
}

} // verus!
