//! What the policy and value network is fed with and asked for.
use crate::bits::squares_of;
use crate::engine::{lemma_word_squares, square_coords, BitBoard, GameState, Move, Side};
use crate::legality::{law_legal_moves_are_proper, sides_on_board};
use crate::playouts::{balance, evaluable, evaluate, Evaluation};
use crate::rules::{captures_fit, Game};
use crate::single::Single;
use vstd::prelude::*;

verus! {

/// The planes of the network's input.
pub const INPUT_PLANES: usize = 4;

/// The rows of the board.
pub const BOARD_ROWS: usize = 8;

/// The playable fields of a row.
pub const DARK_COLS: usize = 4;

/// The size of the network's input: a number for each playable field in each plane.
pub const INPUT_SIZE: usize = 128;

/// The size of a policy: a number for each pair of squares.
pub const POLICY_SIZE: usize = 1024;

/// The shape of the residual network.
#[derive(Debug, Clone, Copy, PartialEq, Eq, Structural)]
pub struct ResidualModelConfig {
    pub residual_blocks: usize,
    pub channels: usize,
    pub policy_outputs: usize,
}

impl Default for ResidualModelConfig {
    fn default() -> (config: Self)
        ensures
            config.residual_blocks == 10,
            config.channels == 64,
            config.policy_outputs == POLICY_SIZE,
    {
        Self { residual_blocks: 10, channels: 64, policy_outputs: POLICY_SIZE }
    }
}

/// A policy over all pairs of squares and a value for the player to move.
#[derive(Debug, Clone, PartialEq)]
pub struct NetworkOutput {
    pub policy: Vec<Single>,
    pub value: Single,
}

/// The input that stands for a square in one of the planes: the black men, the
/// black kings and the red men, each as a one; the fourth plane is one everywhere
/// if black is to move and minus one if red is.
pub open spec fn feature(g: Game, plane: int, square: int) -> Single {
    let king = g.position.kings.contains(square);
    if plane == 0 && g.position.black.contains(square) && !king {
        Single::of_sign(1)
    } else if plane == 1 && g.position.black.contains(square) && king {
        Single::of_sign(1)
    } else if plane == 2 && g.position.red.contains(square) && !king {
        Single::of_sign(1)
    } else if plane == 3 {
        Single::of_sign(
            if g.turn is Black {
                1
            } else {
                -1
            },
        )
    } else {
        Single::of_sign(0)
    }
}

/// All inputs for a game, plane by plane and square by square.
pub open spec fn features(g: Game) -> Seq<Single> {
    Seq::new(128, |i: int| feature(g, i / 32, i % 32))
}

/// Whether inputs show a game: thirty-two numbers for the black men, as many for the black
/// kings and for the red men, a one where there is such a piece and a zero elsewhere, and
/// as many that are one if black is to move and minus one if red is.
pub open spec fn shows_game(g: Game, inputs: Seq<Single>) -> bool {
    let (black, red, kings) = (g.position.black, g.position.red, g.position.kings);
    &&& inputs.len() == 128
    &&& forall|s: int|
        0 <= s < 32 ==> (#[trigger] inputs[s]).bits == if black.contains(s) && !kings.contains(s) {
            0x3f80_0000
        } else {
            0u32
        }
    &&& forall|i: int|
        32 <= i < 64 ==> (#[trigger] inputs[i]).bits == if black.contains(i - 32)
            && kings.contains(i - 32) {
            0x3f80_0000
        } else {
            0u32
        }
    &&& forall|i: int|
        64 <= i < 96 ==> (#[trigger] inputs[i]).bits == if red.contains(i - 64)
            && !kings.contains(i - 64) {
            0x3f80_0000
        } else {
            0u32
        }
    &&& forall|i: int|
        96 <= i < 128 ==> (#[trigger] inputs[i]).bits == if g.turn is Black {
            0x3f80_0000
        } else {
            0xbf80_0000u32
        }
}

/// The network's inputs for a game; see [`feature`].
pub fn encode_state(state: GameState) -> (encoded: [Single; INPUT_SIZE])
    ensures
        encoded@ == features(state@),
        shows_game(state@, encoded@),
{
    let mut encoded: [Single; INPUT_SIZE] = [Single { bits: 0 }; INPUT_SIZE];
    encode_piece_plane(&mut encoded, state.board, Side::Black, false, 0);
    encode_piece_plane(&mut encoded, state.board, Side::Black, true, 1);
    encode_piece_plane(&mut encoded, state.board, Side::Red, false, 2);
    let turn_value: Single = if state.turn == Side::Black {
        Single::one()
    } else {
        Single::minus_one()
    };
    let ghost pieces = encoded@;
    let mut row: usize = 0;
    while row < BOARD_ROWS
        invariant
            row <= 8,
            encoded@.len() == 128,
            pieces.len() == 128,
            forall|i: int|
                0 <= i < 128 ==> #[trigger] encoded@[i] == if 96 <= i < 96 + row * 4 {
                    turn_value
                } else {
                    pieces[i]
                },
        decreases 8 - row,
    {
        let mut dark_col: usize = 0;
        while dark_col < DARK_COLS
            invariant
                row < 8,
                dark_col <= 4,
                encoded@.len() == 128,
                pieces.len() == 128,
                forall|i: int|
                    0 <= i < 128 ==> #[trigger] encoded@[i] == if 96 <= i < 96 + row * 4 + dark_col {
                        turn_value
                    } else {
                        pieces[i]
                    },
            decreases 4 - dark_col,
        {
            encoded[feature_index(3, row, dark_col)] = turn_value;
            dark_col += 1;
        }
        row += 1;
    }
    assert(encoded@ =~= features(state@));
    proof {
        law_inputs_show_the_game(state@);
    }
    encoded
}

/// Marks the squares of the men or of the kings of a side in one plane.
fn encode_piece_plane(
    encoded: &mut [Single; INPUT_SIZE],
    board: BitBoard,
    side: Side,
    kings_only: bool,
    plane: usize,
)
    requires
        plane < 4,
    ensures
        forall|i: int|
            0 <= i < 128 ==> #[trigger] final(encoded)@[i] == if i / 32 == plane && board@.of(
                side,
            ).contains(i % 32) && board@.kings.contains(i % 32) == kings_only {
                Single::of_sign(1)
            } else {
                old(encoded)@[i]
            },
{
    let pieces: u32 = board.side_bits(side);
    let mut square: u8 = 0;
    while square < 32
        invariant
            plane < 4,
            square <= 32,
            squares_of(pieces) == board@.of(side),
            forall|i: int|
                0 <= i < 128 ==> #[trigger] encoded@[i] == if i / 32 == plane && i % 32 < square
                    && board@.of(side).contains(i % 32) && board@.kings.contains(i % 32)
                    == kings_only {
                    Single::of_sign(1)
                } else {
                    old(encoded)@[i]
                },
        decreases 32 - square,
    {
        let mask: u32 = 1u32 << square;
        let is_king: bool = board.kings & mask != 0;
        assert(board@.of(side).contains(square as int) == (pieces & mask != 0));
        assert(board@.kings.contains(square as int) == is_king);
        if pieces & mask != 0 && kings_only == is_king {
            let (row, col) = square_coords(square);
            let index: usize = feature_index(plane, row, col / 2);
            assert(index == plane * 32 + square);
            encoded[index] = Single::one();
        }
        square += 1;
    }
}

/// The index of a field in the network's input.
pub(crate) fn feature_index(plane: usize, row: usize, dark_col: usize) -> (index: usize)
    requires
        plane * 32 + row * 4 + dark_col <= usize::MAX,
    ensures
        index == plane * 32 + row * 4 + dark_col,
{
    plane * BOARD_ROWS * DARK_COLS + row * DARK_COLS + dark_col
}

/// The slot of a pair of squares in a policy.
pub fn move_policy_index(from: u8, to: u8) -> (index: usize)
    ensures
        index == slot_of(from as int, to as int),
        index == from * 32 + to,
{
    from as usize * 32 + to as usize
}

/// The slot of a pair of squares in a policy.
pub open spec fn slot_of(from: int, to: int) -> int {
    from * 32 + to
}

/// Whether one of the moves has a slot.
pub open spec fn has_slot(moves: Seq<Move>, slot: int) -> bool {
    exists|k: int|
        0 <= k < moves.len() && slot_of(
            (#[trigger] moves[k]).from as int,
            moves[k].to as int,
        ) == slot
}

/// The policy that gives one number to the slots of the moves and zero to all others.
pub open spec fn spread_over(moves: Seq<Move>, number: Single) -> Seq<Single> {
    Seq::new(
        POLICY_SIZE as nat,
        |slot: int|
            if has_slot(moves, slot) {
                number
            } else {
                Single::of_sign(0)
            },
    )
}

/// A policy of zeros.
pub(crate) fn blank_policy() -> (policy: Vec<Single>)
    ensures
        policy@ == Seq::new(POLICY_SIZE as nat, |slot: int| Single::of_sign(0)),
{
    let mut policy: Vec<Single> = Vec::with_capacity(POLICY_SIZE);
    while policy.len() < POLICY_SIZE
        invariant
            policy@.len() <= POLICY_SIZE,
            forall|slot: int| 0 <= slot < policy@.len() ==> policy@[slot] == Single::of_sign(0),
        decreases POLICY_SIZE - policy.len(),
    {
        policy.push(Single::zero());
    }
    assert(policy@ =~= Seq::new(POLICY_SIZE as nat, |slot: int| Single::of_sign(0)));
    policy
}

/// Puts one number into the slots of the legal moves.
fn spread(state: GameState, number: Single) -> (policy: Vec<Single>)
    requires
        captures_fit(state@.position, state.turn),
    ensures
        policy@ == spread_over(state@.moves(), number),
{
    let moves = state.legal_moves();
    let mut policy = blank_policy();
    let mut k: usize = 0;
    while k < moves.len()
        invariant
            k <= moves.len(),
            moves@ == state@.moves(),
            captures_fit(state@.position, state.turn),
            policy@ == spread_over(moves@.take(k as int), number),
        decreases moves.len() - k,
    {
        let mv = moves[k];
        proof {
            lemma_word_squares(state.board);
            assert(moves@.contains(mv));
            law_legal_moves_are_proper(state@.position, state.turn, mv);
            lemma_slots_grow(moves@, k as int);
        }
        policy[move_policy_index(mv.from, mv.to)] = number;
        assert(policy@ =~= spread_over(moves@.take(k + 1), number));
        k += 1;
    }
    assert(moves@.take(k as int) =~= moves@);
    policy
}

/// One more move adds its slot.
proof fn lemma_slots_grow(moves: Seq<Move>, k: int)
    requires
        0 <= k < moves.len(),
    ensures
        forall|slot: int|
            #[trigger] has_slot(moves.take(k + 1), slot) <==> has_slot(moves.take(k), slot) || slot
                == slot_of(moves[k].from as int, moves[k].to as int),
{
    assert forall|slot: int| #[trigger]
        has_slot(moves.take(k + 1), slot) <==> has_slot(moves.take(k), slot) || slot == slot_of(
            moves[k].from as int,
            moves[k].to as int,
        ) by {
        let more = moves.take(k + 1);
        let fewer = moves.take(k);
        if has_slot(more, slot) {
            let i = choose|i: int|
                0 <= i < more.len() && slot_of((#[trigger] more[i]).from as int, more[i].to as int)
                    == slot;
            if i < k {
                assert(fewer[i] == more[i]);
            }
        }
        if has_slot(fewer, slot) {
            let i = choose|i: int|
                0 <= i < fewer.len() && slot_of(
                    (#[trigger] fewer[i]).from as int,
                    fewer[i].to as int,
                ) == slot;
            assert(more[i] == fewer[i]);
        }
        assert(more[k] == moves[k]);
    }
}

/// The slots of the legal moves: one for each of them, zero for all others.
pub fn legal_policy_mask(state: GameState) -> (mask: Vec<Single>)
    requires
        captures_fit(state@.position, state.turn),
    ensures
        mask@ == spread_over(state@.moves(), Single::of_sign(1)),
{
    spread(state, Single::one())
}

/// Whether `weigh` gives a value for the evaluation of a game for the player to move.
pub open spec fn weighs_up_to<W: Fn(Evaluation) -> Single>(
    g: Game,
    evaluation: Evaluation,
    value: Single,
    weigh: W,
) -> bool {
    evaluation@ == balance(g, g.turn) && call_ensures(weigh, (evaluation,), value)
}

/// The output that stands in for an untrained network: every legal move has the same
/// probability, one divided by the number of legal moves, and the value is what the
/// evaluation of the position weighs up to. `share` divides one by a number, and `weigh`
/// turns an evaluation into its value. Without legal moves all probabilities are zero.
pub fn initial_policy_value<D: Fn(usize) -> Single, W: Fn(Evaluation) -> Single>(
    state: GameState,
    share: D,
    weigh: W,
) -> (output: NetworkOutput)
    requires
        captures_fit(state@.position, state.turn),
        evaluable(state@),
        forall|count: usize| count > 0 ==> call_requires(share, (count,)),
        forall|evaluation: Evaluation| call_requires(weigh, (evaluation,)),
    ensures
        exists|probability: Single|
            {
                &&& output.policy@ == #[trigger] spread_over(state@.moves(), probability)
                &&& if state@.moves().len() == 0 {
                    probability == Single::of_sign(0)
                } else {
                    call_ensures(share, (state@.moves().len() as usize,), probability)
                }
            },
        exists|evaluation: Evaluation| #[trigger]
            weighs_up_to(state@, evaluation, output.value, weigh),
{
    let count: usize = state.legal_moves().len();
    let probability: Single = if count == 0 {
        Single::zero()
    } else {
        share(count)
    };
    let evaluation = evaluate(state, state.turn);
    let ghost weighed = evaluation;
    let value: Single = weigh(evaluation);
    let output = NetworkOutput { policy: spread(state, probability), value };
    assert(weighs_up_to(state@, weighed, output.value, weigh));
    output
}

/// The names of the backends that a network can run on.
pub open spec fn backend_name(gpu: bool) -> Seq<char> {
    if gpu {
        "Wgpu (GPU)"@
    } else {
        "NdArray (CPU)"@
    }
}

/// The name of the backend that the network runs on: the one on the graphics card in a
/// build for it, and the one on the processor in any other.
pub fn backend_label(gpu: bool) -> (label: &'static str)
    ensures
        label@ == backend_name(gpu),
{
    if gpu {
        "Wgpu (GPU)"
    } else {
        "NdArray (CPU)"
    }
}

/// Different pairs of squares of the board have different slots, and all of them
/// are slots of a policy.
pub proof fn law_slots_are_distinct(from: int, to: int, other_from: int, other_to: int)
    requires
        0 <= from < 32,
        0 <= to < 32,
        0 <= other_from < 32,
        0 <= other_to < 32,
    ensures
        0 <= slot_of(from, to) < POLICY_SIZE,
        slot_of(from, to) == slot_of(other_from, other_to) ==> from == other_from && to
            == other_to,
{
}

/// In the mask of a position the slot of two squares holds a one exactly if a legal
/// move leads from the first to the second, and a zero otherwise.
pub proof fn law_mask_marks_legal_moves(g: Game, from: u8, to: u8)
    requires
        sides_on_board(g.position),
        captures_fit(g.position, g.turn),
        from < 32,
        to < 32,
    ensures
        ({
            let entry = spread_over(g.moves(), Single::of_sign(1))[slot_of(from as int, to as int)];
            let legal = exists|i: int|
                0 <= i < g.moves().len() && (#[trigger] g.moves()[i]).from == from
                    && g.moves()[i].to == to;
            entry == if legal {
                Single::of_sign(1)
            } else {
                Single::of_sign(0)
            }
        }),
{
    let moves = g.moves();
    let slot = slot_of(from as int, to as int);
    if has_slot(moves, slot) {
        let k = choose|k: int|
            0 <= k < moves.len() && slot_of((#[trigger] moves[k]).from as int, moves[k].to as int)
                == slot;
        assert(moves.contains(moves[k]));
        law_legal_moves_are_proper(g.position, g.turn, moves[k]);
        assert(moves[k].from == from && moves[k].to == to);
    }
}

/// The input tells two games apart that differ in the player to move, or in where
/// black has men or kings, or in where red has men.
pub proof fn law_input_shows_what_it_encodes(a: Game, b: Game, square: int)
    requires
        features(a) == features(b),
        0 <= square < 32,
    ensures
        a.turn == b.turn,
        a.position.black.contains(square) <==> b.position.black.contains(square),
        a.position.black.contains(square) ==> (a.position.kings.contains(square)
            <==> b.position.kings.contains(square)),
        a.position.red.contains(square) && !a.position.kings.contains(square)
            <==> b.position.red.contains(square) && !b.position.kings.contains(square),
{
    lemma_feature_at(a, 0, square);
    lemma_feature_at(a, 1, square);
    lemma_feature_at(a, 2, square);
    lemma_feature_at(a, 3, square);
    lemma_feature_at(b, 0, square);
    lemma_feature_at(b, 1, square);
    lemma_feature_at(b, 2, square);
    lemma_feature_at(b, 3, square);
}

/// Where the input for a square stands.
proof fn lemma_feature_at(g: Game, plane: int, square: int)
    requires
        0 <= plane < 4,
        0 <= square < 32,
    ensures
        features(g)[plane * 32 + square] == feature(g, plane, square),
{
    let i = plane * 32 + square;
    assert(i / 32 == plane && i % 32 == square);
}

/// The mask and the output of an untrained network single out the same slots: one of them
/// is positive in a slot exactly if the other one is, where the probability of a legal
/// move is positive.
pub proof fn law_mask_and_untrained_policy_agree(g: Game, probability: Single, slot: int)
    requires
        g.moves().len() > 0 ==> probability.is_positive(),
        0 <= slot < POLICY_SIZE,
    ensures
        spread_over(g.moves(), Single::of_sign(1))[slot].is_positive() <==> spread_over(
            g.moves(),
            probability,
        )[slot].is_positive(),
{
}

/// The inputs for a game show that game, and no other player to move.
pub proof fn law_inputs_show_the_game(g: Game)
    ensures
        shows_game(g, features(g)),
{
    let inputs = features(g);
    assert forall|i: int| 0 <= i < 128 implies #[trigger] inputs[i] == feature(g, i / 32, i % 32) by {}
}

/// In a policy that gives one number to the legal moves, the entry at thirty-two times the
/// origin plus the target is that number exactly if a legal move leads from the one to the
/// other, and zero if none does.
pub proof fn law_policies_cover_legal_moves(g: Game, number: Single, from: u8, to: u8)
    requires
        sides_on_board(g.position),
        captures_fit(g.position, g.turn),
        from < 32,
        to < 32,
    ensures
        spread_over(g.moves(), number).len() == 1024,
        (exists|i: int|
            0 <= i < g.moves().len() && (#[trigger] g.moves()[i]).from == from
                && g.moves()[i].to == to) ==> spread_over(g.moves(), number)[from * 32 + to]
            == number,
        !(exists|i: int|
            0 <= i < g.moves().len() && (#[trigger] g.moves()[i]).from == from
                && g.moves()[i].to == to) ==> spread_over(g.moves(), number)[from * 32 + to].bits
            == 0,
{
    let moves = g.moves();
    let slot = from * 32 + to;
    if has_slot(moves, slot) {
        let k = choose|k: int|
            0 <= k < moves.len() && slot_of((#[trigger] moves[k]).from as int, moves[k].to as int)
                == slot;
        assert(moves.contains(moves[k]));
        law_legal_moves_are_proper(g.position, g.turn, moves[k]);
        assert(moves[k].from == from && moves[k].to == to);
    }
}

/// The names of the two backends.
pub proof fn law_backends_have_names()
    ensures
        backend_name(true) == "Wgpu (GPU)"@,
        backend_name(false) == "NdArray (CPU)"@,
{
}

} // verus!
