use alpha_checkers::engine::{BitBoard, GameState, Piece, Side};
use alpha_checkers::ml::{
    backend_label, encode_state, initial_policy_value, legal_policy_mask, move_policy_index,
    ResidualModelConfig, BOARD_ROWS, DARK_COLS, INPUT_PLANES, INPUT_SIZE, POLICY_SIZE,
};
use alpha_checkers::search::{evaluate, Evaluation};
use alpha_checkers::single::{last_greatest, Single};

fn number(single: Single) -> f32 {
    f32::from_bits(single.bits)
}

fn single(number: f32) -> Single {
    Single {
        bits: number.to_bits(),
    }
}

fn value_of(evaluation: Evaluation, side: Side) -> f32 {
    match evaluation {
        Evaluation::Decided(value) => number(value),
        Evaluation::Open {
            black,
            red,
            mobility,
        } => {
            let material = |pieces: Vec<Piece>| {
                pieces.iter().fold(0.0f32, |score, piece| {
                    score
                        + match piece {
                            Piece::BlackMan | Piece::RedMan => 1.0,
                            Piece::BlackKing | Piece::RedKing => 1.8,
                        }
                })
            };
            let (black, red) = (material(black), material(red));
            let score = match side {
                Side::Black => black - red,
                Side::Red => red - black,
            } + mobility as f32 * 0.08;
            (score / 18.0).clamp(-1.0, 1.0)
        }
    }
}

#[test]
fn encoder_has_expected_size_and_piece_counts() {
    let encoded = encode_state(GameState::new());
    assert_eq!(encoded.len(), INPUT_SIZE);
    assert_eq!(
        encoded.iter().filter(|value| number(**value) == 1.0).count(),
        56
    );
}

#[test]
fn initial_policy_assigns_probability_to_legal_moves() {
    let state = GameState::new();
    let output = initial_policy_value(
        state,
        |count| single(1.0 / count as f32),
        |evaluation| single(value_of(evaluation, state.turn)),
    );
    assert_eq!(output.policy.len(), POLICY_SIZE);
    assert_eq!(
        output
            .policy
            .iter()
            .filter(|value| number(**value) > 0.0)
            .count(),
        7
    );
    assert_eq!(number(output.policy[move_policy_index(20, 16)]), 1.0 / 7.0);
    assert_eq!(number(output.policy[move_policy_index(16, 20)]), 0.0);
    assert_eq!(number(output.value), 0.0);
}

#[test]
fn backend_label_returns_correct_strings() {
    for gpu in [false, true] {
        let label = backend_label(gpu);
        assert!(label.contains("NdArray") || label.contains("Wgpu"));
    }
}

#[test]
fn backends_have_labels() {
    assert_eq!(backend_label(false), "NdArray (CPU)");
    assert_eq!(backend_label(true), "Wgpu (GPU)");
}

#[test]
fn numbers_are_equal_like_floats() {
    let numbers = [
        0.0,
        -0.0,
        1.0,
        -1.0,
        f32::INFINITY,
        f32::NEG_INFINITY,
        f32::NAN,
        -f32::NAN,
        f32::MIN_POSITIVE,
    ];
    for a in numbers {
        for b in numbers {
            assert_eq!(single(a) == single(b), a == b);
        }
    }
}

#[test]
fn sizes_follow_from_the_board() {
    assert_eq!(INPUT_SIZE, INPUT_PLANES * BOARD_ROWS * DARK_COLS);
    assert_eq!(POLICY_SIZE, 32 * 32);
    let config = ResidualModelConfig::default();
    assert_eq!(config.residual_blocks, 10);
    assert_eq!(config.channels, 64);
    assert_eq!(config.policy_outputs, POLICY_SIZE);
}

#[test]
fn planes_show_men_kings_and_the_turn() {
    let state = GameState {
        board: BitBoard {
            black: 1 << 20 | 1 << 9,
            red: 1 << 3 | 1 << 5,
            kings: 1 << 9 | 1 << 5,
        },
        turn: Side::Red,
        halfmoves: 0,
    };
    let encoded = encode_state(state);
    for (i, value) in encoded.iter().enumerate() {
        let expected = match i {
            20 | 41 | 67 => 1.0,
            96..=127 => -1.0,
            _ => 0.0,
        };
        assert_eq!(number(*value), expected);
    }
    let black = encode_state(GameState {
        turn: Side::Black,
        ..state
    });
    assert_eq!(number(black[127]), 1.0);
}

#[test]
fn mask_marks_the_legal_moves() {
    let state = GameState::new();
    let mask = legal_policy_mask(state);
    assert_eq!(mask.len(), POLICY_SIZE);
    for from in 0..32u8 {
        for to in 0..32u8 {
            let legal = state
                .legal_moves()
                .iter()
                .any(|mv| mv.from == from && mv.to == to);
            let expected = if legal { 1.0 } else { 0.0 };
            assert_eq!(number(mask[move_policy_index(from, to)]), expected);
        }
    }
}

#[test]
fn moves_with_the_same_ends_share_a_slot() {
    let state = GameState {
        board: BitBoard {
            black: 1 << 22,
            red: 1 << 9 | 1 << 10 | 1 << 17 | 1 << 18,
            kings: 1 << 22,
        },
        turn: Side::Black,
        halfmoves: 0,
    };
    assert_eq!(state.legal_moves().len(), 2);
    let marked = legal_policy_mask(state)
        .iter()
        .filter(|value| number(**value) == 1.0)
        .count();
    assert_eq!(marked, 1);
}

#[test]
fn slots_are_numbered_by_origin_and_target() {
    assert_eq!(move_policy_index(0, 0), 0);
    assert_eq!(move_policy_index(1, 5), 37);
    assert_eq!(move_policy_index(31, 31), 1023);
    assert_eq!(move_policy_index(255, 255), 8415);
}

#[test]
fn numbers_are_ordered_like_floats() {
    let numbers = [
        f32::NEG_INFINITY,
        -2.5,
        -1.0,
        -f32::MIN_POSITIVE,
        -0.0,
        0.0,
        f32::MIN_POSITIVE,
        0.75,
        1.0,
        f32::MAX,
        f32::INFINITY,
        f32::NAN,
        -f32::NAN,
    ];
    for a in numbers {
        for b in numbers {
            let expected = if a.total_cmp(&b).is_gt() { 0 } else { 1 };
            let list = vec![single(a), single(b)];
            assert_eq!(last_greatest(&list), Some(expected));
        }
    }
    assert_eq!(last_greatest(&Vec::new()), None);
    let list = vec![single(1.0), single(3.0), single(3.0), single(2.0)];
    assert_eq!(last_greatest(&list), Some(2));
    assert_eq!(number(Single::zero()), 0.0);
    assert_eq!(number(Single::one()), 1.0);
    assert_eq!(number(Single::minus_one()), -1.0);
}

#[test]
fn evaluation_weighs_material_and_mobility() {
    let state = GameState {
        board: BitBoard {
            black: 1 << 20 | 1 << 31,
            red: 1 << 0,
            kings: 1 << 31,
        },
        turn: Side::Black,
        halfmoves: 0,
    };
    let moves = |side| state.board.legal_moves(side).len() as f32;
    let lead = moves(Side::Black) - moves(Side::Red);
    assert_eq!(lead, 1.0);
    let value = value_of(evaluate(state, Side::Black), Side::Black);
    assert_eq!(value, (1.8f32 + 1.0 - 1.0 + 1.0 * 0.08) / 18.0);
    match evaluate(state, Side::Red) {
        Evaluation::Open {
            black,
            red,
            mobility,
        } => {
            assert_eq!(black, [Piece::BlackMan, Piece::BlackKing]);
            assert_eq!(red, [Piece::RedMan]);
            assert_eq!(mobility, -1);
        }
        Evaluation::Decided(_) => panic!("the game is not over"),
    }
}

#[test]
fn inputs_tell_encoded_parts_apart() {
    let state = GameState::new();
    let input = encode_state(state);
    let board = state.board;
    let changed = [
        GameState { turn: Side::Red, ..state },
        GameState { board: BitBoard { black: board.black & !(1 << 20), ..board }, ..state },
        GameState { board: BitBoard { red: board.red & !(1 << 11), ..board }, ..state },
        GameState { board: BitBoard { kings: 1 << 20, ..board }, ..state },
        GameState { board: BitBoard { kings: 1 << 0, ..board }, ..state },
    ];
    for other in changed {
        assert_ne!(encode_state(other), input);
    }
    let without_red_king = GameState {
        board: BitBoard { red: board.red & !1, ..board },
        ..state
    };
    assert_eq!(encode_state(changed[4]), encode_state(without_red_king));
}

#[test]
fn without_moves_all_probabilities_are_zero() {
    let mut state = GameState::new();
    state.board.black = 0;
    let output = initial_policy_value(
        state,
        |count| single(1.0 / count as f32),
        |evaluation| single(value_of(evaluation, state.turn)),
    );
    assert!(output.policy.iter().all(|probability| number(*probability) == 0.0));
    assert_eq!(number(output.value), -1.0);
}

#[test]
fn mask_and_untrained_policy_agree() {
    let mut state = GameState::new();
    for _ in 0..10 {
        let mask = legal_policy_mask(state);
        let output = initial_policy_value(
            state,
            |count| single(1.0 / count as f32),
            |evaluation| single(value_of(evaluation, state.turn)),
        );
        for (marked, probability) in mask.iter().zip(&output.policy) {
            assert_eq!(number(*marked) > 0.0, number(*probability) > 0.0);
        }
        state = state.apply(state.legal_moves()[0]);
    }
}
