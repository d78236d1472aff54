use alpha_checkers::engine::{BitBoard, GameResult, GameState, Move, Piece, Side};
use alpha_checkers::ml::NetworkOutput;
use alpha_checkers::search::{
    self, evaluate, is_evaluable, position_seed, rollout, terminal_value, Evaluation, Search,
    SearchReport, SmallRng, ROLLOUT_DEPTH,
};
use alpha_checkers::single::Single;
use alpha_checkers::training::outcome_for;

fn number(single: Single) -> f32 {
    f32::from_bits(single.bits)
}

fn single(number: f32) -> Single {
    Single {
        bits: number.to_bits(),
    }
}

fn value_of(evaluation: Evaluation, side: Side) -> f32 {
    match evaluation {
        Evaluation::Decided(value) => number(value),
        Evaluation::Open {
            black,
            red,
            mobility,
        } => {
            let material = |pieces: Vec<Piece>| {
                pieces.iter().fold(0.0f32, |score, piece| {
                    score
                        + match piece {
                            Piece::BlackMan | Piece::RedMan => 1.0,
                            Piece::BlackKing | Piece::RedKing => 1.8,
                        }
                })
            };
            let (black, red) = (material(black), material(red));
            let score = match side {
                Side::Black => black - red,
                Side::Red => red - black,
            } + mobility as f32 * 0.08;
            (score / 18.0).clamp(-1.0, 1.0)
        }
    }
}

fn score(visits: u32, sum: f32, parent: u128) -> f32 {
    if visits == 0 {
        return f32::INFINITY;
    }
    let bonus = ((parent.max(1) as f32).ln() / visits as f32).sqrt();
    sum / visits as f32 + 1.414 * bonus
}

fn choose_move(state: GameState, simulations: u128) -> SearchReport {
    search::choose_move(
        state,
        simulations,
        |sum, evaluation| single(number(sum) + value_of(evaluation, state.turn)),
        |_, visits, sum, played| single(score(visits, number(sum), played)),
        |sum, visits| single(number(sum) / visits.max(1) as f32),
    )
    .unwrap()
}

/// The same search, one playout after the other.
fn step_by_step(state: GameState, simulations: u128) -> SearchReport {
    let mut search = Search::begin(state, simulations);
    let mut sums = vec![0.0f32; search.moves.len()];
    while search.played < search.simulations {
        let scores = if search.needs_scores() {
            search
                .visits
                .iter()
                .zip(&sums)
                .map(|(visits, sum)| single(score(*visits, *sum, search.played)))
                .collect()
        } else {
            Vec::new()
        };
        let (index, evaluation) = search.advance(&scores);
        sums[index] += value_of(evaluation.unwrap(), state.turn);
    }
    let means = search
        .visits
        .iter()
        .zip(&sums)
        .map(|(visits, sum)| single(sum / (*visits).max(1) as f32))
        .collect();
    search.finish(&means)
}

fn deep_grid() -> BitBoard {
    BitBoard {
        black: 1,
        red: 0xe0_e0e0,
        kings: 1,
    }
}

#[test]
fn search_returns_legal_move_from_starting_position() {
    let state = GameState::new();
    let report = choose_move(state, 24);
    assert!(state.legal_moves().contains(&report.best_move.unwrap()));
    assert_eq!(report.simulations, 24);
}

#[test]
fn searches_visit_every_move_and_count_every_playout() {
    let state = GameState::new();
    let report = choose_move(state, 40);
    assert_eq!(report.visits.len(), 7);
    assert!(report.visits.iter().all(|(_, visits)| *visits >= 1));
    let total: u32 = report.visits.iter().map(|(_, visits)| *visits).sum();
    assert_eq!(total, 40);
    let moves: Vec<Move> = report.visits.iter().map(|(mv, _)| *mv).collect();
    assert_eq!(moves, state.legal_moves());
    assert_eq!(choose_move(state, 40), report);
    assert_eq!(step_by_step(state, 40), report);
}

#[test]
fn few_playouts_are_raised_to_the_number_of_moves() {
    let report = choose_move(GameState::new(), 3);
    assert_eq!(report.simulations, 7);
    assert!(report.visits.iter().all(|(_, visits)| *visits == 1));
}

#[test]
fn without_moves_the_search_reports_the_result() {
    let mut state = GameState::new();
    state.board.black = 0;
    let report = choose_move(state, 24);
    assert_eq!(report.best_move, None);
    assert_eq!(number(report.value), -1.0);
    assert_eq!(report.simulations, 0);
    assert!(report.visits.is_empty());
}

#[test]
fn a_prior_gives_one_visit_in_advance() {
    let state = GameState::new();
    let mut search = Search::begin(state, 10);
    let mut policy = vec![single(0.1); 1024];
    policy[22 * 32 + 17] = single(0.6);
    policy[23 * 32 + 18] = single(0.6);
    let priors = search.priors(&policy);
    assert_eq!(number(priors[3]), number(single(0.6)));
    assert_eq!(number(priors[0]), number(single(0.1)));
    assert_eq!(search.prime(&priors), 5);
    assert_eq!(search.visits, [0, 0, 0, 0, 0, 1, 0]);
    assert!(search.primed);
    while search.played < search.simulations {
        let scores = vec![single(0.0); 7];
        let (index, evaluation) = search.advance(&scores);
        assert!(evaluation.is_some());
        let expected = if search.played <= 7 { search.played as usize - 1 } else { 6 };
        assert_eq!(index, expected);
    }
    assert_eq!(search.visits, [1, 1, 1, 1, 1, 2, 4]);
    let means = (0..7).map(|i| single(if i == 2 || i == 4 { 0.5 } else { 0.0 }));
    let report = search.finish(&means.collect());
    assert_eq!(report.best_move, Some(state.legal_moves()[4]));
    assert_eq!(number(report.value), 0.5);
    let none = Search::begin(state, 1).priors(&Vec::new());
    assert!(none.iter().all(|prior| number(*prior) == 0.0));
}

#[test]
fn the_generator_draws_known_numbers() {
    let mut rng = SmallRng::new(0);
    assert_eq!(rng.state, 1);
    assert_eq!(rng.next_u32(), 1_481_765_933);
    assert_eq!(rng.state, 6_364_136_223_846_793_006);
    assert_eq!(position_seed(GameState::new()), 0x61c7_79b9_7f4a_73ea);
    let mut rng = SmallRng::new(position_seed(GameState::new()));
    let drawn: Vec<usize> = (0..4).map(|_| rng.next_index(7)).collect();
    assert_eq!(drawn, [1, 0, 6, 4]);
    assert_eq!(rng.state, 0x5976_e4b5_9aea_72a7);
}

#[test]
fn the_seed_ignores_the_number_of_moves() {
    let state = GameState::new();
    let later = GameState {
        halfmoves: 9,
        ..state
    };
    assert_eq!(position_seed(state), position_seed(later));
    let red = GameState {
        turn: Side::Red,
        ..state
    };
    assert_ne!(position_seed(state), position_seed(red));
}

#[test]
fn playouts_stop_when_the_game_is_over() {
    let mut state = GameState::new();
    state.board.red = 0;
    let mut rng = SmallRng::new(5);
    let won = rollout(state, Side::Black, &mut rng, ROLLOUT_DEPTH).unwrap();
    assert_eq!(value_of(won, Side::Black), 1.0);
    let lost = rollout(state, Side::Red, &mut rng, ROLLOUT_DEPTH).unwrap();
    assert_eq!(value_of(lost, Side::Red), -1.0);
    assert_eq!(rng.state, 5);
}

#[test]
fn playouts_play_the_drawn_moves() {
    let state = GameState::new();
    let mut rng = SmallRng::new(position_seed(state));
    let played = rollout(state, Side::Black, &mut rng, 2).unwrap();
    let first = state.apply(state.legal_moves()[1]);
    let second = first.apply(first.legal_moves()[442_851_528 % first.legal_moves().len()]);
    let expected = value_of(evaluate(second, Side::Black), Side::Black);
    assert_eq!(value_of(played, Side::Black), expected);
}

#[test]
fn playouts_do_not_record_chains_that_do_not_fit() {
    let state = GameState {
        board: deep_grid(),
        turn: Side::Black,
        halfmoves: 0,
    };
    assert!(!is_evaluable(state));
    let mut rng = SmallRng::new(1);
    assert!(rollout(state, Side::Black, &mut rng, 3).is_none());
    assert!(rollout(state, Side::Black, &mut rng, 0).is_none());
    assert_eq!(rng.state, 1);
    assert!(is_evaluable(GameState::new()));
    let drawn = GameState {
        halfmoves: GameState::DRAW_HALFMOVES,
        ..state
    };
    assert!(is_evaluable(drawn));
}

#[test]
fn a_playout_that_does_not_fit_counts_for_nothing() {
    let state = GameState {
        board: BitBoard {
            red: 0xe0_e0e0 | 1 << 3,
            ..deep_grid()
        },
        turn: Side::Red,
        halfmoves: 0,
    };
    let mut search = Search::begin(state, 1);
    let mut dropped = false;
    for _ in 0..search.moves.len() {
        let before = search.played;
        let (_, evaluation) = search.advance(&Vec::new());
        if evaluation.is_none() {
            assert_eq!(search.played, before);
            dropped = true;
            break;
        }
    }
    assert!(dropped);
    let total: u32 = search.visits.iter().sum();
    assert_eq!(total as u128, search.played);
}

#[test]
fn results_are_worth_the_opposite_to_the_opponent() {
    let mut state = GameState::new();
    assert_eq!(terminal_value(state, Side::Black), None);
    state.halfmoves = GameState::DRAW_HALFMOVES;
    assert_eq!(terminal_value(state, Side::Black), Some(Single::zero()));
    for winner in [Side::Black, Side::Red] {
        for side in [Side::Black, Side::Red] {
            let value = number(outcome_for(side, GameResult::Winner(winner)));
            let other = number(outcome_for(side.opponent(), GameResult::Winner(winner)));
            assert_eq!(value, if winner == side { 1.0 } else { -1.0 });
            assert_eq!(value + other, 0.0);
        }
    }
    assert_eq!(number(outcome_for(Side::Red, GameResult::Draw)), 0.0);
}

#[test]
fn a_network_guides_the_search() {
    let state = GameState::new();
    let mut policy = vec![single(0.0); 1024];
    policy[22 * 32 + 18] = single(0.9);
    let output = NetworkOutput {
        policy,
        value: single(0.25),
    };
    let report = search::choose_move_with_model(
        state,
        20,
        &output,
        |sum, evaluation| match evaluation {
            Evaluation::Decided(value) if number(sum) == 0.0 && number(value) == 0.25 => value,
            _ => sum,
        },
        |prior, _, _, _| prior,
        |sum, visits| single(number(sum) / visits as f32),
    )
    .unwrap();
    let visits: Vec<u32> = report.visits.iter().map(|(_, visits)| *visits).collect();
    assert_eq!(visits, [1, 1, 1, 1, 15, 1, 1]);
    assert_eq!(report.simulations, 20);
    assert_eq!(report.best_move, Some(state.legal_moves()[4]));
    assert_eq!(number(report.value), 0.25 / 15.0);
}

#[test]
fn a_guided_search_without_moves_reports_the_result() {
    let mut state = GameState::new();
    state.board.red = 0;
    state.turn = Side::Red;
    let output = NetworkOutput {
        policy: Vec::new(),
        value: single(0.25),
    };
    let report = search::choose_move_with_model(
        state,
        20,
        &output,
        |sum, _| sum,
        |prior, _, _, _| prior,
        |sum, _| sum,
    )
    .unwrap();
    assert_eq!(report.best_move, None);
    assert_eq!(number(report.value), -1.0);
    assert_eq!(report.simulations, 0);
    assert!(report.visits.is_empty());
}

#[test]
fn a_search_that_cannot_be_counted_has_no_report() {
    let state = GameState {
        board: BitBoard {
            red: 0xe0_e0e0 | 1 << 3,
            ..deep_grid()
        },
        turn: Side::Red,
        halfmoves: 0,
    };
    let found = search::choose_move(
        state,
        1,
        |sum, _| sum,
        |prior, _, _, _| prior,
        |sum, _| sum,
    );
    assert_eq!(found, None);
}

#[test]
fn equal_arguments_give_equal_reports() {
    let mut state = GameState::new();
    for _ in 0..6 {
        assert_eq!(choose_move(state, 16), choose_move(state, 16));
        state = state.apply(state.legal_moves()[0]);
    }
}

#[test]
fn values_stay_between_loss_and_win() {
    let mut state = GameState::new();
    for _ in 0..8 {
        let report = choose_move(state, 20);
        assert!((-1.0..=1.0).contains(&number(report.value)));
        state = state.apply(report.best_move.unwrap());
    }
}
