use alpha_checkers::engine::{BitBoard, GameResult, GameState, Move, Side};
use alpha_checkers::ml::{encode_state, move_policy_index, INPUT_SIZE, POLICY_SIZE};
use alpha_checkers::search::{Search, SearchReport};
use alpha_checkers::single::Single;
use alpha_checkers::training::{
    board_hash, positions_ahead, visit_policy, ExperienceSample, SelfPlayTrainer, SideLabel,
    TrainingMetrics, BATCH_SIZE, LOOKAHEAD,
};

fn number(single: Single) -> f32 {
    f32::from_bits(single.bits)
}

fn single(number: f32) -> Single {
    Single {
        bits: number.to_bits(),
    }
}

fn share(part: u32, whole: u32) -> Single {
    single(part as f32 / whole as f32)
}

fn search(state: GameState, simulations: u128) -> SearchReport {
    let mut search = Search::begin(state, simulations);
    while search.played < search.simulations {
        let scores = vec![Single::zero(); search.moves.len()];
        assert!(search.advance(&scores).1.is_some());
    }
    let means = vec![Single::zero(); search.moves.len()];
    search.finish(&means)
}

fn step(trainer: &mut SelfPlayTrainer, simulations: u128) -> Option<Move> {
    let report = match trainer.begin_step() {
        Some(report) => report,
        None => search(trainer.game, simulations),
    };
    trainer.complete_step(&report, &share)
}

#[test]
fn trainer_records_pending_sample_after_step() {
    let mut trainer = SelfPlayTrainer::new();
    let mv = step(&mut trainer, 16);
    assert!(mv.is_some());
    assert_eq!(trainer.metrics().self_play_steps, 1);
    assert_eq!(trainer.pending.len(), 1);
    assert_eq!(trainer.pending[0].state.len(), INPUT_SIZE);
}

#[test]
fn visit_policy_normalizes_counts() {
    let visits = vec![(Move::quiet(0, 4), 3), (Move::quiet(1, 5), 1)];
    let policy = visit_policy(&visits, &share);
    assert_eq!(number(policy[move_policy_index(0, 4)]), 0.75);
    assert_eq!(number(policy[move_policy_index(1, 5)]), 0.25);
}

fn precompute(trainer: &mut SelfPlayTrainer, state: GameState, simulations: u128) {
    let reports = positions_ahead(state)
        .into_iter()
        .map(|position| match trainer.known_report(position) {
            Some(report) => report,
            None => search(position, simulations),
        })
        .collect();
    trainer.precompute_for(state, &reports);
}

#[test]
fn move_cache_stores_and_retrieves_moves() {
    let mut trainer = SelfPlayTrainer::new();
    let state = GameState::new();
    precompute(&mut trainer, state, 24);
    let cached = trainer.lookup_cached_move(state);
    assert!(cached.is_some());
}

#[test]
fn replies_to_every_legal_move_are_known_ahead() {
    let mut trainer = SelfPlayTrainer::new();
    let state = GameState::new();
    precompute(&mut trainer, state, 8);
    for mv in state.legal_moves() {
        let next = state.apply(mv);
        let cached = trainer.lookup_cached_move(next).unwrap();
        assert!(next.legal_moves().contains(&cached.best_move));
    }
    assert_eq!(trainer.metrics().cached_positions, 8);
    let far = state.apply(state.legal_moves()[0]);
    let far = far.apply(far.legal_moves()[0]);
    assert!(trainer.lookup_cached_move(far).is_none());
}

#[test]
fn positions_ahead_are_the_position_and_its_successors() {
    let state = GameState::new();
    let positions = positions_ahead(state);
    assert_eq!(positions.len(), 8);
    assert_eq!(positions[0], state);
    for (position, mv) in positions[1..].iter().zip(state.legal_moves()) {
        assert_eq!(*position, state.apply(mv));
    }
    let over = GameState {
        board: BitBoard::empty(),
        turn: Side::Black,
        halfmoves: u16::MAX,
    };
    assert_eq!(positions_ahead(over), [over]);
}

#[test]
fn positions_that_were_not_stored_are_not_found() {
    let a = GameState {
        board: BitBoard { black: 1 << 31, red: 3, kings: 0 },
        turn: Side::Black,
        halfmoves: 0,
    };
    let b = GameState {
        board: BitBoard { black: 1 << 31, red: 1, kings: 1 },
        ..a
    };
    assert_eq!(board_hash(a), board_hash(b));
    let mut trainer = SelfPlayTrainer::new();
    precompute(&mut trainer, a, 8);
    assert!(trainer.lookup_cached_move(a).is_some());
    assert!(trainer.lookup_cached_move(b).is_none());
    trainer.game = b;
    assert!(trainer.begin_step().is_none());
}

#[test]
fn board_hash_differs_for_different_positions() {
    let s1 = GameState::new();
    let s2 = s1.apply(s1.legal_moves()[0]);
    assert_ne!(board_hash(s1), board_hash(s2));
}

#[test]
fn hashes_show_every_part_of_a_position() {
    let state = GameState::new();
    assert_eq!(board_hash(state), 0x61c7_79b9_7f4a_73ea);
    let board = state.board;
    let changed = [
        GameState { board: BitBoard { black: 1 << 31, ..board }, ..state },
        GameState { board: BitBoard { red: 1, ..board }, ..state },
        GameState { board: BitBoard { kings: 1, ..board }, ..state },
        GameState { turn: Side::Red, ..state },
        GameState { halfmoves: 1, ..state },
        GameState { halfmoves: u16::MAX, ..state },
    ];
    for other in changed {
        assert_ne!(board_hash(state), board_hash(other));
    }
    let moved = GameState { turn: Side::Red, halfmoves: 1, ..state };
    assert_eq!(board_hash(moved), 0x50a8_476d_0000_0fff);
}

#[test]
fn hashes_of_positions_that_differ_twice_can_agree() {
    let a = GameState {
        board: BitBoard { black: 0, red: 1 << 1, kings: 0 },
        turn: Side::Black,
        halfmoves: 0,
    };
    let b = GameState {
        board: BitBoard { black: 0, red: 0, kings: 1 },
        ..a
    };
    assert_eq!(board_hash(a), board_hash(b));
}

#[test]
fn the_last_move_of_a_slot_sets_its_share() {
    let visits = vec![(Move::quiet(0, 4), 1), (Move::quiet(2, 6), 1), (Move::quiet(0, 4), 2)];
    let policy = visit_policy(&visits, &share);
    assert_eq!(policy.len(), POLICY_SIZE);
    assert_eq!(number(policy[move_policy_index(0, 4)]), 0.5);
    assert_eq!(number(policy[move_policy_index(2, 6)]), 0.25);
    assert_eq!(policy.iter().filter(|share| number(**share) != 0.0).count(), 2);
}

#[test]
fn without_visits_the_policy_is_blank() {
    let visits = vec![(Move::quiet(0, 4), 0), (Move::quiet(200, 4), 0)];
    let policy = visit_policy(&visits, &|_, _| single(0.5));
    assert_eq!(policy.len(), POLICY_SIZE);
    assert!(policy.iter().all(|share| number(*share) == 0.0));
}

#[test]
fn players_have_labels() {
    assert_eq!(SideLabel::from(Side::Black), SideLabel::Black);
    assert_eq!(SideLabel::from(Side::Red), SideLabel::Red);
}

#[test]
fn a_new_trainer_has_counted_nothing() {
    let trainer = SelfPlayTrainer::new();
    assert_eq!(trainer.metrics(), TrainingMetrics::default());
    assert_eq!(trainer.game, GameState::new());
    assert!(trainer.replay.is_empty());
    assert!(trainer.lookup_cached_move(GameState::new()).is_none());
    let default = SelfPlayTrainer::default();
    assert_eq!(default.metrics(), trainer.metrics());
    assert_eq!(default.game, trainer.game);
    assert!(default.pending.is_empty());
}

#[test]
fn a_step_plays_and_caches_the_move() {
    let mut trainer = SelfPlayTrainer::new();
    let state = GameState::new();
    assert!(trainer.begin_step().is_none());
    let report = search(state, 24);
    let mv = trainer.complete_step(&report, &share).unwrap();
    assert_eq!(Some(mv), report.best_move);
    assert_eq!(trainer.game, state.apply(mv));
    let cached = trainer.lookup_cached_move(state).unwrap();
    assert_eq!(cached.best_move, mv);
    assert_eq!(cached.value, report.value);
    assert_eq!(cached.visits, report.visits[0].1);
    assert_eq!(trainer.metrics().cached_positions, 1);
    assert_eq!(trainer.pending[0].player, Side::Black);
    assert_eq!(trainer.pending[0].state, encode_state(state).to_vec());
    assert_eq!(trainer.pending[0].policy, visit_policy(&report.visits, &share));
    trainer.reset_game();
    assert!(trainer.pending.is_empty());
    let known = trainer.begin_step().unwrap();
    assert_eq!(known.best_move, Some(mv));
    assert_eq!(known.value, report.value);
    assert_eq!(known.simulations, 0);
    assert_eq!(known.visits, [(mv, report.visits[0].1)]);
}

#[test]
fn a_report_without_a_move_changes_nothing() {
    let mut trainer = SelfPlayTrainer::new();
    let report = SearchReport {
        best_move: None,
        value: Single::zero(),
        simulations: 0,
        visits: Vec::new(),
    };
    trainer.game.board = BitBoard::empty();
    assert_eq!(trainer.complete_step(&report, &share), None);
    assert_eq!(trainer.metrics(), TrainingMetrics::default());
    let over = GameState {
        board: BitBoard::empty(),
        turn: Side::Black,
        halfmoves: 0,
    };
    trainer.precompute_for(over, &vec![report]);
    assert!(trainer.lookup_cached_move(over).is_none());
}

#[test]
fn known_positions_keep_their_moves() {
    let mut trainer = SelfPlayTrainer::new();
    let state = GameState::new();
    precompute(&mut trainer, state, 8);
    let before: Vec<Move> = positions_ahead(state)
        .into_iter()
        .map(|position| trainer.lookup_cached_move(position).unwrap().best_move)
        .collect();
    let reports: Vec<SearchReport> = positions_ahead(state)
        .into_iter()
        .map(|position| SearchReport {
            best_move: Some(position.legal_moves()[0]),
            value: single(0.5),
            simulations: 1,
            visits: Vec::new(),
        })
        .collect();
    trainer.precompute_for(state, &reports);
    for (position, mv) in positions_ahead(state).into_iter().zip(before) {
        let cached = trainer.lookup_cached_move(position).unwrap();
        assert_eq!(cached.best_move, mv);
        assert_eq!(number(cached.value), 0.0);
    }
    let mut fresh = SelfPlayTrainer::new();
    fresh.precompute_for(state, &reports);
    let cached = fresh.lookup_cached_move(state).unwrap();
    assert_eq!(cached.best_move, state.legal_moves()[0]);
    assert_eq!(number(cached.value), 0.5);
    assert_eq!(cached.visits, 1);
}

#[test]
fn the_latest_search_is_kept_for_the_heat_map() {
    let mut trainer = SelfPlayTrainer::new();
    assert!(trainer.latest_visits.is_empty());
    let report = search(trainer.game, 24);
    assert!(trainer.begin_step().is_none());
    trainer.complete_step(&report, &share);
    assert_eq!(trainer.latest_visits, report.visits);
    trainer.reset_game();
    let known = trainer.begin_step().unwrap();
    trainer.complete_step(&known, &share);
    assert_eq!(trainer.latest_visits, report.visits);
}

#[test]
fn self_play_makes_legal_moves() {
    let mut trainer = SelfPlayTrainer::new();
    for _ in 0..2 {
        for _ in 0..30 {
            let state = trainer.game;
            let known = trainer.lookup_cached_move(state).map(|cached| cached.best_move);
            let mv = step(&mut trainer, 2).unwrap();
            assert!(state.legal_moves().contains(&mv));
            assert!(known.is_none() || known == Some(mv));
            assert_eq!(trainer.lookup_cached_move(state).unwrap().best_move, mv);
        }
        trainer.reset_game();
    }
}

#[test]
fn finished_games_become_samples() {
    let mut trainer = SelfPlayTrainer::new();
    let mut steps = 0;
    while trainer.metrics().completed_games == 0 {
        step(&mut trainer, 1);
        steps += 1;
        assert!(steps <= GameState::DRAW_HALFMOVES as usize);
    }
    let metrics = trainer.metrics();
    assert_eq!(metrics.self_play_steps, steps as u64);
    assert_eq!(metrics.replay_positions, steps);
    assert_eq!(metrics.black_wins + metrics.red_wins + metrics.draws, 1);
    assert!(trainer.pending.is_empty());
    assert_eq!(trainer.game, GameState::new());
    let worth = metrics.black_wins as f32 - metrics.red_wins as f32;
    for (i, sample) in trainer.replay.iter().enumerate() {
        let (player, outcome) = if i % 2 == 0 {
            (SideLabel::Black, worth)
        } else {
            (SideLabel::Red, -worth)
        };
        assert_eq!(sample.player, player);
        assert_eq!(number(sample.outcome), outcome);
    }
}

#[test]
fn every_result_is_counted_once() {
    let mut trainer = SelfPlayTrainer::new();
    trainer.finish_game(GameResult::Winner(Side::Black));
    trainer.finish_game(GameResult::Winner(Side::Red));
    trainer.finish_game(GameResult::Winner(Side::Red));
    trainer.finish_game(GameResult::Draw);
    let metrics = trainer.metrics();
    assert_eq!(metrics.completed_games, 4);
    assert_eq!((metrics.black_wins, metrics.red_wins, metrics.draws), (1, 2, 1));
}

#[test]
fn a_step_after_the_end_starts_a_new_game() {
    let mut trainer = SelfPlayTrainer::new();
    step(&mut trainer, 8);
    trainer.game.halfmoves = GameState::DRAW_HALFMOVES;
    assert!(trainer.begin_step().is_some());
    assert_eq!(trainer.game, GameState::new());
    assert!(trainer.pending.is_empty());
}

#[test]
fn the_first_replies_are_searched_ahead() {
    let trainer = SelfPlayTrainer::new();
    let state = GameState::new();
    let moves = state.legal_moves();
    let expected: Vec<GameState> = moves.iter().take(LOOKAHEAD).map(|mv| state.apply(*mv)).collect();
    assert_eq!(trainer.next_positions(), expected);
    assert_eq!(expected.len(), 3);
}

#[test]
fn batches_hold_the_latest_samples() {
    let mut trainer = SelfPlayTrainer::new();
    let sample = |i: usize| ExperienceSample {
        state: vec![single(i as f32); INPUT_SIZE + 1],
        policy: vec![single(-(i as f32)); 2],
        player: SideLabel::Red,
        outcome: single(i as f32 / 2.0),
    };
    trainer.restore_replay((0..BATCH_SIZE - 1).map(sample).collect());
    assert!(trainer.training_batch().is_none());
    trainer.restore_replay((0..BATCH_SIZE + 4).map(sample).collect());
    assert_eq!(trainer.counters.replay_positions, 20);
    let batch = trainer.training_batch().unwrap();
    assert_eq!(batch.states.len(), 16);
    for i in 0..16 {
        assert_eq!(batch.states[i], vec![single((i + 4) as f32); INPUT_SIZE]);
        assert_eq!(batch.policies[i], vec![single(-((i + 4) as f32)); 2]);
        assert_eq!(number(batch.values[i]), (i + 4) as f32 / 2.0);
    }
    trainer.record_training(single(1.5));
    assert_eq!(trainer.metrics().train_steps, 1);
    assert_eq!(number(trainer.metrics().last_loss), 1.5);
}

#[test]
fn samples_are_saved_every_fifty_steps() {
    let mut trainer = SelfPlayTrainer::new();
    assert!(trainer.save_is_due());
    trainer.counters.self_play_steps = 49;
    assert!(!trainer.save_is_due());
    trainer.counters.self_play_steps = 100;
    assert!(trainer.save_is_due());
}

#[test]
fn one_position_is_kept_for_each_move() {
    let mut trainer = SelfPlayTrainer::new();
    for _ in 0..12 {
        step(&mut trainer, 4);
        assert_eq!(trainer.pending.len(), trainer.game.halfmoves as usize);
    }
    trainer.reset_game();
    assert_eq!(trainer.pending.len(), trainer.game.halfmoves as usize);
}

#[test]
fn search_reports_can_be_learned_from() {
    let report = search(GameState::new(), 30);
    let total: u32 = report.visits.iter().map(|(_, visits)| *visits).sum();
    assert_eq!(total as u128, report.simulations);
    for (mv, _) in &report.visits {
        assert!(move_policy_index(mv.from, mv.to) < POLICY_SIZE);
    }
}

#[test]
fn positions_that_cannot_be_listed_are_left_out() {
    // After some of black's moves the red king has longer chains than a move can hold.
    let grid = 0x0707_0700u32;
    let state = GameState {
        board: BitBoard {
            black: grid | 1,
            red: 1 << 31,
            kings: 1 << 31,
        },
        turn: Side::Black,
        halfmoves: 0,
    };
    assert!(state.board.captures_fit(Side::Black));
    let positions = positions_ahead(state);
    let fits = |position: &GameState| position.board.captures_fit(position.turn);
    assert!(fits(&state));
    assert!(positions.iter().any(|position| !fits(position)));
    let reports: Vec<SearchReport> = positions
        .iter()
        .map(|position| SearchReport {
            best_move: if fits(position) {
                position.legal_moves().first().copied()
            } else {
                None
            },
            value: single(0.25),
            simulations: 1,
            visits: Vec::new(),
        })
        .collect();
    let mut trainer = SelfPlayTrainer::new();
    trainer.precompute_for(state, &reports);
    for position in &positions {
        let known = trainer.lookup_cached_move(*position).is_some();
        assert_eq!(known, fits(position) && !position.legal_moves().is_empty());
    }
}

#[test]
fn a_step_in_a_known_position_leaves_the_cache() {
    let mut trainer = SelfPlayTrainer::new();
    let state = GameState::new();
    step(&mut trainer, 24);
    let before = *trainer.lookup_cached_move(state).unwrap();
    trainer.reset_game();
    assert_eq!(step(&mut trainer, 24), Some(before.best_move));
    let after = *trainer.lookup_cached_move(state).unwrap();
    assert_eq!(after.best_move, before.best_move);
    assert_eq!(after.value, before.value);
    assert_eq!(after.visits, before.visits);
    assert_eq!(trainer.metrics().cached_positions, 1);
}
