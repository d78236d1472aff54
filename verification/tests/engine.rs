use alpha_checkers::engine::{
    notation, piece_side, square_coords, square_index, BitBoard, GameResult, GameState, Move, Piece,
    Side,
};

fn board(black: &[u8], red: &[u8], kings: &[u8]) -> BitBoard {
    let bits = |squares: &[u8]| squares.iter().fold(0u32, |word, square| word | 1 << square);
    BitBoard {
        black: bits(black),
        red: bits(red),
        kings: bits(kings),
    }
}

fn taken(mv: Move) -> Vec<u8> {
    mv.captures.iter().flatten().copied().collect()
}

#[test]
fn starting_position_has_expected_piece_counts() {
    let board = BitBoard::starting_position();
    assert_eq!(board.black.count_ones(), 12);
    assert_eq!(board.red.count_ones(), 12);
    assert_eq!(board.kings.count_ones(), 0);
}

#[test]
fn starting_position_has_seven_black_moves() {
    let board = BitBoard::starting_position();
    let moves = board.legal_moves(Side::Black);
    assert_eq!(moves.len(), 7);
    assert!(moves.iter().all(|mv| !mv.is_capture()));
}

#[test]
fn forced_capture_hides_quiet_moves() {
    let mut board = BitBoard::empty();
    board.black = 1u32 << square_index(5, 0).unwrap();
    board.red = 1u32 << square_index(4, 1).unwrap();

    let moves = board.legal_moves(Side::Black);
    assert_eq!(moves.len(), 1);
    assert!(moves[0].is_capture());
    assert_eq!(moves[0].to, square_index(3, 2).unwrap());
}

#[test]
fn perft_depth_one_matches_starting_moves() {
    assert_eq!(BitBoard::starting_position().perft(Side::Black, 1), 7);
}

#[test]
fn game_result_detects_missing_side() {
    let mut game = GameState::new();
    game.board.red = 0;
    assert_eq!(game.result(), Some(GameResult::Winner(Side::Black)));
}

#[test]
fn players_are_each_others_opponents() {
    assert_eq!(Side::Black.opponent(), Side::Red);
    assert_eq!(Side::Red.opponent(), Side::Black);
    assert_eq!(Side::Black.label(), "Black");
    assert_eq!(Side::Red.label(), "Red");
}

#[test]
fn squares_and_coordinates_agree() {
    for square in 0..32u8 {
        let (row, col) = square_coords(square);
        assert_eq!(square_index(row, col), Some(square));
    }
    assert_eq!(square_coords(0), (0, 1));
    assert_eq!(square_coords(4), (1, 0));
    assert_eq!(square_coords(31), (7, 6));
    assert_eq!(square_index(0, 0), None);
    assert_eq!(square_index(8, 1), None);
    assert_eq!(square_index(1, 8), None);
    assert_eq!(square_index(usize::MAX, usize::MAX), None);
}

#[test]
fn squares_have_names_of_their_own() {
    assert_eq!(notation(20), "a3");
    assert_eq!(notation(0), "b8");
    assert_eq!(notation(31), "g1");
    assert_eq!(notation(32), "b0");
    let mut names: Vec<String> = (0..32u8).map(notation).collect();
    names.sort();
    names.dedup();
    assert_eq!(names.len(), 32);
}

#[test]
fn moves_are_written_with_dash_or_cross() {
    assert_eq!(Move::quiet(20, 16).notation(), "a3-b4");
    let capture = board(&[20], &[16], &[]).legal_moves(Side::Black)[0];
    assert_eq!(capture.notation(), "a3xc5");
    assert!(capture.is_capture());
    assert!(!Move::quiet(20, 16).is_capture());
}

#[test]
fn pieces_are_found_on_their_squares() {
    let b = board(&[20, 21], &[0, 1], &[21, 1]);
    assert_eq!(b.piece_at(5, 0), Some(Piece::BlackMan));
    assert_eq!(b.piece_at(5, 2), Some(Piece::BlackKing));
    assert_eq!(b.piece_at(0, 1), Some(Piece::RedMan));
    assert_eq!(b.piece_at(0, 3), Some(Piece::RedKing));
    assert_eq!(b.piece_at(0, 5), None);
    assert_eq!(b.piece_at(0, 0), None);
    assert_eq!(b.piece_at(9, 9), None);
    assert_eq!(piece_side(Piece::BlackMan), Side::Black);
    assert_eq!(piece_side(Piece::BlackKing), Side::Black);
    assert_eq!(piece_side(Piece::RedMan), Side::Red);
    assert_eq!(piece_side(Piece::RedKing), Side::Red);
    assert_eq!(b.occupied(), 0x30_0003);
    assert_eq!(b.side_bits(Side::Black), 0x30_0000);
    assert_eq!(b.side_bits(Side::Red), 0x3);
    assert_eq!(BitBoard::empty().occupied(), 0);
}

#[test]
fn starting_moves_are_listed_square_by_square() {
    let moves = BitBoard::starting_position().legal_moves(Side::Black);
    let pairs: Vec<(u8, u8)> = moves.iter().map(|mv| (mv.from, mv.to)).collect();
    assert_eq!(
        pairs,
        [(20, 16), (21, 16), (21, 17), (22, 17), (22, 18), (23, 18), (23, 19)]
    );
}

#[test]
fn no_legal_move_is_listed_twice() {
    let mut state = GameState::new();
    for _ in 0..40 {
        let moves = state.legal_moves();
        for (i, mv) in moves.iter().enumerate() {
            assert!(!moves[i + 1..].contains(mv));
        }
        match moves.last() {
            Some(mv) => state = state.apply(*mv),
            None => break,
        }
    }
}

#[test]
fn captures_follow_every_branch() {
    let b = board(&[22], &[9, 10, 17, 18], &[22]);
    let moves = b.legal_moves(Side::Black);
    assert_eq!(moves.len(), 2);
    assert_eq!((moves[0].from, moves[0].to), (22, 22));
    assert_eq!(taken(moves[0]), [17, 9, 10, 18]);
    assert_eq!(taken(moves[1]), [18, 10, 9, 17]);
    let after = b.apply(Side::Black, moves[0]);
    assert_eq!(after, board(&[22], &[], &[22]));
}

#[test]
fn a_man_is_crowned_on_the_far_row() {
    let b = board(&[4], &[30], &[]);
    let mv = b.legal_moves(Side::Black)[0];
    assert_eq!((mv.from, mv.to), (4, 0));
    assert_eq!(b.apply(Side::Black, mv), board(&[0], &[30], &[0]));
    let b = board(&[0], &[27], &[]);
    let mv = b.legal_moves(Side::Red)[0];
    assert_eq!((mv.from, mv.to), (27, 31));
    assert_eq!(b.apply(Side::Red, mv), board(&[0], &[31], &[31]));
}

#[test]
fn a_man_that_jumps_on_from_the_far_row_stays_a_man() {
    let b = board(&[9], &[6, 7], &[]);
    let moves = b.legal_moves(Side::Black);
    assert_eq!(moves.len(), 1);
    assert_eq!((moves[0].from, moves[0].to), (9, 11));
    assert_eq!(taken(moves[0]), [6, 7]);
    assert_eq!(b.apply(Side::Black, moves[0]), board(&[11], &[], &[]));
}

#[test]
fn a_taken_king_leaves_no_mark() {
    let b = board(&[20], &[16], &[16]);
    let mv = b.legal_moves(Side::Black)[0];
    assert_eq!(b.apply(Side::Black, mv), board(&[13], &[], &[]));
}

#[test]
fn chains_of_more_than_seven_jumps_do_not_fit() {
    let grid: Vec<u8> = (0..32u8).filter(|square| 0xe0_e0e0u32 & 1 << square != 0).collect();
    assert!(!board(&[0], &grid, &[0]).captures_fit(Side::Black));
    assert!(!board(&[9], &grid, &[9]).captures_fit(Side::Black));
    let seven = board(&[1], &grid, &[1]);
    assert!(seven.captures_fit(Side::Black));
    let longest = seven.legal_moves(Side::Black).iter().map(|mv| mv.capture_len).max();
    assert_eq!(longest, Some(7));
    let few = board(&[0], &grid[..7], &[0]);
    assert!(few.captures_fit(Side::Black));
    let state = GameState {
        board: board(&[0], &grid, &[0]),
        turn: Side::Black,
        halfmoves: 0,
    };
    assert!(!state.is_judgeable());
    assert!(GameState { halfmoves: 160, ..state }.is_judgeable());
    assert!(GameState { turn: Side::Red, ..state }.is_judgeable());
}

#[test]
fn perft_counts_move_sequences() {
    let start = BitBoard::starting_position();
    let counts: Vec<u64> = (0..6).map(|depth| start.perft(Side::Black, depth)).collect();
    assert_eq!(counts, [1, 7, 49, 302, 1469, 7361]);
    assert_eq!(BitBoard::empty().perft(Side::Black, 0), 1);
    assert_eq!(BitBoard::empty().perft(Side::Black, 3), 0);
}

#[test]
fn results_are_looked_at_in_order() {
    let mut game = GameState::new();
    assert_eq!(game.result(), None);
    game.halfmoves = GameState::DRAW_HALFMOVES;
    assert_eq!(game.result(), Some(GameResult::Draw));
    game.board.black = 0;
    assert_eq!(game.result(), Some(GameResult::Draw));
    game.halfmoves = GameState::DRAW_HALFMOVES - 1;
    assert_eq!(game.result(), Some(GameResult::Winner(Side::Red)));
    game.board.red = 0;
    assert_eq!(game.result(), Some(GameResult::Winner(Side::Red)));
    let blocked = GameState {
        board: board(&[4], &[0], &[]),
        turn: Side::Black,
        halfmoves: 0,
    };
    assert_eq!(blocked.result(), Some(GameResult::Winner(Side::Red)));
    assert_eq!(GameState { turn: Side::Red, ..blocked }.result(), None);
}

#[test]
fn moves_take_turns_and_are_counted() {
    let mut state = GameState::new();
    for count in 1..=20u16 {
        let mover = state.turn;
        let before = state.board.side_bits(mover.opponent()).count_ones();
        let mv = state.legal_moves()[0];
        let next = state.apply(mv);
        assert_eq!(next.turn, mover.opponent());
        assert_eq!(next.halfmoves, count);
        assert_eq!(next.board.black & next.board.red, 0);
        assert_eq!(next.board.kings & !next.board.occupied(), 0);
        assert_eq!(
            next.board.side_bits(mover).count_ones(),
            state.board.side_bits(mover).count_ones()
        );
        assert_eq!(
            next.board.side_bits(mover.opponent()).count_ones() + mv.capture_len as u32,
            before
        );
        state = next;
    }
}

#[test]
fn games_end_at_the_move_limit() {
    let mut state = GameState {
        board: board(&[31], &[0], &[0, 31]),
        turn: Side::Black,
        halfmoves: 0,
    };
    for _ in 0..GameState::DRAW_HALFMOVES {
        let moves = state.legal_moves();
        let quiet = moves.iter().find(|mv| {
            let next = state.apply(**mv);
            next.result().is_none() && !next.legal_moves()[0].is_capture()
        });
        state = state.apply(*quiet.unwrap_or(&moves[0]));
        if state.result().is_some() {
            break;
        }
    }
    assert_eq!(state.halfmoves, GameState::DRAW_HALFMOVES);
    assert_eq!(state.result(), Some(GameResult::Draw));
}

#[test]
fn perft_counts_each_line_once() {
    let state = GameState::new();
    let mut lines: Vec<Vec<Move>> = Vec::new();
    for first in state.legal_moves() {
        let next = state.apply(first);
        for second in next.legal_moves() {
            let line = vec![first, second];
            assert!(!lines.contains(&line));
            lines.push(line);
        }
    }
    assert_eq!(lines.len() as u64, state.board.perft(Side::Black, 2));
}

#[test]
fn lines_that_cannot_be_listed_are_not_counted() {
    let start = BitBoard::starting_position();
    assert_eq!(start.checked_perft(Side::Black, 3), Some(302));
    let deep = BitBoard {
        black: 1,
        red: 0xe0_e0e0,
        kings: 1,
    };
    assert_eq!(deep.checked_perft(Side::Black, 0), Some(1));
    assert_eq!(deep.checked_perft(Side::Black, 1), None);
    assert_eq!(deep.checked_perft(Side::Red, 2), None);
    assert!(deep.checked_perft(Side::Red, 1).is_some());
}

#[test]
fn the_start_has_no_captures() {
    let start = BitBoard::starting_position();
    for side in [Side::Black, Side::Red] {
        assert!(start.captures_fit(side));
        assert!(start.legal_moves(side).iter().all(|mv| !mv.is_capture()));
    }
    assert_eq!(GameState::default(), GameState::new());
    assert_eq!(BitBoard::default(), start);
}

#[test]
fn records_name_squares_of_the_board() {
    assert!(Move::quiet(31, 0).is_within_board());
    assert!(!Move::quiet(32, 0).is_within_board());
    assert!(!Move::quiet(0, 32).is_within_board());
    let mut mv = Move::quiet(0, 9);
    mv.captures[6] = Some(32);
    assert!(!mv.is_within_board());
    mv.captures[6] = Some(31);
    assert!(mv.is_within_board());
}

#[test]
fn a_capture_does_what_its_jumps_do() {
    let whole = board(&[22], &[9, 10, 17, 18, 3], &[22]);
    let record = whole.legal_moves(Side::Black)[0];
    let stops = [13, 6, 15, 22];
    let mut at = 22u8;
    let mut step_by_step = whole;
    for (over, to) in taken(record).into_iter().zip(stops) {
        let mut jump = Move::quiet(at, to);
        jump.captures[0] = Some(over);
        jump.capture_len = 1;
        step_by_step = step_by_step.apply(Side::Black, jump);
        at = to;
    }
    assert_eq!(at, record.to);
    let after = whole.apply(Side::Black, record);
    assert_eq!(after, step_by_step);
    assert!(after.legal_moves(Side::Black).iter().all(|mv| !mv.is_capture()));
}

#[test]
fn a_kings_step_can_be_taken_back() {
    let b = board(&[17], &[], &[17]);
    for mv in b.legal_moves(Side::Black) {
        let after = b.apply(Side::Black, mv);
        let back = Move::quiet(mv.to, mv.from);
        assert!(after.legal_moves(Side::Black).contains(&back));
        assert_eq!(after.apply(Side::Black, back), b);
    }
    assert_eq!(b.legal_moves(Side::Black).len(), 4);
}

#[test]
fn a_played_capture_leaves_no_jump() {
    let boards = [
        board(&[9], &[6, 7, 14, 15], &[]),
        board(&[22], &[9, 10, 17, 18, 3], &[22]),
        board(&[20], &[16, 9], &[]),
        board(&[9], &[6, 7], &[11]),
    ];
    for b in boards {
        for mv in b.legal_moves(Side::Black) {
            assert!(mv.is_capture());
            let after = b.apply(Side::Black, mv);
            let next = after.legal_moves(Side::Black);
            assert!(next.iter().all(|n| n.from != mv.to || !n.is_capture()));
        }
    }
}

#[test]
fn a_new_game_goes_on() {
    assert_eq!(GameState::new().result(), None);
    assert!(!GameState::new().legal_moves().is_empty());
}
