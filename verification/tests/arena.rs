use alpha_checkers::arena::{heat_class, piece_class, result_message, square_class, Arena};
use alpha_checkers::engine::{square_coords, BitBoard, GameResult, GameState, Move, Piece, Side};
use alpha_checkers::search::SearchReport;
use alpha_checkers::single::Single;
use alpha_checkers::training::CachedMove;

fn click(arena: &mut Arena, square: u8) -> Option<GameState> {
    let (row, col) = square_coords(square);
    arena.click(row, col)
}

fn endgame() -> Arena {
    let mut arena = Arena::new();
    arena.game.board = BitBoard {
        black: 1 << 20,
        red: 1 << 16,
        kings: 0,
    };
    arena
}

#[test]
fn a_new_arena_waits_for_black() {
    let arena = Arena::new();
    assert_eq!(arena.game, GameState::new());
    assert_eq!(arena.selected, None);
    assert!(arena.history.is_empty());
    assert_eq!(arena.status, "Black to move. Select a piece.");
}

#[test]
fn two_clicks_make_a_move() {
    let mut arena = Arena::new();
    assert_eq!(click(&mut arena, 20), None);
    assert_eq!(arena.selected, Some(20));
    assert_eq!(arena.status, "Selected a3.");
    let (row, col) = square_coords(16);
    assert_eq!(arena.chosen_move(row, col), Some(Move::quiet(20, 16)));
    let after = click(&mut arena, 16).unwrap();
    assert_eq!(after, GameState::new().apply(Move::quiet(20, 16)));
    assert_eq!(arena.game, GameState::new());
    assert_eq!(arena.selected, None);
    assert_eq!(arena.history, ["Black a3-b4"]);
    assert_eq!(arena.status, "Red is thinking...");
}

#[test]
fn every_legal_move_can_be_clicked() {
    for mv in GameState::new().legal_moves() {
        let mut arena = Arena::new();
        assert_eq!(click(&mut arena, mv.from), None);
        assert_eq!(click(&mut arena, mv.to), Some(GameState::new().apply(mv)));
    }
}

#[test]
fn clicks_that_make_no_move_change_the_selection() {
    let mut arena = Arena::new();
    click(&mut arena, 20);
    click(&mut arena, 21);
    assert_eq!(arena.selected, Some(21));
    assert_eq!(click(&mut arena, 12), None);
    assert_eq!(arena.selected, None);
    assert_eq!(arena.status, "Select a black piece with a legal move.");
    click(&mut arena, 28);
    assert_eq!(arena.selected, None);
    click(&mut arena, 0);
    assert_eq!(arena.selected, None);
    assert_eq!(arena.game, GameState::new());
    assert!(arena.history.is_empty());
}

#[test]
fn clicks_on_light_fields_do_nothing() {
    let mut arena = Arena::new();
    click(&mut arena, 20);
    assert_eq!(arena.click(0, 0), None);
    assert_eq!(arena.click(9, 9), None);
    assert_eq!(arena.selected, Some(20));
    assert_eq!(arena.status, "Selected a3.");
    assert_eq!(arena.chosen_move(0, 0), None);
}

#[test]
fn clicks_on_reds_turn_do_nothing() {
    let mut arena = Arena::new();
    arena.game.turn = Side::Red;
    click(&mut arena, 20);
    assert_eq!(arena.selected, None);
    assert_eq!(arena.status, "Black to move. Select a piece.");
}

#[test]
fn a_move_can_end_the_game() {
    let mut arena = endgame();
    click(&mut arena, 20);
    assert_eq!(click(&mut arena, 13), None);
    assert_eq!(arena.history, ["Black a3xc5"]);
    assert_eq!(arena.game.board.red, 0);
    assert_eq!(arena.status, "Game over. Black wins.");
    arena.game.turn = Side::Black;
    click(&mut arena, 13);
    assert_eq!(arena.status, "Game over. Start a new game to continue.");
    assert_eq!(arena.selected, None);
}

#[test]
fn replies_are_entered() {
    let mut arena = Arena::new();
    click(&mut arena, 20);
    let after = click(&mut arena, 16).unwrap();
    let reply = after.legal_moves()[0];
    arena.reply(after, reply, "0.25");
    assert_eq!(arena.game, after.apply(reply));
    assert_eq!(arena.history[0], "Black a3-b4");
    assert_eq!(arena.history[1], format!("Red {} (0.25)", reply.notation()));
    assert_eq!(arena.status, "Black to move. Select a piece.");
}

#[test]
fn a_reply_can_end_the_game() {
    let mut arena = Arena::new();
    let mut after = endgame().game;
    after.turn = Side::Red;
    after.board = BitBoard {
        black: 1 << 16,
        red: 1 << 13,
        kings: 0,
    };
    let reply = after.legal_moves()[0];
    arena.reply(after, reply, "1.00");
    assert_eq!(arena.history, ["Red c5xa3 (1.00)"]);
    assert_eq!(arena.status, "Game over. Red wins.");
}

#[test]
fn red_can_be_out_of_moves() {
    let mut arena = endgame();
    let after = endgame().game;
    arena.concede(after);
    assert_eq!(arena.game, after);
    assert_eq!(arena.status, "Red has no legal move. Black wins.");
    assert!(arena.history.is_empty());
}

#[test]
fn results_are_announced() {
    assert_eq!(
        result_message(GameResult::Winner(Side::Black)),
        "Game over. Black wins."
    );
    assert_eq!(
        result_message(GameResult::Winner(Side::Red)),
        "Game over. Red wins."
    );
    assert_eq!(result_message(GameResult::Draw), "Game over. Draw by move limit.");
}

#[test]
fn pieces_have_styles() {
    assert_eq!(piece_class(Piece::BlackMan), "piece black-piece");
    assert_eq!(piece_class(Piece::BlackKing), "piece black-piece king-piece");
    assert_eq!(piece_class(Piece::RedMan), "piece red-piece");
    assert_eq!(piece_class(Piece::RedKing), "piece red-piece king-piece");
}

#[test]
fn heat_shows_the_visit_density() {
    let visits = vec![
        (Move::quiet(20, 16), 9),
        (Move::quiet(21, 16), 3),
        (Move::quiet(22, 17), 6),
        (Move::quiet(23, 18), 4),
        (Move::quiet(23, 19), 0),
    ];
    // Square 16 has the highest density, twelve.
    assert_eq!(heat_class(&visits, 16), "heat-cell heat-strong");
    assert_eq!(heat_class(&visits, 20), "heat-cell heat-strong");
    assert_eq!(heat_class(&visits, 22), "heat-cell heat-mid");
    assert_eq!(heat_class(&visits, 17), "heat-cell heat-mid");
    assert_eq!(heat_class(&visits, 23), "heat-cell heat-low");
    assert_eq!(heat_class(&visits, 21), "heat-cell heat-low");
    assert_eq!(heat_class(&visits, 19), "heat-cell");
    assert_eq!(heat_class(&visits, 0), "heat-cell");
    assert_eq!(heat_class(&visits, 200), "heat-cell");
}

#[test]
fn captured_squares_are_touched() {
    let board = BitBoard {
        black: 1 << 20,
        red: 1 << 16,
        kings: 0,
    };
    let visits = vec![(board.legal_moves(Side::Black)[0], 2)];
    for square in 0..32u8 {
        let touched = [20, 16, 13].contains(&square);
        let expected = if touched { "heat-cell heat-strong" } else { "heat-cell" };
        assert_eq!(heat_class(&visits, square), expected);
    }
}

#[test]
fn without_visits_every_cell_is_cold() {
    for square in 0..32u8 {
        assert_eq!(heat_class(&Vec::new(), square), "heat-cell");
        let unvisited = vec![(Move::quiet(square, square), 0)];
        assert_eq!(heat_class(&unvisited, square), "heat-cell");
    }
}

#[test]
fn clicks_that_change_nothing_need_no_judgement() {
    let deep = BitBoard {
        black: 1,
        red: 0xe0_e0e0,
        kings: 1,
    };
    let mut arena = Arena::new();
    arena.game.board = deep;
    assert!(!arena.game.is_judgeable());
    assert_eq!(arena.click(0, 0), None);
    assert_eq!(arena.chosen_move(0, 0), None);
    arena.game.board.red = 1;
    arena.game.board.black = 0xe0_e0e0;
    arena.game.turn = Side::Red;
    assert!(!arena.game.is_judgeable());
    assert_eq!(arena.click(5, 2), None);
    assert_eq!(arena.chosen_move(5, 2), None);
    assert_eq!(arena.status, "Black to move. Select a piece.");
}

#[test]
fn fields_have_styles() {
    let moves = GameState::new().legal_moves();
    assert_eq!(square_class(5, 0, Some(20), &moves), "square dark-square selected-square");
    assert_eq!(square_class(4, 1, Some(20), &moves), "square dark-square target-square");
    assert_eq!(square_class(4, 3, Some(20), &moves), "square dark-square");
    assert_eq!(square_class(4, 1, None, &moves), "square dark-square");
    assert_eq!(square_class(4, 2, Some(20), &moves), "square light-square");
    assert_eq!(square_class(4, 2, None, &moves), "square light-square selected-square");
}

#[test]
fn the_machine_replies_for_red() {
    let mut arena = Arena::new();
    click(&mut arena, 23);
    let after = click(&mut arena, 19).unwrap();
    assert_eq!(after.turn, Side::Red);
    assert_eq!(after.result(), None);
    arena.reply(after, after.legal_moves()[2], "");
    assert_eq!(arena.game.turn, Side::Black);
}

fn cached(mv: Move) -> CachedMove {
    CachedMove {
        best_move: mv,
        value: Single::one(),
        visits: 3,
    }
}

fn found(best_move: Option<Move>) -> SearchReport {
    SearchReport {
        best_move,
        value: Single::minus_one(),
        simulations: 1,
        visits: Vec::new(),
    }
}

fn show(value: Single) -> String {
    format!("{:.2}", f32::from_bits(value.bits))
}

#[test]
fn the_machine_answers_with_a_known_move() {
    let mut arena = Arena::new();
    click(&mut arena, 20);
    let after = click(&mut arena, 16).unwrap();
    let moves = after.legal_moves();
    let searched = || -> SearchReport { panic!("a known position is not searched") };
    arena.answer(after, Some(cached(moves[1])), searched, show);
    assert_eq!(arena.game, after.apply(moves[1]));
    assert_eq!(arena.history[1], format!("Red {} (1.00)", moves[1].notation()));
}

#[test]
fn the_machine_answers_with_a_found_move() {
    let mut arena = Arena::new();
    click(&mut arena, 20);
    let after = click(&mut arena, 16).unwrap();
    let mv = after.legal_moves()[2];
    arena.answer(after, None, || found(Some(mv)), show);
    assert_eq!(arena.game, after.apply(mv));
    assert_eq!(arena.history[1], format!("Red {} (-1.00)", mv.notation()));
    assert_eq!(arena.status, "Black to move. Select a piece.");
}

#[test]
fn the_machine_concedes_without_a_move() {
    let mut arena = endgame();
    let after = endgame().game;
    arena.answer(after, None, || found(None), show);
    assert_eq!(arena.game, after);
    assert_eq!(arena.status, "Red has no legal move. Black wins.");
    assert!(arena.history.is_empty());
}
