//! A game between a human, who has the black pieces, and the machine.
use crate::cache::CachedMove;
use crate::engine::{
    lemma_word_squares, notation, opening, piece_side, square_index, GameResult, GameState, Move,
    Piece, Side,
};
use crate::geometry::{coords_of, law_coords_then_index, square_at, square_name};
use crate::legality::{law_legal_moves_are_proper, sides_on_board};
use crate::rules::{captures_fit, piece_on, Game};
use crate::search::SearchReport;
use crate::single::Single;
use vstd::prelude::*;

verus! {

/// What is on the screen: the game, the square that the human has selected, the
/// moves made so far, and a line for the human.
#[derive(Debug, Clone)]
pub struct Arena {
    pub game: GameState,
    pub selected: Option<u8>,
    pub history: Vec<String>,
    pub status: String,
}

/// The contents of an [`Arena`].
#[verifier::ext_equal]
pub struct Scene {
    pub game: Game,
    pub selected: Option<u8>,
    pub history: Seq<Seq<char>>,
    pub status: Seq<char>,
}

impl View for Arena {
    type V = Scene;

    open spec fn view(&self) -> Scene {
        Scene {
            game: self.game@,
            selected: self.selected,
            history: texts(self.history@),
            status: self.status@,
        }
    }
}

/// The contents of strings.
pub open spec fn texts(strings: Seq<String>) -> Seq<Seq<char>> {
    strings.map_values(|string: String| string@)
}

/// The first of the moves that leads from one square to another.
pub open spec fn first_between(moves: Seq<Move>, from: u8, to: u8) -> Option<Move>
    decreases moves.len(),
{
    if moves.len() == 0 {
        None
    } else if moves[0].from == from && moves[0].to == to {
        Some(moves[0])
    } else {
        first_between(moves.drop_first(), from, to)
    }
}

/// Whether one of the moves starts on a square.
pub open spec fn some_from(moves: Seq<Move>, from: u8) -> bool {
    exists|i: int| 0 <= i < moves.len() && (#[trigger] moves[i]).from == from
}

/// How the end of a game is announced.
pub open spec fn announcement(result: GameResult) -> Seq<char> {
    match result {
        GameResult::Winner(side) => "Game over. "@ + side.name() + " wins."@,
        GameResult::Draw => "Game over. Draw by move limit."@,
    }
}

/// How the end of a game is announced; see [`announcement`].
pub fn result_message(result: GameResult) -> (message: String)
    ensures
        message@ == announcement(result),
{
    match result {
        GameResult::Winner(side) => {
            let mut message = "Game over. ".to_owned();
            message.append(side.label());
            message.append(" wins.");
            message
        },
        GameResult::Draw => "Game over. Draw by move limit.".to_owned(),
    }
}

impl Scene {
    /// The move that a click on a square makes, if the human has selected a piece that
    /// can go there.
    pub open spec fn chosen(self, square: u8) -> Option<Move> {
        match self.selected {
            Some(from) => first_between(self.game.moves(), from, square),
            None => None,
        }
    }

    /// Whether the human can select a square: a black piece with a legal move stands
    /// on it.
    pub open spec fn selectable(self, square: u8) -> bool {
        &&& piece_on(self.game.position, square as int) matches Some(piece)
        &&& piece.owner() is Black
        &&& some_from(self.game.moves(), square)
    }

    /// What a click on a field leads to. A click on a field that is not playable, or
    /// while it is not black's turn, changes nothing.
    pub open spec fn clicked(self, row: int, col: int) -> Scene {
        if square_at(row, col) is None || self.game.turn is Red {
            self
        } else {
            self.clicked_square(square_at(row, col)->0 as u8)
        }
    }

    /// What a click on a square leads to on black's turn: a move of the selected piece,
    /// a new selection, or none.
    pub open spec fn clicked_square(self, square: u8) -> Scene {
        if self.game.outcome() is Some {
            Scene { status: "Game over. Start a new game to continue."@, ..self }
        } else {
            match self.chosen(square) {
                Some(mv) => {
                    let after = self.game.play(mv);
                    let moved = Scene {
                        selected: None,
                        history: self.history.push("Black "@ + mv.name()),
                        ..self
                    };
                    match after.outcome() {
                        Some(result) => Scene {
                            game: after,
                            status: announcement(result),
                            ..moved
                        },
                        None => Scene { status: "Red is thinking..."@, ..moved },
                    }
                },
                None => if self.selectable(square) {
                    Scene {
                        selected: Some(square),
                        status: "Selected "@ + square_name(square as int) + "."@,
                        ..self
                    }
                } else {
                    Scene {
                        selected: None,
                        status: "Select a black piece with a legal move."@,
                        ..self
                    }
                },
            }
        }
    }

    /// The move that a click on a field makes.
    pub open spec fn moved_by(self, row: int, col: int) -> Option<Move> {
        if square_at(row, col) is None || self.game.turn is Red || self.game.outcome() is Some {
            None
        } else {
            self.chosen(square_at(row, col)->0 as u8)
        }
    }

    /// What the machine's reply to a game leads to, with the text of its value.
    pub open spec fn replied(self, after_human: Game, mv: Move, value: Seq<char>) -> Scene {
        Scene {
            game: after_human.play(mv),
            history: self.history.push("Red "@ + mv.name() + " ("@ + value + ")"@),
            status: match after_human.play(mv).outcome() {
                Some(result) => announcement(result),
                None => "Black to move. Select a piece."@,
            },
            ..self
        }
    }

    /// What it leads to if the machine has no legal move.
    pub open spec fn conceded(self, after_human: Game) -> Scene {
        Scene { game: after_human, status: "Red has no legal move. Black wins."@, ..self }
    }

    /// The game that waits for the machine's reply after a click.
    pub open spec fn awaiting(self, row: int, col: int) -> Option<Game> {
        match self.moved_by(row, col) {
            Some(mv) => if self.game.play(mv).outcome() is None {
                Some(self.game.play(mv))
            } else {
                None
            },
            None => None,
        }
    }
}

/// Whether the machine can play a move in a game, and the game can be judged after it.
pub open spec fn can_reply(after_human: GameState, mv: Move) -> bool {
    &&& mv.within_board()
    &&& after_human.halfmoves < u16::MAX
    &&& after_human@.play(mv).judgeable()
}

/// Whether the machine's reply leads from one scene to another, with the text that `show`
/// gives for its value.
pub open spec fn is_shown<F: Fn(Single) -> String>(
    before: Scene,
    after: Scene,
    after_human: Game,
    mv: Move,
    value: Single,
    text: String,
    show: F,
) -> bool {
    call_ensures(show, (value,), text) && after == before.replied(after_human, mv, text@)
}

/// Whether the machine's reply leads from one scene to another, with some text that `show`
/// gives for its value.
pub open spec fn shows_reply<F: Fn(Single) -> String>(
    before: Scene,
    after: Scene,
    after_human: Game,
    mv: Move,
    value: Single,
    show: F,
) -> bool {
    exists|text: String| #[trigger]
        is_shown(before, after, after_human, mv, value, text, show)
}

impl Arena {
    /// A new game.
    pub fn new() -> (arena: Self)
        ensures
            arena@ == (Scene {
                game: opening(),
                selected: None,
                history: Seq::empty(),
                status: "Black to move. Select a piece."@,
            }),
    {
        let arena = Self {
            game: GameState::new(),
            selected: None,
            history: Vec::new(),
            status: "Black to move. Select a piece.".to_owned(),
        };
        assert(arena@.history =~= Seq::<Seq<char>>::empty());
        arena
    }

    /// The move that a click on a field makes, if it makes one.
    pub fn chosen_move(&self, row: usize, col: usize) -> (mv: Option<Move>)
        requires
            square_at(row as int, col as int) is Some && self.game.turn is Black
                ==> self.game@.judgeable(),
        ensures
            mv == self@.moved_by(row as int, col as int),
            mv matches Some(m) ==> m.within_board() && self.game.halfmoves
                < GameState::DRAW_HALFMOVES,
    {
        let square: u8 = match square_index(row, col) {
            Some(square) => square,
            None => {
                return None;
            },
        };
        if self.game.turn != Side::Black || self.game.result().is_some() {
            return None;
        }
        match self.selected {
            Some(from) => {
                let moves = self.game.legal_moves();
                let mv = find_move(&moves, from, square);
                proof {
                    if mv is Some {
                        lemma_first_between_listed(moves@, from, square);
                        lemma_word_squares(self.game.board);
                        law_legal_moves_are_proper(self.game@.position, self.game.turn, mv->0);
                    }
                }
                mv
            },
            None => None,
        }
    }

    /// Handles a click on a field. If the human has moved and the game goes on, the
    /// result is the game in which the machine has to reply.
    pub fn click(&mut self, row: usize, col: usize) -> (awaiting: Option<GameState>)
        requires
            square_at(row as int, col as int) is Some && old(self).game.turn is Black ==> old(
                self,
            ).game@.judgeable(),
            old(self)@.moved_by(row as int, col as int) matches Some(mv) ==> old(self).game@.play(
                mv,
            ).judgeable(),
        ensures
            final(self)@ == old(self)@.clicked(row as int, col as int),
            (match awaiting {
                Some(state) => Some(state@),
                None => None,
            }) == old(self)@.awaiting(row as int, col as int),
    {
        let square: u8 = match square_index(row, col) {
            Some(square) => square,
            None => {
                return None;
            },
        };
        if self.game.turn != Side::Black {
            return None;
        }
        if self.game.result().is_some() {
            self.status = "Game over. Start a new game to continue.".to_owned();
            return None;
        }
        if let Some(mv) = self.chosen_move(row, col) {
            let after = self.game.apply(mv);
            let mut line = "Black ".to_owned();
            line.append(mv.notation().as_str());
            self.history.push(line);
            self.selected = None;
            assert(texts(self.history@) =~= texts(old(self).history@).push("Black "@ + mv.name()));
            if let Some(result) = after.result() {
                self.game = after;
                self.status = result_message(result);
                return None;
            }
            self.status = "Red is thinking...".to_owned();
            return Some(after);
        }
        let moves = self.game.legal_moves();
        if let Some(piece) = self.game.board.piece_at(row, col) {
            if piece_side(piece) == Side::Black && any_from(&moves, square) {
                self.selected = Some(square);
                let mut status = "Selected ".to_owned();
                status.append(notation(square).as_str());
                status.append(".");
                self.status = status;
                return None;
            }
        }
        self.selected = None;
        self.status = "Select a black piece with a legal move.".to_owned();
        None
    }

    /// Enters the machine's reply to `after_human`. `value` is the text of the value
    /// that the machine gives to its move.
    pub fn reply(&mut self, after_human: GameState, mv: Move, value: &str)
        requires
            mv.within_board(),
            after_human.halfmoves < u16::MAX,
            after_human@.play(mv).judgeable(),
        ensures
            final(self)@ == old(self)@.replied(after_human@, mv, value@),
    {
        let after = after_human.apply(mv);
        let mut line = "Red ".to_owned();
        line.append(mv.notation().as_str());
        line.append(" (");
        line.append(value);
        line.append(")");
        let ghost text = line@;
        self.history.push(line);
        assert(texts(self.history@) =~= texts(old(self).history@).push(text));
        self.status = match after.result() {
            Some(result) => result_message(result),
            None => "Black to move. Select a piece.".to_owned(),
        };
        self.game = after;
    }

    /// Notes that the machine has no legal move in `after_human`.
    pub fn concede(&mut self, after_human: GameState)
        ensures
            final(self)@ == old(self)@.conceded(after_human@),
    {
        self.game = after_human;
        self.status = "Red has no legal move. Black wins.".to_owned();
    }

    /// Lets the machine answer in `after_human`: it plays the move that is known for the
    /// position, or else the one that `search` finds, or concedes if that finds none.
    /// `show` turns the value of a move into text. Nothing is searched if a move is known.
    pub fn answer<S: Fn() -> SearchReport, F: Fn(Single) -> String>(
        &mut self,
        after_human: GameState,
        known: Option<CachedMove>,
        search: S,
        show: F,
    )
        requires
            known matches Some(cached) ==> can_reply(after_human, cached.best_move),
            known is None ==> call_requires(search, ()),
            forall|report: SearchReport|
                known is None && #[trigger] call_ensures(search, (), report)
                    && report.best_move is Some ==> can_reply(after_human, report.best_move->0),
            forall|value: Single| call_requires(show, (value,)),
        ensures
            match known {
                Some(cached) => shows_reply(
                    old(self)@,
                    final(self)@,
                    after_human@,
                    cached.best_move,
                    cached.value,
                    show,
                ),
                None => exists|report: SearchReport| #[trigger]
                    call_ensures(search, (), report) && match report.best_move {
                        Some(mv) => shows_reply(
                            old(self)@,
                            final(self)@,
                            after_human@,
                            mv,
                            report.value,
                            show,
                        ),
                        None => final(self)@ == old(self)@.conceded(after_human@),
                    },
            },
    {
        let (mv, value): (Move, Single) = match known {
            Some(cached) => (cached.best_move, cached.value),
            None => {
                let report: SearchReport = search();
                assert(call_ensures(search, (), report));
                match report.best_move {
                    Some(mv) => (mv, report.value),
                    None => {
                        self.concede(after_human);
                        return;
                    },
                }
            },
        };
        let text: String = show(value);
        self.reply(after_human, mv, text.as_str());
        assert(is_shown(old(self)@, self@, after_human@, mv, value, text, show));
    }
}

/// The style classes of a piece.
pub open spec fn piece_style(piece: Piece) -> Seq<char> {
    match piece {
        Piece::BlackMan => "piece black-piece"@,
        Piece::BlackKing => "piece black-piece king-piece"@,
        Piece::RedMan => "piece red-piece"@,
        Piece::RedKing => "piece red-piece king-piece"@,
    }
}

/// The style classes of a piece; see [`piece_style`].
pub fn piece_class(piece: Piece) -> (class: &'static str)
    ensures
        class@ == piece_style(piece),
{
    match piece {
        Piece::BlackMan => "piece black-piece",
        Piece::BlackKing => "piece black-piece king-piece",
        Piece::RedMan => "piece red-piece",
        Piece::RedKing => "piece red-piece king-piece",
    }
}

/// Whether a move touches a square: it starts there, ends there, or takes a piece there.
pub open spec fn touches(mv: Move, square: int) -> bool {
    mv.from == square || mv.to == square || mv.taken().contains(square)
}

/// The visit density of a square: the visits of the moves that touch it.
pub open spec fn density(visits: Seq<(Move, u32)>, square: int) -> int
    decreases visits.len(),
{
    if visits.len() == 0 {
        0
    } else {
        density(visits.drop_last(), square) + if touches(visits.last().0, square) {
            visits.last().1 as int
        } else {
            0
        }
    }
}

/// The highest visit density of the first `n` squares.
pub open spec fn peak(visits: Seq<(Move, u32)>, n: nat) -> int
    decreases n,
{
    if n == 0 {
        0
    } else {
        let rest = peak(visits, (n - 1) as nat);
        let last = density(visits, n - 1);
        if last > rest {
            last
        } else {
            rest
        }
    }
}

/// How hot a square of a density is, from cold at zero to three: squares that are not
/// touched are cold, and the others are sorted by thirds of the highest density.
pub open spec fn heat(density: int, peak: int) -> int {
    if density == 0 {
        0
    } else if 3 * density <= peak {
        1
    } else if 3 * density <= 2 * peak {
        2
    } else {
        3
    }
}

/// The style classes of a cell of the heat map.
pub open spec fn heat_style(heat: int) -> Seq<char> {
    if heat == 3 {
        "heat-cell heat-strong"@
    } else if heat == 2 {
        "heat-cell heat-mid"@
    } else if heat == 1 {
        "heat-cell heat-low"@
    } else {
        "heat-cell"@
    }
}

/// The style classes of a square's cell in the heat map of a search; see [`heat`].
pub fn heat_class(visits: &Vec<(Move, u32)>, square: u8) -> (class: &'static str)
    ensures
        class@ == heat_style(heat(density(visits@, square as int), peak(visits@, 32))),
{
    let own: u128 = visit_density(visits, square);
    let mut highest: u128 = 0;
    let mut other: u8 = 0;
    while other < 32
        invariant
            other <= 32,
            highest == peak(visits@, other as nat),
            highest <= visits@.len() * 0xffff_ffff,
        decreases 32 - other,
    {
        let density: u128 = visit_density(visits, other);
        if density > highest {
            highest = density;
        }
        other += 1;
    }
    assert(visits.len() <= usize::MAX);
    if own == 0 {
        "heat-cell"
    } else if 3 * own <= highest {
        "heat-cell heat-low"
    } else if 3 * own <= 2 * highest {
        "heat-cell heat-mid"
    } else {
        "heat-cell heat-strong"
    }
}

/// The visit density of a square; see [`density`].
fn visit_density(visits: &Vec<(Move, u32)>, square: u8) -> (sum: u128)
    ensures
        sum == density(visits@, square as int),
        sum <= visits@.len() * 0xffff_ffff,
{
    let mut sum: u128 = 0;
    let mut i: usize = 0;
    while i < visits.len()
        invariant
            i <= visits@.len(),
            sum == density(visits@.take(i as int), square as int),
            sum <= i * 0xffff_ffff,
        decreases visits.len() - i,
    {
        assert(visits@.take(i + 1).drop_last() =~= visits@.take(i as int));
        let (mv, count) = visits[i];
        if move_touches(mv, square) {
            sum = sum + count as u128;
        }
        i += 1;
    }
    assert(visits@.take(i as int) =~= visits@);
    sum
}

/// Whether a move touches a square; see [`touches`].
fn move_touches(mv: Move, square: u8) -> (touched: bool)
    ensures
        touched == touches(mv, square as int),
{
    if mv.from == square || mv.to == square {
        return true;
    }
    let mut i: usize = 0;
    while i < 7
        invariant
            i <= 7,
            mv.from != square,
            mv.to != square,
            forall|k: int| 0 <= k < i ==> #[trigger] mv.captures@[k] != Some(square),
        decreases 7 - i,
    {
        if let Some(taken) = mv.captures[i] {
            if taken == square {
                assert(mv.captures@[i as int] is Some);
                return true;
            }
        }
        i += 1;
    }
    false
}

/// The heat map shows the visit density: squares of the same density look the same, and
/// a square is at least as hot as one of a lower density.
pub proof fn law_heat_shows_density(visits: Seq<(Move, u32)>, a: int, b: int)
    requires
        density(visits, a) <= density(visits, b),
    ensures
        heat(density(visits, a), peak(visits, 32)) <= heat(density(visits, b), peak(visits, 32)),
        density(visits, a) == density(visits, b) ==> heat_style(
            heat(density(visits, a), peak(visits, 32)),
        ) == heat_style(heat(density(visits, b), peak(visits, 32))),
        heat(density(visits, a), peak(visits, 32)) == 0 <==> density(visits, a) == 0,
{
    lemma_density_is_a_count(visits, a);
}

/// No density is negative.
pub(crate) proof fn lemma_density_is_a_count(visits: Seq<(Move, u32)>, square: int)
    ensures
        density(visits, square) >= 0,
    decreases visits.len(),
{
    if visits.len() > 0 {
        lemma_density_is_a_count(visits.drop_last(), square);
    }
}

/// The style classes of a field of the board: its colour, whether it is the selected
/// square, and whether the selected piece can go there. While nothing is selected,
/// every field that is not playable carries the mark of the selected square.
pub open spec fn field_style(row: int, col: int, selected: Option<u8>, moves: Seq<Move>) -> Seq<
    char,
> {
    let square = square_at(row, col);
    let base = if (row + col) % 2 == 1 {
        "square dark-square"@
    } else {
        "square light-square"@
    };
    let mark = if square == (match selected {
        Some(from) => Some(from as int),
        None => None,
    }) {
        " selected-square"@
    } else {
        ""@
    };
    let target = if square is Some && selected is Some && first_between(
        moves,
        selected->0,
        square->0 as u8,
    ) is Some {
        " target-square"@
    } else {
        ""@
    };
    base + mark + target
}

/// The style classes of a field of the board; see [`field_style`].
pub fn square_class(row: usize, col: usize, selected: Option<u8>, moves: &Vec<Move>) -> (class:
    String)
    requires
        row + col <= usize::MAX,
    ensures
        class@ == field_style(row as int, col as int, selected, moves@),
{
    let square: Option<u8> = square_index(row, col);
    let mut class = if (row + col) % 2 == 1 {
        "square dark-square".to_owned()
    } else {
        "square light-square".to_owned()
    };
    let is_selected = match (square, selected) {
        (Some(square), Some(from)) => square == from,
        (None, None) => true,
        _ => false,
    };
    class.append(if is_selected { " selected-square" } else { "" });
    let is_target = match (square, selected) {
        (Some(square), Some(from)) => find_move(moves, from, square).is_some(),
        _ => false,
    };
    class.append(if is_target { " target-square" } else { "" });
    class
}

/// The first of the moves that leads from one square to another.
fn find_move(moves: &Vec<Move>, from: u8, to: u8) -> (mv: Option<Move>)
    ensures
        mv == first_between(moves@, from, to),
{
    let mut i: usize = 0;
    assert(moves@.skip(0) =~= moves@);
    while i < moves.len()
        invariant
            i <= moves@.len(),
            first_between(moves@, from, to) == first_between(moves@.skip(i as int), from, to),
        decreases moves.len() - i,
    {
        if moves[i].from == from && moves[i].to == to {
            return Some(moves[i]);
        }
        assert(moves@.skip(i as int).drop_first() =~= moves@.skip(i + 1));
        i += 1;
    }
    None
}

/// Whether one of the moves starts on a square.
fn any_from(moves: &Vec<Move>, from: u8) -> (found: bool)
    ensures
        found == some_from(moves@, from),
{
    let mut i: usize = 0;
    while i < moves.len()
        invariant
            i <= moves@.len(),
            forall|k: int| 0 <= k < i ==> (#[trigger] moves@[k]).from != from,
        decreases moves.len() - i,
    {
        if moves[i].from == from {
            return true;
        }
        i += 1;
    }
    false
}

/// What is found is one of the moves, and it leads from the one square to the other.
pub(crate) proof fn lemma_first_between_listed(moves: Seq<Move>, from: u8, to: u8)
    requires
        first_between(moves, from, to) is Some,
    ensures
        moves.contains(first_between(moves, from, to)->0),
        first_between(moves, from, to)->0.from == from,
        first_between(moves, from, to)->0.to == to,
    decreases moves.len(),
{
    if moves[0].from == from && moves[0].to == to {
        assert(moves.contains(moves[0]));
    } else {
        lemma_first_between_listed(moves.drop_first(), from, to);
        let rest = moves.drop_first();
        let i = choose|i: int|
            0 <= i < rest.len() && rest[i] == first_between(moves, from, to)->0;
        assert(moves[i + 1] == rest[i]);
    }
}

/// A click makes a move only on black's turn, in a game that is not over, and only a
/// legal one: of the selected piece, to the clicked square.
pub proof fn law_clicks_make_legal_moves(scene: Scene, row: int, col: int)
    ensures
        scene.moved_by(row, col) matches Some(mv) ==> {
            &&& scene.game.turn is Black
            &&& scene.game.outcome() is None
            &&& scene.game.moves().contains(mv)
            &&& scene.selected == Some(mv.from)
            &&& square_at(row, col) == Some(mv.to as int)
        },
{
    if let Some(mv) = scene.moved_by(row, col) {
        let square = square_at(row, col)->0 as u8;
        lemma_first_between_listed(scene.game.moves(), scene.selected->0, square);
    }
}

/// A click leaves the game as it is, unless it makes a move that ends the game.
pub proof fn law_clicks_leave_the_game(scene: Scene, row: int, col: int)
    ensures
        ({
            let after = scene.clicked(row, col).game;
            after == scene.game || {
                &&& scene.moved_by(row, col) is Some
                &&& after == scene.game.play(scene.moved_by(row, col)->0)
                &&& after.outcome() is Some
            }
        }),
{
}

/// The human can make every legal move with two clicks: one on the piece and one on
/// the square where the move ends. If several moves lead there, it is the first of
/// them.
pub proof fn law_two_clicks_make_a_move(scene: Scene, mv: Move)
    requires
        sides_on_board(scene.game.position),
        captures_fit(scene.game.position, Side::Black),
        scene.game.turn is Black,
        scene.game.outcome() is None,
        scene.game.moves().contains(mv),
        scene.selected is None,
    ensures
        ({
            let from = coords_of(mv.from as int);
            let to = coords_of(mv.to as int);
            let selected = scene.clicked(from.0, from.1);
            &&& selected.game == scene.game
            &&& selected.selected == Some(mv.from)
            &&& selected.moved_by(to.0, to.1) matches Some(made)
            &&& made.from == mv.from
            &&& made.to == mv.to
        }),
{
    law_legal_moves_are_proper(scene.game.position, Side::Black, mv);
    law_coords_then_index(mv.from as int);
    law_coords_then_index(mv.to as int);
    let moves = scene.game.moves();
    let i = choose|i: int| 0 <= i < moves.len() && moves[i] == mv;
    assert(some_from(moves, mv.from)) by {
        assert(moves[i].from == mv.from);
    }
    assert(scene.selectable(mv.from));
    lemma_listed_is_found(moves, mv.from, mv.to, i);
}

/// If a move leads from one square to the other, such a move is found.
pub(crate) proof fn lemma_listed_is_found(moves: Seq<Move>, from: u8, to: u8, i: int)
    requires
        0 <= i < moves.len(),
        moves[i].from == from,
        moves[i].to == to,
    ensures
        first_between(moves, from, to) matches Some(mv) && mv.from == from && mv.to == to,
    decreases moves.len(),
{
    if moves[0].from != from || moves[0].to != to {
        assert(moves.drop_first()[i - 1] == moves[i]);
        lemma_listed_is_found(moves.drop_first(), from, to, i - 1);
    }
}

/// Human and machine take turns: the machine is asked for a move in a game that is not
/// over and in which red has the turn, and its move gives the turn back to black.
pub proof fn law_the_machine_replies_for_red(scene: Scene, row: int, col: int, reply: Move)
    ensures
        scene.awaiting(row, col) matches Some(g) ==> {
            &&& g.turn is Red
            &&& g.outcome() is None
            &&& g.play(reply).turn is Black
        },
{
}

} // verus!
