//! What the arena shows, told over fields and lists of moves.
use crate::arena::{
    announcement, density, field_style, first_between, heat, heat_style, is_shown,
    lemma_density_is_a_count, lemma_first_between_listed, lemma_listed_is_found, peak, piece_style,
    shows_reply, some_from, touches, Arena, Scene,
};
use crate::engine::{GameResult, Move, Piece, Side};
use crate::geometry::{square_at, square_name};
use crate::routes::{number, playable};
use crate::rules::Game;
use crate::single::Single;
use vstd::prelude::*;

verus! {

/// Whether a move leads from one square to another.
pub open spec fn leads(mv: Move, from: u8, to: int) -> bool {
    mv.from == from && mv.to == to
}

/// Whether a move is the first of a list that leads from one square to another.
pub open spec fn is_first(moves: Seq<Move>, i: int, from: u8, to: int) -> bool {
    &&& 0 <= i < moves.len()
    &&& leads(moves[i], from, to)
    &&& forall|j: int| 0 <= j < i ==> !leads(#[trigger] moves[j], from, to)
}

/// Whether no move of a list leads from one square to another.
pub open spec fn none_leads(moves: Seq<Move>, from: u8, to: int) -> bool {
    forall|j: int| 0 <= j < moves.len() ==> !leads(#[trigger] moves[j], from, to)
}

/// The move that is found between two squares is the first one that leads from the one to
/// the other, and none is found if none does.
pub proof fn law_first_moves_are_found(moves: Seq<Move>, from: u8, to: u8)
    ensures
        forall|i: int| #[trigger]
            is_first(moves, i, from, to as int) ==> first_between(moves, from, to) == Some(
                moves[i],
            ),
        none_leads(moves, from, to as int) <==> first_between(moves, from, to) is None,
{
    assert forall|i: int| #[trigger]
        is_first(moves, i, from, to as int) implies first_between(moves, from, to) == Some(
        moves[i],
    ) by {
        lemma_first_found(moves, i, from, to);
    }
    if first_between(moves, from, to) is Some {
        lemma_first_between_listed(moves, from, to);
        let mv = first_between(moves, from, to)->0;
        let i = choose|i: int| 0 <= i < moves.len() && moves[i] == mv;
        assert(leads(moves[i], from, to as int));
    } else if !none_leads(moves, from, to as int) {
        let i = choose|i: int|
            0 <= i < moves.len() && leads(#[trigger] moves[i], from, to as int);
        lemma_listed_is_found(moves, from, to, i);
    }
}

proof fn lemma_first_found(moves: Seq<Move>, i: int, from: u8, to: u8)
    requires
        is_first(moves, i, from, to as int),
    ensures
        first_between(moves, from, to) == Some(moves[i]),
    decreases moves.len(),
{
    if i > 0 {
        assert(!leads(moves[0], from, to as int));
        let rest = moves.drop_first();
        assert(rest[i - 1] == moves[i]);
        assert forall|j: int| 0 <= j < i - 1 implies !leads(
            #[trigger] rest[j],
            from,
            to as int,
        ) by {
            assert(rest[j] == moves[j + 1]);
        }
        lemma_first_found(rest, i - 1, from, to);
    }
}

/// Whether the screen shows the same game, selection and history, and perhaps another line.
pub open spec fn only_says(before: Scene, after: Scene, status: Seq<char>) -> bool {
    &&& after.game == before.game
    &&& after.selected == before.selected
    &&& after.history == before.history
    &&& after.status == status
}

/// Whether the screen shows that black has made a move: it is written down, nothing is
/// selected, and the game is shown after the move if that ends it. Otherwise the game as it
/// was stays on the screen, and the machine has to reply.
pub open spec fn shows_move(before: Scene, after: Scene, waiting: Option<Game>, mv: Move) -> bool {
    let next = before.game.play(mv);
    &&& after.selected is None
    &&& after.history.len() == before.history.len() + 1
    &&& forall|k: int|
        0 <= k < before.history.len() ==> #[trigger] after.history[k] == before.history[k]
    &&& after.history.last() == "Black "@ + mv.name()
    &&& next.outcome() is Some ==> {
        &&& after.game == next
        &&& after.status == announcement(next.outcome()->0)
        &&& waiting is None
    }
    &&& next.outcome() is None ==> {
        &&& after.game == before.game
        &&& after.status == "Red is thinking..."@
        &&& waiting == Some(next)
    }
}

/// What a click does. Outside the playable fields and on red's turn it does nothing, and
/// once the game is over it only says so. Otherwise it plays the first legal move from the
/// selected square to the clicked one. If there is none, it selects a black piece that has
/// a legal move, and anything else ends the selection.
pub proof fn law_clicks_in_full(scene: Scene, row: int, col: int)
    ensures
        ({
            let after = scene.clicked(row, col);
            let waiting = scene.awaiting(row, col);
            let moves = scene.game.moves();
            let square = number(row, col);
            let ignored = !playable(row, col) || scene.game.turn is Red;
            let open = !ignored && scene.game.outcome() is None;
            let stays = scene.selected is None || none_leads(moves, scene.selected->0, square);
            let selects = scene.game.position.black.contains(square) && exists|i: int|
                0 <= i < moves.len() && (#[trigger] moves[i]).from == square;
            &&& ignored ==> after == scene
            &&& !ignored && !open ==> only_says(
                scene,
                after,
                "Game over. Start a new game to continue."@,
            )
            &&& !open || stays ==> waiting is None && scene.moved_by(row, col) is None
            &&& open ==> forall|i: int|
                scene.selected is Some && #[trigger] is_first(
                    moves,
                    i,
                    scene.selected->0,
                    square,
                ) ==> {
                    &&& scene.moved_by(row, col) == Some(moves[i])
                    &&& shows_move(scene, after, waiting, moves[i])
                }
            &&& open && stays ==> {
                &&& after.game == scene.game
                &&& after.history == scene.history
            }
            &&& open && stays && selects ==> {
                &&& after.selected == Some(square as u8)
                &&& after.status == "Selected "@ + square_name(square) + "."@
            }
            &&& open && stays && !selects ==> {
                &&& after.selected is None
                &&& after.status == "Select a black piece with a legal move."@
            }
        }),
{
    let moves = scene.game.moves();
    let square = number(row, col);
    if playable(row, col) {
        assert(square_at(row, col) == Some(square));
        assert(0 <= square < 32);
        if scene.selected is Some {
            law_first_moves_are_found(moves, scene.selected->0, square as u8);
        }
        assert(some_from(moves, square as u8) <==> exists|i: int|
            0 <= i < moves.len() && (#[trigger] moves[i]).from == square);
    } else {
        assert(square_at(row, col) is None);
    }
}

/// What the machine's reply does: its move is played and written down with its value, and
/// the screen says that black has the move, or how the game has ended. The selection stays.
/// Without a move the game is shown as it is, and black has won.
pub proof fn law_replies_in_full(scene: Scene, game: Game, mv: Move, value: Seq<char>)
    ensures
        ({
            let after = scene.replied(game, mv, value);
            &&& after.game == game.play(mv)
            &&& after.selected == scene.selected
            &&& after.history.len() == scene.history.len() + 1
            &&& forall|k: int|
                0 <= k < scene.history.len() ==> #[trigger] after.history[k] == scene.history[k]
            &&& after.history.last() == "Red "@ + mv.name() + " ("@ + value + ")"@
            &&& game.play(mv).outcome() is None ==> after.status
                == "Black to move. Select a piece."@
            &&& game.play(mv).outcome() matches Some(result) ==> after.status == announcement(
                result,
            )
        }),
        scene.conceded(game).game == game,
        scene.conceded(game).selected == scene.selected,
        scene.conceded(game).history == scene.history,
        scene.conceded(game).status == "Red has no legal move. Black wins."@,
{
}

/// How a game that is over is announced, in full.
pub proof fn law_announcements_name_the_winner()
    ensures
        announcement(GameResult::Winner(Side::Black)) == "Game over. Black wins."@,
        announcement(GameResult::Winner(Side::Red)) == "Game over. Red wins."@,
        announcement(GameResult::Draw) == "Game over. Draw by move limit."@,
{
    reveal_strlit("Game over. ");
    reveal_strlit("Black");
    reveal_strlit("Red");
    reveal_strlit(" wins.");
    reveal_strlit("Game over. Black wins.");
    reveal_strlit("Game over. Red wins.");
    assert(announcement(GameResult::Winner(Side::Black)) =~= "Game over. Black wins."@);
    assert(announcement(GameResult::Winner(Side::Red)) =~= "Game over. Red wins."@);
}

/// The style of a field says whether it is dark or light, whether it is selected, and
/// whether one of the moves leads there from the selected square. A field without a square
/// counts as selected while nothing is selected.
pub proof fn law_fields_show_the_selection(
    row: int,
    col: int,
    selected: Option<u8>,
    moves: Seq<Move>,
)
    ensures
        ({
            let style = field_style(row, col, selected, moves);
            let square = number(row, col);
            let marked = if playable(row, col) {
                selected is Some && selected->0 == square
            } else {
                selected is None
            };
            let target = playable(row, col) && selected is Some && !none_leads(
                moves,
                selected->0,
                square,
            );
            let dark = (row + col) % 2 == 1;
            &&& dark && !marked && !target ==> style == "square dark-square"@
            &&& dark && marked && !target ==> style == "square dark-square selected-square"@
            &&& dark && !marked && target ==> style == "square dark-square target-square"@
            &&& dark && marked && target ==> style
                == "square dark-square selected-square target-square"@
            &&& !dark && !marked ==> style == "square light-square"@
            &&& !dark && marked ==> style == "square light-square selected-square"@
        }),
{
    reveal_strlit("");
    reveal_strlit(" selected-square");
    reveal_strlit(" target-square");
    reveal_strlit("square dark-square");
    reveal_strlit("square light-square");
    reveal_strlit("square dark-square selected-square");
    reveal_strlit("square dark-square target-square");
    reveal_strlit("square dark-square selected-square target-square");
    reveal_strlit("square light-square selected-square");
    let square = number(row, col);
    if playable(row, col) {
        assert(square_at(row, col) == Some(square));
        if selected is Some {
            law_first_moves_are_found(moves, selected->0, square as u8);
        }
    } else {
        assert(square_at(row, col) is None);
    }
    let style = field_style(row, col, selected, moves);
    let dark = "square dark-square"@;
    let light = "square light-square"@;
    let mark = " selected-square"@;
    let target = " target-square"@;
    assert(dark + ""@ + ""@ =~= dark);
    assert(dark + mark + ""@ =~= "square dark-square selected-square"@);
    assert(dark + ""@ + target =~= "square dark-square target-square"@);
    assert(dark + mark + target =~= "square dark-square selected-square target-square"@);
    assert(light + ""@ + ""@ =~= light);
    assert(light + mark + ""@ =~= "square light-square selected-square"@);
}

/// The style of a piece says its colour, and whether it is a king.
pub proof fn law_pieces_show_their_kind()
    ensures
        piece_style(Piece::BlackMan) == "piece black-piece"@,
        piece_style(Piece::RedMan) == "piece red-piece"@,
        piece_style(Piece::BlackKing) == piece_style(Piece::BlackMan) + " king-piece"@,
        piece_style(Piece::RedKing) == piece_style(Piece::RedMan) + " king-piece"@,
        Piece::BlackMan.owner() is Black,
        Piece::BlackKing.owner() is Black,
        Piece::RedMan.owner() is Red,
        Piece::RedKing.owner() is Red,
{
    reveal_strlit("piece black-piece");
    reveal_strlit("piece red-piece");
    reveal_strlit("piece black-piece king-piece");
    reveal_strlit("piece red-piece king-piece");
    reveal_strlit(" king-piece");
    assert(piece_style(Piece::BlackKing) =~= piece_style(Piece::BlackMan) + " king-piece"@);
    assert(piece_style(Piece::RedKing) =~= piece_style(Piece::RedMan) + " king-piece"@);
}

/// Whether a move starts on a square, ends on it or names it in one of its seven slots.
pub open spec fn names(mv: Move, square: int) -> bool {
    mv.from == square || mv.to == square || exists|i: int|
        0 <= i < 7 && #[trigger] mv.captures@[i] is Some && mv.captures@[i]->0 == square
}

/// The visits of a move count for the squares that it starts on, ends on or takes from, and
/// for no others.
pub proof fn law_visits_heat_their_squares(
    visits: Seq<(Move, u32)>,
    mv: Move,
    count: u32,
    square: int,
)
    ensures
        density(Seq::empty(), square) == 0,
        density(visits.push((mv, count)), square) == density(visits, square) + if names(
            mv,
            square,
        ) {
            count as int
        } else {
            0
        },
{
    assert(visits.push((mv, count)).drop_last() =~= visits);
    assert(touches(mv, square) <==> names(mv, square));
}

/// Whether a number is the highest of the thirty-two densities.
pub open spec fn is_highest(visits: Seq<(Move, u32)>, highest: int) -> bool {
    &&& forall|square: int| 0 <= square < 32 ==> #[trigger] density(visits, square) <= highest
    &&& exists|square: int| 0 <= square < 32 && #[trigger] density(visits, square) == highest
}

/// How hot a square looks, by thirds of the highest density of the board: a square that no
/// visited move touches is plain, and the style of the others changes when their density
/// exceeds one third and two thirds of the highest.
pub proof fn law_heat_by_thirds(visits: Seq<(Move, u32)>, square: int)
    ensures
        is_highest(visits, peak(visits, 32)),
        ({
            let own = density(visits, square);
            let highest = peak(visits, 32);
            let style = heat_style(heat(own, highest));
            &&& own >= 0
            &&& own == 0 ==> style == "heat-cell"@
            &&& 0 < own && own * 3 <= highest ==> style == "heat-cell heat-low"@
            &&& highest < own * 3 && own * 3 <= highest * 2 ==> style == "heat-cell heat-mid"@
            &&& highest * 2 < own * 3 && own > 0 ==> style == "heat-cell heat-strong"@
        }),
{
    lemma_density_is_a_count(visits, square);
    lemma_peak(visits, 32);
}

proof fn lemma_peak(visits: Seq<(Move, u32)>, n: nat)
    ensures
        forall|square: int|
            0 <= square < n ==> #[trigger] density(visits, square) <= peak(visits, n),
        n > 0 ==> exists|square: int|
            0 <= square < n && #[trigger] density(visits, square) == peak(visits, n),
    decreases n,
{
    if n > 0 {
        lemma_peak(visits, (n - 1) as nat);
        lemma_density_is_a_count(visits, n - 1);
        let last = density(visits, n - 1);
        if n > 1 && last <= peak(visits, (n - 1) as nat) {
            let square = choose|square: int|
                0 <= square < n - 1 && #[trigger] density(visits, square) == peak(
                    visits,
                    (n - 1) as nat,
                );
            assert(density(visits, square) == peak(visits, n));
        } else {
            assert(peak(visits, 0) == 0);
            assert(density(visits, n - 1) == peak(visits, n));
        }
    }
}

/// An arena is read as it is.
pub proof fn law_arenas_are_read_as_they_are(arena: Arena, i: int)
    requires
        0 <= i < arena.history@.len(),
    ensures
        arena@.game == arena.game@,
        arena@.selected == arena.selected,
        arena@.history.len() == arena.history@.len(),
        arena@.history[i] == arena.history@[i]@,
        arena@.status == arena.status@,
{
}

/// An answer shows the machine's move with the value that it was given, in the text that
/// `show` has for that value: the move is played, and the line written down ends with it.
pub proof fn law_answers_show_their_value<F: Fn(Single) -> String>(
    before: Scene,
    after: Scene,
    game: Game,
    mv: Move,
    value: Single,
    show: F,
)
    requires
        shows_reply(before, after, game, mv, value, show),
    ensures
        after.game == game.play(mv),
        after.selected == before.selected,
        after.history.len() == before.history.len() + 1,
        forall|k: int|
            0 <= k < before.history.len() ==> #[trigger] after.history[k] == before.history[k],
        exists|text: String|
            {
                &&& #[trigger] call_ensures(show, (value,), text)
                &&& after.history.last() == "Red "@ + mv.name() + " ("@ + text@ + ")"@
            },
        game.play(mv).outcome() is None ==> after.status == "Black to move. Select a piece."@,
        game.play(mv).outcome() matches Some(result) ==> after.status == announcement(result),
{
    let text = choose|text: String| #[trigger]
        is_shown(before, after, game, mv, value, text, show);
    law_replies_in_full(before, game, mv, text@);
    assert(call_ensures(show, (value,), text));
}

} // verus!
