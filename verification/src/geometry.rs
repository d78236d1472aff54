//! The thirty-two playable squares, their coordinates and their names.
use crate::engine::Side;
use vstd::prelude::*;

verus! {

/// The squares that exist: eight rows of four.
pub open spec fn on_board(square: int) -> bool {
    0 <= square < 32
}

/// Row and column of a playable square. Squares are numbered row by row, four
/// to a row, and only the dark fields of the board are playable.
pub open spec fn coords_of(square: int) -> (int, int) {
    (square / 4, 2 * (square % 4) + 1 - (square / 4) % 2)
}

/// The playable square at a row and a column, if there is one.
pub open spec fn square_at(row: int, col: int) -> Option<int> {
    if 0 <= row < 8 && 0 <= col < 8 && (row + col) % 2 == 1 {
        Some(row * 4 + col / 2)
    } else {
        None
    }
}

/// The square reached from `square` by going `dr` rows down and `dc` columns right.
pub open spec fn offset_of(square: int, dr: int, dc: int) -> Option<int> {
    square_at(coords_of(square).0 + dr, coords_of(square).1 + dc)
}

/// The directions a piece may move in, in the order in which they are tried:
/// black men go up the board, red men down, kings both ways.
pub open spec fn directions(side: Side, king: bool) -> Seq<(i8, i8)> {
    if king {
        seq![(-1i8, -1i8), (-1i8, 1i8), (1i8, -1i8), (1i8, 1i8)]
    } else {
        match side {
            Side::Black => seq![(-1i8, -1i8), (-1i8, 1i8)],
            Side::Red => seq![(1i8, -1i8), (1i8, 1i8)],
        }
    }
}

/// The row on which the men of a side become kings.
pub open spec fn crown_row(side: Side) -> int {
    match side {
        Side::Black => 0,
        Side::Red => 7,
    }
}

/// Whether a man of `side` that arrives on `square` becomes a king.
pub open spec fn crowns(side: Side, square: int) -> bool {
    coords_of(square).0 == crown_row(side)
}

/// File letter and rank digit of a square, the way players write it.
pub open spec fn square_name(square: int) -> Seq<char> {
    seq![('a' as int + coords_of(square).1) as char, ('0' as int + 8 - coords_of(square).0) as char]
}

/// The square at a row and a column, if that field is on the board and playable.
pub fn square_index(row: usize, col: usize) -> (square: Option<u8>)
    ensures
        square is Some <==> square_at(row as int, col as int) is Some,
        square matches Some(s) ==> square_at(row as int, col as int) == Some(s as int),
{
    if row >= 8 || col >= 8 || (row + col) % 2 == 0 {
        return None;
    }
    Some((row * 4 + col / 2) as u8)
}

/// Row and column of a square.
pub fn square_coords(square: u8) -> (coords: (usize, usize))
    ensures
        (coords.0 as int, coords.1 as int) == coords_of(square as int),
{
    let row: usize = square as usize / 4;
    let dark: usize = square as usize % 4;
    let col: usize = if row % 2 == 0 {
        dark * 2 + 1
    } else {
        dark * 2
    };
    (row, col)
}

/// [`String::push`]: the character is appended, and nothing else changes.
pub assume_specification[ String::push ](string: &mut String, ch: char)
    ensures
        final(string)@ == old(string)@.push(ch),
;

/// File and rank of a square as text, such as `a3`. The rank counts from the
/// bottom of the board, so there is none for a square below row eight.
pub fn notation(square: u8) -> (name: String)
    requires
        coords_of(square as int).0 <= 8,
    ensures
        name@ == square_name(square as int),
{
    let (row, col) = square_coords(square);
    let file: char = (97u8 + col as u8) as char;
    let rank: char = (48u8 + (8 - row) as u8) as char;
    let mut name = String::new();
    name.push(file);
    name.push(rank);
    assert(name@ =~= square_name(square as int));
    name
}

/// The directions open to a piece; see [`directions`].
pub(crate) fn move_dirs(side: Side, king: bool) -> (dirs: &'static [(i8, i8)])
    ensures
        dirs@ == directions(side, king),
{
    match (side, king) {
        (Side::Black, false) => &[(-1, -1), (-1, 1)],
        (Side::Red, false) => &[(1, -1), (1, 1)],
        (_, true) => &[(-1, -1), (-1, 1), (1, -1), (1, 1)],
    }
}

/// The square a number of rows and columns away, if it is on the board.
pub(crate) fn offset_square(square: u8, dr: i8, dc: i8) -> (target: Option<u8>)
    requires
        coords_of(square as int).0 + dr <= i8::MAX,
        coords_of(square as int).1 + dc <= i8::MAX,
    ensures
        target is Some <==> offset_of(square as int, dr as int, dc as int) is Some,
        target matches Some(t) ==> offset_of(square as int, dr as int, dc as int) == Some(t as int),
{
    let (row, col) = square_coords(square);
    let row: i8 = row as i8 + dr;
    let col: i8 = col as i8 + dc;
    if row < 0 || col < 0 {
        return None;
    }
    square_index(row as usize, col as usize)
}

/// Whether a man of `side` is crowned on `square`.
pub(crate) fn promotes(side: Side, square: u8) -> (crowned: bool)
    ensures
        crowned == crowns(side, square as int),
{
    let (row, _) = square_coords(square);
    match side {
        Side::Black => row == 0,
        Side::Red => row == 7,
    }
}

/// Every field that holds a playable square gives that square's coordinates back.
pub proof fn law_index_then_coords(row: int, col: int)
    requires
        square_at(row, col) is Some,
    ensures
        on_board(square_at(row, col)->0),
        coords_of(square_at(row, col)->0) == (row, col),
{
}

/// Every square of the board is found again at its own coordinates.
pub proof fn law_coords_then_index(square: int)
    requires
        on_board(square),
    ensures
        square_at(coords_of(square).0, coords_of(square).1) == Some(square),
{
}

/// Two different squares of the board never have the same name.
pub proof fn law_names_differ(a: int, b: int)
    requires
        on_board(a),
        on_board(b),
        square_name(a) == square_name(b),
    ensures
        a == b,
{
    let na = square_name(a);
    let nb = square_name(b);
    assert(na[0] == nb[0] && na[1] == nb[1]);
    law_coords_then_index(a);
    law_coords_then_index(b);
}

/// A step is undone by the opposite step.
pub proof fn law_offset_reverses(square: int, dr: int, dc: int)
    requires
        on_board(square),
        offset_of(square, dr, dc) is Some,
    ensures
        on_board(offset_of(square, dr, dc)->0),
        offset_of(offset_of(square, dr, dc)->0, -dr, -dc) == Some(square),
{
    law_index_then_coords(coords_of(square).0 + dr, coords_of(square).1 + dc);
    law_coords_then_index(square);
}

/// The playable fields are the dark ones of an eight by eight board, and their squares are
/// numbered row by row, from zero on: of two of them, the one that comes first has the
/// smaller number.
pub proof fn law_squares_are_numbered_in_rows(row: int, col: int, other_row: int, other_col: int)
    ensures
        square_at(row, col) is Some <==> 0 <= row < 8 && 0 <= col < 8 && (row + col) % 2 == 1,
        square_at(row, col) is Some && square_at(other_row, other_col) is Some ==> {
            &&& 0 <= square_at(row, col)->0 < 32
            &&& square_at(row, col)->0 < square_at(other_row, other_col)->0 <==> (row < other_row
                || row == other_row && col < other_col)
        },
{
}

/// Row and column of a square, in numbers: four squares to a row, and the rows begin with a
/// light field and a dark one by turns.
pub proof fn law_coordinates_in_numbers(square: int)
    requires
        square >= 0,
    ensures
        coords_of(square).0 * 4 <= square < coords_of(square).0 * 4 + 4,
        (coords_of(square).0 + coords_of(square).1) % 2 == 1,
        coords_of(square).1 / 2 == square - coords_of(square).0 * 4,
        on_board(square) <==> square < 32,
        square < 32 ==> square_at(coords_of(square).0, coords_of(square).1) == Some(square),
{
}

/// What lies a number of rows and columns away.
pub proof fn law_offsets_in_numbers(square: int, dr: int, dc: int)
    requires
        on_board(square),
    ensures
        ({
            let (row, col) = coords_of(square);
            let inside = 0 <= row + dr < 8 && 0 <= col + dc < 8 && (dr + dc) % 2 == 0;
            &&& offset_of(square, dr, dc) is Some <==> inside
            &&& inside ==> coords_of(offset_of(square, dr, dc)->0) == (row + dr, col + dc)
        }),
{
    let (row, col) = coords_of(square);
    if offset_of(square, dr, dc) is Some {
        law_index_then_coords(row + dr, col + dc);
    }
}

/// The directions of a piece are the diagonal ones that lead ahead, up the board for black
/// and down for red, and for a king all four. They are in the order of the fields they lead
/// to.
pub proof fn law_directions_are_diagonal(side: Side, king: bool, dr: i8, dc: i8)
    ensures
        directions(side, king).contains((dr, dc)) <==> {
            &&& dr == 1 || dr == -1
            &&& dc == 1 || dc == -1
            &&& king || (side is Black && dr == -1) || (side is Red && dr == 1)
        },
        forall|i: int, j: int|
            0 <= i < j < directions(side, king).len() ==> {
                let (a, b) = (#[trigger] directions(side, king)[i], #[trigger] directions(
                    side,
                    king,
                )[j]);
                a.0 < b.0 || a.0 == b.0 && a.1 < b.1
            },
{
    let dirs = directions(side, king);
    assert(dirs.contains((dr, dc)) ==> (dr == 1 || dr == -1) && (dc == 1 || dc == -1));
    if king {
        assert(dirs[0] == (-1i8, -1i8) && dirs[1] == (-1i8, 1i8));
        assert(dirs[2] == (1i8, -1i8) && dirs[3] == (1i8, 1i8));
    } else if side is Black {
        assert(dirs[0] == (-1i8, -1i8) && dirs[1] == (-1i8, 1i8));
    } else {
        assert(dirs[0] == (1i8, -1i8) && dirs[1] == (1i8, 1i8));
    }
}

/// Men are crowned on the row from which they could go no further: the first for black,
/// the last for red.
pub proof fn law_men_are_crowned_at_the_far_end(side: Side, square: int)
    requires
        on_board(square),
    ensures
        crowns(side, square) <==> (side is Black && square < 4) || (side is Red && square >= 28),
        crowns(side, square) <==> forall|i: int|
            0 <= i < directions(side, false).len() ==> offset_of(
                square,
                (#[trigger] directions(side, false)[i]).0 as int,
                directions(side, false)[i].1 as int,
            ) is None,
{
    let dirs = directions(side, false);
    let (row, col) = coords_of(square);
    if !crowns(side, square) {
        if col < 7 {
            assert(offset_of(square, dirs[1].0 as int, dirs[1].1 as int) is Some);
        } else {
            assert(offset_of(square, dirs[0].0 as int, dirs[0].1 as int) is Some);
        }
    }
}

/// A square is written as the letter of its column, from `a` on the left, and the number of
/// its row, from `1` at the bottom; below the board comes a row `0`.
pub proof fn law_names_are_letter_and_digit(square: int)
    requires
        0 <= square < 36,
    ensures
        square_name(square).len() == 2,
        square_name(square)[0] as int == 97 + coords_of(square).1,
        square_name(square)[1] as int == 49 + (7 - coords_of(square).0),
{
}

} // verus!
