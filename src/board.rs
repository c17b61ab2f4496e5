use vstd::prelude::*;

verus! {

/// The two sides.
#[derive(Copy, Clone, Eq, PartialEq, Debug, Structural)]
pub enum Color {
    White,
    Black,
}

impl Color {
    pub open spec fn opp(self) -> Color {
        match self {
            Color::White => Color::Black,
            Color::Black => Color::White,
        }
    }

    pub fn opposite(self) -> (r: Color)
        ensures
            r == self.opp(),
            r != self,
    {
        match self {
            Color::White => Color::Black,
            Color::Black => Color::White,
        }
    }
}

#[derive(Copy, Clone, Eq, PartialEq, Debug, Structural)]
pub enum PieceKind {
    Pawn,
    Knight,
    Bishop,
    Rook,
    Queen,
    King,
}

#[derive(Copy, Clone, Eq, PartialEq, Debug, Structural)]
pub struct Piece {
    pub color: Color,
    pub kind: PieceKind,
}

/// A square as (file, rank), both in 0..8 on the board.
pub type Square = (u8, u8);

/// Indexed as `board[rank][file]`.
pub type Board = [[Option<Piece>; 8]; 8];

pub open spec fn on_board(f: int, r: int) -> bool {
    0 <= f < 8 && 0 <= r < 8
}

pub open spec fn valid_sq(sq: Square) -> bool {
    sq.0 < 8 && sq.1 < 8
}

/// What stands on (f, r); meaningful for squares on the board.
pub open spec fn cell(b: Board, f: int, r: int) -> Option<Piece> {
    b[r][f]
}

pub open spec fn at(b: Board, sq: Square) -> Option<Piece> {
    cell(b, sq.0 as int, sq.1 as int)
}

pub fn in_bounds(file: i8, rank: i8) -> (r: bool)
    ensures
        r == on_board(file as int, rank as int),
{
    file >= 0 && file < 8 && rank >= 0 && rank < 8
}

pub fn piece_at(board: &Board, sq: Square) -> (r: Option<Piece>)
    requires
        valid_sq(sq),
    ensures
        r == at(*board, sq),
{
    board[sq.1 as usize][sq.0 as usize]
}

pub fn set_piece(board: &mut Board, sq: Square, piece: Option<Piece>)
    requires
        valid_sq(sq),
    ensures
        forall|f: int, r: int|
            on_board(f, r) ==> cell(*final(board), f, r) == (if f == sq.0 && r == sq.1 {
                piece
            } else {
                cell(*old(board), f, r)
            }),
{
    let mut row = board[sq.1 as usize];
    row[sq.0 as usize] = piece;
    board[sq.1 as usize] = row;
}

} // verus!
