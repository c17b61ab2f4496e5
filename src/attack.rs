use vstd::prelude::*;
use crate::board::{cell, on_board, Board, Color, Piece, PieceKind};
use crate::dirs::{bishop_dir, bishop_step, king_dir, king_step, knight_dir, knight_step, rook_dir, rook_step};

verus! {

/// (f, r) is on the board and holds exactly `p`.
pub open spec fn holds(b: Board, f: int, r: int, p: Piece) -> bool {
    on_board(f, r) && cell(b, f, r) == Some(p)
}

/// A unit step in one of the eight directions.
pub open spec fn unit_dir(df: int, dr: int) -> bool {
    -1 <= df <= 1 && -1 <= dr <= 1 && !(df == 0 && dr == 0)
}

/// The first piece met walking from (f, r) in steps of (df, dr), not counting
/// (f, r) itself; `fuel` bounds the walk and 8 always suffices on the board.
pub open spec fn ray_first(b: Board, f: int, r: int, df: int, dr: int, fuel: nat) -> Option<Piece>
    decreases fuel,
{
    if fuel == 0 || !on_board(f + df, r + dr) {
        None
    } else if cell(b, f + df, r + dr).is_some() {
        cell(b, f + df, r + dr)
    } else {
        ray_first(b, f + df, r + dr, df, dr, (fuel - 1) as nat)
    }
}

pub open spec fn slider_hit(hit: Option<Piece>, by: Color, kind: PieceKind) -> bool {
    match hit {
        Some(p) => p.color == by && (p.kind == kind || p.kind == PieceKind::Queen),
        None => false,
    }
}

pub open spec fn pawn_dir(c: Color) -> int {
    if c == Color::White { 1 } else { -1 }
}

pub open spec fn pawn_attack(b: Board, f: int, r: int, by: Color) -> bool {
    let p = Piece { color: by, kind: PieceKind::Pawn };
    holds(b, f - 1, r - pawn_dir(by), p) || holds(b, f + 1, r - pawn_dir(by), p)
}

pub open spec fn knight_attack(b: Board, f: int, r: int, by: Color) -> bool {
    exists|i: int|
        0 <= i < 8 && holds(b, f + (#[trigger] knight_dir(i)).0, r + knight_dir(i).1,
            Piece { color: by, kind: PieceKind::Knight })
}

pub open spec fn king_attack(b: Board, f: int, r: int, by: Color) -> bool {
    exists|i: int|
        0 <= i < 8 && holds(b, f + (#[trigger] king_dir(i)).0, r + king_dir(i).1,
            Piece { color: by, kind: PieceKind::King })
}

pub open spec fn diagonal_attack(b: Board, f: int, r: int, by: Color) -> bool {
    exists|i: int|
        0 <= i < 4 && slider_hit(
            ray_first(b, f, r, (#[trigger] bishop_dir(i)).0, bishop_dir(i).1, 8), by, PieceKind::Bishop)
}

pub open spec fn orthogonal_attack(b: Board, f: int, r: int, by: Color) -> bool {
    exists|i: int|
        0 <= i < 4 && slider_hit(
            ray_first(b, f, r, (#[trigger] rook_dir(i)).0, rook_dir(i).1, 8), by, PieceKind::Rook)
}

/// Some piece of `by` attacks (f, r).
pub open spec fn attacked(b: Board, f: int, r: int, by: Color) -> bool {
    ||| pawn_attack(b, f, r, by)
    ||| knight_attack(b, f, r, by)
    ||| king_attack(b, f, r, by)
    ||| diagonal_attack(b, f, r, by)
    ||| orthogonal_attack(b, f, r, by)
}

pub fn holds_at(board: &Board, f: i8, r: i8, p: Piece) -> (res: bool)
    ensures
        res == holds(*board, f as int, r as int, p),
{
    if f >= 0 && f < 8 && r >= 0 && r < 8 {
        match board[r as usize][f as usize] {
            Some(q) => q == p,
            None => false,
        }
    } else {
        false
    }
}

/// Walks from (file, rank) along (df, dr) and returns the first piece met.
pub fn ray_piece(board: &Board, file: i8, rank: i8, df: i8, dr: i8) -> (res: Option<Piece>)
    requires
        on_board(file as int, rank as int),
        unit_dir(df as int, dr as int),
    ensures
        res == ray_first(*board, file as int, rank as int, df as int, dr as int, 8),
{
    let mut nf: i8 = file + df;
    let mut nr: i8 = rank + dr;
    let ghost mut k: int = 1;
    while 0 <= nf && nf < 8 && 0 <= nr && nr < 8
        invariant
            unit_dir(df as int, dr as int),
            on_board(file as int, rank as int),
            1 <= k <= 8,
            on_board(nf - df, nr - dr),
            nf == file + k * df,
            nr == rank + k * dr,
            ray_first(*board, file as int, rank as int, df as int, dr as int, 8)
                == ray_first(*board, nf - df, nr - dr, df as int, dr as int, (9 - k) as nat),
        decreases 9 - k,
    {
        assert(k <= 7) by (nonlinear_arith)
            requires
                nf == file + k * df, nr == rank + k * dr, 0 <= nf < 8, 0 <= nr < 8,
                0 <= file < 8, 0 <= rank < 8, unit_dir(df as int, dr as int), 1 <= k;
        if let Some(p) = board[nr as usize][nf as usize] {
            return Some(p);
        }
        nf = nf + df;
        nr = nr + dr;
        proof {
            assert(nf == file + (k + 1) * df) by (nonlinear_arith)
                requires nf == file + k * df + df;
            assert(nr == rank + (k + 1) * dr) by (nonlinear_arith)
                requires nr == rank + k * dr + dr;
            k = k + 1;
        }
    }
    None
}

pub(crate) fn diagonal_attacked(board: &Board, file: i8, rank: i8, by: Color) -> (res: bool)
    requires
        on_board(file as int, rank as int),
    ensures
        res == diagonal_attack(*board, file as int, rank as int, by),
{
    let mut i: usize = 0;
    while i < 4
        invariant
            i <= 4,
            on_board(file as int, rank as int),
            forall|j: int| 0 <= j < i ==> !slider_hit(
                ray_first(*board, file as int, rank as int, (#[trigger] bishop_dir(j)).0, bishop_dir(j).1, 8),
                by, PieceKind::Bishop),
        decreases 4 - i,
    {
        let (df, dr) = bishop_step(i);
        let hit = ray_piece(board, file, rank, df, dr);
        if let Some(p) = hit {
            if p.color == by && (p.kind == PieceKind::Bishop || p.kind == PieceKind::Queen) {
                assert(slider_hit(hit, by, PieceKind::Bishop));
                return true;
            }
        }
        i += 1;
    }
    false
}

pub(crate) fn orthogonal_attacked(board: &Board, file: i8, rank: i8, by: Color) -> (res: bool)
    requires
        on_board(file as int, rank as int),
    ensures
        res == orthogonal_attack(*board, file as int, rank as int, by),
{
    let mut i: usize = 0;
    while i < 4
        invariant
            i <= 4,
            on_board(file as int, rank as int),
            forall|j: int| 0 <= j < i ==> !slider_hit(
                ray_first(*board, file as int, rank as int, (#[trigger] rook_dir(j)).0, rook_dir(j).1, 8),
                by, PieceKind::Rook),
        decreases 4 - i,
    {
        let (df, dr) = rook_step(i);
        let hit = ray_piece(board, file, rank, df, dr);
        if let Some(p) = hit {
            if p.color == by && (p.kind == PieceKind::Rook || p.kind == PieceKind::Queen) {
                assert(slider_hit(hit, by, PieceKind::Rook));
                return true;
            }
        }
        i += 1;
    }
    false
}

pub(crate) fn knight_attacked(board: &Board, file: i8, rank: i8, by: Color) -> (res: bool)
    requires
        on_board(file as int, rank as int),
    ensures
        res == knight_attack(*board, file as int, rank as int, by),
{
    let p = Piece { color: by, kind: PieceKind::Knight };
    let mut i: usize = 0;
    while i < 8
        invariant
            i <= 8,
            on_board(file as int, rank as int),
            p == (Piece { color: by, kind: PieceKind::Knight }),
            forall|j: int| 0 <= j < i ==> !holds(*board, file + (#[trigger] knight_dir(j)).0,
                rank + knight_dir(j).1, p),
        decreases 8 - i,
    {
        let (df, dr) = knight_step(i);
        if holds_at(board, file + df, rank + dr, p) {
            return true;
        }
        i += 1;
    }
    false
}

pub(crate) fn king_attacked(board: &Board, file: i8, rank: i8, by: Color) -> (res: bool)
    requires
        on_board(file as int, rank as int),
    ensures
        res == king_attack(*board, file as int, rank as int, by),
{
    let p = Piece { color: by, kind: PieceKind::King };
    let mut i: usize = 0;
    while i < 8
        invariant
            i <= 8,
            on_board(file as int, rank as int),
            p == (Piece { color: by, kind: PieceKind::King }),
            forall|j: int| 0 <= j < i ==> !holds(*board, file + (#[trigger] king_dir(j)).0,
                rank + king_dir(j).1, p),
        decreases 8 - i,
    {
        let (df, dr) = king_step(i);
        if holds_at(board, file + df, rank + dr, p) {
            return true;
        }
        i += 1;
    }
    false
}

} // verus!
