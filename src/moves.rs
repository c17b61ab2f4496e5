use vstd::prelude::*;
use crate::board::{PieceKind, Square};

verus! {

#[derive(Copy, Clone, Eq, PartialEq, Debug, Structural)]
pub enum MoveKind {
    /// A quiet move or an ordinary capture.
    Normal,
    EnPassant,
    CastleKingside,
    CastleQueenside,
    Promotion(PieceKind),
}

#[derive(Copy, Clone, Eq, PartialEq, Debug)]
pub struct Move {
    pub from: Square,
    pub to: Square,
    pub kind: MoveKind,
}

} // verus!
