use vstd::prelude::*;
use crate::moves::Move;
use crate::rules::{applied, checkmate, legal, legal_moves, stalemate};
use crate::state::{describes, fen_ok, is_start, squares_valid, GameState};

verus! {

broadcast use vstd::seq_lib::lemma_seq_contains_after_push;

/// The move asked for is not among the legal moves of the position.
#[derive(Debug, PartialEq, Eq, Structural)]
pub struct IllegalMove;

/// The live position of a game.
pub struct Game {
    pub state: GameState,
}

pub fn same_move(a: &Move, b: &Move) -> (res: bool)
    ensures
        res == (*a == *b),
{
    a.from.0 == b.from.0 && a.from.1 == b.from.1 && a.to.0 == b.to.0 && a.to.1 == b.to.1 && a.kind == b.kind
}

/// Whether `mv` occurs in `moves`.
pub fn contains_move(moves: &Vec<Move>, mv: &Move) -> (res: bool)
    ensures
        res == moves@.contains(*mv),
{
    let mut i: usize = 0;
    while i < moves.len()
        invariant
            i <= moves.len(),
            forall|k: int| 0 <= k < i ==> moves@[k] != *mv,
        decreases moves.len() - i,
    {
        if same_move(&moves[i], mv) {
            return true;
        }
        i += 1;
    }
    false
}

impl Game {
    pub open spec fn wf(&self) -> bool {
        squares_valid(self.state)
    }

    pub fn new() -> (r: Self)
        ensures
            is_start(r.state),
            r.wf(),
    {
        Self { state: GameState::new() }
    }

    /// A game from the position that FEN text describes; `None` when the
    /// text is not well formed.
    pub fn from_fen(fen: &str) -> (r: Option<Self>)
        ensures
            r.is_some() == fen_ok(fen@),
            match r {
                Some(g) => describes(fen@, g.state) && g.wf(),
                None => true,
            },
    {
        match GameState::from_fen(fen) {
            Some(state) => Some(Self { state }),
            None => None,
        }
    }

    pub fn legal_moves(&self) -> (res: Vec<Move>)
        requires
            self.wf(),
        ensures
            forall|m: Move| #[trigger] res@.contains(m) <==> legal(self.state, m),
            res@.no_duplicates(),
    {
        legal_moves(&self.state)
    }

    /// Plays `mv` if it is legal; otherwise leaves the position as it was.
    pub fn make_move(&mut self, mv: Move) -> (res: Result<(), IllegalMove>)
        requires
            old(self).wf(),
        ensures
            final(self).wf(),
            res.is_ok() == legal(old(self).state, mv),
            res.is_ok() ==> applied(old(self).state, mv, final(self).state),
            res.is_err() ==> final(self).state == old(self).state,
    {
        let moves = legal_moves(&self.state);
        if contains_move(&moves, &mv) {
            crate::rules::apply_move_unchecked(&mut self.state, mv);
            Ok(())
        } else {
            Err(IllegalMove)
        }
    }

    pub fn is_checkmate(&self) -> (res: bool)
        requires
            self.wf(),
        ensures
            res == checkmate(self.state),
    {
        crate::rules::is_checkmate(&self.state)
    }

    pub fn is_stalemate(&self) -> (res: bool)
        requires
            self.wf(),
        ensures
            res == stalemate(self.state),
    {
        crate::rules::is_stalemate(&self.state)
    }
}

} // verus!
