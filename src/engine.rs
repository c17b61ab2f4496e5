use vstd::prelude::*;
use rayon::iter::{IndexedParallelIterator, IntoParallelRefIterator, ParallelIterator};
use crate::board::{at, cell, piece_at, valid_sq, Board, Color, PieceKind};
use crate::game::{Game, IllegalMove};
use crate::movegen::{generate_candidates, pseudo_legal};
use crate::moves::{Move, MoveKind};
use crate::rules::{applied, apply_move_unchecked, can_apply, has_legal_move, in_check, is_in_check, is_move_legal, king_safe_after, lemma_pseudo_legal_applies, legal};
use crate::state::{describes, describes_at, fen_ok, fen_ok_at, squares_valid, GameState};

verus! {

broadcast use vstd::seq_lib::lemma_seq_contains_after_push;

/// The score of a side that is checkmated.
pub const MATE_SCORE: i32 = 1_000_000;

/// The bound of the search window, beyond any score.
pub const INF: i32 = 1_000_000_000;

/// The number of plies searched from the root.
pub const SEARCH_DEPTH: u8 = 5;

pub open spec fn piece_value(k: PieceKind) -> int {
    match k {
        PieceKind::Pawn => 1,
        PieceKind::Knight => 3,
        PieceKind::Bishop => 3,
        PieceKind::Rook => 5,
        PieceKind::Queen => 9,
        PieceKind::King => 0,
    }
}

/// Material of `us` minus that of the other side, over the squares from
/// index `i` on (rank-major).
pub open spec fn material_from(b: Board, us: Color, i: int) -> int
    decreases 64 - i,
{
    if i < 0 || i >= 64 {
        0
    } else {
        let here = match cell(b, i % 8, i / 8) {
            Some(p) => if p.color == us { piece_value(p.kind) } else { -piece_value(p.kind) },
            None => 0,
        };
        here + material_from(b, us, i + 1)
    }
}

/// Static material from the point of view of the side to move.
pub open spec fn material(s: GameState) -> int {
    material_from(s.board, s.side_to_move, 0)
}

proof fn lemma_material_bound(b: Board, us: Color, i: int)
    requires
        0 <= i <= 64,
    ensures
        -9 * (64 - i) <= material_from(b, us, i) <= 9 * (64 - i),
    decreases 64 - i,
{
    if i < 64 {
        lemma_material_bound(b, us, i + 1);
    }
}

/// The score of a position with no legal move: mated or stalemated.
pub open spec fn terminal(s: GameState) -> int {
    if in_check(s.board, s.side_to_move) { -MATE_SCORE as int } else { 0 }
}

/// The position that playing `m` in `s` produces.
pub open spec fn child(s: GameState, m: Move) -> GameState {
    choose|t: GameState| applied(s, m, t)
}

/// The number of moves the enumeration below covers: every pair of squares
/// with each of the ten move kinds.
pub open spec fn move_count() -> int {
    40960
}

pub open spec fn kind_at(k: int) -> MoveKind {
    if k == 0 { MoveKind::Normal }
    else if k == 1 { MoveKind::EnPassant }
    else if k == 2 { MoveKind::CastleKingside }
    else if k == 3 { MoveKind::CastleQueenside }
    else if k == 4 { MoveKind::Promotion(PieceKind::Pawn) }
    else if k == 5 { MoveKind::Promotion(PieceKind::Knight) }
    else if k == 6 { MoveKind::Promotion(PieceKind::Bishop) }
    else if k == 7 { MoveKind::Promotion(PieceKind::Rook) }
    else if k == 8 { MoveKind::Promotion(PieceKind::Queen) }
    else { MoveKind::Promotion(PieceKind::King) }
}

pub open spec fn kind_index(k: MoveKind) -> int {
    match k {
        MoveKind::Normal => 0,
        MoveKind::EnPassant => 1,
        MoveKind::CastleKingside => 2,
        MoveKind::CastleQueenside => 3,
        MoveKind::Promotion(p) => match p {
            PieceKind::Pawn => 4,
            PieceKind::Knight => 5,
            PieceKind::Bishop => 6,
            PieceKind::Rook => 7,
            PieceKind::Queen => 8,
            PieceKind::King => 9,
        },
    }
}

/// The `i`-th move of the enumeration.
pub open spec fn move_at(i: int) -> Move {
    Move {
        from: ((i % 8) as u8, ((i / 8) % 8) as u8),
        to: (((i / 64) % 8) as u8, ((i / 512) % 8) as u8),
        kind: kind_at(i / 4096),
    }
}

pub open spec fn move_index(m: Move) -> int {
    m.from.0 + 8 * m.from.1 + 64 * m.to.0 + 512 * m.to.1 + 4096 * kind_index(m.kind)
}

proof fn lemma_move_index(m: Move)
    requires
        valid_sq(m.from),
        valid_sq(m.to),
    ensures
        0 <= move_index(m) < move_count(),
        move_at(move_index(m)) == m,
{
    let i = move_index(m);
    let a = m.from.0 as int;
    let b = m.from.1 as int;
    let c = m.to.0 as int;
    let e = m.to.1 as int;
    let k = kind_index(m.kind);
    assert(0 <= k < 10);
    assert(i % 8 == a && (i / 8) % 8 == b && (i / 64) % 8 == c && (i / 512) % 8 == e && i / 4096 == k) by (nonlinear_arith)
        requires
            i == a + 8 * b + 64 * c + 512 * e + 4096 * k,
            0 <= a < 8, 0 <= b < 8, 0 <= c < 8, 0 <= e < 8, 0 <= k < 10;
}

/// The best negated value `d - 1` plies deep over the legal moves of `s`
/// among moves `i` onward of the enumeration; `None` when none is legal.
pub open spec fn best_from(s: GameState, d: nat, i: int) -> Option<int>
    decreases d, move_count() - i,
{
    if d == 0 || i < 0 || i >= move_count() {
        None
    } else {
        let rest = best_from(s, d, i + 1);
        let m = move_at(i);
        if legal(s, m) {
            let v = -negamax(child(s, m), (d - 1) as nat);
            match rest {
                Some(w) => Some(if v >= w { v } else { w }),
                None => Some(v),
            }
        } else {
            rest
        }
    }
}

/// The negamax value of `s` searched `d` plies deep: material at the
/// horizon, the terminal score where no legal move is left, and otherwise
/// the best value over the legal moves of the negated value of the
/// position each one leads to.
pub open spec fn negamax(s: GameState, d: nat) -> int
    decreases d, move_count() + 1,
{
    if d == 0 {
        material(s)
    } else if !has_legal_move(s) {
        terminal(s)
    } else {
        match best_from(s, d, 0) {
            Some(v) => v,
            None => 0,
        }
    }
}

/// The value of playing `m` in `s`, the rest searched `d` plies deep.
pub open spec fn line_value(s: GameState, m: Move, d: nat) -> int {
    -negamax(child(s, m), d)
}

proof fn lemma_child(s: GameState, m: Move, t: GameState)
    requires
        applied(s, m, t),
    ensures
        child(s, m) == t,
{
    crate::rules::lemma_applied_unique(s, m, child(s, m), t);
}

proof fn lemma_best_from(s: GameState, d: nat, i: int)
    requires
        d > 0,
        0 <= i <= move_count(),
    ensures
        best_from(s, d, i).is_some() == exists|j: int| i <= j < move_count() && #[trigger] legal(s, move_at(j)),
        match best_from(s, d, i) {
            Some(v) => (exists|j: int| i <= j < move_count() && #[trigger] legal(s, move_at(j))
                && line_value(s, move_at(j), (d - 1) as nat) == v)
                && forall|j: int| i <= j < move_count() && #[trigger] legal(s, move_at(j))
                ==> line_value(s, move_at(j), (d - 1) as nat) <= v,
            None => true,
        },
    decreases move_count() - i,
{
    if i < move_count() {
        lemma_best_from(s, d, i + 1);
        if legal(s, move_at(i)) {
            assert(legal(s, move_at(i)));
        }
    }
}

/// Where a legal move exists, negamax is the best line value, and some legal
/// move reaches it.
pub proof fn lemma_negamax_best(s: GameState, d: nat)
    requires
        d > 0,
        has_legal_move(s),
    ensures
        exists|m: Move| #[trigger] legal(s, m) && line_value(s, m, (d - 1) as nat) == negamax(s, d),
        forall|m: Move| #[trigger] legal(s, m) ==> line_value(s, m, (d - 1) as nat) <= negamax(s, d),
{
    lemma_best_from(s, d, 0);
    let m0 = choose|m: Move| #[trigger] legal(s, m);
    lemma_move_index(m0);
    assert(legal(s, move_at(move_index(m0))));
    let v = best_from(s, d, 0).unwrap();
    let j = choose|j: int| 0 <= j < move_count() && #[trigger] legal(s, move_at(j)) && line_value(s, move_at(j), (d - 1) as nat) == v;
    assert(legal(s, move_at(j)));
    assert forall|m: Move| #[trigger] legal(s, m) implies line_value(s, m, (d - 1) as nat) <= negamax(s, d) by {
        lemma_move_index(m);
        assert(legal(s, move_at(move_index(m))));
    }
}

pub open spec fn is_capture(s: GameState, m: Move) -> bool {
    match m.kind {
        MoveKind::EnPassant => true,
        MoveKind::CastleKingside | MoveKind::CastleQueenside => false,
        _ => at(s.board, m.to).is_some(),
    }
}

/// Smaller keys are searched first: promotions, then captures.
pub open spec fn order_key(s: GameState, m: Move) -> int {
    3 - (if m.kind is Promotion { 2int } else { 0int }) - (if is_capture(s, m) { 1int } else { 0int })
}

fn eval_material_for_side_to_move(state: &GameState) -> (res: i32)
    ensures
        res == material(*state),
{
    let us = state.side_to_move;
    let mut score: i32 = 0;
    let mut i: usize = 64;
    proof {
        lemma_material_bound(state.board, us, 0);
    }
    while i > 0
        invariant
            i <= 64,
            us == state.side_to_move,
            score == material_from(state.board, us, i as int),
            -9 * (64 - i) <= score <= 9 * (64 - i),
        decreases i,
    {
        i -= 1;
        let value: i32 = match state.board[i / 8][i % 8] {
            Some(piece) => {
                let v: i32 = match piece.kind {
                    PieceKind::Pawn => 1,
                    PieceKind::Knight => 3,
                    PieceKind::Bishop => 3,
                    PieceKind::Rook => 5,
                    PieceKind::Queen => 9,
                    PieceKind::King => 0,
                };
                if piece.color == us { v } else { -v }
            },
            None => 0,
        };
        score = score + value;
    }
    assert(material(*state) == material_from(state.board, us, 0));
    score
}

fn move_order_key(state: &GameState, mv: Move) -> (res: u8)
    requires
        valid_sq(mv.to),
    ensures
        res == order_key(*state, mv),
{
    let is_promo = match mv.kind {
        MoveKind::Promotion(_) => true,
        _ => false,
    };
    let is_capture = match mv.kind {
        MoveKind::EnPassant => true,
        MoveKind::CastleKingside | MoveKind::CastleQueenside => false,
        _ => piece_at(&state.board, mv.to).is_some(),
    };
    let mut key: u8 = 3;
    if is_promo {
        key -= 2;
    }
    if is_capture {
        key -= 1;
    }
    key
}

/// The candidate moves, promotions first and then captures; moves with the
/// same key keep the generator's order.
fn ordered_candidates(state: &GameState) -> (res: Vec<Move>)
    requires
        squares_valid(*state),
    ensures
        forall|m: Move| #[trigger] res@.contains(m) <==> pseudo_legal(*state, m),
        forall|i: int, j: int| 0 <= i < j < res@.len() ==> order_key(*state, res@[i]) <= order_key(*state, res@[j]),
{
    let cands = generate_candidates(state);
    let mut res: Vec<Move> = Vec::new();
    let mut k: u8 = 0;
    while k < 4
        invariant
            k <= 4,
            forall|m: Move| #[trigger] cands@.contains(m) <==> pseudo_legal(*state, m),
            forall|m: Move| #[trigger] res@.contains(m) <==> cands@.contains(m) && order_key(*state, m) < k,
            forall|i: int, j: int| 0 <= i < j < res@.len() ==> order_key(*state, res@[i]) <= order_key(*state, res@[j]),
            forall|i: int| 0 <= i < res@.len() ==> order_key(*state, #[trigger] res@[i]) < k,
        decreases 4 - k,
    {
        let mut j: usize = 0;
        while j < cands.len()
            invariant
                k < 4,
                j <= cands.len(),
                forall|m: Move| #[trigger] cands@.contains(m) <==> pseudo_legal(*state, m),
                forall|m: Move| #[trigger] res@.contains(m) <==> cands@.contains(m) && (order_key(*state, m) < k
                    || (order_key(*state, m) == k && cands@.subrange(0, j as int).contains(m))),
                forall|i: int, l: int| 0 <= i < l < res@.len() ==> order_key(*state, res@[i]) <= order_key(*state, res@[l]),
                forall|i: int| 0 <= i < res@.len() ==> order_key(*state, #[trigger] res@[i]) <= k,
            decreases cands.len() - j,
        {
            let mv = cands[j];
            assert(cands@.contains(mv));
            if move_order_key(state, mv) == k {
                res.push(mv);
            }
            assert(cands@.subrange(0, j + 1) == cands@.subrange(0, j as int).push(mv));
            j += 1;
        }
        assert(cands@.subrange(0, j as int) == cands@);
        k += 1;
    }
    res
}

/// The position after `mv`, when `mv` leaves the mover's king safe.
fn try_apply_legal(state: &GameState, mv: Move) -> (res: Option<GameState>)
    requires
        can_apply(*state, mv),
        squares_valid(*state),
    ensures
        res.is_some() == king_safe_after(*state, mv),
        match res {
            Some(t) => applied(*state, mv, t) && squares_valid(t),
            None => true,
        },
{
    if is_move_legal(state, mv) {
        let mut next = *state;
        apply_move_unchecked(&mut next, mv);
        Some(next)
    } else {
        None
    }
}

fn terminal_score(state: &GameState) -> (res: i32)
    ensures
        res == terminal(*state),
{
    if is_in_check(state, state.side_to_move) {
        -MATE_SCORE
    } else {
        0
    }
}

/// Negamax with fail-soft alpha-beta pruning to `depth` plies: a result at
/// or below `alpha` bounds the value from above, one at or above `beta`
/// bounds it from below, and one strictly inside the window is the value.
fn search_ab(state: &GameState, depth: u8, alpha: i32, beta: i32) -> (res: i32)
    requires
        squares_valid(*state),
        -INF <= alpha < beta <= INF,
    ensures
        -MATE_SCORE <= res <= MATE_SCORE,
        depth == 0 ==> res == material(*state),
        depth > 0 && !has_legal_move(*state) ==> res == terminal(*state),
        res <= alpha ==> negamax(*state, depth as nat) <= res,
        res >= beta ==> negamax(*state, depth as nat) >= res,
        alpha < res < beta ==> negamax(*state, depth as nat) == res,
    decreases depth,
{
    if depth == 0 {
        proof {
            lemma_material_bound(state.board, state.side_to_move, 0);
        }
        return eval_material_for_side_to_move(state);
    }
    let ghost d1: nat = (depth - 1) as nat;
    let moves = ordered_candidates(state);
    let mut lo = alpha;
    let mut best: i32 = -MATE_SCORE;
    let mut found_legal = false;
    let ghost mut cut = false;
    let mut i: usize = 0;
    while i < moves.len()
        invariant_except_break
            !cut,
        invariant
            i <= moves.len(),
            squares_valid(*state),
            depth > 0,
            d1 == depth - 1,
            -INF <= alpha <= lo,
            -INF <= beta <= INF,
            alpha < beta,
            -MATE_SCORE <= best <= MATE_SCORE,
            forall|m: Move| #[trigger] moves@.contains(m) <==> pseudo_legal(*state, m),
            !found_legal ==> lo == alpha,
            found_legal ==> lo == (if best > alpha { best } else { alpha }),
            found_legal ==> has_legal_move(*state),
            !found_legal ==> forall|k: int| 0 <= k < i ==> !king_safe_after(*state, #[trigger] moves@[k]),
            !cut ==> lo < beta,
            !cut && found_legal ==> best < beta,
            !cut && found_legal ==> forall|k: int| 0 <= k < i && legal(*state, #[trigger] moves@[k])
                ==> line_value(*state, moves@[k], d1) <= best,
            !cut && found_legal && best > alpha ==> exists|m: Move| #[trigger] legal(*state, m) && line_value(*state, m, d1) == best,
            cut ==> found_legal && best >= beta && exists|m: Move| #[trigger] legal(*state, m) && line_value(*state, m, d1) >= best,
        ensures
            found_legal ==> has_legal_move(*state),
            -MATE_SCORE <= best <= MATE_SCORE,
            !found_legal ==> forall|k: int| 0 <= k < moves@.len() ==> !king_safe_after(*state, #[trigger] moves@[k]),
            !cut && found_legal ==> best < beta,
            !cut && found_legal ==> forall|k: int| 0 <= k < moves@.len() && legal(*state, #[trigger] moves@[k])
                ==> line_value(*state, moves@[k], d1) <= best,
            !cut && found_legal && best > alpha ==> exists|m: Move| #[trigger] legal(*state, m) && line_value(*state, m, d1) == best,
            cut ==> found_legal && best >= beta && exists|m: Move| #[trigger] legal(*state, m) && line_value(*state, m, d1) >= best,
        decreases moves.len() - i,
    {
        let mv = moves[i];
        assert(moves@.contains(mv));
        proof {
            lemma_pseudo_legal_applies(*state, mv);
        }
        if let Some(next) = try_apply_legal(state, mv) {
            assert(legal(*state, mv));
            proof {
                lemma_child(*state, mv, next);
            }
            let reply = search_ab(&next, depth - 1, -beta, -lo);
            let score = -reply;
            assert(score <= lo ==> line_value(*state, mv, d1) <= score);
            assert(score >= beta ==> line_value(*state, mv, d1) >= score);
            assert(lo < score < beta ==> line_value(*state, mv, d1) == score);
            if !found_legal || score > best {
                best = score;
            }
            found_legal = true;
            if score > lo {
                lo = score;
            }
            if lo >= beta {
                proof {
                    cut = true;
                }
                break;
            }
        }
        i += 1;
    }
    if !found_legal {
        proof {
            assert forall|m: Move| !legal(*state, m) by {
                if legal(*state, m) {
                    assert(moves@.contains(m));
                    let k = choose|k: int| 0 <= k < moves@.len() && moves@[k] == m;
                    assert(!king_safe_after(*state, moves@[k]));
                }
            }
        }
        return terminal_score(state);
    }
    proof {
        lemma_negamax_best(*state, depth as nat);
        if !cut {
            assert forall|m: Move| #[trigger] legal(*state, m) implies line_value(*state, m, d1) <= best by {
                assert(moves@.contains(m));
                let k = choose|k: int| 0 <= k < moves@.len() && moves@[k] == m;
                assert(legal(*state, moves@[k]));
            }
        }
    }
    best
}

/// What scoring `mv` at the root against the best score `bound` found so
/// far yields: nothing when `mv` is not legal, and otherwise the move with a
/// score that is the value of playing it when above `bound`, and at least
/// that value when not.
pub open spec fn root_result(s: GameState, mv: Move, d: nat, bound: int, r: Option<(i32, Move)>) -> bool {
    &&& r.is_some() == king_safe_after(s, mv)
    &&& match r {
        Some((sc, m)) => {
            &&& m == mv
            &&& -MATE_SCORE <= sc <= MATE_SCORE
            &&& sc <= bound ==> line_value(s, mv, d) <= sc
            &&& sc > bound ==> line_value(s, mv, d) == sc
        },
        None => true,
    }
}

/// Scores `mv` at the root with the window that proves it no better than
/// `bound`.
fn score_child(state: &GameState, mv: Move, depth: u8, bound: i32) -> (res: Option<(i32, Move)>)
    requires
        squares_valid(*state),
        pseudo_legal(*state, mv),
        -MATE_SCORE <= bound <= MATE_SCORE,
    ensures
        root_result(*state, mv, depth as nat, bound as int, res),
{
    proof {
        lemma_pseudo_legal_applies(*state, mv);
    }
    match try_apply_legal(state, mv) {
        Some(next) => {
            proof {
                lemma_child(*state, mv, next);
            }
            let sc = -search_ab(&next, depth, -INF, -bound);
            Some((sc, mv))
        },
        None => None,
    }
}

/// Scores `moves[start..]` in parallel, each as `score_child` does.
/// Relies on rayon: `par_iter().map(f).collect_into_vec(v)` leaves in `v`
/// the results of `f` on the items, in their order.
#[verifier::external_body]
fn score_children_par(state: &GameState, moves: &Vec<Move>, start: usize, depth: u8, bound: i32) -> (res: Vec<Option<(i32, Move)>>)
    requires
        squares_valid(*state),
        start <= moves@.len(),
        forall|k: int| start <= k < moves@.len() ==> pseudo_legal(*state, #[trigger] moves@[k]),
        -MATE_SCORE <= bound <= MATE_SCORE,
    ensures
        res@.len() == moves@.len() - start,
        forall|k: int| 0 <= k < res@.len() ==> root_result(*state, moves@[start + k], depth as nat, bound as int, #[trigger] res@[k]),
{
    let mut out = Vec::new();
    moves[start..].par_iter().map(|mv| score_child(state, *mv, depth, bound)).collect_into_vec(&mut out);
    out
}

/// An engine: the live game and the depth it searches to.
pub struct Engine {
    game: Game,
    depth: u8,
}

impl Engine {
    pub closed spec fn wf(&self) -> bool {
        self.game.wf()
    }

    pub closed spec fn position(&self) -> GameState {
        self.game.state
    }

    pub closed spec fn depth_spec(&self) -> u8 {
        self.depth
    }

    pub fn new() -> (r: Self)
        ensures
            r.wf(),
            crate::state::is_start(r.position()),
            r.depth_spec() == SEARCH_DEPTH,
    {
        Self { game: Game::new(), depth: SEARCH_DEPTH }
    }

    /// An engine that searches `depth` plies.
    pub fn with_depth(depth: u8) -> (r: Self)
        ensures
            r.wf(),
            crate::state::is_start(r.position()),
            r.depth_spec() == depth,
    {
        Self { game: Game::new(), depth }
    }

    pub fn search_depth(&self) -> (r: u8)
        ensures
            r == self.depth_spec(),
    {
        self.depth
    }

    pub fn reset(&mut self)
        ensures
            final(self).wf(),
            crate::state::is_start(final(self).position()),
            final(self).depth_spec() == old(self).depth_spec(),
    {
        self.game = Game::new();
    }

    /// Replaces the position with `game`.
    pub fn set_game(&mut self, game: Game)
        requires
            game.wf(),
        ensures
            final(self).wf(),
            final(self).position() == game.state,
            final(self).depth_spec() == old(self).depth_spec(),
    {
        self.game = game;
    }

    /// Loads the position that FEN text describes; leaves the engine as it
    /// was and returns false when the text is not well formed.
    pub fn set_fen(&mut self, fen: &str) -> (res: bool)
        requires
            old(self).wf(),
        ensures
            final(self).wf(),
            final(self).depth_spec() == old(self).depth_spec(),
            res == fen_ok(fen@),
            res ==> describes(fen@, final(self).position()),
            !res ==> final(self).position() == old(self).position(),
    {
        match Game::from_fen(fen) {
            Some(game) => {
                self.game = game;
                true
            },
            None => false,
        }
    }

    /// Loads the position that the FEN fields of `cs` from field `k` on
    /// describe; leaves the engine as it was and returns false when they are
    /// not well formed.
    pub fn set_fen_fields(&mut self, cs: &Vec<char>, k: usize) -> (res: bool)
        requires
            old(self).wf(),
            k <= usize::MAX - 3,
        ensures
            final(self).wf(),
            final(self).depth_spec() == old(self).depth_spec(),
            res == fen_ok_at(cs@, k as nat),
            res ==> describes_at(cs@, k as nat, final(self).position()),
            !res ==> final(self).position() == old(self).position(),
    {
        match GameState::from_fields(cs, k) {
            Some(state) => {
                self.game = Game { state };
                true
            },
            None => false,
        }
    }

    pub fn legal_moves(&self) -> (res: Vec<Move>)
        requires
            self.wf(),
        ensures
            forall|m: Move| #[trigger] res@.contains(m) <==> legal(self.position(), m),
            res@.no_duplicates(),
    {
        self.game.legal_moves()
    }

    /// Plays `mv` if it is legal; otherwise leaves the position as it was.
    pub fn make_move(&mut self, mv: Move) -> (res: Result<(), IllegalMove>)
        requires
            old(self).wf(),
        ensures
            final(self).wf(),
            final(self).depth_spec() == old(self).depth_spec(),
            res.is_ok() == legal(old(self).position(), mv),
            res.is_ok() ==> applied(old(self).position(), mv, final(self).position()),
            res.is_err() ==> final(self).position() == old(self).position(),
    {
        self.game.make_move(mv)
    }

    /// Plays `moves` in turn, stopping at the first illegal one; the moves
    /// before it stay played.
    pub fn apply_moves(&mut self, moves: &[Move]) -> (res: Result<(), IllegalMove>)
        requires
            old(self).wf(),
        ensures
            final(self).wf(),
            final(self).depth_spec() == old(self).depth_spec(),
            res.is_ok() ==> plays(old(self).position(), moves@, final(self).position()),
            res.is_err() ==> exists|k: int| 0 <= k < moves@.len() && plays(old(self).position(), moves@.subrange(0, k),
                final(self).position()) && !legal(final(self).position(), moves@[k]),
    {
        let ghost s0 = self.game.state;
        proof {
            lemma_plays_empty(s0);
            assert(moves@.subrange(0, 0) == Seq::<Move>::empty());
        }
        let mut i: usize = 0;
        while i < moves.len()
            invariant
                i <= moves.len(),
                self.wf(),
                self.depth_spec() == old(self).depth_spec(),
                s0 == old(self).position(),
                plays(s0, moves@.subrange(0, i as int), self.position()),
            decreases moves.len() - i,
        {
            let ghost before = self.game.state;
            let mv = moves[i];
            match self.game.make_move(mv) {
                Ok(()) => {},
                Err(e) => {
                    return Err(e);
                },
            }
            proof {
                lemma_plays_push(s0, moves@.subrange(0, i as int), before, mv, self.game.state);
                assert(moves@.subrange(0, i + 1) == moves@.subrange(0, i as int).push(mv));
            }
            i += 1;
        }
        assert(moves@.subrange(0, i as int) == moves@);
        Ok(())
    }

    /// The depth below the root that the moves are searched to.
    pub closed spec fn reply_depth(&self) -> nat {
        if self.depth > 0 { (self.depth - 1) as nat } else { 0 }
    }

    /// Searches the live position: the first legal move in search order is
    /// scored with a full window, the others in parallel against its score,
    /// and the first of those that scores higher than every move before it
    /// replaces it. Returns the move with its score, which is the negamax
    /// value of the position, or `None` where no legal move exists.
    pub fn go(&self) -> (res: Option<(Move, i32)>)
        requires
            self.wf(),
        ensures
            res.is_some() == has_legal_move(self.position()),
            match res {
                Some((m, sc)) => {
                    &&& legal(self.position(), m)
                    &&& -MATE_SCORE <= sc <= MATE_SCORE
                    &&& line_value(self.position(), m, self.reply_depth()) == sc
                    &&& sc == negamax(self.position(), self.reply_depth() + 1)
                },
                None => true,
            },
    {
        let state = &self.game.state;
        let moves = ordered_candidates(state);
        let depth: u8 = if self.depth > 0 { self.depth - 1 } else { 0 };
        let ghost d1: nat = depth as nat;
        let mut i: usize = 0;
        while i < moves.len()
            invariant
                i <= moves.len(),
                *state == self.position(),
                d1 == depth,
                d1 == self.reply_depth(),
                squares_valid(*state),
                forall|m: Move| #[trigger] moves@.contains(m) <==> pseudo_legal(*state, m),
                forall|k: int| 0 <= k < i ==> !king_safe_after(*state, #[trigger] moves@[k]),
            decreases moves.len() - i,
        {
            let mv = moves[i];
            assert(moves@.contains(mv));
            proof {
                lemma_pseudo_legal_applies(*state, mv);
            }
            if let Some(next) = try_apply_legal(state, mv) {
                proof {
                    lemma_child(*state, mv, next);
                }
                let first_score = -search_ab(&next, depth, -INF, INF);
                assert(legal(*state, mv));
                assert(line_value(*state, mv, d1) == first_score);
                proof {
                    assert forall|k: int| i + 1 <= k < moves@.len() implies pseudo_legal(*state, #[trigger] moves@[k]) by {
                        assert(moves@.contains(moves@[k]));
                    }
                }
                let scores = score_children_par(state, &moves, i + 1, depth, first_score);
                let mut best_mv = mv;
                let mut best_score = first_score;
                let mut j: usize = 0;
                while j < scores.len()
                    invariant
                        j <= scores@.len(),
                        i < moves@.len(),
                        scores@.len() == moves@.len() - (i + 1),
                        forall|m: Move| #[trigger] moves@.contains(m) <==> pseudo_legal(*state, m),
                        forall|k: int| 0 <= k < scores@.len() ==> root_result(*state, moves@[i + 1 + k], d1, first_score as int,
                            #[trigger] scores@[k]),
                        first_score <= best_score <= MATE_SCORE,
                        legal(*state, best_mv),
                        line_value(*state, best_mv, d1) == best_score,
                        forall|k: int| 0 <= k < j ==> match #[trigger] scores@[k] {
                            Some((x, _)) => x <= best_score,
                            None => true,
                        },
                    decreases scores@.len() - j,
                {
                    if let Some((score, other)) = scores[j] {
                        if score > best_score {
                            assert(root_result(*state, moves@[i + 1 + j], d1, first_score as int, scores@[j as int]));
                            assert(moves@.contains(moves@[i + 1 + j]));
                            assert(other == moves@[i + 1 + j]);
                            assert(king_safe_after(*state, other));
                            assert(legal(*state, other));
                            best_mv = other;
                            best_score = score;
                        }
                    }
                    j += 1;
                }
                proof {
                    lemma_negamax_best(*state, d1 + 1);
                    assert forall|m: Move| #[trigger] legal(*state, m) implies line_value(*state, m, d1) <= best_score by {
                        assert(moves@.contains(m));
                        let k = choose|k: int| 0 <= k < moves@.len() && moves@[k] == m;
                        if k > i {
                            assert(root_result(*state, moves@[i + 1 + (k - i - 1)], d1, first_score as int, scores@[k - i - 1]));
                        }
                    }
                }
                return Some((best_mv, best_score));
            }
            i += 1;
        }
        proof {
            assert forall|m: Move| !legal(*state, m) by {
                if legal(*state, m) {
                    assert(moves@.contains(m));
                    let k = choose|k: int| 0 <= k < moves@.len() && moves@[k] == m;
                    assert(!king_safe_after(*state, moves@[k]));
                }
            }
        }
        None
    }
}

/// `states` lists the positions met playing `ms` in turn from its first
/// entry, each move legal where it is played.
pub open spec fn line_through(ms: Seq<Move>, states: Seq<GameState>) -> bool {
    &&& states.len() == ms.len() + 1
    &&& forall|i: int| 0 <= i < ms.len() ==> legal(states[i], #[trigger] ms[i]) && applied(states[i], ms[i], states[i + 1])
}

/// Playing `ms` in turn from `s`, each move legal where it is played, ends
/// in `t`.
pub open spec fn plays(s: GameState, ms: Seq<Move>, t: GameState) -> bool {
    exists|states: Seq<GameState>| #[trigger] line_through(ms, states) && states[0] == s && states.last() == t
}

pub proof fn lemma_plays_empty(s: GameState)
    ensures
        plays(s, Seq::<Move>::empty(), s),
{
    assert(line_through(Seq::<Move>::empty(), seq![s]));
}

pub proof fn lemma_plays_push(s: GameState, ms: Seq<Move>, mid: GameState, m: Move, t: GameState)
    requires
        plays(s, ms, mid),
        legal(mid, m),
        applied(mid, m, t),
    ensures
        plays(s, ms.push(m), t),
{
    let states = choose|states: Seq<GameState>| #[trigger] line_through(ms, states) && states[0] == s && states.last() == mid;
    let next = states.push(t);
    assert forall|i: int| 0 <= i < ms.push(m).len() implies legal(next[i], #[trigger] ms.push(m)[i])
        && applied(next[i], ms.push(m)[i], next[i + 1]) by {
        if i < ms.len() {
            assert(ms.push(m)[i] == ms[i]);
        }
    }
    assert(line_through(ms.push(m), next));
}

} // verus!
