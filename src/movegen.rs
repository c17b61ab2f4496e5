use vstd::prelude::*;
use crate::attack::{holds, holds_at, pawn_dir, unit_dir};
use crate::board::{at, cell, on_board, piece_at, valid_sq, Board, Color, Piece, PieceKind, Square};
use crate::dirs::{king_dir, king_step, knight_dir, knight_step};
use crate::moves::{Move, MoveKind};
use crate::state::{squares_valid, GameState};

verus! {

broadcast use vstd::seq_lib::lemma_seq_contains_after_push;

pub open spec fn sq_is(sq: Square, f: int, r: int) -> bool {
    sq.0 == f && sq.1 == r
}

/// (f, r) is empty or holds a piece of the other side than `c`.
pub open spec fn open_for(b: Board, f: int, r: int, c: Color) -> bool {
    match cell(b, f, r) {
        Some(q) => q.color != c,
        None => true,
    }
}

pub open spec fn enemy_on(b: Board, f: int, r: int, c: Color) -> bool {
    match cell(b, f, r) {
        Some(q) => q.color != c,
        None => false,
    }
}

pub open spec fn empty(b: Board, f: int, r: int) -> bool {
    cell(b, f, r).is_none()
}

/// A slider of `c` on (f, r) moving along (df, dr) reaches `to`: every
/// square before it is empty and `to` is empty or holds an enemy.
pub open spec fn ray_reaches(b: Board, f: int, r: int, df: int, dr: int, to: Square, c: Color, fuel: nat) -> bool
    decreases fuel,
{
    if fuel == 0 || !on_board(f + df, r + dr) {
        false
    } else if sq_is(to, f + df, r + dr) {
        open_for(b, f + df, r + dr, c)
    } else if cell(b, f + df, r + dr).is_some() {
        false
    } else {
        ray_reaches(b, f + df, r + dr, df, dr, to, c, (fuel - 1) as nat)
    }
}

/// A single step by `d` from `from` lands on `to`, which is empty or enemy.
pub open spec fn step_to(b: Board, from: Square, d: (int, int), to: Square, c: Color) -> bool {
    sq_is(to, from.0 + d.0, from.1 + d.1) && on_board(to.0 as int, to.1 as int) && open_for(b, to.0 as int, to.1 as int, c)
}

pub open spec fn last_rank(c: Color) -> int {
    if c == Color::White { 7 } else { 0 }
}

pub open spec fn start_rank(c: Color) -> int {
    if c == Color::White { 1 } else { 6 }
}

pub open spec fn is_promotion_piece(k: PieceKind) -> bool {
    k == PieceKind::Queen || k == PieceKind::Rook || k == PieceKind::Bishop || k == PieceKind::Knight
}

/// A pawn arriving on `to` promotes there if it is the last rank, and
/// makes a plain move otherwise.
pub open spec fn pawn_kind_ok(k: MoveKind, c: Color, to: Square) -> bool {
    if to.1 == last_rank(c) {
        match k {
            MoveKind::Promotion(p) => is_promotion_piece(p),
            _ => false,
        }
    } else {
        k == MoveKind::Normal
    }
}

pub open spec fn pawn_move(s: GameState, c: Color, m: Move) -> bool {
    let b = s.board;
    let f = m.from.0 as int;
    let r = m.from.1 as int;
    let d = pawn_dir(c);
    ||| sq_is(m.to, f, r + d) && empty(b, f, r + d) && pawn_kind_ok(m.kind, c, m.to)
    ||| m.kind == MoveKind::Normal && r == start_rank(c) && sq_is(m.to, f, r + 2 * d)
        && empty(b, f, r + d) && empty(b, f, r + 2 * d)
    ||| (sq_is(m.to, f - 1, r + d) || sq_is(m.to, f + 1, r + d)) && enemy_on(b, m.to.0 as int, m.to.1 as int, c)
        && pawn_kind_ok(m.kind, c, m.to)
    ||| m.kind == MoveKind::EnPassant && s.en_passant == Some(m.to)
        && (sq_is(m.to, f - 1, r + d) || sq_is(m.to, f + 1, r + d))
}

pub open spec fn knight_move(b: Board, c: Color, m: Move) -> bool {
    m.kind == MoveKind::Normal && exists|i: int| 0 <= i < 8 && #[trigger] step_to(b, m.from, knight_dir(i), m.to, c)
}

/// Sliding along the directions `king_dir(i)` for `lo <= i < hi`.
pub open spec fn slider_move(b: Board, c: Color, m: Move, lo: int, hi: int) -> bool {
    m.kind == MoveKind::Normal && exists|i: int| lo <= i < hi
        && #[trigger] ray_reaches(b, m.from.0 as int, m.from.1 as int, king_dir(i).0, king_dir(i).1, m.to, c, 8)
}

pub open spec fn castle_right(s: GameState, c: Color, kingside: bool) -> bool {
    match (c, kingside) {
        (Color::White, true) => s.castling.white_kingside,
        (Color::White, false) => s.castling.white_queenside,
        (Color::Black, true) => s.castling.black_kingside,
        (Color::Black, false) => s.castling.black_queenside,
    }
}

pub open spec fn castle_move(s: GameState, c: Color, m: Move) -> bool {
    let b = s.board;
    let h = if c == Color::White { 0int } else { 7int };
    let rook = Piece { color: c, kind: PieceKind::Rook };
    &&& sq_is(m.from, 4, h)
    &&& m.kind == MoveKind::CastleKingside ==> castle_right(s, c, true) && empty(b, 5, h) && empty(b, 6, h)
        && cell(b, 7, h) == Some(rook) && sq_is(m.to, 6, h)
    &&& m.kind == MoveKind::CastleQueenside ==> castle_right(s, c, false) && empty(b, 1, h) && empty(b, 2, h)
        && empty(b, 3, h) && cell(b, 0, h) == Some(rook) && sq_is(m.to, 2, h)
    &&& m.kind == MoveKind::CastleKingside || m.kind == MoveKind::CastleQueenside
}

pub open spec fn king_move(s: GameState, c: Color, m: Move) -> bool {
    ||| m.kind == MoveKind::Normal && exists|i: int| 0 <= i < 8 && #[trigger] step_to(s.board, m.from, king_dir(i), m.to, c)
    ||| castle_move(s, c, m)
}

pub open spec fn piece_move(s: GameState, p: Piece, m: Move) -> bool {
    match p.kind {
        PieceKind::Pawn => pawn_move(s, p.color, m),
        PieceKind::Knight => knight_move(s.board, p.color, m),
        PieceKind::Bishop => slider_move(s.board, p.color, m, 4, 8),
        PieceKind::Rook => slider_move(s.board, p.color, m, 0, 4),
        PieceKind::Queen => slider_move(s.board, p.color, m, 0, 8),
        PieceKind::King => king_move(s, p.color, m),
    }
}

/// `m` obeys the movement rules for the side to move, king safety aside.
pub open spec fn pseudo_legal(s: GameState, m: Move) -> bool {
    &&& valid_sq(m.from)
    &&& valid_sq(m.to)
    &&& match at(s.board, m.from) {
        Some(p) => p.color == s.side_to_move && piece_move(s, p, m),
        None => false,
    }
}

/// The moves a generator for the piece on `from` adds.
pub open spec fn from_moves(s: GameState, from: Square, m: Move) -> bool {
    m.from == from && valid_sq(m.to) && piece_move(s, at(s.board, from).unwrap(), m)
}

/// `new` is `old` with moves from `from` appended, each at most once.
pub open spec fn grows_from(old: Seq<Move>, new: Seq<Move>, from: Square) -> bool {
    &&& old.len() <= new.len()
    &&& new.subrange(0, old.len() as int) == old
    &&& forall|a: int, b: int| old.len() <= a < b < new.len() ==> new[a] != new[b]
    &&& forall|k: int| old.len() <= k < new.len() ==> (#[trigger] new[k]).from == from
}

proof fn lemma_grows_refl(ms: Seq<Move>, from: Square)
    ensures
        grows_from(ms, ms, from),
{
    assert(ms.subrange(0, ms.len() as int) =~= ms);
}

/// Two appends in a row make one, when the second adds nothing the first did.
proof fn lemma_grows_trans(a: Seq<Move>, b: Seq<Move>, c: Seq<Move>, from: Square)
    requires
        grows_from(a, b, from),
        grows_from(b, c, from),
        forall|x: int, y: int| a.len() <= x < b.len() <= y < c.len() ==> b[x] != c[y],
    ensures
        grows_from(a, c, from),
{
    assert forall|k: int| 0 <= k < b.len() implies c[k] == b[k] by {
        assert(c.subrange(0, b.len() as int)[k] == c[k]);
    }
    assert(c.subrange(0, a.len() as int) =~= a) by {
        assert forall|k: int| 0 <= k < a.len() implies c.subrange(0, a.len() as int)[k] == a[k] by {
            assert(b.subrange(0, a.len() as int)[k] == b[k]);
        }
    }
    assert forall|x: int, y: int| a.len() <= x < y < c.len() implies c[x] != c[y] by {
        if y < b.len() {
            assert(c[x] == b[x] && c[y] == b[y]);
        } else if x < b.len() {
            assert(c[x] == b[x]);
        }
    }
    assert forall|k: int| a.len() <= k < c.len() implies (#[trigger] c[k]).from == from by {
        if k < b.len() {
            assert(c[k] == b[k]);
        }
    }
}

fn push_move(moves: &mut Vec<Move>, from: Square, to: Square, kind: MoveKind)
    ensures
        final(moves)@ == old(moves)@.push(Move { from, to, kind }),
{
    moves.push(Move { from, to, kind });
}

fn add_promotion_moves(moves: &mut Vec<Move>, from: Square, to: Square)
    ensures
        forall|m: Move| #[trigger] final(moves)@.contains(m) <==> old(moves)@.contains(m) || (m.from == from
            && m.to == to && match m.kind {
                MoveKind::Promotion(k) => is_promotion_piece(k),
                _ => false,
            }),
        grows_from(old(moves)@, final(moves)@, from),
        forall|k: int| old(moves)@.len() <= k < final(moves)@.len() ==> (#[trigger] final(moves)@[k]).to == to
            && final(moves)@[k].kind is Promotion,
{
    let ghost start = old(moves)@;
    push_move(moves, from, to, MoveKind::Promotion(PieceKind::Queen));
    push_move(moves, from, to, MoveKind::Promotion(PieceKind::Rook));
    push_move(moves, from, to, MoveKind::Promotion(PieceKind::Bishop));
    push_move(moves, from, to, MoveKind::Promotion(PieceKind::Knight));
    assert(moves@.subrange(0, start.len() as int) =~= start);
}

fn add_step_move(state: &GameState, piece: Piece, from: Square, to: Square, moves: &mut Vec<Move>)
    requires
        valid_sq(to),
    ensures
        forall|m: Move| #[trigger] final(moves)@.contains(m) <==> old(moves)@.contains(m) || (
            m == (Move { from, to, kind: MoveKind::Normal }) && open_for(state.board, to.0 as int, to.1 as int, piece.color)),
        final(moves)@ == old(moves)@ || final(moves)@ == old(moves)@.push(Move { from, to, kind: MoveKind::Normal }),
{
    match piece_at(&state.board, to) {
        Some(target) => {
            if target.color != piece.color {
                push_move(moves, from, to, MoveKind::Normal);
            }
        },
        None => push_move(moves, from, to, MoveKind::Normal),
    }
}

pub open spec fn step_dir(knight: bool, i: int) -> (int, int) {
    if knight { knight_dir(i) } else { king_dir(i) }
}

/// Adds the single-step moves of `piece` on `from`: knight jumps, or king steps.
fn add_steps(state: &GameState, piece: Piece, from: Square, moves: &mut Vec<Move>, knight: bool)
    requires
        valid_sq(from),
    ensures
        forall|m: Move| #[trigger] final(moves)@.contains(m) <==> old(moves)@.contains(m) || (m.from == from
            && m.kind == MoveKind::Normal && exists|j: int| 0 <= j < 8
            && #[trigger] step_to(state.board, from, step_dir(knight, j), m.to, piece.color)),
        grows_from(old(moves)@, final(moves)@, from),
        forall|k: int| old(moves)@.len() <= k < final(moves)@.len() ==> (#[trigger] final(moves)@[k]).kind == MoveKind::Normal,
{
    let ghost b = state.board;
    let ghost c = piece.color;
    let ghost start = old(moves)@;
    let file = from.0 as i8;
    let rank = from.1 as i8;
    let mut i: usize = 0;
    proof {
        lemma_grows_refl(start, from);
    }
    while i < 8
        invariant
            i <= 8,
            valid_sq(from),
            file == from.0,
            rank == from.1,
            b == state.board,
            c == piece.color,
            start == old(moves)@,
            forall|m: Move| #[trigger] moves@.contains(m) <==> start.contains(m) || (m.from == from
                && m.kind == MoveKind::Normal && exists|j: int| 0 <= j < i
                && #[trigger] step_to(b, from, step_dir(knight, j), m.to, c)),
            grows_from(start, moves@, from),
            forall|k: int| start.len() <= k < moves@.len() ==> (#[trigger] moves@[k]).kind == MoveKind::Normal
                && forall|l: int| i <= l < 8 ==> !sq_is(moves@[k].to, from.0 + step_dir(knight, l).0, from.1 + step_dir(knight, l).1),
        decreases 8 - i,
    {
        let ghost before = moves@;
        let (df, dr) = if knight { knight_step(i) } else { king_step(i) };
        assert(df == step_dir(knight, i as int).0 && dr == step_dir(knight, i as int).1);
        let nf = file + df;
        let nr = rank + dr;
        if 0 <= nf && nf < 8 && 0 <= nr && nr < 8 {
            let to = (nf as u8, nr as u8);
            add_step_move(state, piece, from, to, moves);
        }
        proof {
            assert forall|l: int| i < l < 8 implies step_dir(knight, l) != step_dir(knight, i as int) by {}
            assert(moves@.subrange(0, start.len() as int) =~= start);
        }
        assert forall|m: Move| #[trigger] moves@.contains(m) <==> start.contains(m) || (m.from == from
            && m.kind == MoveKind::Normal && exists|j: int| 0 <= j < i + 1
            && #[trigger] step_to(b, from, step_dir(knight, j), m.to, c)) by {
            if m.from == from && m.kind == MoveKind::Normal && step_to(b, from, step_dir(knight, i as int), m.to, c) {
                assert(moves@.contains(m));
            }
            if moves@.contains(m) && !before.contains(m) {
                assert(step_to(b, from, step_dir(knight, i as int), m.to, c));
            }
            if (exists|j: int| 0 <= j < i + 1 && #[trigger] step_to(b, from, step_dir(knight, j), m.to, c))
                && !step_to(b, from, step_dir(knight, i as int), m.to, c) {
                let j = choose|j: int| 0 <= j < i + 1 && #[trigger] step_to(b, from, step_dir(knight, j), m.to, c);
                assert(0 <= j < i);
            }
        }
        i += 1;
    }
}

/// Squares on the walk from (f, r) along a unit direction lie strictly ahead.
pub open spec fn ahead(f: int, r: int, df: int, dr: int, to: Square) -> bool {
    &&& (df > 0 ==> to.0 > f) && (df < 0 ==> to.0 < f) && (df == 0 ==> to.0 == f)
    &&& (dr > 0 ==> to.1 > r) && (dr < 0 ==> to.1 < r) && (dr == 0 ==> to.1 == r)
}

proof fn lemma_ray_ahead(b: Board, f: int, r: int, df: int, dr: int, to: Square, c: Color, fuel: nat)
    requires
        unit_dir(df, dr),
        ray_reaches(b, f, r, df, dr, to, c, fuel),
    ensures
        ahead(f, r, df, dr, to),
    decreases fuel,
{
    if !sq_is(to, f + df, r + dr) {
        lemma_ray_ahead(b, f + df, r + dr, df, dr, to, c, (fuel - 1) as nat);
    }
}

proof fn lemma_ray_step(b: Board, f: int, r: int, df: int, dr: int, t: Square, c: Color, fuel: nat)
    requires
        fuel > 0,
        on_board(f + df, r + dr),
    ensures
        ray_reaches(b, f, r, df, dr, t, c, fuel) == if sq_is(t, f + df, r + dr) {
            open_for(b, f + df, r + dr, c)
        } else if cell(b, f + df, r + dr).is_some() {
            false
        } else {
            ray_reaches(b, f + df, r + dr, df, dr, t, c, (fuel - 1) as nat)
        },
{
}

/// How far `sq` lies along the direction (df, dr), up to a constant.
pub open spec fn reach(sq: Square, df: int, dr: int) -> int {
    (if df > 0 { sq.0 as int } else if df < 0 { -(sq.0 as int) } else { 0 })
        + (if dr > 0 { sq.1 as int } else if dr < 0 { -(sq.1 as int) } else { 0 })
}

/// Adds the moves of a slider of `color` on `from` along one direction.
fn add_ray(state: &GameState, color: Color, from: Square, df: i8, dr: i8, moves: &mut Vec<Move>)
    requires
        valid_sq(from),
        unit_dir(df as int, dr as int),
    ensures
        forall|m: Move| #[trigger] final(moves)@.contains(m) <==> old(moves)@.contains(m) || (m.from == from
            && m.kind == MoveKind::Normal && ray_reaches(state.board, from.0 as int, from.1 as int, df as int, dr as int, m.to, color, 8)),
        grows_from(old(moves)@, final(moves)@, from),
        forall|k: int| old(moves)@.len() <= k < final(moves)@.len() ==> (#[trigger] final(moves)@[k]).kind == MoveKind::Normal
            && ahead(from.0 as int, from.1 as int, df as int, dr as int, final(moves)@[k].to),
{
    let ghost b = state.board;
    let ghost start = old(moves)@;
    let file = from.0 as i8;
    let rank = from.1 as i8;
    let mut nf: i8 = file + df;
    let mut nr: i8 = rank + dr;
    let ghost mut k: int = 1;
    let ghost mut fuel: nat = 8;
    let ghost mut bf: int = file as int;
    let ghost mut br: int = rank as int;
    proof {
        lemma_grows_refl(start, from);
    }
    while 0 <= nf && nf < 8 && 0 <= nr && nr < 8
        invariant
            unit_dir(df as int, dr as int),
            valid_sq(from),
            file == from.0,
            rank == from.1,
            b == state.board,
            start == old(moves)@,
            1 <= k <= 8,
            fuel == 9 - k,
            on_board(bf, br),
            nf == bf + df,
            nr == br + dr,
            nf == file + k * df,
            nr == rank + k * dr,
            forall|to: Square| #[trigger] ray_reaches(b, bf, br, df as int, dr as int, to, color, fuel)
                ==> ray_reaches(b, file as int, rank as int, df as int, dr as int, to, color, 8),
            forall|m: Move| #[trigger] moves@.contains(m) <==> start.contains(m) || (m.from == from
                && m.kind == MoveKind::Normal && ray_reaches(b, file as int, rank as int, df as int, dr as int, m.to, color, 8)
                && !ray_reaches(b, bf, br, df as int, dr as int, m.to, color, fuel)),
            grows_from(start, moves@, from),
            forall|q: int| start.len() <= q < moves@.len() ==> (#[trigger] moves@[q]).kind == MoveKind::Normal
                && ahead(file as int, rank as int, df as int, dr as int, moves@[q].to)
                && reach(moves@[q].to, df as int, dr as int) <= reach((bf as u8, br as u8), df as int, dr as int),
        decreases 9 - k,
    {
        assert(k <= 7) by (nonlinear_arith)
            requires
                nf == file + k * df, nr == rank + k * dr, 0 <= nf < 8, 0 <= nr < 8,
                0 <= file < 8, 0 <= rank < 8, unit_dir(df as int, dr as int), 1 <= k;
        let to = (nf as u8, nr as u8);
        assert(ahead(file as int, rank as int, df as int, dr as int, to)) by (nonlinear_arith)
            requires
                nf == file + k * df, nr == rank + k * dr, 1 <= k, unit_dir(df as int, dr as int),
                to.0 == nf, to.1 == nr;
        assert(reach(to, df as int, dr as int) > reach((bf as u8, br as u8), df as int, dr as int));
        let ghost before_push = moves@;
        match piece_at(&state.board, to) {
            Some(target) => {
                if target.color != color {
                    push_move(moves, from, to, MoveKind::Normal);
                }
                assert(moves@.subrange(0, start.len() as int) =~= start);
                assert forall|m: Move| #[trigger] moves@.contains(m) <==> start.contains(m) || (m.from == from
                    && m.kind == MoveKind::Normal && ray_reaches(b, file as int, rank as int, df as int, dr as int, m.to, color, 8)) by {
                    lemma_ray_step(b, bf, br, df as int, dr as int, m.to, color, fuel);
                }
                return;
            },
            None => {
                push_move(moves, from, to, MoveKind::Normal);
                assert(moves@.subrange(0, start.len() as int) =~= start);
            },
        }
        proof {
            assert forall|t: Square| #[trigger] ray_reaches(b, nf as int, nr as int, df as int, dr as int, t, color, (fuel - 1) as nat)
                implies ray_reaches(b, file as int, rank as int, df as int, dr as int, t, color, 8) by {
                lemma_ray_ahead(b, nf as int, nr as int, df as int, dr as int, t, color, (fuel - 1) as nat);
                lemma_ray_step(b, bf, br, df as int, dr as int, t, color, fuel);
            }
            assert forall|m: Move| #[trigger] moves@.contains(m) <==> start.contains(m) || (m.from == from
                && m.kind == MoveKind::Normal && ray_reaches(b, file as int, rank as int, df as int, dr as int, m.to, color, 8)
                && !ray_reaches(b, nf as int, nr as int, df as int, dr as int, m.to, color, (fuel - 1) as nat)) by {
                lemma_ray_step(b, bf, br, df as int, dr as int, m.to, color, fuel);
                if ray_reaches(b, nf as int, nr as int, df as int, dr as int, m.to, color, (fuel - 1) as nat) {
                    lemma_ray_ahead(b, nf as int, nr as int, df as int, dr as int, m.to, color, (fuel - 1) as nat);
                }
            }
        }
        proof {
            bf = nf as int;
            br = nr as int;
        }
        nf = nf + df;
        nr = nr + dr;
        proof {
            assert(nf == file + (k + 1) * df) by (nonlinear_arith)
                requires nf == file + k * df + df;
            assert(nr == rank + (k + 1) * dr) by (nonlinear_arith)
                requires nr == rank + k * dr + dr;
            k = k + 1;
            fuel = (fuel - 1) as nat;
        }
    }
}

fn gen_slider_moves(state: &GameState, from: Square, moves: &mut Vec<Move>, lo: usize, hi: usize)
    requires
        valid_sq(from),
        at(state.board, from).is_some(),
        lo <= hi <= 8,
    ensures
        forall|m: Move| #[trigger] final(moves)@.contains(m) <==> old(moves)@.contains(m) || (m.from == from
            && slider_move(state.board, at(state.board, from).unwrap().color, m, lo as int, hi as int)),
        grows_from(old(moves)@, final(moves)@, from),
        forall|k: int| old(moves)@.len() <= k < final(moves)@.len() ==> (#[trigger] final(moves)@[k]).kind == MoveKind::Normal,
{
    let piece = match piece_at(&state.board, from) {
        Some(p) => p,
        None => return,
    };
    let ghost b = state.board;
    let ghost c = piece.color;
    let ghost start = old(moves)@;
    let mut i: usize = lo;
    proof {
        lemma_grows_refl(start, from);
    }
    while i < hi
        invariant
            lo <= i <= hi <= 8,
            valid_sq(from),
            b == state.board,
            c == piece.color,
            start == old(moves)@,
            forall|m: Move| #[trigger] moves@.contains(m) <==> start.contains(m) || (m.from == from
                && m.kind == MoveKind::Normal && exists|j: int| lo <= j < i
                && #[trigger] ray_reaches(b, from.0 as int, from.1 as int, king_dir(j).0, king_dir(j).1, m.to, c, 8)),
            grows_from(start, moves@, from),
            forall|k: int| start.len() <= k < moves@.len() ==> (#[trigger] moves@[k]).kind == MoveKind::Normal
                && forall|l: int| i <= l < hi ==> !ahead(from.0 as int, from.1 as int, king_dir(l).0, king_dir(l).1, moves@[k].to),
        decreases hi - i,
    {
        let ghost before = moves@;
        let (df, dr) = king_step(i);
        add_ray(state, piece.color, from, df, dr, moves);
        proof {
            assert forall|l: int| i < l < hi implies king_dir(l) != king_dir(i as int) by {}
            assert forall|a: int, c2: int| start.len() <= a < before.len() <= c2 < moves@.len() implies before[a] != moves@[c2] by {
                assert(!ahead(from.0 as int, from.1 as int, king_dir(i as int).0, king_dir(i as int).1, before[a].to));
                assert(ahead(from.0 as int, from.1 as int, df as int, dr as int, moves@[c2].to));
            }
            lemma_grows_trans(start, before, moves@, from);
            assert forall|q: int| start.len() <= q < moves@.len() implies (#[trigger] moves@[q]).kind == MoveKind::Normal
                && forall|l: int| i + 1 <= l < hi ==> !ahead(from.0 as int, from.1 as int, king_dir(l).0, king_dir(l).1, moves@[q].to) by {
                if q < before.len() {
                    assert(moves@.subrange(0, before.len() as int)[q] == moves@[q]);
                    assert(before[q] == moves@[q]);
                }
            }
        }
        assert forall|m: Move| #[trigger] moves@.contains(m) <==> start.contains(m) || (m.from == from
            && m.kind == MoveKind::Normal && exists|j: int| lo <= j < i + 1
            && #[trigger] ray_reaches(b, from.0 as int, from.1 as int, king_dir(j).0, king_dir(j).1, m.to, c, 8)) by {
            if (exists|j: int| lo <= j < i + 1
                && #[trigger] ray_reaches(b, from.0 as int, from.1 as int, king_dir(j).0, king_dir(j).1, m.to, c, 8))
                && !ray_reaches(b, from.0 as int, from.1 as int, king_dir(i as int).0, king_dir(i as int).1, m.to, c, 8) {
                let j = choose|j: int| lo <= j < i + 1
                    && #[trigger] ray_reaches(b, from.0 as int, from.1 as int, king_dir(j).0, king_dir(j).1, m.to, c, 8);
                assert(lo <= j < i);
            }
        }
        i += 1;
    }
}

fn gen_knight_moves(state: &GameState, from: Square, moves: &mut Vec<Move>)
    requires
        valid_sq(from),
        at(state.board, from).is_some(),
    ensures
        forall|m: Move| #[trigger] final(moves)@.contains(m) <==> old(moves)@.contains(m) || (m.from == from
            && knight_move(state.board, at(state.board, from).unwrap().color, m)),
        grows_from(old(moves)@, final(moves)@, from),
{
    let piece = match piece_at(&state.board, from) {
        Some(p) => p,
        None => {
            proof {
                lemma_grows_refl(moves@, from);
            }
            return;
        },
    };
    let ghost start = old(moves)@;
    add_steps(state, piece, from, moves, true);
    assert forall|m: Move| #[trigger] moves@.contains(m) <==> start.contains(m) || (m.from == from
        && knight_move(state.board, piece.color, m)) by {
        if moves@.contains(m) && !start.contains(m) {
            let j = choose|j: int| 0 <= j < 8 && #[trigger] step_to(state.board, from, step_dir(true, j), m.to, piece.color);
            assert(step_to(state.board, from, knight_dir(j), m.to, piece.color));
        }
        if m.from == from && knight_move(state.board, piece.color, m) {
            let j = choose|j: int| 0 <= j < 8 && #[trigger] step_to(state.board, from, knight_dir(j), m.to, piece.color);
            assert(step_to(state.board, from, step_dir(true, j), m.to, piece.color));
        }
    }
}

fn gen_king_moves(state: &GameState, from: Square, moves: &mut Vec<Move>)
    requires
        valid_sq(from),
        at(state.board, from).is_some(),
    ensures
        forall|m: Move| #[trigger] final(moves)@.contains(m) <==> old(moves)@.contains(m) || (m.from == from
            && valid_sq(m.to) && king_move(*state, at(state.board, from).unwrap().color, m)),
        grows_from(old(moves)@, final(moves)@, from),
{
    let piece = match piece_at(&state.board, from) {
        Some(p) => p,
        None => {
            proof {
                lemma_grows_refl(moves@, from);
            }
            return;
        },
    };
    let ghost start = old(moves)@;
    add_steps(state, piece, from, moves, false);
    let ghost after_steps = moves@;
    let rank: u8 = if piece.color == Color::White { 0 } else { 7 };
    let rook = Piece { color: piece.color, kind: PieceKind::Rook };
    let (kingside, queenside) = match piece.color {
        Color::White => (state.castling.white_kingside, state.castling.white_queenside),
        Color::Black => (state.castling.black_kingside, state.castling.black_queenside),
    };
    let home = from.0 == 4 && from.1 == rank;
    if home && kingside && piece_at(&state.board, (5, rank)).is_none() && piece_at(&state.board, (6, rank)).is_none()
        && holds_at(&state.board, 7, rank as i8, rook) {
        push_move(moves, from, (6, rank), MoveKind::CastleKingside);
    }
    let ghost after_k = moves@;
    proof {
        if after_k.len() > after_steps.len() {
            assert(after_k.subrange(0, after_steps.len() as int) =~= after_steps);
        } else {
            lemma_grows_refl(after_steps, from);
        }
        lemma_grows_trans(start, after_steps, after_k, from);
    }
    if home && queenside && piece_at(&state.board, (1, rank)).is_none() && piece_at(&state.board, (2, rank)).is_none()
        && piece_at(&state.board, (3, rank)).is_none() && holds_at(&state.board, 0, rank as i8, rook) {
        push_move(moves, from, (2, rank), MoveKind::CastleQueenside);
    }
    proof {
        if moves@.len() > after_k.len() {
            assert(moves@.subrange(0, after_k.len() as int) =~= after_k);
            assert forall|x: int| start.len() <= x < after_k.len() implies after_k[x].kind != MoveKind::CastleQueenside by {
                if x < after_steps.len() {
                    assert(after_k.subrange(0, after_steps.len() as int)[x] == after_k[x]);
                }
            }
        } else {
            lemma_grows_refl(after_k, from);
        }
        lemma_grows_trans(start, after_k, moves@, from);
    }
    assert forall|m: Move| #[trigger] moves@.contains(m) <==> start.contains(m) || (m.from == from
        && valid_sq(m.to) && king_move(*state, piece.color, m)) by {
        if after_steps.contains(m) && !start.contains(m) {
            let j = choose|j: int| 0 <= j < 8 && #[trigger] step_to(state.board, from, step_dir(false, j), m.to, piece.color);
            assert(step_to(state.board, from, king_dir(j), m.to, piece.color));
        }
        if m.from == from && m.kind == MoveKind::Normal && exists|j: int| 0 <= j < 8 && #[trigger] step_to(state.board, from, king_dir(j), m.to, piece.color) {
            let j = choose|j: int| 0 <= j < 8 && #[trigger] step_to(state.board, from, king_dir(j), m.to, piece.color);
            assert(step_to(state.board, from, step_dir(false, j), m.to, piece.color));
        }
    }
}

/// Adds the captures of a pawn of `color` on `from` onto file `from.0 + df`.
fn pawn_capture(state: &GameState, color: Color, from: Square, df: i8, moves: &mut Vec<Move>)
    requires
        valid_sq(from),
        df == -1 || df == 1,
    ensures
        forall|m: Move| #[trigger] final(moves)@.contains(m) <==> old(moves)@.contains(m) || (m.from == from
            && valid_sq(m.to) && sq_is(m.to, from.0 + df, from.1 + pawn_dir(color))
            && enemy_on(state.board, m.to.0 as int, m.to.1 as int, color) && pawn_kind_ok(m.kind, color, m.to)),
        grows_from(old(moves)@, final(moves)@, from),
        forall|k: int| old(moves)@.len() <= k < final(moves)@.len() ==> (#[trigger] final(moves)@[k]).to.0 == from.0 + df
            && final(moves)@[k].kind != MoveKind::EnPassant,
{
    proof {
        lemma_grows_refl(moves@, from);
    }
    let dir: i8 = if color == Color::White { 1 } else { -1 };
    let promo_rank: u8 = if color == Color::White { 7 } else { 0 };
    let nf = from.0 as i8 + df;
    let nr = from.1 as i8 + dir;
    if nf < 0 || nf >= 8 || nr < 0 || nr >= 8 {
        return;
    }
    let to = (nf as u8, nr as u8);
    if let Some(target) = piece_at(&state.board, to) {
        if target.color != color {
            if to.1 == promo_rank {
                add_promotion_moves(moves, from, to);
            } else {
                push_move(moves, from, to, MoveKind::Normal);
                assert(moves@.subrange(0, old(moves)@.len() as int) =~= old(moves)@);
            }
        }
    }
}

/// Adds the pushes of a pawn of `color` on `from`: one square ahead when it
/// is empty (promoting on the last rank), and two from the starting rank
/// when both squares are empty.
fn pawn_push(state: &GameState, color: Color, from: Square, moves: &mut Vec<Move>)
    requires
        valid_sq(from),
    ensures
        forall|m: Move| #[trigger] final(moves)@.contains(m) <==> old(moves)@.contains(m) || (m.from == from
            && valid_sq(m.to) && (
            (sq_is(m.to, from.0 as int, from.1 + pawn_dir(color)) && empty(state.board, from.0 as int, from.1 + pawn_dir(color))
                && pawn_kind_ok(m.kind, color, m.to))
            || (m.kind == MoveKind::Normal && from.1 == start_rank(color) && sq_is(m.to, from.0 as int, from.1 + 2 * pawn_dir(color))
                && empty(state.board, from.0 as int, from.1 + pawn_dir(color))
                && empty(state.board, from.0 as int, from.1 + 2 * pawn_dir(color))))),
        grows_from(old(moves)@, final(moves)@, from),
        forall|k: int| old(moves)@.len() <= k < final(moves)@.len() ==> (#[trigger] final(moves)@[k]).to.0 == from.0
            && final(moves)@[k].kind != MoveKind::EnPassant,
{
    proof {
        lemma_grows_refl(moves@, from);
    }
    let dir: i8 = if color == Color::White { 1 } else { -1 };
    let home_rank: u8 = if color == Color::White { 1 } else { 6 };
    let promo_rank: u8 = if color == Color::White { 7 } else { 0 };
    let rank = from.1 as i8;
    let one_rank = rank + dir;
    if 0 <= one_rank && one_rank < 8 {
        let to = (from.0, one_rank as u8);
        if piece_at(&state.board, to).is_none() {
            if to.1 == promo_rank {
                add_promotion_moves(moves, from, to);
            } else {
                push_move(moves, from, to, MoveKind::Normal);
                let ghost one = moves@;
                assert(one.subrange(0, old(moves)@.len() as int) =~= old(moves)@);
                if from.1 == home_rank {
                    let two_rank = rank + 2 * dir;
                    let to_two = (from.0, two_rank as u8);
                    if piece_at(&state.board, to_two).is_none() {
                        push_move(moves, from, to_two, MoveKind::Normal);
                        assert(moves@.subrange(0, old(moves)@.len() as int) =~= old(moves)@);
                    }
                }
            }
        }
    }
}

fn gen_pawn_moves(state: &GameState, from: Square, moves: &mut Vec<Move>)
    requires
        valid_sq(from),
        squares_valid(*state),
        at(state.board, from).is_some(),
    ensures
        forall|m: Move| #[trigger] final(moves)@.contains(m) <==> old(moves)@.contains(m) || (m.from == from
            && valid_sq(m.to) && pawn_move(*state, at(state.board, from).unwrap().color, m)),
        grows_from(old(moves)@, final(moves)@, from),
{
    let piece = match piece_at(&state.board, from) {
        Some(p) => p,
        None => {
            proof {
                lemma_grows_refl(moves@, from);
            }
            return;
        },
    };
    let ghost start = old(moves)@;
    let dir: i8 = if piece.color == Color::White { 1 } else { -1 };
    let file = from.0 as i8;
    let rank = from.1 as i8;
    pawn_push(state, piece.color, from, moves);
    let ghost after_push = moves@;
    pawn_capture(state, piece.color, from, -1, moves);
    let ghost after_left = moves@;
    proof {
        lemma_grows_trans(start, after_push, after_left, from);
    }
    pawn_capture(state, piece.color, from, 1, moves);
    let ghost after_right = moves@;
    proof {
        assert forall|x: int, y: int| start.len() <= x < after_left.len() <= y < after_right.len() implies after_left[x]
            != after_right[y] by {
            if x < after_push.len() {
                assert(after_left.subrange(0, after_push.len() as int)[x] == after_left[x]);
            }
        }
        lemma_grows_trans(start, after_left, after_right, from);
    }
    if let Some(ep) = state.en_passant {
        let ep_file = ep.0 as i8;
        let ep_rank = ep.1 as i8;
        if ep_rank == rank + dir && (ep_file == file - 1 || ep_file == file + 1) {
            push_move(moves, from, ep, MoveKind::EnPassant);
        }
    }
    proof {
        if moves@.len() > after_right.len() {
            assert(moves@.subrange(0, after_right.len() as int) =~= after_right);
            assert forall|x: int| start.len() <= x < after_right.len() implies after_right[x].kind != MoveKind::EnPassant by {
                if x < after_left.len() {
                    assert(after_right.subrange(0, after_left.len() as int)[x] == after_right[x]);
                    if x < after_push.len() {
                        assert(after_left.subrange(0, after_push.len() as int)[x] == after_left[x]);
                    }
                }
            }
        } else {
            lemma_grows_refl(after_right, from);
        }
        lemma_grows_trans(start, after_right, moves@, from);
    }
}

pub open spec fn sq_index(sq: Square) -> int {
    sq.1 * 8 + sq.0
}

/// Adds the moves of the piece on `from`, which belongs to the side to move.
fn gen_piece_moves(state: &GameState, from: Square, piece: Piece, moves: &mut Vec<Move>)
    requires
        valid_sq(from),
        squares_valid(*state),
        at(state.board, from) == Some(piece),
    ensures
        forall|m: Move| #[trigger] final(moves)@.contains(m) <==> old(moves)@.contains(m) || (m.from == from
            && valid_sq(m.to) && piece_move(*state, piece, m)),
        grows_from(old(moves)@, final(moves)@, from),
{
    let ghost start = old(moves)@;
    match piece.kind {
        PieceKind::Pawn => gen_pawn_moves(state, from, moves),
        PieceKind::Knight => gen_knight_moves(state, from, moves),
        PieceKind::Bishop => gen_slider_moves(state, from, moves, 4, 8),
        PieceKind::Rook => gen_slider_moves(state, from, moves, 0, 4),
        PieceKind::Queen => gen_slider_moves(state, from, moves, 0, 8),
        PieceKind::King => gen_king_moves(state, from, moves),
    }
    assert forall|m: Move| #[trigger] moves@.contains(m) <==> start.contains(m) || (m.from == from
        && valid_sq(m.to) && piece_move(*state, piece, m)) by {
        if m.from == from && piece_move(*state, piece, m) && piece.kind != PieceKind::Pawn && piece.kind != PieceKind::King {
            if piece.kind == PieceKind::Knight {
                let j = choose|j: int| 0 <= j < 8 && #[trigger] step_to(state.board, m.from, knight_dir(j), m.to, piece.color);
            } else {
                let (lo, hi) = if piece.kind == PieceKind::Bishop { (4int, 8int) } else if piece.kind == PieceKind::Rook {
                    (0int, 4int) } else { (0int, 8int) };
                let j = choose|j: int| lo <= j < hi && #[trigger] ray_reaches(state.board, m.from.0 as int, m.from.1 as int,
                    king_dir(j).0, king_dir(j).1, m.to, piece.color, 8);
                lemma_ray_on_board(state.board, m.from.0 as int, m.from.1 as int, king_dir(j).0, king_dir(j).1, m.to, piece.color, 8);
            }
        }
    }
}

proof fn lemma_ray_on_board(b: Board, f: int, r: int, df: int, dr: int, to: Square, c: Color, fuel: nat)
    requires
        ray_reaches(b, f, r, df, dr, to, c, fuel),
    ensures
        valid_sq(to),
    decreases fuel,
{
    if !sq_is(to, f + df, r + dr) {
        lemma_ray_on_board(b, f + df, r + dr, df, dr, to, c, (fuel - 1) as nat);
    }
}

/// Every pseudo-legal move of the side to move, scanning the board by rank
/// and then by file.
pub fn generate_candidates(state: &GameState) -> (res: Vec<Move>)
    requires
        squares_valid(*state),
    ensures
        forall|m: Move| #[trigger] res@.contains(m) <==> pseudo_legal(*state, m),
        res@.no_duplicates(),
{
    let mut moves: Vec<Move> = Vec::new();
    let mut i: usize = 0;
    while i < 64
        invariant
            i <= 64,
            squares_valid(*state),
            forall|m: Move| #[trigger] moves@.contains(m) <==> pseudo_legal(*state, m) && sq_index(m.from) < i,
            moves@.no_duplicates(),
            forall|k: int| 0 <= k < moves@.len() ==> sq_index((#[trigger] moves@[k]).from) < i,
        decreases 64 - i,
    {
        let from = ((i % 8) as u8, (i / 8) as u8);
        let ghost before = moves@;
        if let Some(piece) = piece_at(&state.board, from) {
            if piece.color == state.side_to_move {
                gen_piece_moves(state, from, piece, &mut moves);
            }
        }
        proof {
            if moves@.len() == before.len() {
                assert(moves@ =~= before);
            }
            assert(sq_index(from) == i);
            assert forall|k: int| 0 <= k < moves@.len() implies sq_index((#[trigger] moves@[k]).from) < i + 1 by {
                if k < before.len() {
                    assert(moves@.subrange(0, before.len() as int)[k] == moves@[k]);
                    assert(before[k] == moves@[k]);
                }
            }
            assert forall|a: int, c: int| 0 <= a < moves@.len() && 0 <= c < moves@.len() && a != c implies moves@[a] != moves@[c] by {
                if a < before.len() {
                    assert(moves@.subrange(0, before.len() as int)[a] == moves@[a]);
                    assert(before[a] == moves@[a]);
                }
                if c < before.len() {
                    assert(moves@.subrange(0, before.len() as int)[c] == moves@[c]);
                    assert(before[c] == moves@[c]);
                }
            }
        }
        assert forall|m: Move| #[trigger] moves@.contains(m) <==> pseudo_legal(*state, m) && sq_index(m.from) < i + 1 by {
            if valid_sq(m.from) && sq_index(m.from) == i {
                assert(m.from == from);
            }
            if m.from == from {
                assert(sq_index(m.from) == i);
            }
        }
        i += 1;
    }
    assert forall|m: Move| #[trigger] moves@.contains(m) <==> pseudo_legal(*state, m) by {
        if pseudo_legal(*state, m) {
            assert(sq_index(m.from) < 64);
        }
    }
    moves
}

} // verus!
