use vstd::prelude::*;
use crate::attack::{
    attacked, diagonal_attack, holds, king_attack, knight_attack, orthogonal_attack, pawn_attack, pawn_dir, ray_first,
    slider_hit, unit_dir,
};
use crate::board::{at, cell, on_board, valid_sq, Board, Color, Piece, PieceKind, Square};
use crate::dirs::{bishop_dir, king_dir, knight_dir, rook_dir};
use crate::movegen::{castle_move, empty, open_for, pawn_kind_ok, pseudo_legal, ray_reaches, sq_is, step_to};
use crate::moves::{Move, MoveKind};
use crate::rules::{
    applied, castle_king_to, castle_rook_from, castle_rook_to, cell_after, ep_victim, in_check, is_castle, king_scan,
    landing, legal,
};
use crate::state::{is_start, start_cell, GameState};

verus! {

/// `x` moved `j` unit steps in the direction of `d`.
pub open spec fn off(x: int, d: int, j: int) -> int {
    if d > 0 { x + j } else if d < 0 { x - j } else { x }
}

/// A slider's walk reaches `to` after some `n` steps over empty squares.
proof fn lemma_ray_shape(b: Board, f: int, r: int, df: int, dr: int, to: Square, c: Color, fuel: nat) -> (n: int)
    requires
        unit_dir(df, dr),
        ray_reaches(b, f, r, df, dr, to, c, fuel),
    ensures
        1 <= n <= fuel,
        to.0 == off(f, df, n),
        to.1 == off(r, dr, n),
        on_board(to.0 as int, to.1 as int),
        open_for(b, to.0 as int, to.1 as int, c),
        forall|j: int| 1 <= j < n ==> #[trigger] empty(b, off(f, df, j), off(r, dr, j)),
    decreases fuel,
{
    if sq_is(to, f + df, r + dr) {
        1
    } else {
        let n1 = lemma_ray_shape(b, f + df, r + dr, df, dr, to, c, (fuel - 1) as nat);
        assert forall|j: int| 1 <= j < n1 + 1 implies #[trigger] empty(b, off(f, df, j), off(r, dr, j)) by {
            if j > 1 {
                assert(off(f + df, df, j - 1) == off(f, df, j));
                assert(off(r + dr, dr, j - 1) == off(r, dr, j));
                assert(empty(b, off(f + df, df, j - 1), off(r + dr, dr, j - 1)));
            }
        }
        n1 + 1
    }
}

/// Walking back from (g, h) over `n - 1` empty squares meets the piece `n`
/// steps away.
proof fn lemma_ray_back(b: Board, g: int, h: int, df: int, dr: int, n: int, p: Piece, fuel: nat)
    requires
        unit_dir(df, dr),
        1 <= n <= fuel,
        on_board(g, h),
        on_board(off(g, -df, n), off(h, -dr, n)),
        cell(b, off(g, -df, n), off(h, -dr, n)) == Some(p),
        forall|j: int| 1 <= j < n ==> #[trigger] empty(b, off(g, -df, j), off(h, -dr, j)),
    ensures
        ray_first(b, g, h, -df, -dr, fuel) == Some(p),
    decreases n,
{
    assert(off(g, -df, 1) == g - df);
    assert(off(h, -dr, 1) == h - dr);
    if n > 1 {
        assert(empty(b, off(g, -df, 1), off(h, -dr, 1)));
        assert forall|j: int| 1 <= j < n - 1 implies #[trigger] empty(b, off(g - df, -df, j), off(h - dr, -dr, j)) by {
            assert(off(g - df, -df, j) == off(g, -df, j + 1));
            assert(off(h - dr, -dr, j) == off(h, -dr, j + 1));
            assert(empty(b, off(g, -df, j + 1), off(h, -dr, j + 1)));
        }
        assert(off(g - df, -df, n - 1) == off(g, -df, n));
        assert(off(h - dr, -dr, n - 1) == off(h, -dr, n));
        lemma_ray_back(b, g - df, h - dr, df, dr, n - 1, p, (fuel - 1) as nat);
    }
}

/// A slider of `c` on `m.from` that reaches an occupied `m.to` along
/// `king_dir(i)` attacks it.
proof fn lemma_slider_capture_attacks(b: Board, m: Move, p: Piece, i: int)
    requires
        0 <= i < 8,
        valid_sq(m.from),
        cell(b, m.from.0 as int, m.from.1 as int) == Some(p),
        ray_reaches(b, m.from.0 as int, m.from.1 as int, king_dir(i).0, king_dir(i).1, m.to, p.color, 8),
        cell(b, m.to.0 as int, m.to.1 as int).is_some(),
        i < 4 ==> p.kind == PieceKind::Rook || p.kind == PieceKind::Queen,
        i >= 4 ==> p.kind == PieceKind::Bishop || p.kind == PieceKind::Queen,
    ensures
        attacked(b, m.to.0 as int, m.to.1 as int, p.color),
{
    let (df, dr) = king_dir(i);
    let f = m.from.0 as int;
    let r = m.from.1 as int;
    let g = m.to.0 as int;
    let h = m.to.1 as int;
    let n = lemma_ray_shape(b, f, r, df, dr, m.to, p.color, 8);
    assert forall|j: int| 1 <= j < n implies #[trigger] empty(b, off(g, -df, j), off(h, -dr, j)) by {
        assert(off(g, -df, j) == off(f, df, n - j));
        assert(off(h, -dr, j) == off(r, dr, n - j));
        assert(empty(b, off(f, df, n - j), off(r, dr, n - j)));
    }
    assert(off(g, -df, n) == f && off(h, -dr, n) == r);
    lemma_ray_back(b, g, h, df, dr, n, p, 8);
    if i < 4 {
        let j = if i == 0 { 1int } else if i == 1 { 0int } else if i == 2 { 3int } else { 2int };
        assert(rook_dir(j) == (-df, -dr));
        assert(slider_hit(ray_first(b, g, h, rook_dir(j).0, rook_dir(j).1, 8), p.color, PieceKind::Rook));
        assert(orthogonal_attack(b, g, h, p.color));
    } else {
        let j = 7 - i;
        assert(bishop_dir(j) == (-df, -dr));
        assert(slider_hit(ray_first(b, g, h, bishop_dir(j).0, bishop_dir(j).1, 8), p.color, PieceKind::Bishop));
        assert(diagonal_attack(b, g, h, p.color));
    }
}

/// A pseudo-legal move that takes a piece standing on its destination
/// attacks that square.
pub proof fn lemma_capture_attacks(s: GameState, m: Move)
    requires
        pseudo_legal(s, m),
        m.kind == MoveKind::Normal || m.kind is Promotion,
        at(s.board, m.to).is_some(),
    ensures
        attacked(s.board, m.to.0 as int, m.to.1 as int, s.side_to_move),
{
    let b = s.board;
    let p = at(b, m.from).unwrap();
    let g = m.to.0 as int;
    let h = m.to.1 as int;
    match p.kind {
        PieceKind::Pawn => {
            assert(pawn_attack(b, g, h, p.color));
        },
        PieceKind::Knight => {
            let i = choose|i: int| 0 <= i < 8 && #[trigger] step_to(b, m.from, knight_dir(i), m.to, p.color);
            let j = if i < 4 { i + 4 } else { i - 4 };
            assert(holds(b, g + knight_dir(j).0, h + knight_dir(j).1, Piece { color: p.color, kind: PieceKind::Knight }));
            assert(knight_attack(b, g, h, p.color));
        },
        PieceKind::King => {
            let i = choose|i: int| 0 <= i < 8 && #[trigger] step_to(b, m.from, king_dir(i), m.to, p.color);
            let j = if i == 0 { 1int } else if i == 1 { 0int } else if i == 2 { 3int } else if i == 3 { 2int } else { 11 - i };
            assert(holds(b, g + king_dir(j).0, h + king_dir(j).1, Piece { color: p.color, kind: PieceKind::King }));
            assert(king_attack(b, g, h, p.color));
        },
        _ => {
            let (lo, hi) = if p.kind == PieceKind::Bishop { (4int, 8int) } else if p.kind == PieceKind::Rook { (0int, 4int) } else {
                (0int, 8int) };
            let i = choose|i: int| lo <= i < hi && #[trigger] ray_reaches(b, m.from.0 as int, m.from.1 as int,
                king_dir(i).0, king_dir(i).1, m.to, p.color, 8);
            lemma_slider_capture_attacks(b, m, p, i);
        },
    }
}

/// `k` holds the king of `c`, and no other square does.
pub open spec fn sole_king(b: Board, c: Color, k: Square) -> bool {
    &&& valid_sq(k)
    &&& at(b, k) == Some(Piece { color: c, kind: PieceKind::King })
    &&& forall|sq: Square| valid_sq(sq) && #[trigger] at(b, sq) == Some(Piece { color: c, kind: PieceKind::King }) ==> sq == k
}

proof fn lemma_scan_finds(b: Board, c: Color, k: Square, i: int)
    requires
        sole_king(b, c, k),
        0 <= i <= k.1 * 8 + k.0,
    ensures
        king_scan(b, c, i) == Some(k),
    decreases k.1 * 8 + k.0 - i,
{
    let sq: Square = ((i % 8) as u8, (i / 8) as u8);
    assert(valid_sq(sq));
    if i < k.1 * 8 + k.0 {
        if cell(b, i % 8, i / 8) == Some(Piece { color: c, kind: PieceKind::King }) {
            assert(at(b, sq) == Some(Piece { color: c, kind: PieceKind::King }));
        }
        lemma_scan_finds(b, c, k, i + 1);
    }
}

/// With a single king of `c` on `k`, `c` is in check exactly when `k` is attacked.
pub proof fn lemma_in_check_sole(b: Board, c: Color, k: Square)
    requires
        sole_king(b, c, k),
    ensures
        crate::rules::in_check(b, c) == attacked(b, k.0 as int, k.1 as int, c.opp()),
{
    lemma_scan_finds(b, c, k, 0);
}

/// An en-passant target, when set, is an empty square behind a pawn of the
/// side that just moved, on the rank such a double step crosses.
pub open spec fn ep_consistent(s: GameState) -> bool {
    match s.en_passant {
        Some(ep) => {
            &&& valid_sq(ep)
            &&& ep.1 == (if s.side_to_move == Color::White { 5u8 } else { 2u8 })
            &&& at(s.board, ep).is_none()
            &&& cell(s.board, ep.0 as int, ep.1 - pawn_dir(s.side_to_move))
                == Some(Piece { color: s.side_to_move.opp(), kind: PieceKind::Pawn })
        },
        None => true,
    }
}

/// Exactly one square holds the king of `c`.
pub open spec fn has_sole_king(b: Board, c: Color) -> bool {
    exists|k: Square| #[trigger] sole_king(b, c, k)
}

/// What holds of every position reached by legal play from the opening
/// setup: one king of each side, the side that just moved out of check, and
/// a consistent en-passant target.
pub open spec fn sound(s: GameState) -> bool {
    &&& has_sole_king(s.board, Color::White)
    &&& has_sole_king(s.board, Color::Black)
    &&& !in_check(s.board, s.side_to_move.opp())
    &&& ep_consistent(s)
}

/// The destination of a plain move or a promotion holds no piece of the mover.
proof fn lemma_to_open(s: GameState, m: Move)
    requires
        pseudo_legal(s, m),
        m.kind == MoveKind::Normal || m.kind is Promotion,
    ensures
        open_for(s.board, m.to.0 as int, m.to.1 as int, s.side_to_move),
{
    let b = s.board;
    let p = at(b, m.from).unwrap();
    if p.kind == PieceKind::Bishop || p.kind == PieceKind::Rook || p.kind == PieceKind::Queen {
        let (lo, hi) = if p.kind == PieceKind::Bishop { (4int, 8int) } else if p.kind == PieceKind::Rook { (0int, 4int) } else {
            (0int, 8int) };
        let i = choose|i: int| lo <= i < hi && #[trigger] ray_reaches(b, m.from.0 as int, m.from.1 as int,
            king_dir(i).0, king_dir(i).1, m.to, p.color, 8);
        lemma_ray_shape(b, m.from.0 as int, m.from.1 as int, king_dir(i).0, king_dir(i).1, m.to, p.color, 8);
    } else if p.kind == PieceKind::Knight {
        let i = choose|i: int| 0 <= i < 8 && #[trigger] step_to(b, m.from, knight_dir(i), m.to, p.color);
    } else if p.kind == PieceKind::King {
        let i = choose|i: int| 0 <= i < 8 && #[trigger] step_to(b, m.from, king_dir(i), m.to, p.color);
    }
}

proof fn lemma_mover_king(s: GameState, m: Move, t: GameState, kc: Square)
    requires
        sole_king(s.board, s.side_to_move, kc),
        ep_consistent(s),
        pseudo_legal(s, m),
        applied(s, m, t),
    ensures
        sole_king(t.board, s.side_to_move, if at(s.board, m.from).unwrap().kind == PieceKind::King { landing(s, m) } else { kc }),
{
    let b = s.board;
    let c = s.side_to_move;
    let p = at(b, m.from).unwrap();
    let king = Piece { color: c, kind: PieceKind::King };
    if m.kind == MoveKind::Normal || m.kind is Promotion {
        lemma_to_open(s, m);
    }
    if p.kind == PieceKind::King {
        assert(m.from == kc);
        let l = landing(s, m);
        assert(valid_sq(l));
        assert(cell(t.board, l.0 as int, l.1 as int) == cell_after(s, m, l.0 as int, l.1 as int));
        assert forall|sq: Square| valid_sq(sq) && #[trigger] at(t.board, sq) == Some(king) implies sq == l by {
            assert(cell(t.board, sq.0 as int, sq.1 as int) == cell_after(s, m, sq.0 as int, sq.1 as int));
            if sq != l && sq != m.from {
                assert(at(b, sq) == Some(king) || at(b, castle_rook_from(c, m.kind)) == Some(king));
            }
        }
    } else {
        assert(kc != m.from);
        assert(!is_castle(m.kind));
        assert(m.kind is Promotion ==> p.kind == PieceKind::Pawn && pawn_kind_ok(m.kind, c, m.to));
        assert(cell(t.board, kc.0 as int, kc.1 as int) == cell_after(s, m, kc.0 as int, kc.1 as int));
        assert forall|sq: Square| valid_sq(sq) && #[trigger] at(t.board, sq) == Some(king) implies sq == kc by {
            assert(cell(t.board, sq.0 as int, sq.1 as int) == cell_after(s, m, sq.0 as int, sq.1 as int));
            if sq != m.to && sq != m.from && !(m.kind == MoveKind::EnPassant && sq == ep_victim(m)) {
                assert(at(b, sq) == Some(king));
            }
        }
    }
}

proof fn lemma_other_king(s: GameState, m: Move, t: GameState, ko: Square)
    requires
        sole_king(s.board, s.side_to_move.opp(), ko),
        !in_check(s.board, s.side_to_move.opp()),
        ep_consistent(s),
        pseudo_legal(s, m),
        applied(s, m, t),
    ensures
        sole_king(t.board, s.side_to_move.opp(), ko),
{
    let b = s.board;
    let c = s.side_to_move;
    let o = c.opp();
    let king = Piece { color: o, kind: PieceKind::King };
    lemma_in_check_sole(b, o, ko);
    if (m.kind == MoveKind::Normal || m.kind is Promotion) && m.to == ko {
        lemma_capture_attacks(s, m);
    }
    let p = at(b, m.from).unwrap();
    assert(p.color == c);
    assert(is_castle(m.kind) ==> p.kind == PieceKind::King && castle_move(s, c, m));
    assert(is_castle(m.kind) ==> at(b, castle_rook_from(c, m.kind)) == Some(Piece { color: c, kind: PieceKind::Rook }));
    assert(cell(t.board, ko.0 as int, ko.1 as int) == cell_after(s, m, ko.0 as int, ko.1 as int));
    assert forall|sq: Square| valid_sq(sq) && #[trigger] at(t.board, sq) == Some(king) implies sq == ko by {
        assert(cell(t.board, sq.0 as int, sq.1 as int) == cell_after(s, m, sq.0 as int, sq.1 as int));
        if is_castle(m.kind) {
            if sq != castle_rook_to(c, m.kind) && sq != castle_rook_from(c, m.kind) && sq != castle_king_to(c, m.kind)
                && sq != m.from {
                assert(at(b, sq) == Some(king));
            }
        } else if sq != m.to && sq != m.from && !(m.kind == MoveKind::EnPassant && sq == ep_victim(m)) {
            assert(at(b, sq) == Some(king));
        }
    }
}

proof fn lemma_ep_after(s: GameState, m: Move, t: GameState)
    requires
        pseudo_legal(s, m),
        applied(s, m, t),
    ensures
        ep_consistent(t),
{
    if let Some(ep) = t.en_passant {
        let f = ep.0 as int;
        assert(cell(t.board, f, ep.1 as int) == cell_after(s, m, f, ep.1 as int));
        assert(cell(t.board, m.to.0 as int, m.to.1 as int) == cell_after(s, m, m.to.0 as int, m.to.1 as int));
    }
}

/// Legal moves keep positions sound.
pub proof fn lemma_sound_step(s: GameState, m: Move, t: GameState)
    requires
        sound(s),
        legal(s, m),
        applied(s, m, t),
    ensures
        sound(t),
{
    let c = s.side_to_move;
    let o = c.opp();
    let kc = choose|k: Square| #[trigger] sole_king(s.board, c, k);
    let ko = choose|k: Square| #[trigger] sole_king(s.board, o, k);
    lemma_mover_king(s, m, t, kc);
    lemma_other_king(s, m, t, ko);
    lemma_ep_after(s, m, t);
    let kc2 = if at(s.board, m.from).unwrap().kind == PieceKind::King { landing(s, m) } else { kc };
    assert(sole_king(t.board, c, kc2));
    assert(sole_king(t.board, o, ko));
    if c == Color::White {
        assert(has_sole_king(t.board, Color::White));
        assert(has_sole_king(t.board, Color::Black));
    } else {
        assert(has_sole_king(t.board, Color::Black));
        assert(has_sole_king(t.board, Color::White));
    }
}

proof fn lemma_start_sole_kings(s: GameState)
    requires
        is_start(s),
    ensures
        sole_king(s.board, Color::White, (4u8, 0u8)),
        sole_king(s.board, Color::Black, (4u8, 7u8)),
{
    assert(cell(s.board, 4, 0) == start_cell(4, 0));
    assert(cell(s.board, 4, 7) == start_cell(4, 7));
    assert forall|sq: Square| valid_sq(sq) && #[trigger] at(s.board, sq) == Some(Piece { color: Color::White, kind: PieceKind::King })
        implies sq == (4u8, 0u8) by {
        assert(cell(s.board, sq.0 as int, sq.1 as int) == start_cell(sq.0 as int, sq.1 as int));
    }
    assert forall|sq: Square| valid_sq(sq) && #[trigger] at(s.board, sq) == Some(Piece { color: Color::Black, kind: PieceKind::King })
        implies sq == (4u8, 7u8) by {
        assert(cell(s.board, sq.0 as int, sq.1 as int) == start_cell(sq.0 as int, sq.1 as int));
    }
}

proof fn lemma_start_black_safe(s: GameState)
    requires
        is_start(s),
    ensures
        !attacked(s.board, 4, 7, Color::White),
{
    let b = s.board;
    assert forall|f: int, r: int| on_board(f, r) && r >= 5 implies #[trigger] cell(b, f, r) != Some(Piece { color: Color::White, kind: cell(b, f, r).unwrap().kind }) by {
        assert(cell(b, f, r) == start_cell(f, r));
    }
    assert forall|f: int, r: int| on_board(f, r) && r >= 6 implies #[trigger] cell(b, f, r).is_some() by {
        assert(cell(b, f, r) == start_cell(f, r));
    }
    assert(!knight_attack(b, 4, 7, Color::White));
    assert(!king_attack(b, 4, 7, Color::White));
    assert forall|i: int| 0 <= i < 4 implies !slider_hit(ray_first(b, 4, 7, #[trigger] bishop_dir(i).0, bishop_dir(i).1, 8),
        Color::White, PieceKind::Bishop) by {
    }
    assert forall|i: int| 0 <= i < 4 implies !slider_hit(ray_first(b, 4, 7, #[trigger] rook_dir(i).0, rook_dir(i).1, 8),
        Color::White, PieceKind::Rook) by {
    }
}

/// The opening setup is sound.
pub proof fn lemma_start_sound(s: GameState)
    requires
        is_start(s),
    ensures
        sound(s),
{
    lemma_start_sole_kings(s);
    lemma_start_black_safe(s);
    lemma_in_check_sole(s.board, Color::Black, (4u8, 7u8));
    assert(has_sole_king(s.board, Color::White));
    assert(has_sole_king(s.board, Color::Black));
}

} // verus!
