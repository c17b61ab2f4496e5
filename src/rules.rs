use vstd::prelude::*;
use crate::attack::{attacked, diagonal_attacked, holds_at, king_attacked, knight_attacked, orthogonal_attacked};
use crate::board::{at, cell, on_board, piece_at, set_piece, valid_sq, Board, Color, Piece, PieceKind, Square};
use crate::movegen::{generate_candidates, pseudo_legal};
use crate::moves::{Move, MoveKind};
use crate::state::{squares_valid, CastlingRights, GameState};

verus! {

broadcast use vstd::seq_lib::lemma_seq_contains_after_push;

pub open spec fn home_rank(c: Color) -> u8 {
    if c == Color::White { 0 } else { 7 }
}

pub open spec fn is_castle(k: MoveKind) -> bool {
    k == MoveKind::CastleKingside || k == MoveKind::CastleQueenside
}

/// Where the king lands when castling on that wing.
pub open spec fn castle_king_to(c: Color, k: MoveKind) -> Square {
    (if k == MoveKind::CastleKingside { 6u8 } else { 2u8 }, home_rank(c))
}

pub open spec fn castle_rook_from(c: Color, k: MoveKind) -> Square {
    (if k == MoveKind::CastleKingside { 7u8 } else { 0u8 }, home_rank(c))
}

pub open spec fn castle_rook_to(c: Color, k: MoveKind) -> Square {
    (if k == MoveKind::CastleKingside { 5u8 } else { 3u8 }, home_rank(c))
}

/// The square of the pawn that an en-passant capture removes.
pub open spec fn ep_victim(m: Move) -> Square {
    (m.to.0, m.from.1)
}

/// What `apply_move_unchecked` needs: the squares are on the board, a piece
/// stands on `from`, and a castle finds its rook.
pub open spec fn can_apply(s: GameState, m: Move) -> bool {
    &&& valid_sq(m.from)
    &&& valid_sq(m.to)
    &&& at(s.board, m.from).is_some()
    &&& is_castle(m.kind) ==> at(s.board, castle_rook_from(at(s.board, m.from).unwrap().color, m.kind)).is_some()
}

/// The content of (f, r) after `m` is played.
pub open spec fn cell_after(s: GameState, m: Move, f: int, r: int) -> Option<Piece> {
    let b = s.board;
    let p = at(b, m.from).unwrap();
    let here = |sq: Square| f == sq.0 && r == sq.1;
    match m.kind {
        MoveKind::CastleKingside | MoveKind::CastleQueenside => {
            if here(castle_rook_to(p.color, m.kind)) {
                at(b, castle_rook_from(p.color, m.kind))
            } else if here(castle_rook_from(p.color, m.kind)) {
                None
            } else if here(castle_king_to(p.color, m.kind)) {
                Some(p)
            } else if here(m.from) {
                None
            } else {
                cell(b, f, r)
            }
        },
        MoveKind::EnPassant => {
            if here(m.to) { Some(p) } else if here(m.from) || here(ep_victim(m)) { None } else { cell(b, f, r) }
        },
        MoveKind::Promotion(k) => {
            if here(m.to) { Some(Piece { color: p.color, kind: k }) } else if here(m.from) { None } else { cell(b, f, r) }
        },
        MoveKind::Normal => {
            if here(m.to) { Some(p) } else if here(m.from) { None } else { cell(b, f, r) }
        },
    }
}

/// The rights left once `p` has moved away from `from`.
pub open spec fn rights_after_move(c: CastlingRights, p: Piece, from: Square) -> CastlingRights {
    if p.kind == PieceKind::King {
        if p.color == Color::White {
            CastlingRights { white_kingside: false, white_queenside: false, ..c }
        } else {
            CastlingRights { black_kingside: false, black_queenside: false, ..c }
        }
    } else if p.kind == PieceKind::Rook {
        rights_after_rook_gone(c, p.color, from)
    } else {
        c
    }
}

/// The rights left once a rook of `color` is gone from `sq`.
pub open spec fn rights_after_rook_gone(c: CastlingRights, color: Color, sq: Square) -> CastlingRights {
    if color == Color::White && sq == (0u8, 0u8) {
        CastlingRights { white_queenside: false, ..c }
    } else if color == Color::White && sq == (7u8, 0u8) {
        CastlingRights { white_kingside: false, ..c }
    } else if color == Color::Black && sq == (0u8, 7u8) {
        CastlingRights { black_queenside: false, ..c }
    } else if color == Color::Black && sq == (7u8, 7u8) {
        CastlingRights { black_kingside: false, ..c }
    } else {
        c
    }
}

/// The square and piece that `m` captures, if any.
pub open spec fn capture_of(s: GameState, m: Move) -> Option<(Square, Piece)> {
    match m.kind {
        MoveKind::CastleKingside | MoveKind::CastleQueenside => None,
        MoveKind::EnPassant => match at(s.board, ep_victim(m)) {
            Some(q) => Some((ep_victim(m), q)),
            None => None,
        },
        _ => match at(s.board, m.to) {
            Some(q) => Some((m.to, q)),
            None => None,
        },
    }
}

pub open spec fn rights_after(s: GameState, m: Move) -> CastlingRights {
    let c = rights_after_move(s.castling, at(s.board, m.from).unwrap(), m.from);
    match capture_of(s, m) {
        Some((sq, q)) => if q.kind == PieceKind::Rook { rights_after_rook_gone(c, q.color, sq) } else { c },
        None => c,
    }
}

/// A double pawn push leaves the square it passed over as en-passant target.
pub open spec fn ep_after(s: GameState, m: Move) -> Option<Square> {
    let p = at(s.board, m.from).unwrap();
    if p.kind == PieceKind::Pawn && m.kind == MoveKind::Normal && m.from.0 == m.to.0 && (
        m.to.1 == m.from.1 + 2 || m.from.1 == m.to.1 + 2) {
        Some((m.from.0, ((m.from.1 + m.to.1) / 2) as u8))
    } else {
        None
    }
}

/// Where the king of `c` is recorded after `m`.
pub open spec fn king_after(s: GameState, m: Move, c: Color, before: Square) -> Square {
    let p = at(s.board, m.from).unwrap();
    if p.kind == PieceKind::King && p.color == c {
        if is_castle(m.kind) { castle_king_to(c, m.kind) } else { m.to }
    } else {
        before
    }
}

/// `t` is the position that playing `m` in `s` produces.
pub open spec fn applied(s: GameState, m: Move, t: GameState) -> bool {
    &&& forall|f: int, r: int| on_board(f, r) ==> #[trigger] cell(t.board, f, r) == cell_after(s, m, f, r)
    &&& t.side_to_move == s.side_to_move.opp()
    &&& t.castling == rights_after(s, m)
    &&& t.en_passant == ep_after(s, m)
    &&& t.white_king == king_after(s, m, Color::White, s.white_king)
    &&& t.black_king == king_after(s, m, Color::Black, s.black_king)
}

fn clear_castling_rights(castling: &mut CastlingRights, color: Color)
    ensures
        *final(castling) == (if color == Color::White {
            CastlingRights { white_kingside: false, white_queenside: false, ..*old(castling) }
        } else {
            CastlingRights { black_kingside: false, black_queenside: false, ..*old(castling) }
        }),
{
    match color {
        Color::White => {
            castling.white_kingside = false;
            castling.white_queenside = false;
        },
        Color::Black => {
            castling.black_kingside = false;
            castling.black_queenside = false;
        },
    }
}

fn clear_rook_right(castling: &mut CastlingRights, color: Color, sq: Square)
    ensures
        *final(castling) == rights_after_rook_gone(*old(castling), color, sq),
{
    match color {
        Color::White => {
            if sq.0 == 0 && sq.1 == 0 {
                castling.white_queenside = false;
            } else if sq.0 == 7 && sq.1 == 0 {
                castling.white_kingside = false;
            }
        },
        Color::Black => {
            if sq.0 == 0 && sq.1 == 7 {
                castling.black_queenside = false;
            } else if sq.0 == 7 && sq.1 == 7 {
                castling.black_kingside = false;
            }
        },
    }
}

fn update_castling_rights_on_move(state: &mut GameState, piece: Piece, from: Square)
    ensures
        *final(state) == (GameState { castling: rights_after_move(old(state).castling, piece, from), ..*old(state) }),
{
    match piece.kind {
        PieceKind::King => clear_castling_rights(&mut state.castling, piece.color),
        PieceKind::Rook => clear_rook_right(&mut state.castling, piece.color, from),
        _ => {},
    }
}

fn update_castling_rights_on_capture(state: &mut GameState, square: Square, piece: Piece)
    ensures
        *final(state) == (GameState {
            castling: if piece.kind == PieceKind::Rook {
                rights_after_rook_gone(old(state).castling, piece.color, square)
            } else {
                old(state).castling
            },
            ..*old(state)
        }),
{
    if piece.kind == PieceKind::Rook {
        clear_rook_right(&mut state.castling, piece.color, square);
    }
}

/// The square the moving piece ends on.
pub open spec fn landing(s: GameState, m: Move) -> Square {
    if is_castle(m.kind) { castle_king_to(at(s.board, m.from).unwrap().color, m.kind) } else { m.to }
}

/// Moves the pieces that `mv` moves and reports what it captured and where
/// the moving piece landed; the other fields stay.
fn move_pieces(state: &mut GameState, mv: Move, moving_piece: Piece) -> (res: (Option<(Square, Piece)>, Square))
    requires
        can_apply(*old(state), mv),
        at(old(state).board, mv.from) == Some(moving_piece),
    ensures
        forall|f: int, r: int| on_board(f, r) ==> #[trigger] cell(final(state).board, f, r) == cell_after(*old(state), mv, f, r),
        final(state).side_to_move == old(state).side_to_move,
        final(state).castling == old(state).castling,
        final(state).en_passant == old(state).en_passant,
        final(state).white_king == old(state).white_king,
        final(state).black_king == old(state).black_king,
        res.0 == capture_of(*old(state), mv),
        res.1 == landing(*old(state), mv),
{
    let from = mv.from;
    let to = mv.to;
    match mv.kind {
        MoveKind::CastleKingside | MoveKind::CastleQueenside => {
            let rank: u8 = if moving_piece.color == Color::White { 0 } else { 7 };
            let kingside = match mv.kind {
                MoveKind::CastleKingside => true,
                _ => false,
            };
            let (rook_from_file, rook_to_file, king_to_file): (u8, u8, u8) = if kingside {
                (7, 5, 6)
            } else {
                (0, 3, 2)
            };
            let rook = piece_at(&state.board, (rook_from_file, rank));
            set_piece(&mut state.board, from, None);
            set_piece(&mut state.board, (king_to_file, rank), Some(moving_piece));
            set_piece(&mut state.board, (rook_from_file, rank), None);
            set_piece(&mut state.board, (rook_to_file, rank), rook);
            (None, (king_to_file, rank))
        },
        MoveKind::EnPassant => {
            let victim = (to.0, from.1);
            let taken = piece_at(&state.board, victim);
            set_piece(&mut state.board, victim, None);
            set_piece(&mut state.board, from, None);
            set_piece(&mut state.board, to, Some(moving_piece));
            match taken {
                Some(q) => (Some((victim, q)), to),
                None => (None, to),
            }
        },
        MoveKind::Promotion(promo) => {
            let taken = piece_at(&state.board, to);
            set_piece(&mut state.board, from, None);
            set_piece(&mut state.board, to, Some(Piece { color: moving_piece.color, kind: promo }));
            match taken {
                Some(q) => (Some((to, q)), to),
                None => (None, to),
            }
        },
        MoveKind::Normal => {
            let taken = piece_at(&state.board, to);
            set_piece(&mut state.board, from, None);
            set_piece(&mut state.board, to, Some(moving_piece));
            match taken {
                Some(q) => (Some((to, q)), to),
                None => (None, to),
            }
        },
    }
}

/// Plays `mv` in place, with no check that it is legal.
pub fn apply_move_unchecked(state: &mut GameState, mv: Move)
    requires
        can_apply(*old(state), mv),
    ensures
        applied(*old(state), mv, *final(state)),
        squares_valid(*old(state)) ==> squares_valid(*final(state)),
{
    let from = mv.from;
    let to = mv.to;
    let moving_piece = match piece_at(&state.board, from) {
        Some(p) => p,
        None => return,
    };
    let (capture, landed) = move_pieces(state, mv, moving_piece);
    state.en_passant = None;
    if moving_piece.kind == PieceKind::King {
        if moving_piece.color == Color::White {
            state.white_king = landed;
        } else {
            state.black_king = landed;
        }
    }
    update_castling_rights_on_move(state, moving_piece, from);
    if let Some((square, piece)) = capture {
        update_castling_rights_on_capture(state, square, piece);
    }
    if moving_piece.kind == PieceKind::Pawn && from.0 == to.0 {
        if let MoveKind::Normal = mv.kind {
            if to.1 == from.1 + 2 || from.1 == to.1 + 2 {
                state.en_passant = Some((from.0, (from.1 + to.1) / 2));
            }
        }
    }
    state.side_to_move = state.side_to_move.opposite();
}

/// The first square, in rank-major order from index `i`, that holds the king of `c`.
pub open spec fn king_scan(b: Board, c: Color, i: int) -> Option<Square>
    decreases 64 - i,
{
    if i < 0 || i >= 64 {
        None
    } else if cell(b, i % 8, i / 8) == Some(Piece { color: c, kind: PieceKind::King }) {
        Some(((i % 8) as u8, (i / 8) as u8))
    } else {
        king_scan(b, c, i + 1)
    }
}

/// The king of `c` is attacked; a board without that king is never in check.
pub open spec fn in_check(b: Board, c: Color) -> bool {
    match king_scan(b, c, 0) {
        Some(k) => attacked(b, k.0 as int, k.1 as int, c.opp()),
        None => false,
    }
}

pub proof fn lemma_king_scan_valid(b: Board, c: Color, i: int)
    ensures
        match king_scan(b, c, i) {
            Some(k) => valid_sq(k) && at(b, k) == Some(Piece { color: c, kind: PieceKind::King }),
            None => true,
        },
    decreases 64 - i,
{
    if 0 <= i < 64 {
        lemma_king_scan_valid(b, c, i + 1);
    }
}

pub(crate) fn find_king(board: &Board, color: Color) -> (res: Option<Square>)
    ensures
        res == king_scan(*board, color, 0),
{
    let king = Piece { color, kind: PieceKind::King };
    let mut i: usize = 0;
    while i < 64
        invariant
            i <= 64,
            king == (Piece { color, kind: PieceKind::King }),
            king_scan(*board, color, 0) == king_scan(*board, color, i as int),
        decreases 64 - i,
    {
        let file = i % 8;
        let rank = i / 8;
        if let Some(p) = board[rank][file] {
            if p == king {
                return Some((file as u8, rank as u8));
            }
        }
        i += 1;
    }
    None
}

pub fn is_in_check(state: &GameState, color: Color) -> (res: bool)
    ensures
        res == in_check(state.board, color),
{
    proof {
        lemma_king_scan_valid(state.board, color, 0);
    }
    match find_king(&state.board, color) {
        Some(k) => is_square_attacked(state, k, color.opposite()),
        None => false,
    }
}

pub fn is_square_attacked(state: &GameState, square: Square, by_color: Color) -> (res: bool)
    requires
        valid_sq(square),
    ensures
        res == attacked(state.board, square.0 as int, square.1 as int, by_color),
{
    let board = &state.board;
    let file = square.0 as i8;
    let rank = square.1 as i8;
    let pawn_dr: i8 = if by_color == Color::White { -1 } else { 1 };
    let p = Piece { color: by_color, kind: PieceKind::Pawn };
    if holds_at(board, file - 1, rank + pawn_dr, p) || holds_at(board, file + 1, rank + pawn_dr, p) {
        return true;
    }
    knight_attacked(board, file, rank, by_color) || king_attacked(board, file, rank, by_color)
        || diagonal_attacked(board, file, rank, by_color)
        || orthogonal_attacked(board, file, rank, by_color)
}

/// The squares a castling king passes over and lands on, on its home rank.
pub open spec fn castle_path_attacked(s: GameState, m: Move) -> bool {
    let rank = home_rank(s.side_to_move) as int;
    let opp = s.side_to_move.opp();
    if m.kind == MoveKind::CastleKingside {
        attacked(s.board, 5, rank, opp) || attacked(s.board, 6, rank, opp)
    } else if m.kind == MoveKind::CastleQueenside {
        attacked(s.board, 3, rank, opp) || attacked(s.board, 2, rank, opp)
    } else {
        false
    }
}

fn king_passes_through_check(state: &GameState, mv: Move) -> (res: bool)
    ensures
        res == castle_path_attacked(*state, mv),
{
    let mover = state.side_to_move;
    let rank: u8 = if mover == Color::White { 0 } else { 7 };
    let (mid_file, end_file): (u8, u8) = match mv.kind {
        MoveKind::CastleKingside => (5, 6),
        MoveKind::CastleQueenside => (3, 2),
        _ => return false,
    };
    let opponent = mover.opposite();
    is_square_attacked(state, (mid_file, rank), opponent) || is_square_attacked(state, (end_file, rank), opponent)
}

/// Two boards that agree on every square are equal.
pub proof fn lemma_board_ext(b1: Board, b2: Board)
    requires
        forall|f: int, r: int| on_board(f, r) ==> #[trigger] cell(b1, f, r) == cell(b2, f, r),
    ensures
        b1 == b2,
{
    assert forall|r: int| 0 <= r < 8 implies b1[r] == b2[r] by {
        assert forall|f: int| 0 <= f < 8 implies b1[r][f] == b2[r][f] by {
            assert(cell(b1, f, r) == cell(b2, f, r));
        }
        assert(b1[r] =~= b2[r]);
    }
    assert(b1 =~= b2);
}

/// `applied` leaves one position possible.
pub proof fn lemma_applied_unique(s: GameState, m: Move, t1: GameState, t2: GameState)
    requires
        applied(s, m, t1),
        applied(s, m, t2),
    ensures
        t1 == t2,
{
    assert forall|f: int, r: int| on_board(f, r) implies #[trigger] cell(t1.board, f, r) == cell(t2.board, f, r) by {
        assert(cell(t1.board, f, r) == cell_after(s, m, f, r));
    }
    lemma_board_ext(t1.board, t2.board);
}

/// After `m` the mover's king is not attacked; a castle also needs the
/// king out of check and its path unattacked.
pub open spec fn king_safe_after(s: GameState, m: Move) -> bool {
    &&& is_castle(m.kind) ==> !in_check(s.board, s.side_to_move) && !castle_path_attacked(s, m)
    &&& forall|t: GameState| #[trigger] applied(s, m, t) ==> !in_check(t.board, s.side_to_move)
}

pub open spec fn legal(s: GameState, m: Move) -> bool {
    pseudo_legal(s, m) && king_safe_after(s, m)
}

pub open spec fn has_legal_move(s: GameState) -> bool {
    exists|m: Move| #[trigger] legal(s, m)
}

pub open spec fn checkmate(s: GameState) -> bool {
    in_check(s.board, s.side_to_move) && !has_legal_move(s)
}

pub open spec fn stalemate(s: GameState) -> bool {
    !in_check(s.board, s.side_to_move) && !has_legal_move(s)
}

pub proof fn lemma_pseudo_legal_applies(s: GameState, m: Move)
    requires
        pseudo_legal(s, m),
    ensures
        can_apply(s, m),
{
}

/// Whether `mv`, which must be playable in `state`, leaves the mover safe.
pub fn is_move_legal(state: &GameState, mv: Move) -> (res: bool)
    requires
        can_apply(*state, mv),
    ensures
        res == king_safe_after(*state, mv),
{
    let mover = state.side_to_move;
    let castle = match mv.kind {
        MoveKind::CastleKingside | MoveKind::CastleQueenside => true,
        _ => false,
    };
    if castle {
        if is_in_check(state, mover) {
            return false;
        }
        if king_passes_through_check(state, mv) {
            return false;
        }
    }
    let mut next = *state;
    apply_move_unchecked(&mut next, mv);
    let res = !is_in_check(&next, mover);
    proof {
        assert forall|t: GameState| #[trigger] applied(*state, mv, t) implies !in_check(t.board, mover) == res by {
            lemma_applied_unique(*state, mv, t, next);
        }
    }
    res
}

/// The legal moves, in the generator's order.
pub fn legal_moves(state: &GameState) -> (res: Vec<Move>)
    requires
        squares_valid(*state),
    ensures
        forall|m: Move| #[trigger] res@.contains(m) <==> legal(*state, m),
        res@.no_duplicates(),
{
    let candidates = generate_candidates(state);
    let mut res: Vec<Move> = Vec::new();
    let mut j: usize = 0;
    while j < candidates.len()
        invariant
            j <= candidates.len(),
            forall|m: Move| #[trigger] candidates@.contains(m) <==> pseudo_legal(*state, m),
            forall|m: Move| #[trigger] res@.contains(m) <==> candidates@.subrange(0, j as int).contains(m)
                && king_safe_after(*state, m),
            candidates@.no_duplicates(),
            res@.no_duplicates(),
        decreases candidates.len() - j,
    {
        let mv = candidates[j];
        assert(candidates@.contains(mv));
        let ok = is_move_legal(state, mv);
        if ok {
            proof {
                if res@.contains(mv) {
                    let k = choose|k: int| 0 <= k < j && candidates@.subrange(0, j as int)[k] == mv;
                    assert(candidates@[k] == candidates@[j as int]);
                }
            }
            res.push(mv);
        }
        assert(candidates@.subrange(0, j + 1) == candidates@.subrange(0, j as int).push(mv));
        j += 1;
    }
    assert(candidates@.subrange(0, j as int) == candidates@);
    res
}

pub fn is_checkmate(state: &GameState) -> (res: bool)
    requires
        squares_valid(*state),
    ensures
        res == checkmate(*state),
{
    let check = is_in_check(state, state.side_to_move);
    let moves = legal_moves(state);
    proof {
        if moves.len() > 0 {
            assert(moves@.contains(moves@[0]));
        }
        if has_legal_move(*state) {
            let m = choose|m: Move| #[trigger] legal(*state, m);
            assert(moves@.contains(m));
        }
    }
    check && moves.len() == 0
}

pub fn is_stalemate(state: &GameState) -> (res: bool)
    requires
        squares_valid(*state),
    ensures
        res == stalemate(*state),
{
    let check = is_in_check(state, state.side_to_move);
    let moves = legal_moves(state);
    proof {
        if moves.len() > 0 {
            assert(moves@.contains(moves@[0]));
        }
        if has_legal_move(*state) {
            let m = choose|m: Move| #[trigger] legal(*state, m);
            assert(moves@.contains(m));
        }
    }
    !check && moves.len() == 0
}

} // verus!
