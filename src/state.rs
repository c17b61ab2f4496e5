use vstd::prelude::*;
use crate::board::{cell, on_board, set_piece, valid_sq, Board, Color, Piece, PieceKind, Square};
use crate::fen::{chars_of, field, field_bounds, parse_placement, placed, placement_ok, placement_text, push_placement};
use crate::uci::{file_char, push_char, rank_char};
use crate::rules::{find_king, king_scan, lemma_king_scan_valid};
use crate::uci::{parse_square, square_of};

verus! {

#[derive(Copy, Clone, Eq, PartialEq, Debug, Structural)]
pub struct CastlingRights {
    pub white_kingside: bool,
    pub white_queenside: bool,
    pub black_kingside: bool,
    pub black_queenside: bool,
}

impl CastlingRights {
    pub fn new() -> (r: Self)
        ensures
            r.white_kingside && r.white_queenside && r.black_kingside && r.black_queenside,
    {
        Self { white_kingside: true, white_queenside: true, black_kingside: true, black_queenside: true }
    }

    /// Every right set in `self` is also set in `earlier`.
    pub open spec fn within(self, earlier: CastlingRights) -> bool {
        &&& self.white_kingside ==> earlier.white_kingside
        &&& self.white_queenside ==> earlier.white_queenside
        &&& self.black_kingside ==> earlier.black_kingside
        &&& self.black_queenside ==> earlier.black_queenside
    }
}

/// A position: the board, the side to move, castling rights, the en-passant
/// target and the cached squares of the two kings.
#[derive(Copy, Clone, Debug)]
pub struct GameState {
    pub board: Board,
    pub side_to_move: Color,
    pub castling: CastlingRights,
    pub en_passant: Option<Square>,
    pub white_king: Square,
    pub black_king: Square,
}

/// The piece kinds of the back rank, from file a to file h.
pub open spec fn back_rank_kind(f: int) -> PieceKind {
    if f == 0 || f == 7 { PieceKind::Rook }
    else if f == 1 || f == 6 { PieceKind::Knight }
    else if f == 2 || f == 5 { PieceKind::Bishop }
    else if f == 3 { PieceKind::Queen }
    else { PieceKind::King }
}

/// The standard opening setup, square by square.
pub open spec fn start_cell(f: int, r: int) -> Option<Piece> {
    if r == 0 { Some(Piece { color: Color::White, kind: back_rank_kind(f) }) }
    else if r == 1 { Some(Piece { color: Color::White, kind: PieceKind::Pawn }) }
    else if r == 6 { Some(Piece { color: Color::Black, kind: PieceKind::Pawn }) }
    else if r == 7 { Some(Piece { color: Color::Black, kind: back_rank_kind(f) }) }
    else { None }
}

pub open spec fn is_start(s: GameState) -> bool {
    &&& forall|f: int, r: int| on_board(f, r) ==> #[trigger] cell(s.board, f, r) == start_cell(f, r)
    &&& s.side_to_move == Color::White
    &&& s.castling == (CastlingRights { white_kingside: true, white_queenside: true, black_kingside: true, black_queenside: true })
    &&& s.en_passant.is_none()
    &&& s.white_king == (4u8, 0u8)
    &&& s.black_king == (4u8, 7u8)
}

/// The squares a position names are on the board.
pub open spec fn squares_valid(s: GameState) -> bool {
    &&& valid_sq(s.white_king)
    &&& valid_sq(s.black_king)
    &&& match s.en_passant { Some(ep) => valid_sq(ep), None => true }
}

/// A FEN text is read when its placement is well formed and its side to
/// move is `w` or `b`; missing castling and en-passant fields stand for none.
pub open spec fn fen_ok(t: Seq<char>) -> bool {
    fen_ok_at(t, 0)
}

/// `fen_ok` for the FEN fields of `t` that start at field `k`.
pub open spec fn fen_ok_at(t: Seq<char>, k: nat) -> bool {
    &&& placement_ok(field(t, k), 0, 7, 0)
    &&& field(t, k + 1) == seq!['w'] || field(t, k + 1) == seq!['b']
}

/// An en-passant field names a target only when it is a square.
pub open spec fn fen_ep(w: Seq<char>) -> Option<Square> {
    if w.len() == 2 { square_of(w[0], w[1]) } else { None }
}

/// The recorded king square: the first king of `c` in rank-major order, or
/// the corner a1 when there is none.
pub open spec fn king_or_corner(b: Board, c: Color) -> Square {
    match king_scan(b, c, 0) {
        Some(k) => k,
        None => (0u8, 0u8),
    }
}

/// `s` is the position the FEN text `t` describes.
pub open spec fn describes(t: Seq<char>, s: GameState) -> bool {
    describes_at(t, 0, s)
}

/// `describes` for the FEN fields of `t` that start at field `k`.
pub open spec fn describes_at(t: Seq<char>, k: nat, s: GameState) -> bool {
    &&& forall|f: int, r: int| on_board(f, r) ==> #[trigger] cell(s.board, f, r) == placed(field(t, k), 0, 7, 0, f, r)
    &&& s.side_to_move == (if field(t, k + 1) == seq!['w'] { Color::White } else { Color::Black })
    &&& s.castling == (CastlingRights {
        white_kingside: field(t, k + 2).contains('K'),
        white_queenside: field(t, k + 2).contains('Q'),
        black_kingside: field(t, k + 2).contains('k'),
        black_queenside: field(t, k + 2).contains('q'),
    })
    &&& s.en_passant == fen_ep(field(t, k + 3))
    &&& s.white_king == king_or_corner(s.board, Color::White)
    &&& s.black_king == king_or_corner(s.board, Color::Black)
}

/// The castling field: the letters of the rights held, in the order
/// `KQkq`, or `-` when none is.
pub open spec fn castling_text(c: CastlingRights) -> Seq<char> {
    if !c.white_kingside && !c.white_queenside && !c.black_kingside && !c.black_queenside {
        seq!['-']
    } else {
        (if c.white_kingside { seq!['K'] } else { Seq::empty() }) + (if c.white_queenside { seq!['Q'] } else {
            Seq::empty() }) + (if c.black_kingside { seq!['k'] } else { Seq::empty() }) + (if c.black_queenside {
            seq!['q'] } else { Seq::empty() })
    }
}

pub open spec fn ep_text(ep: Option<Square>) -> Seq<char> {
    match ep {
        Some(sq) => seq![file_char(sq.0), rank_char(sq.1)],
        None => seq!['-'],
    }
}

/// The first four FEN fields of a position, separated by single spaces.
pub open spec fn fen_text(s: GameState) -> Seq<char> {
    placement_text(s.board) + seq![' ', if s.side_to_move == Color::White { 'w' } else { 'b' }, ' '] + castling_text(
        s.castling) + seq![' '] + ep_text(s.en_passant)
}

/// Whether `cs[start..end]` holds `c`.
fn range_contains(cs: &Vec<char>, start: usize, end: usize, c: char) -> (res: bool)
    requires
        start <= end <= cs@.len(),
    ensures
        res == cs@.subrange(start as int, end as int).contains(c),
{
    let ghost w = cs@.subrange(start as int, end as int);
    let mut i = start;
    while i < end
        invariant
            start <= i <= end <= cs@.len(),
            w == cs@.subrange(start as int, end as int),
            forall|k: int| 0 <= k < i - start ==> w[k] != c,
        decreases end - i,
    {
        if cs[i] == c {
            assert(w[i - start] == c);
            return true;
        }
        i += 1;
    }
    false
}

fn king_square_or_corner(board: &Board, color: Color) -> (res: Square)
    ensures
        res == king_or_corner(*board, color),
        valid_sq(res),
{
    proof {
        lemma_king_scan_valid(*board, color, 0);
    }
    match find_king(board, color) {
        Some(k) => k,
        None => (0, 0),
    }
}

fn back_rank_piece(file: usize) -> (r: PieceKind)
    requires
        file < 8,
    ensures
        r == back_rank_kind(file as int),
{
    match file {
        0 | 7 => PieceKind::Rook,
        1 | 6 => PieceKind::Knight,
        2 | 5 => PieceKind::Bishop,
        3 => PieceKind::Queen,
        _ => PieceKind::King,
    }
}

impl GameState {
    pub fn new() -> (r: Self)
        ensures
            is_start(r),
            squares_valid(r),
    {
        let mut board: Board = [[None; 8]; 8];
        let mut file: usize = 0;
        while file < 8
            invariant
                file <= 8,
                forall|f: int, r: int| on_board(f, r) ==> #[trigger] cell(board, f, r) == (
                    if f < file { start_cell(f, r) } else { None }),
            decreases 8 - file,
        {
            let kind = back_rank_piece(file);
            let f = file as u8;
            set_piece(&mut board, (f, 0), Some(Piece { color: Color::White, kind }));
            set_piece(&mut board, (f, 1), Some(Piece { color: Color::White, kind: PieceKind::Pawn }));
            set_piece(&mut board, (f, 6), Some(Piece { color: Color::Black, kind: PieceKind::Pawn }));
            set_piece(&mut board, (f, 7), Some(Piece { color: Color::Black, kind }));
            file += 1;
        }
        Self {
            board,
            side_to_move: Color::White,
            castling: CastlingRights::new(),
            en_passant: None,
            white_king: (4, 0),
            black_king: (4, 7),
        }
    }
}

impl GameState {
    /// Reads a position from FEN text; `None` when it is not well formed.
    pub fn from_fen(fen: &str) -> (res: Option<Self>)
        ensures
            res.is_some() == fen_ok(fen@),
            match res {
                Some(s) => describes(fen@, s) && squares_valid(s),
                None => true,
            },
    {
        let cs = chars_of(fen);
        Self::from_fields(&cs, 0)
    }

    /// Reads a position from the FEN fields of `cs` that start at field `k`.
    pub fn from_fields(cs: &Vec<char>, k: usize) -> (res: Option<Self>)
        requires
            k <= usize::MAX - 3,
        ensures
            res.is_some() == fen_ok_at(cs@, k as nat),
            match res {
                Some(s) => describes_at(cs@, k as nat, s) && squares_valid(s),
                None => true,
            },
    {
        let ghost t = cs@;
        let (s0, e0) = field_bounds(cs, k);
        let (s1, e1) = field_bounds(cs, k + 1);
        let (s2, e2) = field_bounds(cs, k + 2);
        let (s3, e3) = field_bounds(cs, k + 3);
        let board = match parse_placement(cs, s0, e0) {
            Some(b) => b,
            None => return None,
        };
        let side_to_move = if e1 - s1 == 1 && cs[s1] == 'w' {
            Color::White
        } else if e1 - s1 == 1 && cs[s1] == 'b' {
            Color::Black
        } else {
            proof {
                if field(t, (k + 1) as nat) == seq!['w'] || field(t, (k + 1) as nat) == seq!['b'] {
                    assert(field(t, (k + 1) as nat).len() == 1);
                    assert(field(t, (k + 1) as nat)[0] == cs@[s1 as int]);
                }
            }
            return None;
        };
        assert(side_to_move == Color::White ==> field(t, (k + 1) as nat) =~= seq!['w']);
        assert(side_to_move == Color::Black ==> field(t, (k + 1) as nat) =~= seq!['b']);
        proof {
            if side_to_move == Color::Black {
                assert(field(t, (k + 1) as nat)[0] != seq!['w'][0]);
            }
        }
        let castling = CastlingRights {
            white_kingside: range_contains(cs, s2, e2, 'K'),
            white_queenside: range_contains(cs, s2, e2, 'Q'),
            black_kingside: range_contains(cs, s2, e2, 'k'),
            black_queenside: range_contains(cs, s2, e2, 'q'),
        };
        let en_passant = if e3 - s3 == 2 {
            parse_square(cs[s3], cs[s3 + 1])
        } else {
            None
        };
        proof {
            assert(field(t, (k + 2) as nat) == cs@.subrange(s2 as int, e2 as int));
            let w = field(t, (k + 3) as nat);
            assert(w == cs@.subrange(s3 as int, e3 as int));
            if w.len() == 2 {
                assert(w[0] == cs@[s3 as int] && w[1] == cs@[s3 + 1]);
            }
            assert(en_passant == fen_ep(w));
        }
        let white_king = king_square_or_corner(&board, Color::White);
        let black_king = king_square_or_corner(&board, Color::Black);
        Some(Self { board, side_to_move, castling, en_passant, white_king, black_king })
    }
}

fn push_castling(out: &mut String, c: CastlingRights)
    ensures
        final(out)@ == old(out)@ + castling_text(c),
{
    let ghost start = out@;
    if !c.white_kingside && !c.white_queenside && !c.black_kingside && !c.black_queenside {
        push_char(out, '-');
        assert(out@ =~= start + castling_text(c));
        return;
    }
    let ghost wk: Seq<char> = if c.white_kingside { seq!['K'] } else { Seq::empty() };
    let ghost wq: Seq<char> = if c.white_queenside { seq!['Q'] } else { Seq::empty() };
    let ghost bk: Seq<char> = if c.black_kingside { seq!['k'] } else { Seq::empty() };
    let ghost bq: Seq<char> = if c.black_queenside { seq!['q'] } else { Seq::empty() };
    if c.white_kingside {
        push_char(out, 'K');
    }
    assert(out@ =~= start + wk);
    if c.white_queenside {
        push_char(out, 'Q');
    }
    assert(out@ =~= start + wk + wq);
    if c.black_kingside {
        push_char(out, 'k');
    }
    assert(out@ =~= start + wk + wq + bk);
    if c.black_queenside {
        push_char(out, 'q');
    }
    assert(out@ =~= start + wk + wq + bk + bq);
    assert(castling_text(c) == wk + wq + bk + bq);
    assert(out@ =~= start + castling_text(c));
}

fn push_ep(out: &mut String, ep: Option<Square>)
    requires
        match ep {
            Some(sq) => valid_sq(sq),
            None => true,
        },
    ensures
        final(out)@ == old(out)@ + ep_text(ep),
{
    let ghost start = out@;
    match ep {
        Some(sq) => {
            push_char(out, ((97u8 + sq.0) as char));
            push_char(out, ((49u8 + sq.1) as char));
        },
        None => push_char(out, '-'),
    }
    assert(out@ =~= start + ep_text(ep));
}

impl GameState {
    /// The placement, side to move, castling and en-passant fields of FEN.
    pub fn to_fen(&self) -> (res: String)
        requires
            squares_valid(*self),
        ensures
            res@ == fen_text(*self),
    {
        let mut out = String::new();
        push_placement(&mut out, &self.board);
        push_char(&mut out, ' ');
        push_char(&mut out, if self.side_to_move == Color::White { 'w' } else { 'b' });
        push_char(&mut out, ' ');
        push_castling(&mut out, self.castling);
        push_char(&mut out, ' ');
        push_ep(&mut out, self.en_passant);
        assert(out@ =~= fen_text(*self));
        out
    }
}

} // verus!
