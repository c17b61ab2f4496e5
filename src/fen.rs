use vstd::prelude::*;
use crate::board::{cell, on_board, set_piece, Board, Color, Piece, PieceKind};
use crate::uci::push_char;

verus! {

pub open spec fn is_space(c: char) -> bool {
    c == ' ' || c == '\t' || c == '\n' || c == '\r'
}

/// The first index from `i` on that holds no whitespace.
pub open spec fn skip_spaces(t: Seq<char>, i: int) -> int
    decreases t.len() - i,
{
    if i < 0 || i >= t.len() || !is_space(t[i]) { i } else { skip_spaces(t, i + 1) }
}

/// The first index from `i` on that holds whitespace, or the end.
pub open spec fn word_end(t: Seq<char>, i: int) -> int
    decreases t.len() - i,
{
    if i < 0 || i >= t.len() || is_space(t[i]) { i } else { word_end(t, i + 1) }
}

pub open spec fn field_start(t: Seq<char>, k: nat) -> int
    decreases k,
{
    if k == 0 { skip_spaces(t, 0) } else { skip_spaces(t, word_end(t, field_start(t, (k - 1) as nat))) }
}

pub open spec fn field_end(t: Seq<char>, k: nat) -> int {
    word_end(t, field_start(t, k))
}

/// The `k`-th whitespace-separated field of `t`; empty past the last one.
pub open spec fn field(t: Seq<char>, k: nat) -> Seq<char> {
    t.subrange(field_start(t, k), field_end(t, k))
}

pub open spec fn piece_of(c: char) -> Option<Piece> {
    let kind = if c == 'p' || c == 'P' { Some(PieceKind::Pawn) }
        else if c == 'n' || c == 'N' { Some(PieceKind::Knight) }
        else if c == 'b' || c == 'B' { Some(PieceKind::Bishop) }
        else if c == 'r' || c == 'R' { Some(PieceKind::Rook) }
        else if c == 'q' || c == 'Q' { Some(PieceKind::Queen) }
        else if c == 'k' || c == 'K' { Some(PieceKind::King) }
        else { None };
    match kind {
        Some(k) => Some(Piece { color: if 'A' <= c <= 'Z' { Color::White } else { Color::Black }, kind: k }),
        None => None,
    }
}

/// The run of empty squares a digit 1 to 8 stands for; 0 for other characters.
pub open spec fn run_of(c: char) -> int {
    if '1' <= c <= '8' { c as int - '0' as int } else { 0 }
}

/// Reading `cs` from index `i` with the cursor on file `f` of rank `r`
/// fills the rest of the board exactly: ranks are separated by `/`, and
/// each holds eight files of pieces and runs of empty squares.
pub open spec fn placement_ok(cs: Seq<char>, i: int, r: int, f: int) -> bool
    decreases cs.len() - i,
{
    if i < 0 || i >= cs.len() {
        r == 0 && f == 8
    } else if cs[i] == '/' {
        f == 8 && r > 0 && placement_ok(cs, i + 1, r - 1, 0)
    } else if run_of(cs[i]) > 0 {
        f + run_of(cs[i]) <= 8 && placement_ok(cs, i + 1, r, f + run_of(cs[i]))
    } else if piece_of(cs[i]).is_some() {
        f < 8 && placement_ok(cs, i + 1, r, f + 1)
    } else {
        false
    }
}

/// What reading `cs` from index `i`, with the cursor on (f, r), places on
/// the square (sf, sr).
pub open spec fn placed(cs: Seq<char>, i: int, r: int, f: int, sf: int, sr: int) -> Option<Piece>
    decreases cs.len() - i,
{
    if i < 0 || i >= cs.len() {
        None
    } else if cs[i] == '/' {
        placed(cs, i + 1, r - 1, 0, sf, sr)
    } else if run_of(cs[i]) > 0 {
        placed(cs, i + 1, r, f + run_of(cs[i]), sf, sr)
    } else if sf == f && sr == r {
        piece_of(cs[i])
    } else {
        placed(cs, i + 1, r, f + 1, sf, sr)
    }
}

/// The cursor has moved past (sf, sr): ranks are read from 7 down, files
/// from 0 up.
pub open spec fn passed(r: int, f: int, sf: int, sr: int) -> bool {
    sr > r || (sr == r && sf < f)
}

proof fn lemma_placed_passed(cs: Seq<char>, i: int, r: int, f: int, sf: int, sr: int)
    requires
        0 <= i,
        placement_ok(cs, i, r, f),
        passed(r, f, sf, sr),
    ensures
        placed(cs, i, r, f, sf, sr).is_none(),
    decreases cs.len() - i,
{
    if i < cs.len() {
        if cs[i] == '/' {
            lemma_placed_passed(cs, i + 1, r - 1, 0, sf, sr);
        } else if run_of(cs[i]) > 0 {
            lemma_placed_passed(cs, i + 1, r, f + run_of(cs[i]), sf, sr);
        } else {
            lemma_placed_passed(cs, i + 1, r, f + 1, sf, sr);
        }
    }
}

pub fn chars_of(s: &str) -> (res: Vec<char>)
    ensures
        res@ == s@,
{
    let n = s.unicode_len();
    let mut res: Vec<char> = Vec::new();
    let mut i: usize = 0;
    while i < n
        invariant
            i <= n,
            n == s@.len(),
            res@ == s@.subrange(0, i as int),
        decreases n - i,
    {
        res.push(s.get_char(i));
        i += 1;
        assert(res@ =~= s@.subrange(0, i as int));
    }
    res
}

pub(crate) fn skip_spaces_from(cs: &Vec<char>, i: usize) -> (res: usize)
    requires
        i <= cs@.len(),
    ensures
        res == skip_spaces(cs@, i as int),
        i <= res <= cs@.len(),
{
    let mut j = i;
    while j < cs.len() && (cs[j] == ' ' || cs[j] == '\t' || cs[j] == '\n' || cs[j] == '\r')
        invariant
            i <= j <= cs@.len(),
            skip_spaces(cs@, i as int) == skip_spaces(cs@, j as int),
        decreases cs@.len() - j,
    {
        j += 1;
    }
    j
}

pub(crate) fn word_end_from(cs: &Vec<char>, i: usize) -> (res: usize)
    requires
        i <= cs@.len(),
    ensures
        res == word_end(cs@, i as int),
        i <= res <= cs@.len(),
{
    let mut j = i;
    while j < cs.len() && !(cs[j] == ' ' || cs[j] == '\t' || cs[j] == '\n' || cs[j] == '\r')
        invariant
            i <= j <= cs@.len(),
            word_end(cs@, i as int) == word_end(cs@, j as int),
        decreases cs@.len() - j,
    {
        j += 1;
    }
    j
}

/// The bounds of the fields of `cs` from the first to field `k`.
pub fn field_bounds(cs: &Vec<char>, k: usize) -> (res: (usize, usize))
    ensures
        res.0 == field_start(cs@, k as nat),
        res.1 == field_end(cs@, k as nat),
        res.0 <= res.1 <= cs@.len(),
{
    let mut start = skip_spaces_from(cs, 0);
    let mut end = word_end_from(cs, start);
    let mut j: usize = 0;
    while j < k
        invariant
            j <= k,
            start == field_start(cs@, j as nat),
            end == field_end(cs@, j as nat),
            start <= end <= cs@.len(),
        decreases k - j,
    {
        start = skip_spaces_from(cs, end);
        end = word_end_from(cs, start);
        j += 1;
    }
    (start, end)
}

pub fn piece_from_char(c: char) -> (res: Option<Piece>)
    ensures
        res == piece_of(c),
{
    let kind = match c {
        'p' | 'P' => PieceKind::Pawn,
        'n' | 'N' => PieceKind::Knight,
        'b' | 'B' => PieceKind::Bishop,
        'r' | 'R' => PieceKind::Rook,
        'q' | 'Q' => PieceKind::Queen,
        'k' | 'K' => PieceKind::King,
        _ => return None,
    };
    let color = if 'A' <= c && c <= 'Z' { Color::White } else { Color::Black };
    Some(Piece { color, kind })
}

/// Reads the placement field `cs[start..end]` into a board.
pub fn parse_placement(cs: &Vec<char>, start: usize, end: usize) -> (res: Option<Board>)
    requires
        start <= end <= cs@.len(),
    ensures
        res.is_some() == placement_ok(cs@.subrange(start as int, end as int), 0, 7, 0),
        match res {
            Some(b) => forall|sf: int, sr: int| on_board(sf, sr) ==> #[trigger] cell(b, sf, sr)
                == placed(cs@.subrange(start as int, end as int), 0, 7, 0, sf, sr),
            None => true,
        },
{
    let ghost t = cs@.subrange(start as int, end as int);
    let mut board: Board = [[None; 8]; 8];
    let mut rank: i8 = 7;
    let mut file: i8 = 0;
    let mut i = start;
    while i < end
        invariant
            start <= i <= end <= cs@.len(),
            t == cs@.subrange(start as int, end as int),
            0 <= rank <= 7,
            0 <= file <= 8,
            placement_ok(t, 0, 7, 0) == placement_ok(t, i - start, rank as int, file as int),
            placement_ok(t, 0, 7, 0) ==> forall|sf: int, sr: int| on_board(sf, sr) ==> #[trigger] placed(t, 0, 7, 0, sf, sr)
                == if passed(rank as int, file as int, sf, sr) { cell(board, sf, sr) } else {
                    placed(t, i - start, rank as int, file as int, sf, sr) },
            forall|sf: int, sr: int| on_board(sf, sr) && !passed(rank as int, file as int, sf, sr)
                ==> #[trigger] cell(board, sf, sr).is_none(),
        decreases end - i,
    {
        let c = cs[i];
        let ghost k = i - start;
        assert(t[k] == c);
        if c == '/' {
            if file != 8 || rank == 0 {
                return None;
            }
            rank = rank - 1;
            file = 0;
        } else if '1' <= c && c <= '8' {
            let run = (c as u32 - '0' as u32) as i8;
            if file + run > 8 {
                return None;
            }
            proof {
                if placement_ok(t, 0, 7, 0) {
                    assert forall|sf: int, sr: int| on_board(sf, sr) && passed(rank as int, file + run, sf, sr)
                        && !passed(rank as int, file as int, sf, sr) implies #[trigger] placed(t, k, rank as int, file as int, sf, sr).is_none() by {
                        lemma_placed_passed(t, k + 1, rank as int, file + run, sf, sr);
                    }
                }
            }
            file = file + run;
        } else {
            match piece_from_char(c) {
                Some(p) => {
                    if file >= 8 {
                        return None;
                    }
                    proof {
                        if placement_ok(t, 0, 7, 0) {
                            assert forall|sf: int, sr: int| on_board(sf, sr) && !passed(rank as int, file + 1, sf, sr)
                                implies #[trigger] placed(t, k, rank as int, file as int, sf, sr)
                                == placed(t, k + 1, rank as int, file + 1, sf, sr) by {
                            }
                        }
                    }
                    set_piece(&mut board, (file as u8, rank as u8), Some(p));
                    file = file + 1;
                },
                None => return None,
            }
        }
        i += 1;
    }
    if rank != 0 || file != 8 {
        return None;
    }
    proof {
        if placement_ok(t, 0, 7, 0) {
            assert forall|sf: int, sr: int| on_board(sf, sr) implies passed(0, 8, sf, sr) by {}
        }
    }
    Some(board)
}

/// The letter FEN uses for a piece: upper case for White.
pub open spec fn piece_char(p: Piece) -> char {
    let lower = match p.kind {
        PieceKind::Pawn => 'p',
        PieceKind::Knight => 'n',
        PieceKind::Bishop => 'b',
        PieceKind::Rook => 'r',
        PieceKind::Queen => 'q',
        PieceKind::King => 'k',
    };
    if p.color == Color::White { ((lower as int) - 32) as char } else { lower }
}

/// The digit for a pending run of empty squares, if any.
pub open spec fn flush(run: int) -> Seq<char> {
    if run > 0 { seq![(run + '0' as int) as char] } else { Seq::empty() }
}

/// The placement text from the cursor (f, r) on, with `run` empty squares
/// met and not yet written; ranks go from 7 down to 0.
pub open spec fn render_walk(b: Board, r: int, f: int, run: int) -> Seq<char>
    decreases r, 8 - f,
{
    if r < 0 || f < 0 || f > 8 {
        Seq::empty()
    } else if f == 8 {
        if r == 0 { flush(run) } else { flush(run) + seq!['/'] + render_walk(b, r - 1, 0, 0) }
    } else {
        match cell(b, f, r) {
            None => render_walk(b, r, f + 1, run + 1),
            Some(p) => flush(run) + seq![piece_char(p)] + render_walk(b, r, f + 1, 0),
        }
    }
}

/// The placement field of a board.
pub open spec fn placement_text(b: Board) -> Seq<char> {
    render_walk(b, 7, 0, 0)
}

fn piece_letter(p: Piece) -> (res: char)
    ensures
        res == piece_char(p),
{
    let lower = match p.kind {
        PieceKind::Pawn => 'p',
        PieceKind::Knight => 'n',
        PieceKind::Bishop => 'b',
        PieceKind::Rook => 'r',
        PieceKind::Queen => 'q',
        PieceKind::King => 'k',
    };
    match p.color {
        Color::White => match p.kind {
            PieceKind::Pawn => 'P',
            PieceKind::Knight => 'N',
            PieceKind::Bishop => 'B',
            PieceKind::Rook => 'R',
            PieceKind::Queen => 'Q',
            PieceKind::King => 'K',
        },
        Color::Black => lower,
    }
}

/// Appends the placement field of `board` to `out`.
pub fn push_placement(out: &mut String, board: &Board)
    ensures
        final(out)@ == old(out)@ + placement_text(*board),
{
    let ghost start = old(out)@;
    let mut rank: i8 = 7;
    let mut file: i8 = 0;
    let mut run: u8 = 0;
    loop
        invariant
            0 <= rank <= 7,
            0 <= file <= 8,
            0 <= run <= file,
            start == old(out)@,
            out@ + render_walk(*board, rank as int, file as int, run as int) == start + placement_text(*board),
        decreases rank, 8 - file,
    {
        if file == 8 {
            if run > 0 {
                push_char(out, (run + 48) as char);
            }
            assert(flush(run as int) == if run > 0 { seq![(run + 48) as char] } else { Seq::<char>::empty() });
            if rank == 0 {
                assert(out@ == start + placement_text(*board));
                return;
            }
            push_char(out, '/');
            proof {
                assert(render_walk(*board, rank as int, 8, run as int) == flush(run as int) + seq!['/'] + render_walk(*board,
                    rank - 1, 0, 0));
            }
            rank = rank - 1;
            file = 0;
            run = 0;
        } else {
            match board[rank as usize][file as usize] {
                None => {
                    run = run + 1;
                },
                Some(p) => {
                    if run > 0 {
                        push_char(out, (run + 48) as char);
                    }
                    push_char(out, piece_letter(p));
                    run = 0;
                },
            }
            file = file + 1;
        }
    }
}

/// No two digits stand next to each other: runs of empty squares are
/// written whole.
pub open spec fn runs_whole(cs: Seq<char>) -> bool {
    forall|j: int| 0 <= j < cs.len() - 1 ==> !(run_of(#[trigger] cs[j]) > 0 && run_of(cs[j + 1]) > 0)
}

proof fn lemma_render_empties(b: Board, r: int, f: int, run: int, d: int)
    requires
        0 <= r <= 7,
        0 <= f,
        0 <= d,
        f + d <= 8,
        forall|sf: int| f <= sf < f + d ==> #[trigger] cell(b, sf, r).is_none(),
    ensures
        render_walk(b, r, f, run) == render_walk(b, r, f + d, run + d),
    decreases d,
{
    if d > 0 {
        assert(cell(b, f, r).is_none());
        lemma_render_empties(b, r, f + 1, run + 1, d - 1);
    }
}

proof fn lemma_render_flush(b: Board, r: int, f: int, run: int)
    requires
        0 <= r <= 7,
        0 <= f <= 8,
        f == 8 || cell(b, f, r).is_some(),
    ensures
        render_walk(b, r, f, run) == flush(run) + render_walk(b, r, f, 0),
{
    assert(flush(0) =~= Seq::<char>::empty());
    if f == 8 {
        if r == 0 {
            assert(render_walk(b, r, f, run) =~= flush(run) + render_walk(b, r, f, 0));
        } else {
            assert(render_walk(b, r, f, run) =~= flush(run) + render_walk(b, r, f, 0));
        }
    } else {
        assert(render_walk(b, r, f, run) =~= flush(run) + render_walk(b, r, f, 0));
    }
}

proof fn lemma_piece_char(c: char)
    requires
        piece_of(c).is_some(),
    ensures
        piece_char(piece_of(c).unwrap()) == c,
{
}

/// Rendering the board that canonical placement text describes gives the
/// text back, from any point of the reading on.
proof fn lemma_render_reads_back(b: Board, cs: Seq<char>, i: int, r: int, f: int)
    requires
        0 <= i <= cs.len(),
        0 <= r <= 7,
        0 <= f <= 8,
        placement_ok(cs, i, r, f),
        runs_whole(cs),
        forall|sf: int, sr: int| on_board(sf, sr) && !passed(r, f, sf, sr) ==> #[trigger] cell(b, sf, sr) == placed(cs, i, r, f, sf, sr),
    ensures
        render_walk(b, r, f, 0) == cs.subrange(i, cs.len() as int),
    decreases cs.len() - i,
{
    if i == cs.len() {
        assert(render_walk(b, r, f, 0) =~= cs.subrange(i, cs.len() as int));
    } else if cs[i] == '/' {
        lemma_render_reads_back(b, cs, i + 1, r - 1, 0);
        assert(cs.subrange(i, cs.len() as int) =~= seq!['/'] + cs.subrange(i + 1, cs.len() as int));
        assert(render_walk(b, r, f, 0) =~= seq!['/'] + render_walk(b, r - 1, 0, 0));
    } else if run_of(cs[i]) > 0 {
        let d = run_of(cs[i]);
        assert(placement_ok(cs, i + 1, r, f + d));
        assert forall|sf: int| f <= sf < f + d implies #[trigger] cell(b, sf, r).is_none() by {
            lemma_placed_passed(cs, i + 1, r, f + d, sf, r);
        }
        lemma_render_empties(b, r, f, 0, d);
        if i + 1 < cs.len() {
            assert(!(run_of(cs[i]) > 0 && run_of(cs[i + 1]) > 0));
            if cs[i + 1] != '/' {
                assert(piece_of(cs[i + 1]).is_some());
                assert(f + d < 8);
                assert(on_board(f + d, r) && !passed(r, f, f + d, r));
                assert(cell(b, f + d, r) == placed(cs, i, r, f, f + d, r));
                assert(placed(cs, i, r, f, f + d, r) == placed(cs, i + 1, r, f + d, f + d, r));
            }
        }
        lemma_render_flush(b, r, f + d, d);
        lemma_render_reads_back(b, cs, i + 1, r, f + d);
        assert(flush(d) =~= seq![cs[i]]);
        assert(cs.subrange(i, cs.len() as int) =~= seq![cs[i]] + cs.subrange(i + 1, cs.len() as int));
    } else {
        let p = piece_of(cs[i]).unwrap();
        assert(cell(b, f, r) == Some(p));
        lemma_piece_char(cs[i]);
        assert forall|sf: int, sr: int| on_board(sf, sr) && !passed(r, f + 1, sf, sr) implies #[trigger] cell(b, sf, sr)
            == placed(cs, i + 1, r, f + 1, sf, sr) by {
            assert(!passed(r, f, sf, sr));
        }
        lemma_render_reads_back(b, cs, i + 1, r, f + 1);
        assert(flush(0) =~= Seq::<char>::empty());
        assert(render_walk(b, r, f, 0) =~= seq![piece_char(p)] + render_walk(b, r, f + 1, 0));
        assert(cs.subrange(i, cs.len() as int) =~= seq![cs[i]] + cs.subrange(i + 1, cs.len() as int));
    }
}

/// The placement text of the board that canonical placement text describes
/// is that text.
pub proof fn lemma_placement_round_trip(b: Board, cs: Seq<char>)
    requires
        placement_ok(cs, 0, 7, 0),
        runs_whole(cs),
        forall|sf: int, sr: int| on_board(sf, sr) ==> #[trigger] cell(b, sf, sr) == placed(cs, 0, 7, 0, sf, sr),
    ensures
        placement_text(b) == cs,
{
    lemma_render_reads_back(b, cs, 0, 7, 0);
    assert(cs.subrange(0, cs.len() as int) =~= cs);
}

} // verus!
