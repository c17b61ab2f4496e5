use vstd::prelude::*;
use crate::board::{PieceKind, Square};
use crate::moves::{Move, MoveKind};
use crate::fen::chars_of;

verus! {

/// The square written as a file letter and a rank digit.
pub open spec fn square_of(f: char, r: char) -> Option<Square> {
    if 'a' <= f <= 'h' && '1' <= r <= '8' {
        Some(((f as int - 'a' as int) as u8, (r as int - '1' as int) as u8))
    } else {
        None
    }
}

/// The promotion piece a letter names, in either case.
pub open spec fn promo_of(c: char) -> Option<PieceKind> {
    if c == 'q' || c == 'Q' { Some(PieceKind::Queen) }
    else if c == 'r' || c == 'R' { Some(PieceKind::Rook) }
    else if c == 'b' || c == 'B' { Some(PieceKind::Bishop) }
    else if c == 'n' || c == 'N' { Some(PieceKind::Knight) }
    else { None }
}

/// `t` names `m`: two squares, then a promotion letter exactly when `m`
/// promotes.
pub open spec fn names_move(t: Seq<char>, m: Move) -> bool {
    &&& t.len() == 4 || t.len() == 5
    &&& square_of(t[0], t[1]) == Some(m.from)
    &&& square_of(t[2], t[3]) == Some(m.to)
    &&& if t.len() == 5 {
        match m.kind {
            MoveKind::Promotion(k) => promo_of(t[4]) == Some(k),
            _ => false,
        }
    } else {
        !(m.kind is Promotion)
    }
}

pub open spec fn file_char(f: u8) -> char {
    (f + 'a' as int) as char
}

pub open spec fn rank_char(r: u8) -> char {
    (r + '1' as int) as char
}

pub open spec fn kind_char(k: PieceKind) -> char {
    match k {
        PieceKind::Queen => 'q',
        PieceKind::Rook => 'r',
        PieceKind::Bishop => 'b',
        PieceKind::Knight => 'n',
        PieceKind::King => 'k',
        PieceKind::Pawn => 'p',
    }
}

/// The move written as its two squares and, for a promotion, the piece.
pub open spec fn uci_text(m: Move) -> Seq<char> {
    let squares = seq![file_char(m.from.0), rank_char(m.from.1), file_char(m.to.0), rank_char(m.to.1)];
    match m.kind {
        MoveKind::Promotion(k) => squares.push(kind_char(k)),
        _ => squares,
    }
}

pub fn parse_square(f: char, r: char) -> (res: Option<Square>)
    ensures
        res == square_of(f, r),
{
    if 'a' <= f && f <= 'h' && '1' <= r && r <= '8' {
        Some(((f as u32 - 'a' as u32) as u8, (r as u32 - '1' as u32) as u8))
    } else {
        None
    }
}

pub fn parse_promo(c: char) -> (res: Option<PieceKind>)
    ensures
        res == promo_of(c),
{
    match c {
        'q' | 'Q' => Some(PieceKind::Queen),
        'r' | 'R' => Some(PieceKind::Rook),
        'b' | 'B' => Some(PieceKind::Bishop),
        'n' | 'N' => Some(PieceKind::Knight),
        _ => None,
    }
}

/// The first move of `legal` that `token` names.
pub fn parse_uci_move(token: &str, legal: &[Move]) -> (res: Option<Move>)
    ensures
        match res {
            Some(m) => exists|i: int| 0 <= i < legal@.len() && legal@[i] == m && names_move(token@, m)
                && forall|j: int| 0 <= j < i ==> !names_move(token@, #[trigger] legal@[j]),
            None => forall|i: int| 0 <= i < legal@.len() ==> !names_move(token@, #[trigger] legal@[i]),
        },
{
    let cs = chars_of(token);
    assert(cs@.subrange(0, cs@.len() as int) == token@);
    parse_move_chars(&cs, 0, cs.len(), legal)
}

/// The first move of `legal` that the characters `cs[start..end]` name.
pub fn parse_move_chars(cs: &Vec<char>, start: usize, end: usize, legal: &[Move]) -> (res: Option<Move>)
    requires
        start <= end <= cs@.len(),
    ensures
        match res {
            Some(m) => exists|i: int| 0 <= i < legal@.len() && legal@[i] == m
                && names_move(cs@.subrange(start as int, end as int), m)
                && forall|j: int| 0 <= j < i ==> !names_move(cs@.subrange(start as int, end as int), #[trigger] legal@[j]),
            None => forall|i: int| 0 <= i < legal@.len() ==> !names_move(cs@.subrange(start as int, end as int), #[trigger] legal@[i]),
        },
{
    let ghost t = cs@.subrange(start as int, end as int);
    let n = end - start;
    if n < 4 || n > 5 {
        return None;
    }
    let from = match parse_square(cs[start], cs[start + 1]) {
        Some(sq) => sq,
        None => return None,
    };
    let to = match parse_square(cs[start + 2], cs[start + 3]) {
        Some(sq) => sq,
        None => return None,
    };
    let promo = if n == 5 {
        match parse_promo(cs[start + 4]) {
            Some(k) => Some(k),
            None => return None,
        }
    } else {
        None
    };
    let mut i: usize = 0;
    while i < legal.len()
        invariant
            i <= legal@.len(),
            t == cs@.subrange(start as int, end as int),
            n == t.len(),
            4 <= n <= 5,
            square_of(t[0], t[1]) == Some(from),
            square_of(t[2], t[3]) == Some(to),
            n == 5 ==> promo_of(t[4]) == promo && promo.is_some(),
            n == 4 ==> promo.is_none(),
            forall|j: int| 0 <= j < i ==> !names_move(t, #[trigger] legal@[j]),
        decreases legal@.len() - i,
    {
        let mv = legal[i];
        if mv.from.0 == from.0 && mv.from.1 == from.1 && mv.to.0 == to.0 && mv.to.1 == to.1 {
            let hit = match (promo, mv.kind) {
                (Some(p), MoveKind::Promotion(k)) => p == k,
                (None, MoveKind::Promotion(_)) => false,
                (None, _) => true,
                _ => false,
            };
            if hit {
                return Some(mv);
            }
        }
        i += 1;
    }
    None
}

/// Relies on std's `String::push`: appends one character.
#[verifier::external_body]
pub(crate) fn push_char(out: &mut String, c: char)
    ensures
        final(out)@ == old(out)@.push(c),
{
    out.push(c);
}

fn push_square(out: &mut String, sq: Square)
    requires
        sq.0 < 8 && sq.1 < 8,
    ensures
        final(out)@ == old(out)@.push(file_char(sq.0)).push(rank_char(sq.1)),
{
    push_char(out, ((97u8 + sq.0) as char));
    push_char(out, ((49u8 + sq.1) as char));
}

/// The move in coordinate notation, such as `e2e4` or `e7e8q`.
pub fn to_uci(mv: Move) -> (res: String)
    requires
        mv.from.0 < 8 && mv.from.1 < 8 && mv.to.0 < 8 && mv.to.1 < 8,
    ensures
        res@ == uci_text(mv),
{
    let mut out = String::new();
    push_square(&mut out, mv.from);
    push_square(&mut out, mv.to);
    if let MoveKind::Promotion(kind) = mv.kind {
        let c = match kind {
            PieceKind::Queen => 'q',
            PieceKind::Rook => 'r',
            PieceKind::Bishop => 'b',
            PieceKind::Knight => 'n',
            PieceKind::King => 'k',
            PieceKind::Pawn => 'p',
        };
        push_char(&mut out, c);
    }
    assert(out@ =~= uci_text(mv));
    out
}

} // verus!
