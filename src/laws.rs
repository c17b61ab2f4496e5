use vstd::prelude::*;
use crate::board::{at, valid_sq, Color, Piece, PieceKind, Square};
use crate::kings::{lemma_sound_step, lemma_start_sound, sole_king, sound};
use crate::engine::{line_through, plays};
use crate::movegen::{is_promotion_piece, last_rank, pseudo_legal};
use crate::moves::{Move, MoveKind};
use crate::rules::{applied, in_check, legal};
use crate::state::{castling_text, describes, ep_text, fen_ok, fen_text, is_start, CastlingRights, GameState};
use crate::fen::{field, lemma_placement_round_trip, runs_whole};
use crate::uci::square_of;

verus! {

/// After any legal move, the side that made it is not in check, and the
/// other side is to move.
pub proof fn lemma_legal_move_leaves_mover_safe(s: GameState, m: Move, t: GameState)
    requires
        legal(s, m),
        applied(s, m, t),
    ensures
        !in_check(t.board, s.side_to_move),
        t.side_to_move == s.side_to_move.opp(),
{
}

/// A move never restores a castling right.
pub proof fn lemma_castling_rights_never_grow(s: GameState, m: Move, t: GameState)
    requires
        applied(s, m, t),
    ensures
        t.castling.within(s.castling),
{
}

proof fn lemma_rights_along_states(ms: Seq<Move>, states: Seq<GameState>, i: int)
    requires
        line_through(ms, states),
        0 <= i <= ms.len(),
    ensures
        states[i].castling.within(states[0].castling),
    decreases i,
{
    if i > 0 {
        lemma_rights_along_states(ms, states, i - 1);
        assert(applied(states[i - 1], ms[i - 1], states[i]));
    }
}

/// Along any line of legal play, castling rights are only ever cleared.
pub proof fn lemma_castling_rights_never_grow_along_line(s: GameState, ms: Seq<Move>, t: GameState)
    requires
        plays(s, ms, t),
    ensures
        t.castling.within(s.castling),
{
    let states = choose|states: Seq<GameState>| #[trigger] line_through(ms, states) && states[0] == s && states.last() == t;
    lemma_rights_along_states(ms, states, ms.len() as int);
}

/// An en-passant target, when set, lies on the third or the sixth rank.
pub open spec fn ep_rank_ok(s: GameState) -> bool {
    match s.en_passant {
        Some(ep) => ep.1 == 2 || ep.1 == 5,
        None => true,
    }
}

/// A pseudo-legal move promotes exactly when it takes a pawn to its last
/// rank; with the same squares, the moves promoting to queen, rook, bishop
/// and knight are pseudo-legal, and those of any other kind are not.
pub proof fn lemma_promotion_iff_last_rank(s: GameState, m: Move)
    requires
        ep_rank_ok(s),
        pseudo_legal(s, m),
    ensures
        (m.kind is Promotion) <==> (at(s.board, m.from).unwrap().kind == PieceKind::Pawn && m.to.1 == last_rank(
            s.side_to_move)),
        m.kind is Promotion ==> forall|k: PieceKind| #[trigger] pseudo_legal(s, Move { kind: MoveKind::Promotion(k), ..m })
            <==> is_promotion_piece(k),
{
}

proof fn lemma_sound_along_states(ms: Seq<Move>, states: Seq<GameState>, i: int)
    requires
        line_through(ms, states),
        sound(states[0]),
        0 <= i <= ms.len(),
    ensures
        sound(states[i]),
    decreases i,
{
    if i > 0 {
        lemma_sound_along_states(ms, states, i - 1);
        lemma_sound_step(states[i - 1], ms[i - 1], states[i]);
    }
}

/// The king of `c` stands somewhere on the board.
pub open spec fn king_present(s: GameState, c: Color) -> bool {
    exists|k: Square| valid_sq(k) && #[trigger] at(s.board, k) == Some(Piece { color: c, kind: PieceKind::King })
}

/// Along any line of legal play from the opening setup, both kings stay on
/// the board.
pub proof fn lemma_kings_stay_on_board(s: GameState, ms: Seq<Move>, t: GameState)
    requires
        is_start(s),
        plays(s, ms, t),
    ensures
        king_present(t, Color::White),
        king_present(t, Color::Black),
{
    let states = choose|states: Seq<GameState>| #[trigger] line_through(ms, states) && states[0] == s && states.last() == t;
    lemma_start_sound(s);
    lemma_sound_along_states(ms, states, ms.len() as int);
    let kw = choose|k: Square| #[trigger] sole_king(t.board, Color::White, k);
    let kb = choose|k: Square| #[trigger] sole_king(t.board, Color::Black, k);
    assert(valid_sq(kw) && at(t.board, kw) == Some(Piece { color: Color::White, kind: PieceKind::King }));
    assert(valid_sq(kb) && at(t.board, kb) == Some(Piece { color: Color::Black, kind: PieceKind::King }));
}

/// FEN text in canonical form: well formed, runs of empty squares written
/// whole, castling rights as `-` or in the order `KQkq`, and an en-passant
/// field that is `-` or a square.
pub open spec fn fen_canonical(t: Seq<char>) -> bool {
    &&& fen_ok(t)
    &&& runs_whole(field(t, 0))
    &&& exists|c: CastlingRights| #[trigger] castling_text(c) == field(t, 2)
    &&& field(t, 3) == seq!['-'] || (field(t, 3).len() == 2 && square_of(field(t, 3)[0], field(t, 3)[1]).is_some())
}

proof fn lemma_castling_letters(c: CastlingRights)
    ensures
        castling_text(c).contains('K') == c.white_kingside,
        castling_text(c).contains('Q') == c.white_queenside,
        castling_text(c).contains('k') == c.black_kingside,
        castling_text(c).contains('q') == c.black_queenside,
{
    broadcast use vstd::seq_lib::lemma_seq_concat_contains_all_elements;
    let e = Seq::<char>::empty();
    assert(!e.contains('K') && !e.contains('Q') && !e.contains('k') && !e.contains('q'));
    assert(seq!['K'][0] == 'K' && seq!['Q'][0] == 'Q' && seq!['k'][0] == 'k' && seq!['q'][0] == 'q');
    assert(seq!['-'][0] == '-');
    assert(!seq!['-'].contains('K') && !seq!['-'].contains('Q') && !seq!['-'].contains('k') && !seq!['-'].contains('q'));
    assert(!seq!['K'].contains('Q') && !seq!['K'].contains('k') && !seq!['K'].contains('q'));
    assert(!seq!['Q'].contains('K') && !seq!['Q'].contains('k') && !seq!['Q'].contains('q'));
    assert(!seq!['k'].contains('K') && !seq!['k'].contains('Q') && !seq!['k'].contains('q'));
    assert(!seq!['q'].contains('K') && !seq!['q'].contains('Q') && !seq!['q'].contains('k'));
    assert(seq!['K'].contains('K') && seq!['Q'].contains('Q') && seq!['k'].contains('k') && seq!['q'].contains('q'));
}

/// Reading canonical FEN text and writing the position back out gives the
/// text's first four fields, separated by single spaces.
pub proof fn lemma_fen_round_trip(t: Seq<char>, s: GameState)
    requires
        fen_canonical(t),
        describes(t, s),
    ensures
        fen_text(s) == field(t, 0) + seq![' '] + field(t, 1) + seq![' '] + field(t, 2) + seq![' '] + field(t, 3),
{
    lemma_placement_round_trip(s.board, field(t, 0));
    let c = choose|c: CastlingRights| #[trigger] castling_text(c) == field(t, 2);
    lemma_castling_letters(c);
    assert(s.castling == c);
    let w = field(t, 3);
    if w.len() == 2 {
        assert(ep_text(s.en_passant) =~= w);
    } else {
        assert(ep_text(s.en_passant) =~= w);
    }
    let side = if s.side_to_move == crate::board::Color::White { 'w' } else { 'b' };
    assert(field(t, 1) =~= seq![side]);
    assert(fen_text(s) =~= field(t, 0) + seq![' '] + field(t, 1) + seq![' '] + field(t, 2) + seq![' '] + field(t, 3));
}

/// How many entries of `ms` go from `f` to `t`.
pub open spec fn count_between(ms: Seq<Move>, f: Square, t: Square) -> nat
    decreases ms.len(),
{
    if ms.len() == 0 {
        0
    } else {
        count_between(ms.drop_last(), f, t) + (if ms.last().from == f && ms.last().to == t { 1nat } else { 0nat })
    }
}

proof fn lemma_count_is_card(ms: Seq<Move>, f: Square, t: Square)
    requires
        ms.no_duplicates(),
    ensures
        count_between(ms, f, t) == ms.to_set().filter(|x: Move| x.from == f && x.to == t).len(),
        ms.to_set().filter(|x: Move| x.from == f && x.to == t).finite(),
    decreases ms.len(),
{
    broadcast use vstd::set::axiom_set_insert_len, vstd::seq_lib::seq_to_set_is_finite;
    let pred = |x: Move| x.from == f && x.to == t;
    if ms.len() == 0 {
        assert(ms.to_set() =~= Set::<Move>::empty());
        assert(ms.to_set().filter(pred) =~= Set::<Move>::empty());
    } else {
        let p = ms.drop_last();
        let x = ms.last();
        assert(p.no_duplicates()) by {
            assert forall|a: int, b: int| 0 <= a < p.len() && 0 <= b < p.len() && a != b implies p[a] != p[b] by {
                assert(p[a] == ms[a] && p[b] == ms[b]);
            }
        }
        lemma_count_is_card(p, f, t);
        assert(ms == p.push(x));
        p.lemma_push_to_set_commute(x);
        assert(!p.contains(x)) by {
            if p.contains(x) {
                let k = choose|k: int| 0 <= k < p.len() && p[k] == x;
                assert(ms[k] == ms[ms.len() - 1]);
            }
        }
        assert(ms.to_set() == p.to_set().insert(x));
        assert(!p.to_set().contains(x));
        if pred(x) {
            assert(ms.to_set().filter(pred) =~= p.to_set().filter(pred).insert(x));
            assert(!p.to_set().filter(pred).contains(x));
        } else {
            assert(ms.to_set().filter(pred) =~= p.to_set().filter(pred));
        }
    }
}

/// The candidates list a move that takes a pawn to its last rank exactly
/// four times: once for each of queen, rook, bishop and knight.
pub proof fn lemma_promotion_listed_four_times(s: GameState, ms: Seq<Move>, m: Move)
    requires
        ep_rank_ok(s),
        forall|x: Move| #[trigger] ms.contains(x) <==> pseudo_legal(s, x),
        ms.no_duplicates(),
        pseudo_legal(s, m),
        m.kind is Promotion,
    ensures
        count_between(ms, m.from, m.to) == 4,
{
    broadcast use vstd::set::axiom_set_insert_len, vstd::set::axiom_set_empty_len;
    lemma_count_is_card(ms, m.from, m.to);
    lemma_promotion_iff_last_rank(s, m);
    let q = Move { kind: MoveKind::Promotion(PieceKind::Queen), ..m };
    let r = Move { kind: MoveKind::Promotion(PieceKind::Rook), ..m };
    let b = Move { kind: MoveKind::Promotion(PieceKind::Bishop), ..m };
    let n = Move { kind: MoveKind::Promotion(PieceKind::Knight), ..m };
    let four = Set::<Move>::empty().insert(q).insert(r).insert(b).insert(n);
    let found = ms.to_set().filter(|x: Move| x.from == m.from && x.to == m.to);
    assert(pseudo_legal(s, q) && pseudo_legal(s, r) && pseudo_legal(s, b) && pseudo_legal(s, n));
    assert forall|x: Move| found.contains(x) <==> four.contains(x) by {
        if found.contains(x) {
            assert(ms.contains(x));
            lemma_promotion_iff_last_rank(s, x);
            if let MoveKind::Promotion(k) = x.kind {
                assert(x == Move { kind: MoveKind::Promotion(k), ..m });
            }
        }
        if four.contains(x) {
            assert(ms.contains(x));
        }
    }
    assert(found =~= four);
    assert(Set::<Move>::empty().insert(q).len() == 1);
    assert(Set::<Move>::empty().insert(q).insert(r).len() == 2);
    assert(Set::<Move>::empty().insert(q).insert(r).insert(b).len() == 3);
}

} // verus!
