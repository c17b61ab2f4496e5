use rejectchess::board::{set_piece, Color, Piece, PieceKind};
use rejectchess::moves::{Move, MoveKind};
use rejectchess::rules::{apply_move_unchecked, is_in_check, is_square_attacked, legal_moves};
use rejectchess::state::{CastlingRights, GameState};
use rejectchess::uci::to_uci;

fn empty_state(side: Color) -> GameState {
    GameState {
        board: [[None; 8]; 8],
        side_to_move: side,
        castling: CastlingRights {
            white_kingside: false,
            white_queenside: false,
            black_kingside: false,
            black_queenside: false,
        },
        en_passant: None,
        white_king: (4, 0),
        black_king: (4, 7),
    }
}

fn piece(color: Color, kind: PieceKind) -> Option<Piece> {
    Some(Piece { color, kind })
}

#[test]
fn castling_through_check_is_illegal() {
    let mut state = empty_state(Color::White);
    state.castling.white_kingside = true;
    set_piece(&mut state.board, (4, 0), piece(Color::White, PieceKind::King));
    set_piece(&mut state.board, (7, 0), piece(Color::White, PieceKind::Rook));
    set_piece(&mut state.board, (5, 7), piece(Color::Black, PieceKind::Rook));
    set_piece(&mut state.board, (4, 7), piece(Color::Black, PieceKind::King));

    let moves = legal_moves(&state);
    assert!(!moves.iter().any(|mv| matches!(mv.kind, MoveKind::CastleKingside)));
}

#[test]
fn castling_allowed_when_path_is_safe() {
    let mut state = empty_state(Color::White);
    state.castling.white_kingside = true;
    set_piece(&mut state.board, (4, 0), piece(Color::White, PieceKind::King));
    set_piece(&mut state.board, (7, 0), piece(Color::White, PieceKind::Rook));
    set_piece(&mut state.board, (0, 7), piece(Color::Black, PieceKind::Rook));
    set_piece(&mut state.board, (4, 7), piece(Color::Black, PieceKind::King));

    let moves = legal_moves(&state);
    let castle = moves.iter().find(|mv| matches!(mv.kind, MoveKind::CastleKingside)).copied().unwrap();
    assert_eq!(castle.to, (6, 0));
    apply_move_unchecked(&mut state, castle);
    assert_eq!(state.board[0][6], piece(Color::White, PieceKind::King));
    assert_eq!(state.board[0][5], piece(Color::White, PieceKind::Rook));
    assert!(state.board[0][7].is_none());
    assert!(state.board[0][4].is_none());
    assert_eq!(state.white_king, (6, 0));
    assert!(!state.castling.white_kingside);
}

#[test]
fn en_passant_exposing_check_is_illegal() {
    let mut state = empty_state(Color::White);
    state.en_passant = Some((3, 5));
    set_piece(&mut state.board, (4, 0), piece(Color::White, PieceKind::King));
    set_piece(&mut state.board, (4, 4), piece(Color::White, PieceKind::Pawn));
    set_piece(&mut state.board, (3, 4), piece(Color::Black, PieceKind::Pawn));
    set_piece(&mut state.board, (4, 7), piece(Color::Black, PieceKind::Rook));

    let moves = legal_moves(&state);
    assert!(!moves.iter().any(|mv| {
        mv.from == (4, 4) && mv.to == (3, 5) && matches!(mv.kind, MoveKind::EnPassant)
    }));
}

#[test]
fn en_passant_capture_removes_the_pawn() {
    let mut state = empty_state(Color::White);
    state.en_passant = Some((3, 5));
    set_piece(&mut state.board, (4, 0), piece(Color::White, PieceKind::King));
    set_piece(&mut state.board, (4, 4), piece(Color::White, PieceKind::Pawn));
    set_piece(&mut state.board, (3, 4), piece(Color::Black, PieceKind::Pawn));
    set_piece(&mut state.board, (0, 7), piece(Color::Black, PieceKind::King));

    let moves = legal_moves(&state);
    let ep = Move { from: (4, 4), to: (3, 5), kind: MoveKind::EnPassant };
    assert!(moves.contains(&ep));
    apply_move_unchecked(&mut state, ep);
    assert_eq!(state.board[5][3], piece(Color::White, PieceKind::Pawn));
    assert!(state.board[4][3].is_none());
    assert!(state.board[4][4].is_none());
    assert!(state.en_passant.is_none());
}

#[test]
fn promotion_moves_generated() {
    let mut state = empty_state(Color::White);
    set_piece(&mut state.board, (4, 0), piece(Color::White, PieceKind::King));
    set_piece(&mut state.board, (4, 7), piece(Color::Black, PieceKind::King));
    set_piece(&mut state.board, (0, 6), piece(Color::White, PieceKind::Pawn));
    set_piece(&mut state.board, (1, 7), piece(Color::Black, PieceKind::Rook));

    let moves = legal_moves(&state);
    let quiet_promotions = moves
        .iter()
        .filter(|mv| mv.from == (0, 6) && mv.to == (0, 7) && matches!(mv.kind, MoveKind::Promotion(_)))
        .count();
    let capture_promotions = moves
        .iter()
        .filter(|mv| mv.from == (0, 6) && mv.to == (1, 7) && matches!(mv.kind, MoveKind::Promotion(_)))
        .count();
    assert_eq!(quiet_promotions, 4);
    assert_eq!(capture_promotions, 4);
    assert!(!moves.iter().any(|mv| mv.from == (0, 6) && mv.kind == MoveKind::Normal));
}

#[test]
fn start_legal_moves_are_the_twenty_openers() {
    let state = GameState::new();
    let mut names: Vec<String> = legal_moves(&state).into_iter().map(to_uci).collect();
    names.sort();
    let mut expected: Vec<String> = [
        "a2a3", "a2a4", "b2b3", "b2b4", "c2c3", "c2c4", "d2d3", "d2d4", "e2e3", "e2e4", "f2f3", "f2f4", "g2g3",
        "g2g4", "h2h3", "h2h4", "b1a3", "b1c3", "g1f3", "g1h3",
    ]
    .iter()
    .map(|s| s.to_string())
    .collect();
    expected.sort();
    assert_eq!(names, expected);
}

#[test]
fn legal_move_never_leaves_mover_in_check() {
    let state = GameState::from_fen("4k3/8/8/8/1b6/8/3P4/4K3 w - - 0 1").unwrap();
    for mv in legal_moves(&state) {
        let mut next = state;
        apply_move_unchecked(&mut next, mv);
        assert!(!is_in_check(&next, Color::White));
    }
    // The pinned pawn may not move.
    assert!(!legal_moves(&state).iter().any(|mv| mv.from == (3, 1)));
}

#[test]
fn king_move_clears_both_rights() {
    let mut state = GameState::from_fen("r3k2r/8/8/8/8/8/8/R3K2R w KQkq - 0 1").unwrap();
    apply_move_unchecked(&mut state, Move { from: (4, 0), to: (4, 1), kind: MoveKind::Normal });
    assert!(!state.castling.white_kingside);
    assert!(!state.castling.white_queenside);
    assert!(state.castling.black_kingside);
    assert!(state.castling.black_queenside);
    assert_eq!(state.white_king, (4, 1));
}

#[test]
fn capturing_a_home_rook_clears_its_right() {
    let mut state = GameState::from_fen("r3k2r/8/8/8/8/8/8/R3K2R w KQkq - 0 1").unwrap();
    apply_move_unchecked(&mut state, Move { from: (0, 0), to: (0, 7), kind: MoveKind::Normal });
    assert!(!state.castling.white_queenside);
    assert!(state.castling.white_kingside);
    assert!(!state.castling.black_queenside);
    assert!(state.castling.black_kingside);
}

#[test]
fn attack_oracle_sees_sliders_and_blocks() {
    let state = GameState::from_fen("4k3/8/8/8/8/8/8/R3K3 w - - 0 1").unwrap();
    assert!(is_square_attacked(&state, (0, 7), Color::White));
    assert!(is_square_attacked(&state, (3, 0), Color::White));
    assert!(!is_square_attacked(&state, (5, 1), Color::Black));
    let blocked = GameState::from_fen("4k3/8/8/8/8/8/n7/R3K3 w - - 0 1").unwrap();
    assert!(!is_square_attacked(&blocked, (0, 7), Color::White));
    assert!(is_square_attacked(&blocked, (2, 0), Color::Black));
    assert!(!is_square_attacked(&blocked, (1, 0), Color::Black));
}
