use rejectchess::board::{Color, Piece, PieceKind};
use rejectchess::state::GameState;

#[test]
fn from_fen_starting_position() {
    let fen = "rnbqkbnr/pppppppp/8/8/8/8/PPPPPPPP/RNBQKBNR w KQkq - 0 1";
    let state = GameState::from_fen(fen).unwrap();

    assert_eq!(state.side_to_move, Color::White);
    assert_eq!(state.white_king, (4, 0));
    assert_eq!(state.black_king, (4, 7));
    assert!(state.castling.white_kingside);
    assert!(state.castling.white_queenside);
    assert!(state.castling.black_kingside);
    assert!(state.castling.black_queenside);
    assert!(state.en_passant.is_none());
}

#[test]
fn from_fen_black_to_move() {
    let fen = "rnbqkbnr/pppppppp/8/8/4P3/8/PPPP1PPP/RNBQKBNR b KQkq e3 0 1";
    let state = GameState::from_fen(fen).unwrap();

    assert_eq!(state.side_to_move, Color::Black);
    assert_eq!(state.en_passant, Some((4, 2)));
}

#[test]
fn from_fen_partial_castling() {
    let fen = "r3k2r/pppppppp/8/8/8/8/PPPPPPPP/R3K2R w Kq - 0 1";
    let state = GameState::from_fen(fen).unwrap();

    assert!(state.castling.white_kingside);
    assert!(!state.castling.white_queenside);
    assert!(!state.castling.black_kingside);
    assert!(state.castling.black_queenside);
}

#[test]
fn from_fen_invalid_returns_none() {
    assert!(GameState::from_fen("invalid").is_none());
    assert!(GameState::from_fen("").is_none());
}

#[test]
fn from_fen_matches_new() {
    let fen = "rnbqkbnr/pppppppp/8/8/8/8/PPPPPPPP/RNBQKBNR w KQkq - 0 1";
    let parsed = GameState::from_fen(fen).unwrap();
    let fresh = GameState::new();
    assert_eq!(parsed.board, fresh.board);
    assert_eq!(parsed.castling, fresh.castling);
}

#[test]
fn from_fen_places_pieces() {
    let state = GameState::from_fen("4k3/8/8/8/4P3/8/8/4K2R b K - 0 1").unwrap();
    assert_eq!(state.board[3][4], Some(Piece { color: Color::White, kind: PieceKind::Pawn }));
    assert_eq!(state.board[0][7], Some(Piece { color: Color::White, kind: PieceKind::Rook }));
    assert_eq!(state.board[7][4], Some(Piece { color: Color::Black, kind: PieceKind::King }));
    assert!(state.board[3][3].is_none());
}

#[test]
fn from_fen_missing_fields_default_to_none() {
    let state = GameState::from_fen("4k3/8/8/8/8/8/8/4K3 w").unwrap();
    assert!(!state.castling.white_kingside);
    assert!(!state.castling.black_queenside);
    assert!(state.en_passant.is_none());
}

#[test]
fn from_fen_rejects_malformed_placement() {
    assert!(GameState::from_fen("4k3/8/8/8/8/8/8/4K2 w - - 0 1").is_none());
    assert!(GameState::from_fen("4k3/8/8/8/8/8/8/8/4K3 w - - 0 1").is_none());
    assert!(GameState::from_fen("4k3/8/8/8/8/8/8/4K3 x - - 0 1").is_none());
    assert!(GameState::from_fen("4k3/8/8/8/8/8/8/4X3 w - - 0 1").is_none());
    assert!(GameState::from_fen("4k3/8/8/8/8/8/8/9 w - - 0 1").is_none());
}

#[test]
fn new_is_standard_setup() {
    let state = GameState::new();
    assert_eq!(state.board[0][3], Some(Piece { color: Color::White, kind: PieceKind::Queen }));
    assert_eq!(state.board[7][4], Some(Piece { color: Color::Black, kind: PieceKind::King }));
    assert_eq!(state.board[6][0], Some(Piece { color: Color::Black, kind: PieceKind::Pawn }));
    assert!(state.board[4][4].is_none());
    assert_eq!(state.white_king, (4, 0));
}

#[test]
fn to_fen_of_new_is_standard() {
    assert_eq!(GameState::new().to_fen(), "rnbqkbnr/pppppppp/8/8/8/8/PPPPPPPP/RNBQKBNR w KQkq -");
}

#[test]
fn fen_round_trip_keeps_four_fields() {
    for fen in [
        "rnbqkbnr/pppppppp/8/8/4P3/8/PPPP1PPP/RNBQKBNR b KQkq e3 0 1",
        "r3k2r/pppppppp/8/8/8/8/PPPPPPPP/R3K2R w Kq - 0 1",
        "4k3/8/8/8/8/8/8/4K3 w - - 12 40",
        "8/2p5/3p4/KP5r/1R3p1k/8/4P1P1/8 w - - 0 1",
    ] {
        let state = GameState::from_fen(fen).unwrap();
        let four: Vec<&str> = fen.split(' ').take(4).collect();
        assert_eq!(state.to_fen(), four.join(" "));
    }
}

#[test]
fn to_fen_after_double_push_names_target() {
    let mut state = GameState::new();
    rejectchess::rules::apply_move_unchecked(
        &mut state,
        rejectchess::moves::Move { from: (4, 1), to: (4, 3), kind: rejectchess::moves::MoveKind::Normal },
    );
    assert_eq!(state.to_fen(), "rnbqkbnr/pppppppp/8/8/4P3/8/PPPP1PPP/RNBQKBNR b KQkq e3");
}
