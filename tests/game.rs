use rejectchess::game::Game;
use rejectchess::moves::{Move, MoveKind};
use rejectchess::rules;

fn mv(from: (u8, u8), to: (u8, u8)) -> Move {
    Move { from, to, kind: MoveKind::Normal }
}

#[test]
fn initial_position_has_20_legal_moves() {
    let game = Game::new();
    assert_eq!(game.legal_moves().len(), 20);
}

#[test]
fn initial_position_not_in_check() {
    let game = Game::new();
    assert!(!rules::is_in_check(&game.state, game.state.side_to_move));
}

#[test]
fn initial_position_black_not_in_check_either() {
    let game = Game::new();
    assert!(!rules::is_in_check(&game.state, game.state.side_to_move.opposite()));
}

#[test]
fn make_move_rejects_illegal_and_keeps_position() {
    let mut game = Game::new();
    let before = game.state.board;
    assert!(game.make_move(mv((4, 1), (4, 4))).is_err());
    assert_eq!(game.state.board, before);
    assert_eq!(game.state.side_to_move, rejectchess::Color::White);
}

#[test]
fn make_move_double_push_sets_en_passant() {
    let mut game = Game::new();
    assert!(game.make_move(mv((4, 1), (4, 3))).is_ok());
    assert_eq!(game.state.en_passant, Some((4, 2)));
    assert_eq!(game.state.side_to_move, rejectchess::Color::Black);
    assert!(game.state.board[1][4].is_none());
    assert!(game.state.board[3][4].is_some());
}

#[test]
fn fools_mate_is_checkmate() {
    let mut game = Game::new();
    for m in [mv((5, 1), (5, 2)), mv((4, 6), (4, 4)), mv((6, 1), (6, 3)), mv((3, 7), (7, 3))] {
        assert!(game.make_move(m).is_ok());
    }
    assert!(game.is_checkmate());
    assert!(!game.is_stalemate());
    assert!(game.legal_moves().is_empty());
}

#[test]
fn cornered_king_is_stalemate() {
    let game = Game::from_fen("7k/5Q2/6K1/8/8/8/8/8 b - - 0 1").unwrap();
    assert!(game.is_stalemate());
    assert!(!game.is_checkmate());
}

#[test]
fn start_is_neither_mate_nor_stalemate() {
    let game = Game::new();
    assert!(!game.is_checkmate());
    assert!(!game.is_stalemate());
}

#[test]
fn kings_remain_after_a_line_of_play() {
    let mut game = Game::new();
    // 1. e4 d5 2. exd5 Qxd5 3. Nc3 Qe5+ 4. Be2
    for m in [
        mv((4, 1), (4, 3)),
        mv((3, 6), (3, 4)),
        mv((4, 3), (3, 4)),
        mv((3, 7), (3, 4)),
        mv((1, 0), (2, 2)),
        mv((3, 4), (4, 4)),
        mv((5, 0), (4, 1)),
    ] {
        assert!(game.make_move(m).is_ok());
    }
    let kings: Vec<_> = game
        .state
        .board
        .iter()
        .flatten()
        .filter(|c| matches!(c, Some(p) if p.kind == rejectchess::PieceKind::King))
        .collect();
    assert_eq!(kings.len(), 2);
    assert!(!rules::is_in_check(&game.state, rejectchess::Color::White));
}

#[test]
fn castling_rights_never_come_back() {
    let mut game = Game::from_fen("r3k2r/8/8/8/8/8/8/R3K2R w KQkq - 0 1").unwrap();
    assert!(game.make_move(mv((7, 0), (7, 1))).is_ok());
    assert!(!game.state.castling.white_kingside);
    assert!(game.make_move(mv((7, 7), (7, 6))).is_ok());
    assert!(game.make_move(mv((7, 1), (7, 0))).is_ok());
    assert!(!game.state.castling.white_kingside);
    assert!(!game.state.castling.black_kingside);
    assert!(game.state.castling.white_queenside);
}
