use rejectchess::board::PieceKind;
use rejectchess::game::Game;
use rejectchess::moves::{Move, MoveKind};
use rejectchess::uci::{parse_promo, parse_square, parse_uci_move, to_uci};

#[test]
fn parse_square_reads_corners() {
    assert_eq!(parse_square('a', '1'), Some((0, 0)));
    assert_eq!(parse_square('h', '8'), Some((7, 7)));
    assert_eq!(parse_square('i', '1'), None);
    assert_eq!(parse_square('a', '9'), None);
}

#[test]
fn parse_promo_reads_letters() {
    assert_eq!(parse_promo('q'), Some(PieceKind::Queen));
    assert_eq!(parse_promo('N'), Some(PieceKind::Knight));
    assert_eq!(parse_promo('k'), None);
}

#[test]
fn to_uci_writes_squares_and_promotion() {
    let m = Move { from: (4, 1), to: (4, 3), kind: MoveKind::Normal };
    assert_eq!(to_uci(m), "e2e4");
    let p = Move { from: (4, 6), to: (4, 7), kind: MoveKind::Promotion(PieceKind::Queen) };
    assert_eq!(to_uci(p), "e7e8q");
}

#[test]
fn parse_uci_move_needs_promotion_letter() {
    let game = Game::from_fen("4k3/1P6/8/8/8/8/8/4K3 w - - 0 1").unwrap();
    let legal = game.legal_moves();
    assert!(parse_uci_move("b7b8", &legal).is_none());
    let m = parse_uci_move("b7b8r", &legal).unwrap();
    assert_eq!(m.kind, MoveKind::Promotion(PieceKind::Rook));
    assert!(parse_uci_move("b7b8x", &legal).is_none());
    assert!(parse_uci_move("b7", &legal).is_none());
}

#[test]
fn parse_uci_move_finds_castling() {
    let game = Game::from_fen("4k3/8/8/8/8/8/8/4K2R w K - 0 1").unwrap();
    let legal = game.legal_moves();
    let m = parse_uci_move("e1g1", &legal).unwrap();
    assert_eq!(m.kind, MoveKind::CastleKingside);
}

#[test]
fn parse_uci_move_rejects_illegal() {
    let game = Game::new();
    let legal = game.legal_moves();
    assert!(parse_uci_move("e2e5", &legal).is_none());
    assert_eq!(parse_uci_move("g1f3", &legal).unwrap().to, (5, 2));
}
