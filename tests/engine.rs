use rejectchess::engine::{Engine, MATE_SCORE};
use rejectchess::game::Game;
use rejectchess::uci::{parse_uci_move, to_uci};

fn play(engine: &mut Engine, token: &str) {
    let legal = engine.legal_moves();
    let mv = parse_uci_move(token, &legal).unwrap();
    assert!(engine.apply_moves(&[mv]).is_ok());
}

#[test]
fn go_from_start_returns_a_legal_move() {
    let engine = Engine::with_depth(3);
    let (mv, score) = engine.go().unwrap();
    assert!(engine.legal_moves().contains(&mv));
    assert!(score.abs() <= MATE_SCORE);
}

#[test]
fn go_replies_after_two_move_line() {
    let mut engine = Engine::with_depth(3);
    play(&mut engine, "e2e4");
    engine.reset();
    play(&mut engine, "e2e4");
    play(&mut engine, "e7e5");
    let (mv, _) = engine.go().unwrap();
    assert!(engine.legal_moves().contains(&mv));
    assert_eq!(engine.legal_moves().len(), 29);
}

#[test]
fn go_finds_mate_in_one() {
    let mut engine = Engine::with_depth(2);
    let game = Game::from_fen("6k1/5ppp/8/8/8/8/8/R5K1 w - - 0 1").unwrap();
    engine.set_game(game);
    let (mv, score) = engine.go().unwrap();
    assert_eq!(to_uci(mv), "a1a8");
    assert_eq!(score, MATE_SCORE);
}

#[test]
fn go_takes_a_free_queen() {
    let mut engine = Engine::with_depth(1);
    assert!(engine.set_fen("4k3/8/8/3q4/8/8/3R4/4K3 w - - 0 1"));
    let (mv, score) = engine.go().unwrap();
    assert_eq!(to_uci(mv), "d2d5");
    assert_eq!(score, 5);
}

#[test]
fn go_without_legal_moves_is_none() {
    let mut engine = Engine::with_depth(2);
    assert!(engine.set_fen("7k/5Q2/6K1/8/8/8/8/8 b - - 0 1"));
    assert!(engine.go().is_none());
}

#[test]
fn set_fen_rejects_bad_text_and_keeps_position() {
    let mut engine = Engine::with_depth(1);
    play(&mut engine, "e2e4");
    assert!(!engine.set_fen("not a fen"));
    assert_eq!(engine.legal_moves().len(), 20);
    let black_reply = engine.legal_moves().iter().any(|m| to_uci(*m) == "e7e5");
    assert!(black_reply);
}

#[test]
fn apply_moves_stops_at_illegal_move() {
    let mut engine = Engine::with_depth(1);
    let legal = engine.legal_moves();
    let e4 = parse_uci_move("e2e4", &legal).unwrap();
    assert!(engine.apply_moves(&[e4, e4]).is_err());
    assert!(engine.legal_moves().iter().any(|m| to_uci(*m) == "e7e5"));
}

#[test]
fn default_depth_is_five() {
    assert_eq!(Engine::new().search_depth(), 5);
}

#[test]
fn go_score_is_the_material_balance_at_depth_one() {
    let engine = Engine::with_depth(1);
    let (_, score) = engine.go().unwrap();
    assert_eq!(score, 0);
}

#[test]
fn go_prefers_winning_material_over_losing_it() {
    let mut engine = Engine::with_depth(2);
    // The rook takes the loose knight: a rook against a pawn is worth 4.
    assert!(engine.set_fen("6k1/6p1/8/8/8/1n6/8/1R4K1 w - - 0 1"));
    let (mv, score) = engine.go().unwrap();
    assert_eq!(to_uci(mv), "b1b3");
    assert_eq!(score, 4);
}
