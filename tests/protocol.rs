use rejectchess::engine::Engine;
use rejectchess::protocol::handle_position;
use rejectchess::uci::to_uci;

fn names(engine: &Engine) -> Vec<String> {
    let mut v: Vec<String> = engine.legal_moves().into_iter().map(to_uci).collect();
    v.sort();
    v
}

#[test]
fn position_startpos_with_two_moves() {
    let mut engine = Engine::with_depth(2);
    handle_position("position startpos moves e2e4", &mut engine);
    handle_position("position startpos moves e2e4 e7e5", &mut engine);
    let legal = names(&engine);
    assert_eq!(legal.len(), 29);
    assert!(legal.contains(&"g1f3".to_string()));
    assert!(legal.contains(&"e1e2".to_string()));
    let (mv, _) = engine.go().unwrap();
    assert!(legal.contains(&to_uci(mv)));
}

#[test]
fn position_stops_at_illegal_move() {
    let mut engine = Engine::with_depth(1);
    handle_position("position startpos moves e2e4 e2e4 e7e5", &mut engine);
    let legal = names(&engine);
    assert!(legal.contains(&"e7e5".to_string()));
    assert_eq!(legal.len(), 20);
}

#[test]
fn position_fen_with_moves() {
    let mut engine = Engine::with_depth(1);
    handle_position("position fen 4k3/1P6/8/8/8/8/8/4K3 w - - 0 1 moves b7b8q", &mut engine);
    let legal = names(&engine);
    // Black king on e8 is in check from the new queen on b8.
    assert!(!legal.contains(&"e8d8".to_string()));
    assert!(legal.contains(&"e8e7".to_string()));
}

#[test]
fn position_bad_fen_is_ignored() {
    let mut engine = Engine::with_depth(1);
    handle_position("position startpos moves e2e4", &mut engine);
    handle_position("position fen nonsense w - - 0 1 moves e7e5", &mut engine);
    let legal = names(&engine);
    assert!(legal.contains(&"e7e5".to_string()));
    assert_eq!(legal.len(), 20);
}

#[test]
fn position_fen_without_trailing_fields() {
    let mut engine = Engine::with_depth(1);
    handle_position("position fen 4k3/8/8/8/8/8/8/4K2R w moves e1g1", &mut engine);
    // No castling right was given, so e1g1 is not played and White is still to move.
    let legal = names(&engine);
    assert!(legal.contains(&"h1h8".to_string()));
}

#[test]
fn unknown_position_form_changes_nothing() {
    let mut engine = Engine::with_depth(1);
    handle_position("position startpos moves d2d4", &mut engine);
    handle_position("position somewhere", &mut engine);
    assert!(names(&engine).contains(&"d7d5".to_string()));
}
