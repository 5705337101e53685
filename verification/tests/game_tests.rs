use wager_duel::game::{Game, MoveEffect};

#[test]
fn move_at_exact_remaining_succeeds() {
    let mut g = Game::new();
    assert!(matches!(g.handle_move(0, 700), MoveEffect::Accepted));
}

#[test]
fn move_one_over_remaining_rejected() {
    // 400 points left after the first wager: 401 is rejected, 400 accepted.
    let mut g = Game::new();
    assert!(matches!(g.handle_move(0, 300), MoveEffect::Accepted));
    assert!(matches!(g.handle_move(0, 401), MoveEffect::Rejected));
    assert!(matches!(g.handle_move(0, 400), MoveEffect::Accepted));
}

#[test]
fn overspend() {
    let mut g = Game::new();
    assert!(matches!(g.handle_move(0, 400), MoveEffect::Accepted));
    assert!(matches!(g.handle_move(0, 250), MoveEffect::Accepted));
    // 50 points left: 60 is an overspend, 50 is fine, then 1 is not.
    assert!(matches!(g.handle_move(0, 60), MoveEffect::Rejected));
    assert!(matches!(g.handle_move(0, 50), MoveEffect::Accepted));
    assert!(matches!(g.handle_move(0, 1), MoveEffect::Rejected));
}

#[test]
fn interleaved_turn() {
    let mut g = Game::new();
    assert!(matches!(g.handle_move(0, 100), MoveEffect::Accepted));
    // The partner completes the turn: side 0 wagered more, so side 0 hears
    // "opponent less" (-1) and side 1 hears "opponent greater" (+1).
    assert_eq!(g.handle_move(1, 80), MoveEffect::Paired { first: -1, second: 1 });
}

#[test]
fn equal_wagers_tie() {
    let mut g = Game::new();
    assert!(matches!(g.handle_move(1, 55), MoveEffect::Accepted));
    assert_eq!(g.handle_move(0, 55), MoveEffect::Paired { first: 0, second: 0 });
}

#[test]
fn results_negate_each_other() {
    let mut g = Game::new();
    assert!(matches!(g.handle_move(1, 10), MoveEffect::Accepted));
    match g.handle_move(0, 30) {
        MoveEffect::Paired { first, second } => assert_eq!(first as i32, -(second as i32)),
        other => panic!("expected a paired turn, got {:?}", other),
    }
}

#[test]
fn too_many_turns_rejected() {
    let mut g = Game::new();
    for _ in 0..7 {
        assert!(matches!(g.handle_move(0, 1), MoveEffect::Accepted));
    }
    assert!(matches!(g.handle_move(0, 1), MoveEffect::Rejected));
    assert!(!g.is_over());
}

#[test]
fn game_over_after_all_turns() {
    let mut g = Game::new();
    for turn in 0..7 {
        assert!(matches!(g.handle_move(0, 10), MoveEffect::Accepted));
        assert!(matches!(g.handle_move(1, 10), MoveEffect::Paired { .. }));
        assert_eq!(g.is_over(), turn == 6);
    }
}
