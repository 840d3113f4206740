use paddle_server::game_state::GameState;

#[test]
fn new_state_is_idle() {
    let g = GameState::new();
    assert!(!g.active);
    assert_eq!(g.some_data, "");
}

#[test]
fn start_then_end_action() {
    let mut g = GameState::new();
    g.start_action();
    assert!(g.active);
    assert_eq!(g.some_data, "Started");
    assert_eq!(g.end_action(), Some("Started".to_string()));
    assert!(!g.active);
    assert_eq!(g.end_action(), None);
}
