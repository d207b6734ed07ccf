use gamma_bars::gamma::{GammaState, InputEvent};

#[test]
fn fresh_state_is_gamma_one() {
    let s = GammaState::new();
    assert_eq!(s.twentieths, 20);
}

#[test]
fn increment_adds_one_step() {
    let mut s = GammaState::new();
    s.increment();
    assert_eq!(s.twentieths, 21);
}

#[test]
fn decrement_removes_one_step() {
    let mut s = GammaState::new();
    s.decrement();
    assert_eq!(s.twentieths, 19);
}

#[test]
fn decrement_stops_at_zero() {
    let mut s = GammaState::new();
    for _ in 0..40 {
        s.decrement();
    }
    assert_eq!(s.twentieths, 0);
    s.decrement();
    assert_eq!(s.twentieths, 0);
}

#[test]
fn batch_without_quit_folds_all_events() {
    let mut s = GammaState::new();
    let events = vec![
        InputEvent::PressUp,
        InputEvent::Other,
        InputEvent::PressUp,
        InputEvent::PressDown,
    ];
    let quit = s.handle_input(&events);
    assert!(!quit);
    assert_eq!(s.twentieths, 21);
}

#[test]
fn batch_stops_at_first_quit() {
    let mut s = GammaState::new();
    let events = vec![InputEvent::PressUp, InputEvent::Quit, InputEvent::PressUp];
    let quit = s.handle_input(&events);
    assert!(quit);
    assert_eq!(s.twentieths, 21);
}

#[test]
fn escape_quits_like_quit() {
    let mut s = GammaState::new();
    let events = vec![InputEvent::PressEscape];
    let quit = s.handle_input(&events);
    assert!(quit);
    assert_eq!(s.twentieths, 20);
}

#[test]
fn empty_batch_changes_nothing() {
    let mut s = GammaState::new();
    let events: Vec<InputEvent> = Vec::new();
    let quit = s.handle_input(&events);
    assert!(!quit);
    assert_eq!(s.twentieths, 20);
}

#[test]
fn other_events_are_ignored() {
    let mut s = GammaState::new();
    let events = vec![InputEvent::Other, InputEvent::Other];
    let quit = s.handle_input(&events);
    assert!(!quit);
    assert_eq!(s.twentieths, 20);
}
