use deckard::lifecycle::SearchState;

#[test]
fn lifecycle_runs_idle_to_idle() {
    let mut s = SearchState::Idle;
    assert!(s.can_launch());
    assert!(!s.is_launched());
    s.launch();
    assert_eq!(s, SearchState::Running);
    assert!(!s.can_launch());
    s.observe(false);
    assert_eq!(s, SearchState::Running);
    s.observe(true);
    assert_eq!(s, SearchState::Finished);
    assert!(!s.can_launch());
    assert!(s.is_launched());
    s.collect();
    assert_eq!(s, SearchState::Idle);
    assert!(s.can_launch());
}
