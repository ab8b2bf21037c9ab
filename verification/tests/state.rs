use qmlgreetd::state::State;

fn session_of<'a>(state: &'a State, user: &str) -> Option<&'a str> {
    state
        .session_by_user
        .iter()
        .find(|(u, _)| u == user)
        .map(|(_, s)| s.as_str())
}

#[test]
fn remember_records_the_user_and_their_session() {
    let mut state = State::default();
    state.remember("alice", Some("sway"));
    state.remember("bob", None);
    assert_eq!(state.last_user.as_deref(), Some("bob"));
    assert_eq!(session_of(&state, "alice"), Some("sway"));
    assert_eq!(session_of(&state, "bob"), None);

    state.remember("alice", Some("hyprland"));
    assert_eq!(state.last_user.as_deref(), Some("alice"));
    assert_eq!(session_of(&state, "alice"), Some("hyprland"));
    assert_eq!(state.session_by_user.len(), 1);
}

#[test]
fn sanitize_drops_empty_and_long_fields() {
    let long = "x".repeat(257);
    let mut state = State {
        last_user: Some(long.clone()),
        session_by_user: vec![
            (long.clone(), "sway".into()),
            ("alice".into(), "sway".into()),
            ("bob".into(), String::new()),
        ],
    };
    state.sanitize();
    assert_eq!(state.last_user, None);
    assert_eq!(
        state.session_by_user,
        vec![("alice".to_string(), "sway".to_string())]
    );

    let mut empty_user = State {
        last_user: Some(String::new()),
        session_by_user: vec![],
    };
    empty_user.sanitize();
    assert_eq!(empty_user.last_user, None);
}

#[test]
fn sanitize_counts_bytes_not_characters() {
    let at_limit = "x".repeat(256);
    let wide = "é".repeat(129);
    let mut state = State {
        last_user: Some(at_limit.clone()),
        session_by_user: vec![(wide.clone(), "s".into()), ("é".repeat(128), "s".into())],
    };
    state.sanitize();
    assert_eq!(state.last_user, Some(at_limit));
    assert_eq!(state.session_by_user, vec![("é".repeat(128), "s".to_string())]);
}

#[test]
fn sanitize_leaves_an_acceptable_state_unchanged() {
    let mut state = State::default();
    state.remember("alice", Some("sway"));
    state.remember("bob", Some("hyprland"));
    let before = state.clone();
    state.sanitize();
    assert_eq!(state, before);
}
