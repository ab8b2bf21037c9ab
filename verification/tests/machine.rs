use qmlgreetd::auth::machine::{Machine, Output, Phase};
use qmlgreetd::greetd::{AuthMessageType, ErrorType, Request, Response};
use qmlgreetd::protocol::{AuthMessageKind, Command, Event};

fn commands(machine: &mut Machine, command: Command) -> Vec<Output> {
    machine.handle_command(command)
}

fn response(machine: &mut Machine, response: Response) -> Vec<Output> {
    machine.handle_response(response)
}

fn auth_message(kind: AuthMessageType, text: &str) -> Response {
    Response::AuthMessage {
        auth_message_type: kind,
        auth_message: text.to_string(),
    }
}

fn create(machine: &mut Machine) {
    commands(
        machine,
        Command::CreateSession {
            username: "alice".into(),
        },
    );
}

#[test]
fn secret_prompt_is_forwarded_and_awaits_a_response() {
    let mut machine = Machine::new();
    create(&mut machine);
    assert_eq!(machine.phase(), Phase::Authenticating);

    let outputs = response(
        &mut machine,
        auth_message(AuthMessageType::Secret, "Password: "),
    );
    assert_eq!(
        outputs,
        vec![Output::ToUi(Event::AuthMessage {
            kind: AuthMessageKind::Secret,
            text: "Password: ".into(),
        })]
    );
}

#[test]
fn info_message_is_shown_and_acknowledged() {
    let mut machine = Machine::new();
    create(&mut machine);

    let outputs = response(&mut machine, auth_message(AuthMessageType::Info, "Welcome"));
    assert_eq!(
        outputs,
        vec![
            Output::ToUi(Event::AuthMessage {
                kind: AuthMessageKind::Info,
                text: "Welcome".into(),
            }),
            Output::ToGreetd(Request::acknowledge()),
        ]
    );
    assert_eq!(machine.phase(), Phase::Authenticating);
}

#[test]
fn wrong_password_error_returns_to_idle_and_allows_a_retry() {
    let mut machine = Machine::new();
    create(&mut machine);
    let outputs = response(
        &mut machine,
        Response::Error {
            error_type: ErrorType::AuthError,
            description: "Sorry, try again.".into(),
        },
    );
    assert_eq!(
        outputs,
        vec![
            Output::ToUi(Event::AuthError {
                text: "Incorrect password. Try again.".into(),
            }),
            Output::ToGreetd(Request::CancelSession),
        ]
    );
    assert_eq!(machine.phase(), Phase::Idle);

    assert!(response(&mut machine, Response::Success).is_empty());
    assert_eq!(machine.phase(), Phase::Idle);

    create(&mut machine);
    assert_eq!(machine.phase(), Phase::Authenticating);
}

#[test]
fn a_stale_configured_session_is_released_on_error() {
    let mut machine = Machine::new();
    create(&mut machine);
    let outputs = response(
        &mut machine,
        Response::Error {
            error_type: ErrorType::Error,
            description: "a session is already being configured".into(),
        },
    );
    assert_eq!(
        outputs,
        vec![
            Output::ToUi(Event::Error {
                text: "a session is already being configured".into(),
            }),
            Output::ToGreetd(Request::CancelSession),
        ]
    );

    assert!(response(&mut machine, Response::Success).is_empty());
    assert_eq!(machine.phase(), Phase::Idle);
    create(&mut machine);
    assert_eq!(machine.phase(), Phase::Authenticating);
}

#[test]
fn a_cryptic_auth_error_is_simplified_for_the_ui() {
    let mut machine = Machine::new();
    create(&mut machine);
    let outputs = response(
        &mut machine,
        Response::Error {
            error_type: ErrorType::AuthError,
            description: "authentication error: pam_authenticate: AUTH_ERR".into(),
        },
    );
    assert_eq!(
        outputs,
        vec![
            Output::ToUi(Event::AuthError {
                text: "Incorrect password. Try again.".into(),
            }),
            Output::ToGreetd(Request::CancelSession),
        ]
    );
}

#[test]
fn success_after_authentication_moves_to_awaiting_session() {
    let mut machine = Machine::new();
    create(&mut machine);
    let outputs = response(&mut machine, Response::Success);
    assert_eq!(outputs, vec![Output::ToUi(Event::Authenticated)]);
    assert_eq!(machine.phase(), Phase::AwaitingSession);
}

#[test]
fn start_session_quotes_arguments_and_exits_on_success() {
    let mut machine = Machine::new();
    create(&mut machine);
    response(&mut machine, Response::Success);

    let outputs = commands(
        &mut machine,
        Command::StartSession {
            argv: vec!["/usr/bin/sway".into(), "a b".into()],
            env: vec!["XDG_SESSION_TYPE=wayland".into()],
        },
    );
    assert_eq!(
        outputs,
        vec![Output::ToGreetd(Request::StartSession {
            cmd: vec!["'/usr/bin/sway'".into(), "'a b'".into()],
            env: vec!["XDG_SESSION_TYPE=wayland".into()],
        })]
    );
    assert_eq!(machine.phase(), Phase::Starting);

    let outputs = response(&mut machine, Response::Success);
    assert_eq!(outputs, vec![Output::ToUi(Event::Started), Output::Quit]);
}

#[test]
fn a_cancel_ack_is_not_mistaken_for_an_auth_success() {
    let mut machine = Machine::new();
    create(&mut machine);
    commands(&mut machine, Command::CancelSession);
    assert_eq!(machine.phase(), Phase::Cancelling);

    let outputs = response(&mut machine, Response::Success);
    assert_eq!(outputs, vec![Output::ToUi(Event::Cancelled)]);
    assert_eq!(machine.phase(), Phase::Idle);
}

#[test]
fn a_stray_success_does_not_start_a_session() {
    let mut machine = Machine::new();
    create(&mut machine);
    response(&mut machine, Response::Success);

    let outputs = response(&mut machine, Response::Success);
    assert!(outputs.is_empty());
    assert_eq!(machine.phase(), Phase::AwaitingSession);

    let outputs = commands(
        &mut machine,
        Command::StartSession {
            argv: vec!["/bin/true".into()],
            env: vec![],
        },
    );
    assert!(matches!(outputs[0], Output::ToGreetd(_)));
    assert_eq!(machine.phase(), Phase::Starting);
}

#[test]
fn responding_without_a_prompt_is_rejected() {
    let mut machine = Machine::new();
    let outputs = commands(
        &mut machine,
        Command::Respond {
            value: "hunter2".into(),
        },
    );
    assert!(matches!(outputs[0], Output::ToUi(Event::Error { .. })));
}

#[test]
fn transport_failure_quits() {
    let mut machine = Machine::new();
    let outputs = machine.handle_transport_failure("greetd closed the connection");
    assert_eq!(
        outputs,
        vec![
            Output::ToUi(Event::Exited {
                reason: "greetd closed the connection".into(),
            }),
            Output::Quit,
        ]
    );
}

// Further scenarios.

#[test]
fn a_second_login_while_one_is_in_progress_is_refused() {
    let mut machine = Machine::new();
    create(&mut machine);
    let outputs = commands(
        &mut machine,
        Command::CreateSession {
            username: "bob".into(),
        },
    );
    assert_eq!(
        outputs,
        vec![Output::ToUi(Event::Error {
            text: "a login is already in progress".into(),
        })]
    );
    assert_eq!(machine.phase(), Phase::Authenticating);
}

#[test]
fn starting_before_authentication_is_refused() {
    let mut machine = Machine::new();
    let outputs = commands(
        &mut machine,
        Command::StartSession {
            argv: vec!["/bin/true".into()],
            env: vec![],
        },
    );
    assert_eq!(
        outputs,
        vec![Output::ToUi(Event::Error {
            text: "not authenticated; cannot start a session".into(),
        })]
    );
    assert_eq!(machine.phase(), Phase::Idle);
}

#[test]
fn cancelling_with_nothing_in_progress_is_refused() {
    let mut machine = Machine::new();
    let outputs = commands(&mut machine, Command::CancelSession);
    assert_eq!(
        outputs,
        vec![Output::ToUi(Event::Error {
            text: "no session is currently being configured".into(),
        })]
    );
    assert_eq!(machine.phase(), Phase::Idle);
}

#[test]
fn a_response_is_forwarded_while_authenticating() {
    let mut machine = Machine::new();
    create(&mut machine);
    let outputs = commands(
        &mut machine,
        Command::Respond {
            value: "hunter2".into(),
        },
    );
    assert_eq!(
        outputs,
        vec![Output::ToGreetd(Request::response("hunter2".to_string()))]
    );
}

#[test]
fn create_session_names_the_user() {
    let mut machine = Machine::new();
    let outputs = commands(
        &mut machine,
        Command::CreateSession {
            username: "alice".into(),
        },
    );
    assert_eq!(
        outputs,
        vec![Output::ToGreetd(Request::CreateSession {
            username: "alice".into()
        })]
    );
}

#[test]
fn an_error_while_starting_returns_to_idle() {
    let mut machine = Machine::new();
    create(&mut machine);
    response(&mut machine, Response::Success);
    commands(
        &mut machine,
        Command::StartSession {
            argv: vec!["/bin/true".into()],
            env: vec![],
        },
    );
    let outputs = response(
        &mut machine,
        Response::Error {
            error_type: ErrorType::Error,
            description: "exec failed".into(),
        },
    );
    assert_eq!(
        outputs,
        vec![Output::ToUi(Event::Error {
            text: "exec failed".into()
        })]
    );
    assert_eq!(machine.phase(), Phase::Idle);
}

#[test]
fn a_cancel_ack_after_a_quick_retry_is_still_swallowed() {
    let mut machine = Machine::new();
    create(&mut machine);
    response(
        &mut machine,
        Response::Error {
            error_type: ErrorType::AuthError,
            description: "nope".into(),
        },
    );
    create(&mut machine);
    assert!(response(&mut machine, Response::Success).is_empty());
    assert_eq!(machine.phase(), Phase::Authenticating);
    let outputs = response(&mut machine, Response::Success);
    assert_eq!(outputs, vec![Output::ToUi(Event::Authenticated)]);
}

#[test]
fn an_error_prompt_is_shown_and_acknowledged() {
    let mut machine = Machine::new();
    create(&mut machine);
    let outputs = response(&mut machine, auth_message(AuthMessageType::Error, "Account locked"));
    assert_eq!(
        outputs,
        vec![
            Output::ToUi(Event::AuthMessage {
                kind: AuthMessageKind::Error,
                text: "Account locked".into(),
            }),
            Output::ToGreetd(Request::acknowledge()),
        ]
    );
}

#[test]
fn a_default_machine_is_idle() {
    let machine = Machine::default();
    assert_eq!(machine.phase(), Phase::Idle);
    assert_eq!(machine.clone(), Machine::new());
}
