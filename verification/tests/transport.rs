use qmlgreetd::auth::machine::{Machine, Output, Phase};
use qmlgreetd::greetd::Response;
use qmlgreetd::protocol::{Command, Event};
use qmlgreetd::transport::{after_output, is_busy, react, Input, Next, STATUS_FAILED, STATUS_OK};

#[test]
fn the_watchdog_is_armed_only_during_a_login() {
    assert!(!is_busy(Phase::Idle));
    assert!(is_busy(Phase::Authenticating));
    assert!(is_busy(Phase::AwaitingSession));
    assert!(is_busy(Phase::Starting));
    assert!(is_busy(Phase::Cancelling));
    assert!(!is_busy(Phase::Started));
}

#[test]
fn inputs_reach_the_machine() {
    let mut machine = Machine::new();
    let out = react(
        &mut machine,
        Input::Command(Command::CreateSession {
            username: "alice".into(),
        }),
    )
    .unwrap();
    assert_eq!(out.len(), 1);
    assert_eq!(machine.phase(), Phase::Authenticating);

    let out = react(&mut machine, Input::Response(Response::Success)).unwrap();
    assert_eq!(out, vec![Output::ToUi(Event::Authenticated)]);

    let out = react(&mut machine, Input::InvalidCommand("bad".into())).unwrap();
    assert_eq!(out, vec![Output::ToUi(Event::Error { text: "bad".into() })]);
}

#[test]
fn a_timeout_or_a_lost_connection_ends_the_relay() {
    let mut machine = Machine::new();
    let out = react(&mut machine, Input::Watchdog).unwrap();
    assert_eq!(
        out,
        vec![
            Output::ToUi(Event::Exited {
                reason: "timed out waiting for greetd".into()
            }),
            Output::Quit,
        ]
    );
    let out = react(&mut machine, Input::GreetdEnded("gone".into())).unwrap();
    assert_eq!(out[0], Output::ToUi(Event::Exited { reason: "gone".into() }));
    assert!(react(&mut machine, Input::UiEnded).is_none());
}

#[test]
fn an_exit_event_fails_the_run_and_quit_stops_it() {
    let exited = Output::ToUi(Event::Exited {
        reason: "gone".into(),
    });
    assert_eq!(after_output(STATUS_OK, &exited), Next::Continue(STATUS_FAILED));
    assert_eq!(after_output(STATUS_OK, &Output::Quit), Next::Stop(STATUS_OK));
    assert_eq!(after_output(STATUS_FAILED, &Output::Quit), Next::Stop(STATUS_FAILED));
    assert_eq!(
        after_output(STATUS_OK, &Output::ToUi(Event::Started)),
        Next::Continue(STATUS_OK)
    );
    assert_eq!(STATUS_OK, 0);
    assert_eq!(STATUS_FAILED, 1);
}
