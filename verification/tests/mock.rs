use qmlgreetd::greetd::{AuthMessageType, ErrorType, Request, Response};
use qmlgreetd::mock::{Conversation, Scenario};

fn secret(text: &str) -> Response {
    Response::AuthMessage {
        auth_message_type: AuthMessageType::Secret,
        auth_message: text.into(),
    }
}

fn wrong() -> Response {
    Response::Error {
        error_type: ErrorType::AuthError,
        description: "Sorry, try again.".into(),
    }
}

#[test]
fn normal_scenario_checks_the_password() {
    let mut c = Conversation::new(Scenario::Normal {
        password: "hunter2".into(),
    });
    assert_eq!(c.handle(&Request::create_session("alice".into())), vec![secret("Password: ")]);
    assert_eq!(c.handle(&Request::response("wrong".into())), vec![wrong()]);
    assert_eq!(c.handle(&Request::response("hunter2".into())), vec![Response::Success]);
    assert_eq!(c.handle(&Request::acknowledge()), vec![wrong()]);
    assert_eq!(c.handle(&Request::CancelSession), vec![Response::Success]);
}

#[test]
fn visible_scenario_asks_then_prompts() {
    let mut c = Conversation::new(Scenario::Visible {
        question: "Login: ".into(),
        password: "pw".into(),
    });
    assert_eq!(
        c.handle(&Request::create_session("alice".into())),
        vec![Response::AuthMessage {
            auth_message_type: AuthMessageType::Visible,
            auth_message: "Login: ".into(),
        }]
    );
    assert_eq!(c.handle(&Request::response("alice".into())), vec![secret("Password: ")]);
    assert_eq!(c.handle(&Request::response("pw".into())), vec![Response::Success]);
}

#[test]
fn info_and_reprompt_scenarios() {
    let mut info = Conversation::new(Scenario::Info {
        password: "pw".into(),
    });
    assert_eq!(
        info.handle(&Request::create_session("a".into())),
        vec![Response::AuthMessage {
            auth_message_type: AuthMessageType::Info,
            auth_message: "Welcome".into(),
        }]
    );
    assert_eq!(info.handle(&Request::acknowledge()), vec![secret("Password: ")]);

    let mut again = Conversation::new(Scenario::SecretReprompt {
        password: "new".into(),
    });
    assert!(again.handle(&Request::response("x".into())).is_empty());
    assert_eq!(again.handle(&Request::create_session("a".into())), vec![secret("Password: ")]);
    assert_eq!(
        again.handle(&Request::response("old".into())),
        vec![secret("Password expired. New password: ")]
    );
    assert_eq!(again.handle(&Request::response("new".into())), vec![Response::Success]);
}

#[test]
fn failing_and_silent_scenarios() {
    let mut failing = Conversation::new(Scenario::AuthError);
    assert_eq!(failing.handle(&Request::create_session("a".into())), vec![secret("Password: ")]);
    assert_eq!(
        failing.handle(&Request::response("x".into())),
        vec![Response::Error {
            error_type: ErrorType::AuthError,
            description: "Authentication failure".into(),
        }]
    );
    let mut silent = Conversation::new(Scenario::NoReply);
    assert!(silent.handle(&Request::create_session("a".into())).is_empty());
}
