use qmlgreetd::greetd::{AuthMessageType, Request};

#[test]
fn only_secret_and_visible_expect_a_response() {
    assert!(AuthMessageType::Secret.expects_response());
    assert!(AuthMessageType::Visible.expects_response());
    assert!(!AuthMessageType::Info.expects_response());
    assert!(!AuthMessageType::Error.expects_response());
}

// Further scenarios.

#[test]
fn request_builders_fill_in_the_fields() {
    assert_eq!(
        Request::create_session("alice".to_string()),
        Request::CreateSession {
            username: "alice".into()
        }
    );
    assert_eq!(
        Request::response("hunter2".to_string()),
        Request::PostAuthMessageResponse {
            response: Some("hunter2".into())
        }
    );
    assert_eq!(
        Request::acknowledge(),
        Request::PostAuthMessageResponse { response: None }
    );
}
