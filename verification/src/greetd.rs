//! Messages of greetd's IPC protocol, as the greeter sends and receives them.

use vstd::prelude::*;

verus! {

/// A request sent to greetd.
#[derive(Debug, Clone, PartialEq, Eq)]
pub enum Request {
    CreateSession { username: String },
    PostAuthMessageResponse { response: Option<String> },
    StartSession { cmd: Vec<String>, env: Vec<String> },
    CancelSession,
}

/// The abstract value of a [`Request`]: every string by its characters.
pub enum RequestView {
    CreateSession { username: Seq<char> },
    PostAuthMessageResponse { response: Option<Seq<char>> },
    StartSession { cmd: Seq<Seq<char>>, env: Seq<Seq<char>> },
    CancelSession,
}

/// The characters of each string of a sequence.
pub open spec fn strings_view(v: Seq<String>) -> Seq<Seq<char>> {
    v.map_values(|s: String| s@)
}

pub open spec fn option_string_view(o: Option<String>) -> Option<Seq<char>> {
    match o {
        Some(s) => Some(s@),
        None => None,
    }
}

impl View for Request {
    type V = RequestView;

    open spec fn view(&self) -> RequestView {
        match self {
            Request::CreateSession { username } => RequestView::CreateSession { username: username@ },
            Request::PostAuthMessageResponse { response } => RequestView::PostAuthMessageResponse {
                response: option_string_view(*response),
            },
            Request::StartSession { cmd, env } => RequestView::StartSession {
                cmd: strings_view(cmd@),
                env: strings_view(env@),
            },
            Request::CancelSession => RequestView::CancelSession,
        }
    }
}

impl Request {
    /// Opens a login conversation for `username`.
    pub fn create_session(username: String) -> (r: Self)
        ensures
            r@ == (RequestView::CreateSession { username: username@ }),
    {
        Request::CreateSession { username }
    }

    /// Answers the pending prompt with `value`.
    pub fn response(value: String) -> (r: Self)
        ensures
            r@ == (RequestView::PostAuthMessageResponse { response: Some(value@) }),
    {
        Request::PostAuthMessageResponse { response: Some(value) }
    }

    /// Acknowledges a prompt that expects no answer.
    pub fn acknowledge() -> (r: Self)
        ensures
            r@ == (RequestView::PostAuthMessageResponse { response: None }),
    {
        Request::PostAuthMessageResponse { response: None }
    }
}

/// A reply from greetd.
#[derive(Debug, Clone, PartialEq, Eq)]
pub enum Response {
    Success,
    Error { error_type: ErrorType, description: String },
    AuthMessage { auth_message_type: AuthMessageType, auth_message: String },
}

/// The abstract value of a [`Response`].
pub enum ResponseView {
    Success,
    Error { error_type: ErrorType, description: Seq<char> },
    AuthMessage { auth_message_type: AuthMessageType, auth_message: Seq<char> },
}

impl View for Response {
    type V = ResponseView;

    open spec fn view(&self) -> ResponseView {
        match self {
            Response::Success => ResponseView::Success,
            Response::Error { error_type, description } => ResponseView::Error {
                error_type: *error_type,
                description: description@,
            },
            Response::AuthMessage { auth_message_type, auth_message } => ResponseView::AuthMessage {
                auth_message_type: *auth_message_type,
                auth_message: auth_message@,
            },
        }
    }
}

/// The kind of a greetd error.
#[derive(Debug, Clone, Copy, PartialEq, Eq, Structural)]
pub enum ErrorType {
    AuthError,
    Error,
}

/// The kind of a prompt in a greetd conversation.
#[derive(Debug, Clone, Copy, PartialEq, Eq, Structural)]
pub enum AuthMessageType {
    Secret,
    Visible,
    Info,
    Error,
}

impl AuthMessageType {
    /// Whether greetd waits for the user's answer to this kind of prompt.
    pub open spec fn spec_expects_response(self) -> bool {
        self is Secret || self is Visible
    }

    /// Only secret and visible prompts wait for an answer; info and error
    /// prompts are acknowledged without one.
    pub fn expects_response(self) -> (r: bool)
        ensures
            r == self.spec_expects_response(),
    {
        match self {
            AuthMessageType::Secret | AuthMessageType::Visible => true,
            _ => false,
        }
    }
}

} // verus!
