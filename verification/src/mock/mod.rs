//! A scripted stand-in for greetd, for trying the interface without a real
//! login daemon: each scenario answers the greeter's requests in a fixed way.

use vstd::prelude::*;

use crate::greetd::{AuthMessageType, ErrorType, Request, RequestView, Response, ResponseView};
use crate::text::str_is;

verus! {

/// How the stand-in answers.
#[derive(Debug, Clone)]
pub enum Scenario {
    Normal { password: String },
    Visible { question: String, password: String },
    Info { password: String },
    SecretReprompt { password: String },
    AuthError,
    NoReply,
}

/// The abstract value of a [`Scenario`].
pub enum ScenarioView {
    Normal { password: Seq<char> },
    Visible { question: Seq<char>, password: Seq<char> },
    Info { password: Seq<char> },
    SecretReprompt { password: Seq<char> },
    AuthError,
    NoReply,
}

impl View for Scenario {
    type V = ScenarioView;

    open spec fn view(&self) -> ScenarioView {
        match self {
            Scenario::Normal { password } => ScenarioView::Normal { password: password@ },
            Scenario::Visible { question, password } => ScenarioView::Visible {
                question: question@,
                password: password@,
            },
            Scenario::Info { password } => ScenarioView::Info { password: password@ },
            Scenario::SecretReprompt { password } => ScenarioView::SecretReprompt { password: password@ },
            Scenario::AuthError => ScenarioView::AuthError,
            Scenario::NoReply => ScenarioView::NoReply,
        }
    }
}

/// One login conversation with the stand-in.
pub struct Conversation {
    scenario: Scenario,
    step: u32,
}

/// The abstract state of a [`Conversation`]: its scenario, and how far a
/// multi-prompt scenario has got.
pub struct ConversationView {
    pub scenario: ScenarioView,
    pub step: u32,
}

impl View for Conversation {
    type V = ConversationView;

    closed spec fn view(&self) -> ConversationView {
        ConversationView { scenario: self.scenario@, step: self.step }
    }
}

pub open spec fn prompt(kind: AuthMessageType, text: Seq<char>) -> ResponseView {
    ResponseView::AuthMessage { auth_message_type: kind, auth_message: text }
}

pub open spec fn password_prompt() -> ResponseView {
    prompt(AuthMessageType::Secret, "Password: "@)
}

/// The answer to a password: success when it matches, an authentication
/// error otherwise.
pub open spec fn checked(password: Seq<char>, response: Option<Seq<char>>) -> ResponseView {
    if response == Some(password) {
        ResponseView::Success
    } else {
        ResponseView::Error { error_type: ErrorType::AuthError, description: "Sorry, try again."@ }
    }
}

/// A scenario that asks `first`, then the password, then checks it.
pub open spec fn two_prompts(
    first: ResponseView,
    second: ResponseView,
    password: Seq<char>,
    step: u32,
    req: RequestView,
) -> (u32, Seq<ResponseView>) {
    match req {
        RequestView::CreateSession { .. } => (1, seq![first]),
        RequestView::PostAuthMessageResponse { response } => {
            if step == 1 {
                (2, seq![second])
            } else if step == 2 {
                (step, seq![checked(password, response)])
            } else {
                (step, seq![])
            }
        },
        RequestView::StartSession { .. } | RequestView::CancelSession => (step, seq![ResponseView::Success]),
    }
}

/// The stand-in's next step and its answers to a request.
pub open spec fn conversation_step(sc: ScenarioView, step: u32, req: RequestView) -> (u32, Seq<ResponseView>) {
    match sc {
        ScenarioView::NoReply => (step, seq![]),
        ScenarioView::Normal { password } => match req {
            RequestView::CreateSession { .. } => (step, seq![password_prompt()]),
            RequestView::PostAuthMessageResponse { response } => (step, seq![checked(password, response)]),
            _ => (step, seq![ResponseView::Success]),
        },
        ScenarioView::Visible { question, password } => two_prompts(
            prompt(AuthMessageType::Visible, question),
            password_prompt(),
            password,
            step,
            req,
        ),
        ScenarioView::Info { password } => two_prompts(
            prompt(AuthMessageType::Info, "Welcome"@),
            password_prompt(),
            password,
            step,
            req,
        ),
        ScenarioView::SecretReprompt { password } => two_prompts(
            password_prompt(),
            prompt(AuthMessageType::Secret, "Password expired. New password: "@),
            password,
            step,
            req,
        ),
        ScenarioView::AuthError => match req {
            RequestView::CreateSession { .. } => (step, seq![password_prompt()]),
            RequestView::PostAuthMessageResponse { .. } => (
                step,
                seq![
                    ResponseView::Error {
                        error_type: ErrorType::AuthError,
                        description: "Authentication failure"@,
                    },
                ],
            ),
            _ => (step, seq![ResponseView::Success]),
        },
    }
}

pub open spec fn responses_view(v: Seq<Response>) -> Seq<ResponseView> {
    v.map_values(|r: Response| r@)
}

fn message(auth_message_type: AuthMessageType, text: &str) -> (r: Response)
    ensures
        r@ == prompt(auth_message_type, text@),
{
    Response::AuthMessage { auth_message_type, auth_message: text.to_owned() }
}

fn secret(text: &str) -> (r: Response)
    ensures
        r@ == prompt(AuthMessageType::Secret, text@),
{
    message(AuthMessageType::Secret, text)
}

fn check(password: &str, response: Option<&str>) -> (r: Response)
    ensures
        r@ == checked(password@, match response {
            Some(v) => Some(v@),
            None => None,
        }),
{
    let matches = match response {
        Some(v) => str_is(v, password),
        None => false,
    };
    if matches {
        Response::Success
    } else {
        Response::Error { error_type: ErrorType::AuthError, description: "Sorry, try again.".to_owned() }
    }
}

fn answer(password: &String, response: &Option<String>) -> (r: Response)
    ensures
        r@ == checked(password@, crate::greetd::option_string_view(*response)),
{
    match response {
        Some(v) => check(password.as_str(), Some(v.as_str())),
        None => check(password.as_str(), None),
    }
}

impl Conversation {
    /// A conversation that has not started.
    pub fn new(scenario: Scenario) -> (c: Self)
        ensures
            c@ == (ConversationView { scenario: scenario@, step: 0 }),
    {
        Conversation { scenario, step: 0 }
    }

    /// The stand-in's answers to one request.
    pub fn handle(&mut self, request: &Request) -> (r: Vec<Response>)
        ensures
            final(self)@.scenario == old(self)@.scenario,
            (final(self)@.step, responses_view(r@)) == conversation_step(
                old(self)@.scenario,
                old(self)@.step,
                request@,
            ),
    {
        let ghost start = self@;
        let step = self.step;
        let (next, r): (u32, Vec<Response>) = match &self.scenario {
            Scenario::NoReply => (step, Vec::new()),
            Scenario::Normal { password } => match request {
                Request::CreateSession { .. } => (step, vec![secret("Password: ")]),
                Request::PostAuthMessageResponse { response } => (step, vec![answer(password, response)]),
                Request::StartSession { .. } | Request::CancelSession => (step, vec![Response::Success]),
            },
            Scenario::Visible { question, password } => match request {
                Request::CreateSession { .. } => (1, vec![message(AuthMessageType::Visible, question.as_str())]),
                Request::PostAuthMessageResponse { .. } if step == 1 => (2, vec![secret("Password: ")]),
                Request::PostAuthMessageResponse { response } if step == 2 => (step, vec![answer(password, response)]),
                Request::StartSession { .. } | Request::CancelSession => (step, vec![Response::Success]),
                _ => (step, Vec::new()),
            },
            Scenario::Info { password } => match request {
                Request::CreateSession { .. } => (1, vec![message(AuthMessageType::Info, "Welcome")]),
                Request::PostAuthMessageResponse { .. } if step == 1 => (2, vec![secret("Password: ")]),
                Request::PostAuthMessageResponse { response } if step == 2 => (step, vec![answer(password, response)]),
                Request::StartSession { .. } | Request::CancelSession => (step, vec![Response::Success]),
                _ => (step, Vec::new()),
            },
            Scenario::SecretReprompt { password } => match request {
                Request::CreateSession { .. } => (1, vec![secret("Password: ")]),
                Request::PostAuthMessageResponse { .. } if step == 1 => (
                    2,
                    vec![secret("Password expired. New password: ")],
                ),
                Request::PostAuthMessageResponse { response } if step == 2 => (step, vec![answer(password, response)]),
                Request::StartSession { .. } | Request::CancelSession => (step, vec![Response::Success]),
                _ => (step, Vec::new()),
            },
            Scenario::AuthError => match request {
                Request::CreateSession { .. } => (step, vec![secret("Password: ")]),
                Request::PostAuthMessageResponse { .. } => (
                    step,
                    vec![
                        Response::Error {
                            error_type: ErrorType::AuthError,
                            description: "Authentication failure".to_owned(),
                        },
                    ],
                ),
                Request::StartSession { .. } | Request::CancelSession => (step, vec![Response::Success]),
            },
        };
        self.step = next;
        assert(responses_view(r@) =~= conversation_step(start.scenario, start.step, request@).1);
        r
    }
}

/// The password that a scenario accepts, if any.
pub open spec fn scenario_password(sc: ScenarioView) -> Option<Seq<char>> {
    match sc {
        ScenarioView::Normal { password } => Some(password),
        ScenarioView::Visible { password, .. } => Some(password),
        ScenarioView::Info { password } => Some(password),
        ScenarioView::SecretReprompt { password } => Some(password),
        ScenarioView::AuthError | ScenarioView::NoReply => None,
    }
}

/// The stand-in lets a login through only on its own password: an answer
/// to a prompt succeeds only when it is the scenario's password, and the
/// failing and silent scenarios never let one through. Once the scenario
/// has asked all its prompts, its password succeeds and anything else is
/// refused.
pub proof fn lemma_mock_accepts_only_its_password(sc: ScenarioView, step: u32, response: Option<Seq<char>>)
    ensures
        conversation_step(sc, step, RequestView::PostAuthMessageResponse { response }).1.contains(
            ResponseView::Success,
        ) ==> scenario_password(sc) is Some && response == scenario_password(sc),
        (sc is Normal || step == 2) && scenario_password(sc) is Some ==> conversation_step(
            sc,
            step,
            RequestView::PostAuthMessageResponse { response },
        ).1 == seq![
            if response == scenario_password(sc) {
                ResponseView::Success
            } else {
                ResponseView::Error { error_type: ErrorType::AuthError, description: "Sorry, try again."@ }
            },
        ],
{
    let out = conversation_step(sc, step, RequestView::PostAuthMessageResponse { response }).1;
    if out.contains(ResponseView::Success) {
        let k = choose|k: int| 0 <= k < out.len() && out[k] == ResponseView::Success;
        assert(out.len() == 1 && k == 0);
    }
}

/// A scenario with two prompts asks its first one when the session is
/// created and its password prompt after the first answer, whatever that
/// answer is; the one-prompt scenarios ask for the password at once.
pub proof fn lemma_mock_prompts_in_order(
    sc: ScenarioView,
    username: Seq<char>,
    first_answer: Option<Seq<char>>,
)
    ensures
        (sc is Visible || sc is Info || sc is SecretReprompt) ==> {
            let (after_create, _) = conversation_step(sc, 0, RequestView::CreateSession { username });
            let (after_first, asked) = conversation_step(
                sc,
                after_create,
                RequestView::PostAuthMessageResponse { response: first_answer },
            );
            &&& after_first == 2
            &&& asked.len() == 1
            &&& asked[0] matches ResponseView::AuthMessage { auth_message_type: AuthMessageType::Secret, .. }
        },
        (sc is Normal || sc is AuthError) ==> conversation_step(
            sc,
            0,
            RequestView::CreateSession { username },
        ).1 == seq![password_prompt()],
{
}

} // verus!
