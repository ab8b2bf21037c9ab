//! The state machine that relays a login between the user interface and
//! greetd: it checks each command against the conversation's phase, turns
//! greetd's replies into interface events, and keeps track of the
//! acknowledgements that greetd still owes.

use vstd::prelude::*;

use crate::exec::{greetd_cmd, lemma_shell_reads_back_quoted, shell_read, to_greetd_cmd};
use crate::greetd::{AuthMessageType, ErrorType, Request, RequestView, Response, ResponseView};
use crate::protocol::{AuthMessageKind, Command, CommandView, Event, EventView};

verus! {

/// Where the login conversation stands.
#[derive(Debug, Clone, Copy, PartialEq, Eq, Structural)]
pub enum Phase {
    Idle,
    Authenticating,
    AwaitingSession,
    Starting,
    Cancelling,
    Started,
}

/// What the machine asks its driver to do.
#[derive(Debug, Clone, PartialEq, Eq)]
pub enum Output {
    ToGreetd(Request),
    ToUi(Event),
    Quit,
}

/// The abstract value of an [`Output`].
pub enum OutputView {
    ToGreetd(RequestView),
    ToUi(EventView),
    Quit,
}

impl View for Output {
    type V = OutputView;

    open spec fn view(&self) -> OutputView {
        match self {
            Output::ToGreetd(r) => OutputView::ToGreetd(r@),
            Output::ToUi(e) => OutputView::ToUi(e@),
            Output::Quit => OutputView::Quit,
        }
    }
}

/// The abstract outputs of a sequence of outputs.
pub open spec fn outputs_view(v: Seq<Output>) -> Seq<OutputView> {
    v.map_values(|o: Output| o@)
}

/// The login state machine.
#[derive(Debug, PartialEq, Eq)]
pub struct Machine {
    phase: Phase,
    pending_cancels: u32,
}

/// The abstract state of a [`Machine`]: its phase, and how many replies
/// greetd still owes for sessions that the machine cancelled on its own.
pub struct MachineView {
    pub phase: Phase,
    pub pending_cancels: nat,
}

impl View for Machine {
    type V = MachineView;

    closed spec fn view(&self) -> MachineView {
        MachineView { phase: self.phase, pending_cancels: self.pending_cancels as nat }
    }
}

impl Machine {
    /// At most one cancellation acknowledgement is ever outstanding.
    #[verifier::type_invariant]
    closed spec fn inv(self) -> bool {
        self.pending_cancels <= 1
    }
}

/// The state of a fresh machine.
pub open spec fn initial() -> MachineView {
    MachineView { phase: Phase::Idle, pending_cancels: 0 }
}

pub open spec fn ui_error(text: Seq<char>) -> OutputView {
    OutputView::ToUi(EventView::Error { text })
}

/// The message shown for every failed password check.
pub open spec fn auth_failure_text() -> Seq<char> {
    "Incorrect password. Try again."@
}

pub open spec fn already_in_progress_text() -> Seq<char> {
    "a login is already in progress"@
}

pub open spec fn no_prompt_text() -> Seq<char> {
    "no authentication prompt is waiting for a response"@
}

pub open spec fn not_authenticated_text() -> Seq<char> {
    "not authenticated; cannot start a session"@
}

pub open spec fn nothing_to_cancel_text() -> Seq<char> {
    "no session is currently being configured"@
}

/// The interface event for a greetd error: an authentication failure is
/// always shown with the same plain message, any other error with greetd's
/// description.
pub open spec fn error_event_view(error_type: ErrorType, description: Seq<char>) -> EventView {
    match error_type {
        ErrorType::AuthError => EventView::AuthError { text: auth_failure_text() },
        ErrorType::Error => EventView::Error { text: description },
    }
}

pub open spec fn message_kind(kind: AuthMessageType) -> AuthMessageKind {
    match kind {
        AuthMessageType::Secret => AuthMessageKind::Secret,
        AuthMessageType::Visible => AuthMessageKind::Visible,
        AuthMessageType::Info => AuthMessageKind::Info,
        AuthMessageType::Error => AuthMessageKind::Error,
    }
}

/// The next state and the outputs for a command from the interface.
pub open spec fn after_command(m: MachineView, c: CommandView) -> (MachineView, Seq<OutputView>) {
    match c {
        CommandView::CreateSession { username } => {
            if m.phase != Phase::Idle {
                (m, seq![ui_error(already_in_progress_text())])
            } else {
                (
                    MachineView { phase: Phase::Authenticating, ..m },
                    seq![OutputView::ToGreetd(RequestView::CreateSession { username })],
                )
            }
        },
        CommandView::Respond { value } => {
            if m.phase != Phase::Authenticating {
                (m, seq![ui_error(no_prompt_text())])
            } else {
                (
                    m,
                    seq![
                        OutputView::ToGreetd(
                            RequestView::PostAuthMessageResponse { response: Some(value) },
                        ),
                    ],
                )
            }
        },
        CommandView::StartSession { argv, env } => {
            if m.phase != Phase::AwaitingSession {
                (m, seq![ui_error(not_authenticated_text())])
            } else {
                (
                    MachineView { phase: Phase::Starting, ..m },
                    seq![OutputView::ToGreetd(RequestView::StartSession { cmd: greetd_cmd(argv), env })],
                )
            }
        },
        CommandView::CancelSession => {
            if !(m.phase == Phase::Authenticating || m.phase == Phase::AwaitingSession) {
                (m, seq![ui_error(nothing_to_cancel_text())])
            } else {
                (
                    MachineView { phase: Phase::Cancelling, ..m },
                    seq![OutputView::ToGreetd(RequestView::CancelSession)],
                )
            }
        },
    }
}

/// The next state and the outputs for a reply from greetd while a login is
/// being authenticated.
pub open spec fn after_auth_reply(m: MachineView, r: ResponseView) -> (MachineView, Seq<OutputView>) {
    match r {
        ResponseView::AuthMessage { auth_message_type, auth_message } => {
            let shown = OutputView::ToUi(
                EventView::AuthMessage { kind: message_kind(auth_message_type), text: auth_message },
            );
            if auth_message_type.spec_expects_response() {
                (m, seq![shown])
            } else {
                (
                    m,
                    seq![
                        shown,
                        OutputView::ToGreetd(RequestView::PostAuthMessageResponse { response: None }),
                    ],
                )
            }
        },
        ResponseView::Success => (
            MachineView { phase: Phase::AwaitingSession, ..m },
            seq![OutputView::ToUi(EventView::Authenticated)],
        ),
        ResponseView::Error { error_type, description } => (
            MachineView { phase: Phase::Idle, pending_cancels: m.pending_cancels + 1 },
            seq![
                OutputView::ToUi(error_event_view(error_type, description)),
                OutputView::ToGreetd(RequestView::CancelSession),
            ],
        ),
    }
}

/// The next state and the outputs for a reply from greetd.
pub open spec fn after_response(m: MachineView, r: ResponseView) -> (MachineView, Seq<OutputView>) {
    if m.pending_cancels > 0 {
        (MachineView { pending_cancels: (m.pending_cancels - 1) as nat, ..m }, seq![])
    } else {
        match m.phase {
            Phase::Authenticating => after_auth_reply(m, r),
            Phase::AwaitingSession => match r {
                ResponseView::Error { error_type, description } => (
                    MachineView { phase: Phase::Idle, ..m },
                    seq![OutputView::ToUi(error_event_view(error_type, description))],
                ),
                _ => (m, seq![]),
            },
            Phase::Starting => match r {
                ResponseView::Success => (
                    MachineView { phase: Phase::Started, ..m },
                    seq![OutputView::ToUi(EventView::Started), OutputView::Quit],
                ),
                ResponseView::Error { error_type, description } => (
                    MachineView { phase: Phase::Idle, ..m },
                    seq![OutputView::ToUi(error_event_view(error_type, description))],
                ),
                ResponseView::AuthMessage { .. } => (m, seq![]),
            },
            Phase::Cancelling => match r {
                ResponseView::Success => (
                    MachineView { phase: Phase::Idle, ..m },
                    seq![OutputView::ToUi(EventView::Cancelled)],
                ),
                ResponseView::Error { error_type, description } => (
                    MachineView { phase: Phase::Idle, ..m },
                    seq![OutputView::ToUi(error_event_view(error_type, description))],
                ),
                ResponseView::AuthMessage { .. } => (m, seq![]),
            },
            Phase::Idle | Phase::Started => (m, seq![]),
        }
    }
}

/// The next state and the outputs when the connection to greetd is lost.
pub open spec fn after_transport_failure(m: MachineView, reason: Seq<char>) -> (MachineView, Seq<OutputView>) {
    (
        MachineView { phase: Phase::Idle, ..m },
        seq![OutputView::ToUi(EventView::Exited { reason }), OutputView::Quit],
    )
}

fn ui_error_output(text: &str) -> (o: Output)
    ensures
        o@ == ui_error(text@),
{
    Output::ToUi(Event::Error { text: text.to_owned() })
}

fn error_event(error_type: ErrorType, description: String) -> (e: Event)
    ensures
        e@ == error_event_view(error_type, description@),
{
    match error_type {
        ErrorType::AuthError => Event::AuthError { text: "Incorrect password. Try again.".to_owned() },
        ErrorType::Error => Event::Error { text: description },
    }
}

fn auth_message_kind(kind: AuthMessageType) -> (k: AuthMessageKind)
    ensures
        k == message_kind(kind),
{
    match kind {
        AuthMessageType::Secret => AuthMessageKind::Secret,
        AuthMessageType::Visible => AuthMessageKind::Visible,
        AuthMessageType::Info => AuthMessageKind::Info,
        AuthMessageType::Error => AuthMessageKind::Error,
    }
}

impl Clone for Machine {
    fn clone(&self) -> (m: Self)
        ensures
            m@ == self@,
    {
        proof {
            use_type_invariant(self);
        }
        Machine { phase: self.phase, pending_cancels: self.pending_cancels }
    }
}

impl Default for Machine {
    fn default() -> (m: Self)
        ensures
            m@ == initial(),
    {
        Self::new()
    }
}

impl Machine {
    /// A machine with no login in progress.
    pub fn new() -> (m: Self)
        ensures
            m@ == initial(),
    {
        Machine { phase: Phase::Idle, pending_cancels: 0 }
    }

    /// The conversation's phase.
    pub fn phase(&self) -> (p: Phase)
        ensures
            p == self@.phase,
    {
        self.phase
    }

    /// Handles a command from the interface.
    pub fn handle_command(&mut self, command: Command) -> (outputs: Vec<Output>)
        ensures
            (final(self)@, outputs_view(outputs@)) == after_command(old(self)@, command@),
    {
        proof {
            use_type_invariant(&*self);
        }
        let ghost c = command@;
        let ghost start = self@;
        match command {
            Command::CreateSession { username } => {
                if self.phase != Phase::Idle {
                    let out = vec![ui_error_output("a login is already in progress")];
                    assert(outputs_view(out@) =~= after_command(start, c).1);
                    return out;
                }
                self.phase = Phase::Authenticating;
                let out = vec![Output::ToGreetd(Request::create_session(username))];
                assert(outputs_view(out@) =~= after_command(start, c).1);
                out
            },
            Command::Respond { value } => {
                if self.phase != Phase::Authenticating {
                    let out = vec![ui_error_output("no authentication prompt is waiting for a response")];
                    assert(outputs_view(out@) =~= after_command(start, c).1);
                    return out;
                }
                let out = vec![Output::ToGreetd(Request::response(value))];
                assert(outputs_view(out@) =~= after_command(start, c).1);
                out
            },
            Command::StartSession { argv, env } => {
                if self.phase != Phase::AwaitingSession {
                    let out = vec![ui_error_output("not authenticated; cannot start a session")];
                    assert(outputs_view(out@) =~= after_command(start, c).1);
                    return out;
                }
                self.phase = Phase::Starting;
                let cmd = to_greetd_cmd(argv.as_slice());
                let out = vec![Output::ToGreetd(Request::StartSession { cmd, env })];
                assert(outputs_view(out@) =~= after_command(start, c).1);
                out
            },
            Command::CancelSession => {
                if !(self.phase == Phase::Authenticating || self.phase == Phase::AwaitingSession) {
                    let out = vec![ui_error_output("no session is currently being configured")];
                    assert(outputs_view(out@) =~= after_command(start, c).1);
                    return out;
                }
                self.phase = Phase::Cancelling;
                let out = vec![Output::ToGreetd(Request::CancelSession)];
                assert(outputs_view(out@) =~= after_command(start, c).1);
                out
            },
        }
    }

    /// Handles a reply from greetd. A reply that acknowledges a session the
    /// machine cancelled on its own is consumed silently, so that it is never
    /// taken for the answer to a later request.
    pub fn handle_response(&mut self, response: Response) -> (outputs: Vec<Output>)
        ensures
            (final(self)@, outputs_view(outputs@)) == after_response(old(self)@, response@),
    {
        proof {
            use_type_invariant(&*self);
        }
        let ghost r = response@;
        let ghost start = self@;
        if self.pending_cancels > 0 {
            self.pending_cancels = self.pending_cancels - 1;
            let out: Vec<Output> = Vec::new();
            assert(outputs_view(out@) =~= after_response(start, r).1);
            return out;
        }
        match self.phase {
            Phase::Authenticating => self.authenticating(response),
            Phase::AwaitingSession => match response {
                Response::Error { error_type, description } => {
                    self.phase = Phase::Idle;
                    let out = vec![Output::ToUi(error_event(error_type, description))];
                    assert(outputs_view(out@) =~= after_response(start, r).1);
                    out
                },
                _ => {
                    let out: Vec<Output> = Vec::new();
                    assert(outputs_view(out@) =~= after_response(start, r).1);
                    out
                },
            },
            Phase::Starting => match response {
                Response::Success => {
                    self.phase = Phase::Started;
                    let out = vec![Output::ToUi(Event::Started), Output::Quit];
                    assert(outputs_view(out@) =~= after_response(start, r).1);
                    out
                },
                Response::Error { error_type, description } => {
                    self.phase = Phase::Idle;
                    let out = vec![Output::ToUi(error_event(error_type, description))];
                    assert(outputs_view(out@) =~= after_response(start, r).1);
                    out
                },
                Response::AuthMessage { .. } => {
                    let out: Vec<Output> = Vec::new();
                    assert(outputs_view(out@) =~= after_response(start, r).1);
                    out
                },
            },
            Phase::Cancelling => match response {
                Response::Success => {
                    self.phase = Phase::Idle;
                    let out = vec![Output::ToUi(Event::Cancelled)];
                    assert(outputs_view(out@) =~= after_response(start, r).1);
                    out
                },
                Response::Error { error_type, description } => {
                    self.phase = Phase::Idle;
                    let out = vec![Output::ToUi(error_event(error_type, description))];
                    assert(outputs_view(out@) =~= after_response(start, r).1);
                    out
                },
                Response::AuthMessage { .. } => {
                    let out: Vec<Output> = Vec::new();
                    assert(outputs_view(out@) =~= after_response(start, r).1);
                    out
                },
            },
            Phase::Idle | Phase::Started => {
                let out: Vec<Output> = Vec::new();
                assert(outputs_view(out@) =~= after_response(start, r).1);
                out
            },
        }
    }

    fn authenticating(&mut self, response: Response) -> (outputs: Vec<Output>)
        requires
            old(self)@.phase == Phase::Authenticating,
            old(self)@.pending_cancels == 0,
        ensures
            (final(self)@, outputs_view(outputs@)) == after_auth_reply(old(self)@, response@),
    {
        let ghost r = response@;
        let ghost start = self@;
        match response {
            Response::AuthMessage { auth_message_type, auth_message } => {
                let mut out = vec![
                    Output::ToUi(
                        Event::AuthMessage {
                            kind: auth_message_kind(auth_message_type),
                            text: auth_message,
                        },
                    ),
                ];
                if !auth_message_type.expects_response() {
                    out.push(Output::ToGreetd(Request::acknowledge()));
                }
                assert(outputs_view(out@) =~= after_auth_reply(start, r).1);
                out
            },
            Response::Success => {
                self.phase = Phase::AwaitingSession;
                let out = vec![Output::ToUi(Event::Authenticated)];
                assert(outputs_view(out@) =~= after_auth_reply(start, r).1);
                out
            },
            Response::Error { error_type, description } => {
                // greetd holds the session until it is cancelled.
                self.phase = Phase::Idle;
                self.pending_cancels = self.pending_cancels + 1;
                let out = vec![
                    Output::ToUi(error_event(error_type, description)),
                    Output::ToGreetd(Request::CancelSession),
                ];
                assert(outputs_view(out@) =~= after_auth_reply(start, r).1);
                out
            },
        }
    }

    /// Handles the loss of the connection to greetd: the interface is told
    /// why, and the driver is asked to quit.
    pub fn handle_transport_failure(&mut self, reason: &str) -> (outputs: Vec<Output>)
        ensures
            (final(self)@, outputs_view(outputs@)) == after_transport_failure(old(self)@, reason@),
    {
        proof {
            use_type_invariant(&*self);
        }
        let ghost start = self@;
        self.phase = Phase::Idle;
        let out = vec![Output::ToUi(Event::Exited { reason: reason.to_owned() }), Output::Quit];
        assert(outputs_view(out@) =~= after_transport_failure(start, reason@).1);
        out
    }
}


/// Every step keeps at most one cancellation acknowledgement outstanding.
pub proof fn lemma_steps_keep_one_cancel_outstanding(
    m: MachineView,
    c: CommandView,
    r: ResponseView,
    reason: Seq<char>,
)
    requires
        m.pending_cancels <= 1,
    ensures
        after_command(m, c).0.pending_cancels <= 1,
        after_response(m, r).0.pending_cancels <= 1,
        after_transport_failure(m, reason).0.pending_cancels <= 1,
{
}

/// A command is either accepted, moving the machine on and sending exactly
/// one request to greetd, or refused, leaving the machine as it was and
/// showing exactly one error in the interface.
pub proof fn lemma_command_accepted_or_refused(m: MachineView, c: CommandView)
    ensures
        ({
            let (next, out) = after_command(m, c);
            out.len() == 1 && ((out[0] is ToGreetd && next.pending_cancels == m.pending_cancels) || (
            next == m && out[0] matches OutputView::ToUi(EventView::Error { .. })))
        }),
{
}

/// After greetd rejects a login, the machine releases the session itself;
/// greetd's acknowledgement of that release is swallowed, even when the user
/// has already started a new login, so it is never taken for a successful
/// authentication.
pub proof fn lemma_cancel_ack_is_not_an_auth_success(
    m: MachineView,
    error_type: ErrorType,
    description: Seq<char>,
    ack: ResponseView,
    username: Seq<char>,
)
    requires
        m.phase == Phase::Authenticating,
        m.pending_cancels == 0,
    ensures
        ({
            let (failed, out) = after_response(m, ResponseView::Error { error_type, description });
            let (retried, _) = after_command(failed, CommandView::CreateSession { username });
            &&& failed.phase == Phase::Idle
            &&& out == seq![
                OutputView::ToUi(error_event_view(error_type, description)),
                OutputView::ToGreetd(RequestView::CancelSession),
            ]
            &&& after_response(failed, ack) == (initial(), Seq::<OutputView>::empty())
            &&& retried.phase == Phase::Authenticating
            &&& after_response(retried, ack) == (
                MachineView { phase: Phase::Authenticating, pending_cancels: 0 },
                Seq::<OutputView>::empty(),
            )
        }),
{
}

/// A session is reported started only when greetd accepts the start request;
/// no reply in any other phase starts one.
pub proof fn lemma_started_only_from_starting(m: MachineView, r: ResponseView)
    requires
        m.phase != Phase::Started,
        after_response(m, r).0.phase == Phase::Started,
    ensures
        m.phase == Phase::Starting,
        m.pending_cancels == 0,
        r is Success,
        after_response(m, r).1 == seq![OutputView::ToUi(EventView::Started), OutputView::Quit],
{
}

/// With no login in progress and nothing owed, greetd's replies change
/// nothing and produce nothing.
pub proof fn lemma_idle_ignores_replies(m: MachineView, r: ResponseView)
    requires
        m.phase == Phase::Idle || m.phase == Phase::Started,
        m.pending_cancels == 0,
    ensures
        after_response(m, r) == (m, Seq::<OutputView>::empty()),
{
}

/// The driver is asked to quit only when a session started or the connection
/// to greetd was lost.
pub proof fn lemma_quit_only_when_started(m: MachineView, r: ResponseView, c: CommandView)
    ensures
        !after_command(m, c).1.contains(OutputView::Quit),
        after_response(m, r).1.contains(OutputView::Quit) ==> after_response(m, r).0.phase
            == Phase::Started,
{
    let out = after_command(m, c).1;
    assert(out.len() == 1);
    if out.contains(OutputView::Quit) {
        let k = choose|k: int| 0 <= k < out.len() && out[k] == OutputView::Quit;
        assert(k == 0);
    }
    let ro = after_response(m, r).1;
    if ro.contains(OutputView::Quit) {
        let k = choose|k: int| 0 <= k < ro.len() && ro[k] == OutputView::Quit;
    }
}


/// Once authenticated, starting a session sends greetd exactly one start
/// request: its environment is the command's environment, element for
/// element, and its command has one word per argument, each of which the
/// shell reads back as that argument.
pub proof fn lemma_start_session_forwards_the_command(
    m: MachineView,
    argv: Seq<Seq<char>>,
    env: Seq<Seq<char>>,
)
    requires
        m.phase == Phase::AwaitingSession,
    ensures
        ({
            let (next, out) = after_command(m, CommandView::StartSession { argv, env });
            &&& next.phase == Phase::Starting
            &&& next.pending_cancels == m.pending_cancels
            &&& out.len() == 1
            &&& out[0] matches OutputView::ToGreetd(RequestView::StartSession { cmd, env: sent })
            &&& sent.len() == env.len()
            &&& forall|i: int| 0 <= i < env.len() ==> #[trigger] sent[i] == env[i]
            &&& cmd.len() == argv.len()
            &&& forall|i: int| 0 <= i < argv.len() ==> (#[trigger] shell_read(cmd[i])).chars == argv[i]
                && !shell_read(cmd[i]).bare && !shell_read(cmd[i]).quoted
        }),
{
    let out = after_command(m, CommandView::StartSession { argv, env }).1;
    if let OutputView::ToGreetd(RequestView::StartSession { cmd, env: sent }) = out[0] {
        assert forall|i: int| 0 <= i < argv.len() implies (#[trigger] shell_read(cmd[i])).chars == argv[i]
            && !shell_read(cmd[i]).bare && !shell_read(cmd[i]).quoted by {
            lemma_shell_reads_back_quoted(argv[i]);
        }
    }
}

/// Which commands each phase accepts, and the one request each accepted
/// command sends: a login starts only when none is in progress, a prompt is
/// answered only while authenticating, with the user's answer as given, and
/// a session is cancelled only while it is being authenticated or awaits
/// its start.
pub proof fn lemma_commands_send_their_request(m: MachineView, username: Seq<char>, value: Seq<char>)
    ensures
        ({
            let (next, out) = after_command(m, CommandView::CreateSession { username });
            m.phase == Phase::Idle ==> next.phase == Phase::Authenticating && out == seq![
                OutputView::ToGreetd(RequestView::CreateSession { username }),
            ]
        }),
        m.phase != Phase::Idle ==> after_command(m, CommandView::CreateSession { username }).0 == m,
        ({
            let (next, out) = after_command(m, CommandView::Respond { value });
            m.phase == Phase::Authenticating ==> next == m && out == seq![
                OutputView::ToGreetd(RequestView::PostAuthMessageResponse { response: Some(value) }),
            ]
        }),
        m.phase != Phase::Authenticating ==> after_command(m, CommandView::Respond { value }).0 == m,
        ({
            let (next, out) = after_command(m, CommandView::CancelSession);
            (m.phase == Phase::Authenticating || m.phase == Phase::AwaitingSession) ==> next.phase
                == Phase::Cancelling && out == seq![OutputView::ToGreetd(RequestView::CancelSession)]
        }),
        !(m.phase == Phase::Authenticating || m.phase == Phase::AwaitingSession) ==> after_command(
            m,
            CommandView::CancelSession,
        ).0 == m,
{
}

/// While a login is being authenticated: a secret or visible prompt is shown
/// and waits for the user; an informational or error message is shown and
/// acknowledged at once with an empty answer; success moves on to choosing a
/// session; a failed password is shown as "Incorrect password. Try again.",
/// whatever greetd's description, any other error with greetd's own
/// description, and either ends the login.
pub proof fn lemma_authentication_replies(
    m: MachineView,
    kind: AuthMessageType,
    text: Seq<char>,
    description: Seq<char>,
)
    requires
        m.phase == Phase::Authenticating,
        m.pending_cancels == 0,
    ensures
        ({
            let (next, out) = after_response(
                m,
                ResponseView::AuthMessage { auth_message_type: kind, auth_message: text },
            );
            &&& next == m
            &&& out.len() >= 1
            &&& out[0] matches OutputView::ToUi(EventView::AuthMessage { kind: shown, text: t })
            &&& t == text
            &&& (kind is Secret ==> shown is Secret && out.len() == 1)
            &&& (kind is Visible ==> shown is Visible && out.len() == 1)
            &&& (kind is Info ==> shown is Info && out.len() == 2)
            &&& (kind is Error ==> shown is Error && out.len() == 2)
            &&& (out.len() == 2 ==> out[1] == OutputView::ToGreetd(
                RequestView::PostAuthMessageResponse { response: None },
            ))
        }),
        after_response(m, ResponseView::Success) == (
            MachineView { phase: Phase::AwaitingSession, pending_cancels: 0 },
            seq![OutputView::ToUi(EventView::Authenticated)],
        ),
        ({
            let (next, out) = after_response(
                m,
                ResponseView::Error { error_type: ErrorType::AuthError, description },
            );
            &&& next.phase == Phase::Idle
            &&& out.len() == 2
            &&& out[0] == OutputView::ToUi(
                EventView::AuthError { text: "Incorrect password. Try again."@ },
            )
            &&& out[1] == OutputView::ToGreetd(RequestView::CancelSession)
        }),
        ({
            let (next, out) = after_response(
                m,
                ResponseView::Error { error_type: ErrorType::Error, description },
            );
            &&& next.phase == Phase::Idle
            &&& out.len() == 2
            &&& out[0] == OutputView::ToUi(EventView::Error { text: description })
            &&& out[1] == OutputView::ToGreetd(RequestView::CancelSession)
        }),
{
}

/// A cancellation that greetd acknowledges is reported to the interface and
/// ends the login; losing the connection tells the interface why and asks
/// the driver to quit, whatever the phase.
pub proof fn lemma_cancel_and_connection_loss(m: MachineView, reason: Seq<char>)
    ensures
        (m.phase == Phase::Cancelling && m.pending_cancels == 0) ==> after_response(
            m,
            ResponseView::Success,
        ) == (
            MachineView { phase: Phase::Idle, pending_cancels: 0 },
            seq![OutputView::ToUi(EventView::Cancelled)],
        ),
        after_transport_failure(m, reason).0.phase == Phase::Idle,
        after_transport_failure(m, reason).1 == seq![
            OutputView::ToUi(EventView::Exited { reason }),
            OutputView::Quit,
        ],
{
}

/// A greetd error while a session awaits its start, is starting or is being
/// cancelled ends the login: the machine is idle again, the interface is
/// shown the error (a failed password check with the plain message), and
/// nothing is sent to greetd.
pub proof fn lemma_errors_after_authentication_end_the_login(
    m: MachineView,
    error_type: ErrorType,
    description: Seq<char>,
)
    requires
        m.phase == Phase::AwaitingSession || m.phase == Phase::Starting || m.phase == Phase::Cancelling,
        m.pending_cancels == 0,
    ensures
        after_response(m, ResponseView::Error { error_type, description }) == (
            MachineView { phase: Phase::Idle, pending_cancels: 0 },
            seq![
                OutputView::ToUi(
                    match error_type {
                        ErrorType::AuthError => EventView::AuthError {
                            text: "Incorrect password. Try again."@,
                        },
                        ErrorType::Error => EventView::Error { text: description },
                    },
                ),
            ],
        ),
{
}

} // verus!
