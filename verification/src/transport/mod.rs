//! Relaying between greetd and the user interface: the decisions of the
//! relay loop, one input at a time.

pub mod frame;

use vstd::prelude::*;

use crate::auth::machine::{
    after_command, after_response, after_transport_failure, outputs_view, Machine, MachineView,
    Output, OutputView, Phase,
};
use crate::greetd::{Response, ResponseView};
use crate::protocol::{Command, CommandView, Event, EventView};

verus! {

/// Whether a login is under way, so that a silent greetd should end it.
pub open spec fn busy(phase: Phase) -> bool {
    phase == Phase::Authenticating || phase == Phase::AwaitingSession || phase == Phase::Starting
        || phase == Phase::Cancelling
}

/// The watchdog is armed exactly while a login is under way.
pub fn is_busy(phase: Phase) -> (r: bool)
    ensures
        r == busy(phase),
{
    match phase {
        Phase::Authenticating | Phase::AwaitingSession | Phase::Starting | Phase::Cancelling => true,
        Phase::Idle | Phase::Started => false,
    }
}

/// Something that happened to the relay.
#[derive(Debug)]
pub enum Input {
    /// The interface sent a command.
    Command(Command),
    /// greetd replied.
    Response(Response),
    /// The connection to greetd ended, for this reason.
    GreetdEnded(String),
    /// The interface sent a line that is not a command.
    InvalidCommand(String),
    /// greetd stayed silent for too long during a login.
    Watchdog,
    /// The interface closed its end.
    UiEnded,
}

/// The abstract value of an [`Input`].
pub enum InputView {
    Command(CommandView),
    Response(ResponseView),
    GreetdEnded(Seq<char>),
    InvalidCommand(Seq<char>),
    Watchdog,
    UiEnded,
}

impl View for Input {
    type V = InputView;

    open spec fn view(&self) -> InputView {
        match self {
            Input::Command(c) => InputView::Command(c@),
            Input::Response(r) => InputView::Response(r@),
            Input::GreetdEnded(reason) => InputView::GreetdEnded(reason@),
            Input::InvalidCommand(text) => InputView::InvalidCommand(text@),
            Input::Watchdog => InputView::Watchdog,
            Input::UiEnded => InputView::UiEnded,
        }
    }
}

/// The reason given when the watchdog ends a login.
pub open spec fn timeout_reason() -> Seq<char> {
    "timed out waiting for greetd"@
}

/// The next state and outputs for an input, or none when the interface
/// has gone and the relay stops.
pub open spec fn after_input(m: MachineView, input: InputView) -> Option<(MachineView, Seq<OutputView>)> {
    match input {
        InputView::Command(c) => Some(after_command(m, c)),
        InputView::Response(r) => Some(after_response(m, r)),
        InputView::GreetdEnded(reason) => Some(after_transport_failure(m, reason)),
        InputView::InvalidCommand(text) => Some((m, seq![OutputView::ToUi(EventView::Error { text })])),
        InputView::Watchdog => Some(after_transport_failure(m, timeout_reason())),
        InputView::UiEnded => None,
    }
}

/// Feeds one input to the login machine: the outputs to carry out, or
/// `None` when the interface has gone and the relay stops.
pub fn react(machine: &mut Machine, input: Input) -> (r: Option<Vec<Output>>)
    ensures
        match after_input(old(machine)@, input@) {
            Some((next, outputs)) => r matches Some(out) && final(machine)@ == next && outputs_view(out@)
                == outputs,
            None => r is None && final(machine)@ == old(machine)@,
        },
{
    match input {
        Input::Command(command) => Some(machine.handle_command(command)),
        Input::Response(response) => Some(machine.handle_response(response)),
        Input::GreetdEnded(reason) => Some(machine.handle_transport_failure(reason.as_str())),
        Input::InvalidCommand(text) => {
            let ghost t = text@;
            let out = vec![Output::ToUi(Event::Error { text })];
            assert(outputs_view(out@) =~= seq![OutputView::ToUi(EventView::Error { text: t })]);
            Some(out)
        },
        Input::Watchdog => Some(machine.handle_transport_failure("timed out waiting for greetd")),
        Input::UiEnded => None,
    }
}


/// The exit status of the relay before anything went wrong.
pub const STATUS_OK: u8 = 0;

/// The exit status of the relay once something went wrong: greetd went away,
/// timed out, or could not be written to.
pub const STATUS_FAILED: u8 = 1;

/// What the relay does after carrying out one output.
#[derive(Debug, Clone, Copy, PartialEq, Eq, Structural)]
pub enum Next {
    /// Go on, with this exit status so far.
    Continue(u8),
    /// Stop, and exit with this status.
    Stop(u8),
}

/// The relay's course after an output: showing an exit event to the
/// interface marks the run as failed, a quit request stops it with the
/// status so far, and anything else goes on.
pub open spec fn next_after(status: u8, output: OutputView) -> Next {
    match output {
        OutputView::ToUi(EventView::Exited { .. }) => Next::Continue(STATUS_FAILED),
        OutputView::Quit => Next::Stop(status),
        _ => Next::Continue(status),
    }
}

/// Decides the relay's course after carrying out `output`, with the exit
/// status so far.
pub fn after_output(status: u8, output: &Output) -> (r: Next)
    ensures
        r == next_after(status, output@),
{
    match output {
        Output::ToUi(Event::Exited { .. }) => Next::Continue(STATUS_FAILED),
        Output::Quit => Next::Stop(status),
        _ => Next::Continue(status),
    }
}

/// The exit status changes only when an exit event is shown: that makes it
/// the failure status whatever it was; a quit request stops the relay with
/// the status as it stands; every other output, prompts and failed password
/// checks included, leaves the status as it is and lets the relay go on.
pub proof fn lemma_status_changes_only_on_exit(status: u8, output: OutputView)
    ensures
        output matches OutputView::ToUi(EventView::Exited { .. }) ==> next_after(status, output)
            == Next::Continue(1u8),
        output is Quit ==> next_after(status, output) == Next::Stop(status),
        !(output matches OutputView::ToUi(EventView::Exited { .. })) && !(output is Quit)
            ==> next_after(status, output) == Next::Continue(status),
{
}

/// A watchdog timeout ends the login whatever its phase: the interface is
/// told why, the relay is asked to quit, the machine is left idle, so the
/// watchdog is disarmed, and the relay stops with the failure status.
pub proof fn lemma_timeout_ends_the_login(m: MachineView)
    ensures
        after_input(m, InputView::Watchdog) == Some(
            (
                MachineView { phase: Phase::Idle, ..m },
                seq![OutputView::ToUi(EventView::Exited { reason: timeout_reason() }), OutputView::Quit],
            ),
        ),
        !busy(Phase::Idle),
        next_after(STATUS_OK, OutputView::ToUi(EventView::Exited { reason: timeout_reason() }))
            == Next::Continue(STATUS_FAILED),
        next_after(STATUS_FAILED, OutputView::Quit) == Next::Stop(STATUS_FAILED),
{
}

/// The watchdog is armed in every phase of a login under way and in no
/// other: not before a login starts, and not once a session has started.
pub proof fn lemma_busy_exactly_during_a_login(phase: Phase)
    ensures
        busy(phase) <==> !(phase == Phase::Idle || phase == Phase::Started),
{
}

/// A line from the interface that is not a command is reported back to it
/// as an error with the line's text and changes nothing else; commands,
/// replies and a lost connection reach the machine unchanged; the interface
/// closing its end stops the relay.
pub proof fn lemma_inputs_reach_the_machine(
    m: MachineView,
    text: Seq<char>,
    c: CommandView,
    r: ResponseView,
    reason: Seq<char>,
)
    ensures
        after_input(m, InputView::InvalidCommand(text)) == Some(
            (m, seq![OutputView::ToUi(EventView::Error { text })]),
        ),
        after_input(m, InputView::Command(c)) == Some(after_command(m, c)),
        after_input(m, InputView::Response(r)) == Some(after_response(m, r)),
        after_input(m, InputView::GreetdEnded(reason)) == Some(after_transport_failure(m, reason)),
        after_input(m, InputView::UiEnded) is None,
{
}

} // verus!
