//! The line-delimited messages exchanged with the user interface.

use vstd::prelude::*;

use crate::greetd::strings_view;

verus! {

/// A command from the user interface.
#[derive(Debug, Clone, PartialEq, Eq)]
pub enum Command {
    CreateSession { username: String },
    Respond { value: String },
    StartSession { argv: Vec<String>, env: Vec<String> },
    CancelSession,
}

/// The abstract value of a [`Command`].
pub enum CommandView {
    CreateSession { username: Seq<char> },
    Respond { value: Seq<char> },
    StartSession { argv: Seq<Seq<char>>, env: Seq<Seq<char>> },
    CancelSession,
}

impl View for Command {
    type V = CommandView;

    open spec fn view(&self) -> CommandView {
        match self {
            Command::CreateSession { username } => CommandView::CreateSession { username: username@ },
            Command::Respond { value } => CommandView::Respond { value: value@ },
            Command::StartSession { argv, env } => CommandView::StartSession {
                argv: strings_view(argv@),
                env: strings_view(env@),
            },
            Command::CancelSession => CommandView::CancelSession,
        }
    }
}

/// An event reported to the user interface.
#[derive(Debug, Clone, PartialEq, Eq)]
pub enum Event {
    Connected,
    AuthMessage { kind: AuthMessageKind, text: String },
    AuthError { text: String },
    Error { text: String },
    Authenticated,
    Started,
    Cancelled,
    Exited { reason: String },
}

/// The abstract value of an [`Event`].
pub enum EventView {
    Connected,
    AuthMessage { kind: AuthMessageKind, text: Seq<char> },
    AuthError { text: Seq<char> },
    Error { text: Seq<char> },
    Authenticated,
    Started,
    Cancelled,
    Exited { reason: Seq<char> },
}

impl View for Event {
    type V = EventView;

    open spec fn view(&self) -> EventView {
        match self {
            Event::Connected => EventView::Connected,
            Event::AuthMessage { kind, text } => EventView::AuthMessage { kind: *kind, text: text@ },
            Event::AuthError { text } => EventView::AuthError { text: text@ },
            Event::Error { text } => EventView::Error { text: text@ },
            Event::Authenticated => EventView::Authenticated,
            Event::Started => EventView::Started,
            Event::Cancelled => EventView::Cancelled,
            Event::Exited { reason } => EventView::Exited { reason: reason@ },
        }
    }
}

/// The kind of a prompt, as the user interface sees it.
#[derive(Debug, Clone, Copy, PartialEq, Eq, Structural)]
pub enum AuthMessageKind {
    Secret,
    Visible,
    Info,
    Error,
}

} // verus!
