//! Power actions offered on the login screen.

use vstd::prelude::*;

use crate::text::str_is;

verus! {

/// A power action.
#[derive(Debug, Clone, Copy, PartialEq, Eq, Structural)]
pub enum Action {
    PowerOff,
    Reboot,
    Suspend,
    Hibernate,
}

/// How power actions are carried out.
#[derive(Debug, Clone, Copy, PartialEq, Eq, Structural)]
pub enum Mode {
    Disabled,
    Mock,
    Systemctl,
}

/// The action that a command-line word names.
pub open spec fn action_named(value: Seq<char>) -> Option<Action> {
    if value == "off"@ || value == "poweroff"@ || value == "shutdown"@ {
        Some(Action::PowerOff)
    } else if value == "reboot"@ || value == "restart"@ {
        Some(Action::Reboot)
    } else if value == "suspend"@ {
        Some(Action::Suspend)
    } else if value == "hibernate"@ {
        Some(Action::Hibernate)
    } else {
        None
    }
}

/// Reads a power action: `off`, `poweroff` or `shutdown` power off,
/// `reboot` or `restart` reboot, `suspend` suspends and `hibernate`
/// hibernates.
pub fn parse_action(value: &str) -> (r: Option<Action>)
    ensures
        r == action_named(value@),
{
    if str_is(value, "off") || str_is(value, "poweroff") || str_is(value, "shutdown") {
        Some(Action::PowerOff)
    } else if str_is(value, "reboot") || str_is(value, "restart") {
        Some(Action::Reboot)
    } else if str_is(value, "suspend") {
        Some(Action::Suspend)
    } else if str_is(value, "hibernate") {
        Some(Action::Hibernate)
    } else {
        None
    }
}

/// The mode that the setting names.
pub open spec fn mode_named(value: Option<Seq<char>>) -> Mode {
    match value {
        Some(v) => if v == "mock"@ {
            Mode::Mock
        } else if v == "systemctl"@ {
            Mode::Systemctl
        } else {
            Mode::Disabled
        },
        None => Mode::Disabled,
    }
}

/// Reads the power mode setting: `mock` or `systemctl`; anything else,
/// or no setting, disables power actions.
pub fn parse_mode(value: Option<&str>) -> (r: Mode)
    ensures
        r == mode_named(match value {
            Some(v) => Some(v@),
            None => None,
        }),
{
    match value {
        Some(v) => {
            if str_is(v, "mock") {
                Mode::Mock
            } else if str_is(v, "systemctl") {
                Mode::Systemctl
            } else {
                Mode::Disabled
            }
        },
        None => Mode::Disabled,
    }
}

/// The word that `systemctl` takes for an action.
pub open spec fn verb(action: Action) -> Seq<char> {
    match action {
        Action::PowerOff => "poweroff"@,
        Action::Reboot => "reboot"@,
        Action::Suspend => "suspend"@,
        Action::Hibernate => "hibernate"@,
    }
}

/// The program and argument that carry out an action.
pub fn command(action: Action) -> (r: [&'static str; 2])
    ensures
        r@[0]@ == "systemctl"@,
        r@[1]@ == verb(action),
{
    match action {
        Action::PowerOff => ["systemctl", "poweroff"],
        Action::Reboot => ["systemctl", "reboot"],
        Action::Suspend => ["systemctl", "suspend"],
        Action::Hibernate => ["systemctl", "hibernate"],
    }
}

/// What a power request amounts to.
#[derive(Debug, Clone, PartialEq, Eq)]
pub enum Plan {
    /// Power actions are disabled; the request fails with this message.
    Refuse(String),
    /// Nothing is to be done, and the request succeeds.
    Pretend,
    /// The program is to be run with the argument.
    Run([&'static str; 2]),
}

/// Decides what a request for `action` amounts to in `mode`: refused when
/// disabled, inert in the mock mode, a `systemctl` call otherwise.
pub fn plan(action: Action, mode: Mode) -> (r: Plan)
    ensures
        match mode {
            Mode::Disabled => r matches Plan::Refuse(m) && m@ == "power actions are disabled"@,
            Mode::Mock => r is Pretend,
            Mode::Systemctl => r matches Plan::Run(c) && c@[0]@ == "systemctl"@ && c@[1]@ == verb(action),
        },
{
    match mode {
        Mode::Disabled => Plan::Refuse("power actions are disabled".to_owned()),
        Mode::Mock => Plan::Pretend,
        Mode::Systemctl => Plan::Run(command(action)),
    }
}

/// The message for a power command that ran and failed.
pub fn failure_message(action: Action) -> (r: String)
    ensures
        r@ == "systemctl "@ + verb(action) + " failed"@,
{
    let mut text = crate::text::chars_of("systemctl ");
    let word = crate::text::chars_of(command(action)[1]);
    let tail = crate::text::chars_of(" failed");
    text = crate::text::concat_chars(text.as_slice(), word.as_slice());
    text = crate::text::concat_chars(text.as_slice(), tail.as_slice());
    crate::text::string_from(text.as_slice())
}

/// The word that `systemctl` takes for an action, given as a power action,
/// names that same action: each action is carried out by the `systemctl`
/// verb of its own name.
pub proof fn lemma_verbs_name_their_actions(action: Action)
    ensures
        action_named(verb(action)) == Some(action),
{
    reveal_strlit("off");
    reveal_strlit("poweroff");
    reveal_strlit("shutdown");
    reveal_strlit("reboot");
    reveal_strlit("restart");
    reveal_strlit("suspend");
    reveal_strlit("hibernate");
    let w = verb(action);
    match action {
        Action::PowerOff => {},
        Action::Reboot => {
            assert(w.len() == 6);
            assert(w != "off"@ && w != "poweroff"@ && w != "shutdown"@);
        },
        Action::Suspend => {
            assert(w.len() == 7);
            assert(w != "off"@ && w != "poweroff"@ && w != "shutdown"@);
            assert(w[0] != "restart"@[0]);
            assert(w != "reboot"@ && w != "restart"@);
        },
        Action::Hibernate => {
            assert(w.len() == 9);
            assert(w != "off"@ && w != "poweroff"@ && w != "shutdown"@);
            assert(w != "reboot"@ && w != "restart"@ && w != "suspend"@);
        },
    }
}

} // verus!
