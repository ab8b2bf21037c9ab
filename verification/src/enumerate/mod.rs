//! What the login screen offers: users, sessions and remembered choices.

pub mod sessions;
pub mod users;

use vstd::prelude::*;

use crate::state::State;

verus! {

/// Everything the login screen needs to show its choices.
#[derive(Debug, Clone, PartialEq, Eq)]
pub struct Report {
    pub users: Vec<users::User>,
    pub sessions: Vec<sessions::Session>,
    pub state: State,
}

} // verus!
