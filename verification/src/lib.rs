//! Transport, authentication and enumeration logic of a greetd greeter.

pub mod greetd;
pub mod text;
pub mod exec;
pub mod protocol;
pub mod auth;
pub mod transport;
pub mod enumerate;
pub mod state;
pub mod power;
pub mod mock;
