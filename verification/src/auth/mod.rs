//! The login conversation between the user interface and greetd.

pub mod machine;
