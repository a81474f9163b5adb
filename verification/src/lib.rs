//! A staff directory that is kept by text commands, and the text and number
//! helpers that belong to it.
//!
//! The heart of the crate is a session: [`session::respond`] takes the
//! directory and one line of input and gives back the reply, which
//! [`session::Reply::lines`] turns into the lines to print. Lines are read as
//! commands by [`command::parse_command`]; the directory itself is
//! [`directory::Directory`]. Every listing is in the alphabetical order of
//! [`order`].
//!
//! Texts are specified as sequences of Unicode scalar values, so nothing
//! here depends on how a text is laid out in bytes.

pub mod account;
pub mod command;
pub mod convert;
pub mod directory;
pub mod order;
pub mod points;
pub mod session;
pub mod shapes;
pub mod stats;
pub mod strings;
pub mod text;
pub mod words;
