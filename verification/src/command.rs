//! The two mutations the log can record.

use vstd::prelude::*;

verus! {

/// One mutation, as it is written to the log.
#[derive(Debug)]
pub enum Command {
    /// `SET(key, value)`: the key currently maps to the value.
    SET(String, String),
    /// `RM(key)`: the key is deleted.
    RM(String),
}

/// The mathematical form of a [`Command`]: the same two variants over
/// character sequences.
pub enum CommandV {
    /// Mirrors [`Command::SET`].
    SetV(Seq<char>, Seq<char>),
    /// Mirrors [`Command::RM`].
    RmV(Seq<char>),
}

impl View for Command {
    type V = CommandV;

    open spec fn view(&self) -> CommandV {
        match self {
            Command::SET(k, v) => CommandV::SetV(k@, v@),
            Command::RM(k) => CommandV::RmV(k@),
        }
    }
}

} // verus!
