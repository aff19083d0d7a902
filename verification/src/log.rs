//! The log record: one durable mutation of the store.

use vstd::prelude::*;

verus! {

/// One record of the on-disk log: either a key was set to a value, or it was
/// removed.
pub enum Command {
    Put { key: String, value: String },
    Remove { key: String },
}

/// The mathematical shape of a [`Command`]: the same two variants over
/// character sequences.
pub enum CommandV {
    Put { key: Seq<char>, value: Seq<char> },
    Remove { key: Seq<char> },
}

impl View for Command {
    type V = CommandV;

    open spec fn view(&self) -> CommandV {
        match self {
            Command::Put { key, value } => CommandV::Put { key: key@, value: value@ },
            Command::Remove { key } => CommandV::Remove { key: key@ },
        }
    }
}

} // verus!
