//! The commands of the key-value store.

use vstd::prelude::*;

verus! {

/// A command, as the local command line and the TCP server share it.
#[derive(Debug, Clone, PartialEq, Eq)]
pub enum Command {
    /// Writes a new key, or overwrites the value of one that exists.
    SetValue { key: String, value: String },
    /// Changes the value of a key that exists; an error where it does not.
    Update { key: String, value: String },
    /// Looks a key up.
    Get { key: String },
    /// Removes a key.
    Delete { key: String },
    /// Lists all keys in a fixed order.
    Keys,
    /// Reports the number of keys.
    Status,
}

/// A command over character sequences.
pub ghost enum CommandView {
    SetValue { key: Seq<char>, value: Seq<char> },
    Update { key: Seq<char>, value: Seq<char> },
    Get { key: Seq<char> },
    Delete { key: Seq<char> },
    Keys,
    Status,
}

impl View for Command {
    type V = CommandView;

    open spec fn view(&self) -> CommandView {
        match self {
            Command::SetValue { key, value } => CommandView::SetValue { key: key@, value: value@ },
            Command::Update { key, value } => CommandView::Update { key: key@, value: value@ },
            Command::Get { key } => CommandView::Get { key: key@ },
            Command::Delete { key } => CommandView::Delete { key: key@ },
            Command::Keys => CommandView::Keys,
            Command::Status => CommandView::Status,
        }
    }
}

} // verus!
