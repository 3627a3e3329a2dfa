//! What a command gives back when it succeeds.

use vstd::prelude::*;

use crate::text::views;

verus! {

/// Whether a SET created its key or overwrote a value.
#[derive(Debug, Clone, PartialEq, Eq)]
pub enum SetOutcome {
    /// A new key was created.
    Created,
    /// An existing key was overwritten; its old value is handed back.
    Overwritten { old_value: String },
}

/// The status that follows from what is stored.
#[derive(Debug, Clone, PartialEq, Eq)]
pub struct StoreStatus {
    /// The number of keys.
    pub key_count: usize,
}

/// The reply to a command that succeeded.
#[derive(Debug, Clone, PartialEq, Eq)]
pub enum Reply {
    SetValue(SetOutcome),
    Updated { old_value: String },
    Value(String),
    Deleted { value: String },
    Keys(Vec<String>),
    Status(StoreStatus),
}

/// The outcome of a SET over character sequences.
pub ghost enum SetOutcomeView {
    Created,
    Overwritten { old_value: Seq<char> },
}

/// A reply over character sequences.
pub ghost enum ReplyView {
    SetValue(SetOutcomeView),
    Updated { old_value: Seq<char> },
    Value(Seq<char>),
    Deleted { value: Seq<char> },
    Keys(Seq<Seq<char>>),
    Status { key_count: nat },
}

impl View for SetOutcome {
    type V = SetOutcomeView;

    open spec fn view(&self) -> SetOutcomeView {
        match self {
            SetOutcome::Created => SetOutcomeView::Created,
            SetOutcome::Overwritten { old_value } => SetOutcomeView::Overwritten {
                old_value: old_value@,
            },
        }
    }
}

impl View for Reply {
    type V = ReplyView;

    open spec fn view(&self) -> ReplyView {
        match self {
            Reply::SetValue(outcome) => ReplyView::SetValue(outcome@),
            Reply::Updated { old_value } => ReplyView::Updated { old_value: old_value@ },
            Reply::Value(value) => ReplyView::Value(value@),
            Reply::Deleted { value } => ReplyView::Deleted { value: value@ },
            Reply::Keys(keys) => ReplyView::Keys(views(keys@)),
            Reply::Status(status) => ReplyView::Status { key_count: status.key_count as nat },
        }
    }
}

} // verus!
