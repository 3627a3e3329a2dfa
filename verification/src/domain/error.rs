//! Errors of the domain rules; they know nothing of network or disk.

use vstd::prelude::*;

verus! {

/// Why a command was refused.
#[derive(Debug, Clone, PartialEq, Eq)]
pub enum DomainError {
    /// The key is the empty string.
    EmptyKey,
    /// The key to look up, change or remove does not exist.
    NotFound { key: String },
}

/// A domain error over character sequences.
pub ghost enum DomainErrorView {
    EmptyKey,
    NotFound { key: Seq<char> },
}

impl View for DomainError {
    type V = DomainErrorView;

    open spec fn view(&self) -> DomainErrorView {
        match self {
            DomainError::EmptyKey => DomainErrorView::EmptyKey,
            DomainError::NotFound { key } => DomainErrorView::NotFound { key: key@ },
        }
    }
}

impl DomainErrorView {
    /// The text that describes the error.
    pub open spec fn text(self) -> Seq<char> {
        match self {
            DomainErrorView::EmptyKey => "key must not be empty"@,
            DomainErrorView::NotFound { key } => "key not found: "@ + key,
        }
    }
}

impl DomainError {
    /// The text that describes the error.
    #[must_use]
    pub fn message(&self) -> (text: String)
        ensures
            text@ == self@.text(),
    {
        match self {
            DomainError::EmptyKey => "key must not be empty".to_owned(),
            DomainError::NotFound { key } => {
                let mut text = "key not found: ".to_owned();
                text.append(key.as_str());
                text
            },
        }
    }
}

/// An error that a key was not found names the key, and so two of them never read the same for
/// different keys; nor does that of an empty key read like one of them.
pub proof fn law_errors_name_the_key(a: DomainErrorView, b: DomainErrorView)
    ensures
        a matches DomainErrorView::NotFound { key } ==> key.is_suffix_of(a.text()),
        a.text() == b.text() ==> a == b,
{
    reveal_strlit("key must not be empty");
    reveal_strlit("key not found: ");
    if let DomainErrorView::NotFound { key } = a {
        assert(a.text().skip(a.text().len() - key.len()) =~= key);
    }
    if a.text() == b.text() {
        assert(a.text()[4] == b.text()[4]);
        match (a, b) {
            (DomainErrorView::NotFound { key: x }, DomainErrorView::NotFound { key: y }) => {
                assert(x =~= a.text().skip(15));
                assert(y =~= b.text().skip(15));
            },
            _ => {},
        }
    }
}

} // verus!
