//! What came of reading a file.
use vstd::prelude::*;

verus! {

/// What came of reading a file that is to hold a `T`.
pub enum FileOutcome<T> {
    /// There is no such file.
    Missing { reason: String },
    /// It cannot be read.
    Unreadable { reason: String },
    /// Its text does not spell a `T`.
    Malformed { reason: String },
    /// Its text spells a `T`.
    Holds(T),
}

/// What a `FileOutcome` says.
#[verifier::ext_equal]
pub enum FileText<V> {
    Missing { reason: Seq<char> },
    Unreadable { reason: Seq<char> },
    Malformed { reason: Seq<char> },
    Holds(V),
}

impl<T: DeepView> DeepView for FileOutcome<T> {
    type V = FileText<T::V>;

    open spec fn deep_view(&self) -> FileText<T::V> {
        match self {
            FileOutcome::Missing { reason } => FileText::Missing { reason: reason@ },
            FileOutcome::Unreadable { reason } => FileText::Unreadable { reason: reason@ },
            FileOutcome::Malformed { reason } => FileText::Malformed { reason: reason@ },
            FileOutcome::Holds(value) => FileText::Holds(value.deep_view()),
        }
    }
}

} // verus!
