use vstd::prelude::*;

verus! {

/// The closed set of failures of the store, the resolver and the stack.
///
/// The duplicate variants carry the offending value so that an adapter can
/// report it without parsing any text.
#[derive(Debug, PartialEq, Eq)]
pub enum QcdError {
    /// The backing store could not be opened or initialized.
    StorageUnavailable,
    /// An insert or update would duplicate an existing `idx`.
    DuplicateIdx(u32),
    /// An insert or update would duplicate an existing alias.
    DuplicateAlias(String),
    /// No row matches the given idx, alias or directory.
    NotFound,
    /// An alias prefix matches more than one non-exact row.
    Ambiguous,
    /// A pop, drop or swap found nothing on the session's stack.
    EmptyStack,
    /// A supplied path cannot be canonicalized to portable text.
    InvalidPath,
}

} // verus!
