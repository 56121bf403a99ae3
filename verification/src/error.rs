use vstd::prelude::*;

verus! {

/// Why an operation of the engine failed. Every failure is final for the
/// operation in progress; nothing is retried.
#[derive(Debug, Clone, Copy, PartialEq, Eq, Structural)]
pub enum Error {
    /// A name is not in the named-key table.
    NameNotFound,
    /// A key is not of the variant that the operation needs.
    WrongKeyVariant,
    /// A reference lacks the access right that the operation needs.
    InsufficientAccessRights,
    /// A sum, a difference or a product is no number of its type.
    Overflow,
    /// A transform addresses a value of a type that it cannot change.
    TypeMismatch,
    /// The state root is not known to the store.
    UnknownRoot,
    /// Two different trie nodes have the same digest.
    CorruptNode,
    /// An installer did not yield a contract.
    InvalidInstaller,
    /// A journal holds bytes that are no commit.
    CorruptJournal,
}

} // verus!
