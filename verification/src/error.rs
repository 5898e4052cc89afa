//! The failure taxonomy shared by every operation of the engine.

use vstd::prelude::*;

verus! {

/// Why an operation was refused or a store could not be used.
///
/// Validation failures (`InvalidNumber`, `InvalidRange`, `PositionOutOfRange`,
/// `NotATask`, `EmptyStore`, `MissingContent`) abort the command before any
/// state is changed.  `CorruptStore` means the persisted text could not be
/// parsed; `IoFailure` is raised by the unverified shell when a store file
/// cannot be read or written.
#[derive(Debug, Clone)]
pub enum LedgerError {
    /// The token is not a positive integer written in decimal digits.
    InvalidNumber(String),
    /// A range `first-last` with `first > last`.
    InvalidRange(usize, usize),
    /// A position beyond the current length of the ledger.
    PositionOutOfRange(usize),
    /// The position addresses a note, or no item at all, where a task is needed.
    NotATask(usize),
    /// The operation needs at least one item in the ledger.
    EmptyStore,
    /// The persisted text does not follow the store format.
    CorruptStore,
    /// A store file could not be read, created or written.
    IoFailure,
    /// An add command whose text payload came out empty.
    MissingContent,
}

} // verus!
