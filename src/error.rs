//! Errors of the store and of the commitment engine.

use vstd::prelude::*;

verus! {

/// Why a storage operation failed.
#[derive(Clone, Copy, Debug, PartialEq, Eq, Structural)]
pub enum StorageError {
    /// The operation named a column that the store does not have.
    MissingColumn,
    /// A transaction's writes collided with writes merged since its snapshot.
    TransactionConflict,
    /// Two namespaces were laid out over the same column.
    SharedColumn,
}

} // verus!
