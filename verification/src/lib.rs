//! Transactions: a synchronisation primitive for checkpointing the progress of other
//! threads of execution and for enforcing an order of operations between them.
//!
//! Every transaction lives in a [`TxTable`]; a [`TxGuard`] is the unique handle that may
//! close, abort or poison a transaction, and a [`TxRef`] observes one.  A transaction may
//! wait for other transactions (its dependencies); it can only be closed once all of them
//! have closed.
use vstd::prelude::*;

pub mod tx_guard;
pub mod sync;

pub use tx_guard::{TxGuard, TxRef};
pub use tx_guard::tx_box::{TxBox, TxTable};

verus! {

/// The possible states of a transaction.
#[derive(PartialEq, Eq, Structural, Clone, Copy, Debug)]
pub enum TxState {
    /// The transaction is still open.
    Open,
    /// The holder of the transaction gave up on it in an illegal state.
    Poisoned,
    /// The transaction has been aborted.
    Aborted,
    /// The transaction has been closed.
    Closed,
}

/// The error type returned by this crate.
#[derive(PartialEq, Eq, Structural, Clone, Debug)]
pub enum TxError {
    /// Attempted to close a transaction which was already closed or aborted.
    AlreadyClosed,
    /// A dependency of a transaction is still open.
    OpenDependency,
    /// A dependency of a transaction aborted.
    AbortedDependency,
    /// A transaction is in a poisoned state.
    PoisonedError,
}

/// The result type returned by this crate.
pub type TxResult<T> = Result<T, TxError>;

} // verus!
