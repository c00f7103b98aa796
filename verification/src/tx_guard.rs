//! Guards and references to transactions.
use vstd::prelude::*;

pub mod closing;
pub mod graph;
pub mod tx_box;

use crate::{TxError, TxResult, TxState};
use self::closing::{close_outcome, has_dep, target_state};
use self::graph::{acyclic, add_edge, lemma_push_dependency_acyclic, reaches};
use self::tx_box::{TxBox, TxTable};

verus! {

/// A reference to a transaction.
#[derive(Debug)]
pub struct TxRef(TxBox);

/// A guard to an open transaction: the one handle that may close, abort or poison it.
///
/// A guard that is done with without being closed should be passed to [`TxGuard::drop`],
/// which aborts its transaction.
#[derive(Debug)]
pub struct TxGuard {
    /// The transaction this guard holds open.
    tx_ref: TxRef,
}

impl View for TxRef {
    type V = usize;

    /// The position of the transaction in its table.
    closed spec fn view(&self) -> usize {
        self.0@
    }
}

impl View for TxGuard {
    type V = usize;

    /// The position of the transaction in its table.
    closed spec fn view(&self) -> usize {
        self.tx_ref@
    }
}

impl TxGuard {
    /// Attempts to close (`close`) or abort the transaction.
    fn _close_tx(&self, table: &mut TxTable, close: bool) -> (r: TxResult<()>)
        requires
            old(table).wf(),
            self@ < old(table).states().len(),
        ensures
            final(table).wf(),
            old(table).states()[self@ as int] != TxState::Open ==> final(table).states() == old(
                table,
            ).states() && final(table).graph() == old(table).graph(),
            old(table).states()[self@ as int] == TxState::Poisoned ==> r == Err::<(), TxError>(
                TxError::PoisonedError,
            ),
            ({
                let (result, state, rest) = close_outcome(
                    old(table).states(),
                    old(table).graph(),
                    self@ as int,
                    close,
                );
                &&& r == result
                &&& final(table).states() == old(table).states().update(self@ as int, state)
                &&& final(table).graph() == old(table).graph().update(self@ as int, rest)
            }),
            ({
                let s = old(table).states();
                let d = old(table).graph()[self@ as int];
                let x = self@ as int;
                &&& r is Ok <==> (s[x] == TxState::Open && !has_dep(s, d, TxState::Poisoned)
                    && !has_dep(s, d, TxState::Open) && (close ==> forall|k: int|
                    0 <= k < d.len() ==> #[trigger] s[d[k] as int] == TxState::Closed))
                &&& r is Ok ==> final(table).states()[x] == target_state(close)
                    && final(table).graph()[x] == Seq::<usize>::empty()
            }),
    {
        self.tx_ref.0.close_tx(table, close)
    }

    /// Starts a new transaction.
    pub fn new(table: &mut TxTable) -> (tx: TxGuard)
        requires
            old(table).wf(),
        ensures
            final(table).wf(),
            tx@ == old(table).states().len(),
            final(table).states() == old(table).states().push(TxState::Open),
            final(table).graph() == old(table).graph().push(Seq::<usize>::empty()),
    {
        TxGuard { tx_ref: TxRef(TxBox::new(table)) }
    }

    /// Starts a new transaction and adds it as a dependency of this transaction.
    ///
    /// The new transaction cannot take part in a cycle of dependencies.
    pub fn sub_tx(&mut self, table: &mut TxTable) -> (tx: TxGuard)
        requires
            old(table).wf(),
            old(self)@ < old(table).states().len(),
        ensures
            *final(self) == *old(self),
            final(table).wf(),
            tx@ == old(table).states().len(),
            final(table).states() == old(table).states().push(TxState::Open),
            final(table).graph() == add_edge(
                old(table).graph().push(Seq::<usize>::empty()),
                old(self)@,
                tx@,
            ),
            acyclic(old(table).graph()) ==> acyclic(final(table).graph()),
    {
        let tx = Self::new(table);
        proof {
            if acyclic(old(table).graph()) {
                lemma_push_dependency_acyclic(old(table).graph(), self@);
            }
        }
        self.tx_ref.0.wait_for_unchecked(table, &tx.tx_ref.0);
        tx
    }

    /// Attempts to close this transaction.
    ///
    /// If this transaction cannot be closed the guard is returned along with the error.
    pub fn close(self, table: &mut TxTable) -> (r: Result<(), (TxGuard, TxError)>)
        requires
            old(table).wf(),
            self@ < old(table).states().len(),
        ensures
            final(table).wf(),
            old(table).states()[self@ as int] != TxState::Open ==> final(table).states() == old(
                table,
            ).states() && final(table).graph() == old(table).graph(),
            old(table).states()[self@ as int] == TxState::Poisoned ==> r matches Err((
                _,
                TxError::PoisonedError,
            )),
            ({
                let (result, state, rest) = close_outcome(
                    old(table).states(),
                    old(table).graph(),
                    self@ as int,
                    true,
                );
                &&& match r {
                    Ok(()) => result == Ok::<(), TxError>(()),
                    Err((guard, e)) => guard == self && result == Err::<(), TxError>(e),
                }
                &&& final(table).states() == old(table).states().update(self@ as int, state)
                &&& final(table).graph() == old(table).graph().update(self@ as int, rest)
            }),
            ({
                let s = old(table).states();
                let d = old(table).graph()[self@ as int];
                r is Ok <==> (s[self@ as int] == TxState::Open && forall|k: int|
                    0 <= k < d.len() ==> #[trigger] s[d[k] as int] == TxState::Closed)
            }),
    {
        match self._close_tx(table, true) {
            Ok(()) => Ok(()),
            Err(e) => Err((self, e)),
        }
    }

    /// Attempts to abort this transaction.
    ///
    /// If this transaction cannot be aborted the guard is returned along with the error.
    /// Aborting succeeds even if there are aborted dependencies; an open dependency keeps
    /// this transaction open.
    pub fn abort(self, table: &mut TxTable) -> (r: Result<(), (TxGuard, TxError)>)
        requires
            old(table).wf(),
            self@ < old(table).states().len(),
        ensures
            final(table).wf(),
            old(table).states()[self@ as int] != TxState::Open ==> final(table).states() == old(
                table,
            ).states() && final(table).graph() == old(table).graph(),
            old(table).states()[self@ as int] == TxState::Poisoned ==> r matches Err((
                _,
                TxError::PoisonedError,
            )),
            ({
                let (result, state, rest) = close_outcome(
                    old(table).states(),
                    old(table).graph(),
                    self@ as int,
                    false,
                );
                &&& match r {
                    Ok(()) => result == Ok::<(), TxError>(()),
                    Err((guard, e)) => guard == self && result == Err::<(), TxError>(e),
                }
                &&& final(table).states() == old(table).states().update(self@ as int, state)
                &&& final(table).graph() == old(table).graph().update(self@ as int, rest)
            }),
            ({
                let s = old(table).states();
                let d = old(table).graph()[self@ as int];
                r is Ok <==> (s[self@ as int] == TxState::Open && !has_dep(s, d, TxState::Poisoned)
                    && !has_dep(s, d, TxState::Open))
            }),
    {
        match self._close_tx(table, false) {
            Ok(()) => Ok(()),
            Err(e) => Err((self, e)),
        }
    }

    /// Poisons this transaction to indicate it has entered an illegal state.
    pub fn poison(self, table: &mut TxTable)
        requires
            old(table).wf(),
            self@ < old(table).states().len(),
        ensures
            final(table).wf(),
            final(table).states() == old(table).states().update(self@ as int, TxState::Poisoned),
            final(table).graph() == old(table).graph(),
    {
        self.tx_ref.0.poison(table)
    }

    /// Adds `other_tx` as a dependency of this transaction.
    ///
    /// Returns `false`, and adds nothing, if this transaction is already a dependency of
    /// `other_tx` or if they are the same transaction.  A transaction may be added as a
    /// dependency more than once.
    pub fn wait_for(&mut self, table: &mut TxTable, other_tx: &TxRef) -> (r: bool)
        requires
            old(table).wf(),
            old(self)@ < old(table).states().len(),
            other_tx@ < old(table).states().len(),
        ensures
            *final(self) == *old(self),
            final(table).wf(),
            r == !reaches(old(table).graph(), other_tx@, old(self)@),
            final(table).states() == old(table).states(),
            final(table).graph() == if r {
                add_edge(old(table).graph(), old(self)@, other_tx@)
            } else {
                old(table).graph()
            },
            acyclic(old(table).graph()) ==> acyclic(final(table).graph()),
    {
        self.tx_ref.0.wait_for(table, &other_tx.0)
    }

    /// Adds `other_tx` as a dependency of this transaction without checking whether the new
    /// dependency creates a cycle; the caller is to ensure that it does not, as a cycle
    /// keeps every transaction on it from closing.
    pub fn wait_for_unchecked(&mut self, table: &mut TxTable, other_tx: &TxRef)
        requires
            old(table).wf(),
            old(self)@ < old(table).states().len(),
            other_tx@ < old(table).states().len(),
        ensures
            *final(self) == *old(self),
            final(table).wf(),
            final(table).states() == old(table).states(),
            final(table).graph() == add_edge(old(table).graph(), old(self)@, other_tx@),
    {
        self.tx_ref.0.wait_for_unchecked(table, &other_tx.0)
    }

    /// Clears the poisoned state of this transaction and resets it to open.
    ///
    /// This function has no effect when the transaction is not in a poisoned state.  A
    /// later `close` or `abort` still poisons the transaction again for each poisoned
    /// dependency left.
    pub fn clear_poisoned(&mut self, table: &mut TxTable)
        requires
            old(table).wf(),
            old(self)@ < old(table).states().len(),
        ensures
            *final(self) == *old(self),
            final(table).wf(),
            final(table).states() == (if old(table).states()[old(self)@ as int] == TxState::Poisoned {
                old(table).states().update(old(self)@ as int, TxState::Open)
            } else {
                old(table).states()
            }),
            final(table).graph() == old(table).graph(),
    {
        self.tx_ref.0.clear_poisoned(table)
    }

    /// Returns a [`TxRef`] for this transaction.
    pub fn tx_ref(&self) -> (r: TxRef)
        ensures
            r@ == self@,
    {
        TxRef(self.tx_ref.0)
    }

    /// Gives up this guard, aborting its transaction; an error from the attempt is
    /// ignored, and the transaction then stays as it is.
    pub fn drop(self, table: &mut TxTable)
        requires
            old(table).wf(),
            self@ < old(table).states().len(),
        ensures
            final(table).wf(),
            old(table).states()[self@ as int] != TxState::Open ==> final(table).states() == old(
                table,
            ).states() && final(table).graph() == old(table).graph(),
            ({
                let (result, state, rest) = close_outcome(
                    old(table).states(),
                    old(table).graph(),
                    self@ as int,
                    false,
                );
                &&& final(table).states() == old(table).states().update(self@ as int, state)
                &&& final(table).graph() == old(table).graph().update(self@ as int, rest)
            }),
    {
        let _ = self._close_tx(table, false);
    }
}

impl core::ops::Deref for TxGuard {
    type Target = TxRef;

    /// The reference to the transaction of this guard.
    fn deref(&self) -> (r: &TxRef)
        ensures
            r@ == self@,
    {
        &self.tx_ref
    }
}

impl PartialEq for TxRef {
    /// Two references are equal when they name the same transaction.
    fn eq(&self, rhs: &TxRef) -> (r: bool) {
        proof {
            TxBox::lemma_view_injective(self.0, rhs.0);
        }
        self.0 == rhs.0
    }
}

impl vstd::std_specs::cmp::PartialEqSpecImpl for TxRef {
    open spec fn obeys_eq_spec() -> bool {
        true
    }

    open spec fn eq_spec(&self, rhs: &TxRef) -> bool {
        self@ == rhs@
    }
}

impl Eq for TxRef {
}

impl PartialEq for TxGuard {
    /// Two guards are equal when they hold the same transaction.
    fn eq(&self, rhs: &TxGuard) -> (r: bool) {
        proof {
            TxBox::lemma_view_injective(self.tx_ref.0, rhs.tx_ref.0);
        }
        self.tx_ref.0 == rhs.tx_ref.0
    }
}

impl vstd::std_specs::cmp::PartialEqSpecImpl for TxGuard {
    open spec fn obeys_eq_spec() -> bool {
        true
    }

    open spec fn eq_spec(&self, rhs: &TxGuard) -> bool {
        self@ == rhs@
    }
}

impl Eq for TxGuard {
}

impl PartialEq<TxRef> for TxGuard {
    /// A guard equals a reference to the transaction it holds.
    fn eq(&self, rhs: &TxRef) -> (r: bool) {
        proof {
            TxBox::lemma_view_injective(self.tx_ref.0, rhs.0);
        }
        self.tx_ref.0 == rhs.0
    }
}

impl vstd::std_specs::cmp::PartialEqSpecImpl<TxRef> for TxGuard {
    open spec fn obeys_eq_spec() -> bool {
        true
    }

    open spec fn eq_spec(&self, rhs: &TxRef) -> bool {
        self@ == rhs@
    }
}

impl PartialEq<TxGuard> for TxRef {
    /// A reference equals the guard that holds its transaction.
    fn eq(&self, rhs: &TxGuard) -> (r: bool) {
        proof {
            TxBox::lemma_view_injective(self.0, rhs.tx_ref.0);
        }
        self.0 == rhs.tx_ref.0
    }
}

impl vstd::std_specs::cmp::PartialEqSpecImpl<TxGuard> for TxRef {
    open spec fn obeys_eq_spec() -> bool {
        true
    }

    open spec fn eq_spec(&self, rhs: &TxGuard) -> bool {
        self@ == rhs@
    }
}

impl AsRef<TxRef> for TxGuard {
    /// The reference to the transaction of this guard.
    fn as_ref(&self) -> (r: &TxRef)
        ensures
            r@ == self@,
    {
        &self.tx_ref
    }
}

impl TxRef {
    /// Returns the current state of the transaction.
    pub fn tx_state(&self, table: &TxTable) -> (state: TxState)
        requires
            table.wf(),
            self@ < table.states().len(),
        ensures
            state == table.states()[self@ as int],
    {
        self.0.tx_state(table)
    }

    /// Returns `true` if `other_tx` is a dependency of `self`, direct or indirect, or if
    /// `other_tx` is `self`.
    pub fn will_wait(&self, table: &TxTable, other_tx: &TxRef) -> (r: bool)
        requires
            table.wf(),
            self@ < table.states().len(),
            other_tx@ < table.states().len(),
        ensures
            r == reaches(table.graph(), self@, other_tx@),
    {
        self.0.will_wait(table, &other_tx.0)
    }
}

} // verus!
