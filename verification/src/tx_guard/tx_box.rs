//! Transactions and the table that holds them.
use vstd::prelude::*;

use crate::{TxError, TxResult, TxState};
use super::closing::{
    close_outcome, close_scan, count_deps, has_dep, lemma_close_outcome, lemma_close_scan,
    target_state,
};
use super::graph::{
    acyclic, add_edge, deps_in_range, edge, lemma_add_edge_acyclic,
    lemma_closed_set_holds_reachable, lemma_reaches_refl, lemma_reaches_step, reaches,
};

verus! {

/// Every transaction: its state and the transactions it waits for.
///
/// Transaction `i` of a table is named by the handle [`TxBox`] with view `i`.
pub struct TxTable {
    /// The state of each transaction.
    states: Vec<TxState>,
    /// The transactions each transaction is waiting on.
    deps: Vec<Vec<usize>>,
}

/// A handle to a transaction of a [`TxTable`].
#[derive(Clone, Copy, PartialEq, Eq, Structural, Debug)]
pub struct TxBox {
    id: usize,
}

impl View for TxBox {
    type V = usize;

    /// The position of the transaction in its table.
    closed spec fn view(&self) -> usize {
        self.id
    }
}

impl TxBox {
    /// Two handles are the same exactly when they name the same transaction.
    pub proof fn lemma_view_injective(a: TxBox, b: TxBox)
        ensures
            (a == b) <==> (a@ == b@),
    {
    }
}

impl TxTable {
    /// The state of each transaction.
    pub closed spec fn states(&self) -> Seq<TxState> {
        self.states@
    }

    /// The dependencies of each transaction.
    pub closed spec fn graph(&self) -> Seq<Seq<usize>> {
        Seq::new(self.deps@.len(), |i: int| self.deps@[i]@)
    }

    /// Each transaction has a state and a list of dependencies, and every dependency is a
    /// transaction of the table.
    pub open spec fn wf(&self) -> bool {
        &&& self.states().len() == self.graph().len()
        &&& deps_in_range(self.graph())
    }

    /// `tx` names a transaction of this table.
    pub open spec fn holds(&self, tx: TxBox) -> bool {
        tx@ < self.states().len()
    }

    /// An empty table.
    pub fn new() -> (table: TxTable)
        ensures
            table.wf(),
            table.states() == Seq::<TxState>::empty(),
            table.graph() == Seq::<Seq<usize>>::empty(),
    {
        let table = TxTable { states: Vec::new(), deps: Vec::new() };
        assert(table.graph() =~= Seq::<Seq<usize>>::empty());
        table
    }

    /// The number of transactions in the table.
    pub fn len(&self) -> (n: usize)
        requires
            self.wf(),
        ensures
            n == self.states().len(),
    {
        self.states.len()
    }
}

impl TxBox {
    /// Creates a new open transaction with no dependencies.
    pub fn new(table: &mut TxTable) -> (tx: TxBox)
        requires
            old(table).wf(),
        ensures
            final(table).wf(),
            tx@ == old(table).states().len(),
            final(table).states() == old(table).states().push(TxState::Open),
            final(table).graph() == old(table).graph().push(Seq::<usize>::empty()),
    {
        let id = table.states.len();
        table.states.push(TxState::Open);
        table.deps.push(Vec::new());
        assert(table.graph() =~= old(table).graph().push(Seq::<usize>::empty()));
        TxBox { id }
    }

    /// Returns the state of this transaction.
    pub fn tx_state(&self, table: &TxTable) -> (state: TxState)
        requires
            table.wf(),
            table.holds(*self),
        ensures
            state == table.states()[self@ as int],
    {
        table.states[self.id]
    }

    /// Sets the state of this transaction to poisoned.
    pub fn poison(&self, table: &mut TxTable)
        requires
            old(table).wf(),
            old(table).holds(*self),
        ensures
            final(table).wf(),
            final(table).states() == old(table).states().update(self@ as int, TxState::Poisoned),
            final(table).graph() == old(table).graph(),
    {
        table.states.set(self.id, TxState::Poisoned);
    }

    /// Clears the poisoned state of this transaction and resets it to open.
    ///
    /// This function has no effect when the transaction is not in a poisoned state.
    pub fn clear_poisoned(&self, table: &mut TxTable)
        requires
            old(table).wf(),
            old(table).holds(*self),
        ensures
            final(table).wf(),
            final(table).states() == (if old(table).states()[self@ as int] == TxState::Poisoned {
                old(table).states().update(self@ as int, TxState::Open)
            } else {
                old(table).states()
            }),
            final(table).graph() == old(table).graph(),
    {
        if let TxState::Poisoned = table.states[self.id] {
            table.states.set(self.id, TxState::Open);
        }
    }

    /// Adds `other_tx` as a dependency of this transaction, whether or not that creates a
    /// cycle of dependencies.
    pub fn wait_for_unchecked(&self, table: &mut TxTable, other_tx: &TxBox)
        requires
            old(table).wf(),
            old(table).holds(*self),
            old(table).holds(*other_tx),
        ensures
            final(table).wf(),
            final(table).states() == old(table).states(),
            final(table).graph() == add_edge(old(table).graph(), self@, other_tx@),
    {
        let mut d: Vec<usize> = Vec::new();
        std::mem::swap(&mut d, &mut table.deps[self.id]);
        d.push(other_tx.id);
        table.deps.set(self.id, d);
        assert(table.graph() =~= add_edge(old(table).graph(), self@, other_tx@));
    }
}

/// The number of transactions not marked in `seen`.
spec fn unmarked(seen: Seq<bool>) -> nat
    decreases seen.len(),
{
    if seen.len() == 0 {
        0
    } else {
        unmarked(seen.drop_last()) + if seen.last() {
            0nat
        } else {
            1nat
        }
    }
}

/// Marking one more transaction leaves one fewer unmarked.
proof fn lemma_unmarked_mark(seen: Seq<bool>, i: int)
    requires
        0 <= i < seen.len(),
        !seen[i],
    ensures
        unmarked(seen.update(i, true)) + 1 == unmarked(seen),
    decreases seen.len(),
{
    let t = seen.update(i, true);
    if i == seen.len() - 1 {
        assert(t.drop_last() =~= seen.drop_last());
    } else {
        assert(t.drop_last() =~= seen.drop_last().update(i, true));
        lemma_unmarked_mark(seen.drop_last(), i);
    }
}

impl TxBox {
    /// Marks every dependency of `u` that is not marked yet, and pushes it on `stack`.
    fn _mark_deps(
        table: &TxTable,
        u: usize,
        seen: &mut Vec<bool>,
        stack: &mut Vec<usize>,
    ) -> (added: Ghost<Seq<usize>>)
        requires
            table.wf(),
            u < table.states().len(),
            old(seen)@.len() == table.states().len(),
        ensures
            final(seen)@.len() == old(seen)@.len(),
            final(stack)@ == old(stack)@ + added@,
            forall|x: usize|
                x < old(seen)@.len() ==> (#[trigger] final(seen)@[x as int] <==> (old(
                    seen,
                )@[x as int] || added@.contains(x))),
            forall|k: int|
                0 <= k < added@.len() ==> #[trigger] added@[k] < old(seen)@.len() && !old(
                    seen,
                )@[added@[k] as int] && edge(table.graph(), u, added@[k]),
            forall|d: usize| #[trigger] edge(table.graph(), u, d) ==> final(seen)@[d as int],
            unmarked(final(seen)@) + added@.len() == unmarked(old(seen)@),
    {
        let ghost g = table.graph();
        let ghost n = g.len();
        let n_deps = table.deps[u].len();
        assert(g[u as int] == table.deps@[u as int]@);
        let ghost mut added: Seq<usize> = Seq::empty();
        let mut j: usize = 0;
        while j < n_deps
            invariant
                table.wf(),
                g == table.graph(),
                n == g.len(),
                u < n,
                n_deps == g[u as int].len(),
                g[u as int] == table.deps@[u as int]@,
                0 <= j <= n_deps,
                seen@.len() == n,
                old(seen)@.len() == n,
                stack@ == old(stack)@ + added,
                forall|x: usize|
                    x < n ==> (#[trigger] seen@[x as int] <==> (old(seen)@[x as int]
                        || added.contains(x))),
                forall|k: int|
                    0 <= k < added.len() ==> #[trigger] added[k] < n && !old(seen)@[added[k] as int]
                        && edge(g, u, added[k]),
                forall|k: int| 0 <= k < j ==> seen@[#[trigger] g[u as int][k] as int],
                unmarked(seen@) + added.len() == unmarked(old(seen)@),
            decreases n_deps - j,
        {
            let d = table.deps[u][j];
            assert(d == g[u as int][j as int]);
            assert(d < n);
            if !seen[d] {
                proof {
                    lemma_unmarked_mark(seen@, d as int);
                }
                let ghost prev_added = added;
                seen.set(d, true);
                stack.push(d);
                proof {
                    added = added.push(d);
                    assert(g[u as int].contains(d));
                    assert forall|x: usize|
                        x < n implies (#[trigger] seen@[x as int] <==> (old(seen)@[x as int]
                            || added.contains(x))) by {
                        if x == d {
                            assert(added[added.len() - 1] == d);
                        } else {
                            if added.contains(x) {
                                let k = choose|k: int| 0 <= k < added.len() && added[k] == x;
                                assert(prev_added[k] == x);
                            }
                            if prev_added.contains(x) {
                                let k = choose|k: int| 0 <= k < prev_added.len() && prev_added[k] == x;
                                assert(added[k] == x);
                            }
                        }
                    }
                }
            }
            j += 1;
        }
        assert forall|d: usize| #[trigger] edge(g, u, d) implies seen@[d as int] by {
            let k = choose|k: int| 0 <= k < g[u as int].len() && g[u as int][k] == d;
        }
        Ghost(added)
    }

    /// Searches the dependencies of `start`, direct and indirect, for `other_tx`.
    fn _is_dependency(table: &TxTable, start: usize, other_tx: usize) -> (found: bool)
        requires
            table.wf(),
            start < table.states().len(),
            other_tx < table.states().len(),
            start != other_tx,
        ensures
            found == reaches(table.graph(), start, other_tx),
    {
        let ghost g = table.graph();
        let n = table.states.len();
        let mut seen: Vec<bool> = Vec::new();
        let mut i: usize = 0;
        while i < n
            invariant
                seen@.len() == i,
                i <= n,
                forall|k: int| 0 <= k < i ==> !#[trigger] seen@[k],
            decreases n - i,
        {
            seen.push(false);
            i += 1;
        }
        seen.set(start, true);
        proof {
            lemma_reaches_refl(g, start);
        }
        let mut stack: Vec<usize> = Vec::new();
        let ghost seen0 = seen@;
        let added = Self::_mark_deps(table, start, &mut seen, &mut stack);
        proof {
            assert forall|x: usize| x < n && #[trigger] seen@[x as int] implies reaches(
                g,
                start,
                x,
            ) by {
                if x != start {
                    assert(added@.contains(x));
                    let k = choose|k: int| 0 <= k < added@.len() && added@[k] == x;
                    assert(edge(g, start, added@[k]));
                    lemma_reaches_step(g, start, start, x);
                }
            }
            assert forall|k: int| 0 <= k < stack@.len() implies #[trigger] stack@[k] < n
                && seen@[stack@[k] as int] by {
                assert(stack@[k] == added@[k]);
                assert(added@.contains(added@[k]));
            }
            assert forall|x: usize, y: usize|
                x < n && seen@[x as int] && !stack@.contains(x) && #[trigger] edge(
                    g,
                    x,
                    y,
                ) implies seen@[y as int] by {
                if x != start {
                    assert(added@.contains(x));
                    let k = choose|k: int| 0 <= k < added@.len() && added@[k] == x;
                    assert(stack@[k] == x);
                }
            }
            if seen@[other_tx as int] {
                assert(added@.contains(other_tx));
                let k = choose|k: int| 0 <= k < added@.len() && added@[k] == other_tx;
                assert(stack@[k] == other_tx);
            }
        }
        loop
            invariant
                table.wf(),
                g == table.graph(),
                n == g.len(),
                start < n,
                other_tx < n,
                start != other_tx,
                seen@.len() == n,
                seen@[start as int],
                forall|k: int|
                    0 <= k < stack@.len() ==> #[trigger] stack@[k] < n && seen@[stack@[k] as int],
                forall|x: usize| x < n && #[trigger] seen@[x as int] ==> reaches(g, start, x),
                forall|x: usize, y: usize|
                    x < n && seen@[x as int] && !stack@.contains(x) && #[trigger] edge(g, x, y)
                        ==> seen@[y as int],
                seen@[other_tx as int] ==> stack@.contains(other_tx),
            decreases unmarked(seen@) + stack@.len(),
        {
            let ghost stack_full = stack@;
            let ghost seen_before = seen@;
            match stack.pop() {
                None => {
                    proof {
                        if reaches(g, start, other_tx) {
                            let s = |x: usize| x < n && seen@[x as int];
                            assert forall|x: usize, y: usize|
                                s(x) && #[trigger] edge(g, x, y) implies s(y) by {
                                let k = choose|k: int| 0 <= k < g[x as int].len() && g[x as int][k]
                                    == y;
                                assert(g[x as int][k] < g.len());
                            }
                            lemma_closed_set_holds_reachable(g, s, start, other_tx);
                        }
                    }
                    return false;
                },
                Some(u) => {
                    assert(stack_full[stack_full.len() - 1] == u);
                    assert(u < n && seen@[u as int]);
                    if u == other_tx {
                        return true;
                    }
                    let ghost stack_popped = stack@;
                    assert(stack_full == stack_popped.push(u));
                    let added = Self::_mark_deps(table, u, &mut seen, &mut stack);
                    proof {
                        assert forall|k: int| 0 <= k < stack@.len() implies #[trigger] stack@[k]
                            < n && seen@[stack@[k] as int] by {
                            if k < stack_popped.len() {
                                assert(stack_full[k] == stack_popped[k]);
                                assert(seen_before[stack_full[k] as int]);
                            } else {
                                let j = k - stack_popped.len();
                                assert(stack@[k] == added@[j]);
                                assert(added@.contains(added@[j]));
                            }
                        }
                        assert forall|x: usize| x < n && #[trigger] seen@[x as int] implies reaches(
                            g,
                            start,
                            x,
                        ) by {
                            if !seen_before[x as int] {
                                assert(added@.contains(x));
                                let k = choose|k: int| 0 <= k < added@.len() && added@[k] == x;
                                assert(edge(g, u, added@[k]));
                                lemma_reaches_step(g, start, u, x);
                            }
                        }
                        assert forall|x: usize, y: usize|
                            x < n && seen@[x as int] && !stack@.contains(x) && #[trigger] edge(
                                g,
                                x,
                                y,
                            ) implies seen@[y as int] by {
                            if x != u {
                                if !seen_before[x as int] {
                                    assert(added@.contains(x));
                                    let k = choose|k: int| 0 <= k < added@.len() && added@[k] == x;
                                    assert(stack@[stack_popped.len() + k] == x);
                                } else {
                                    if stack_full.contains(x) {
                                        let k = choose|k: int|
                                            0 <= k < stack_full.len() && stack_full[k] == x;
                                        assert(k < stack_popped.len());
                                        assert(stack@[k] == x);
                                    }
                                    assert(seen_before[y as int]);
                                    let j = choose|j: int| 0 <= j < g[x as int].len() && g[x as int][j]
                                        == y;
                                    assert(g[x as int][j] < g.len());
                                }
                            }
                        }
                        if seen@[other_tx as int] {
                            if seen_before[other_tx as int] {
                                let k = choose|k: int|
                                    0 <= k < stack_full.len() && stack_full[k] == other_tx;
                                assert(k < stack_popped.len());
                                assert(stack@[k] == other_tx);
                            } else {
                                assert(added@.contains(other_tx));
                                let k = choose|k: int|
                                    0 <= k < added@.len() && added@[k] == other_tx;
                                assert(stack@[stack_popped.len() + k] == other_tx);
                            }
                        }
                    }
                },
            }
        }
    }

    /// Returns `true` if `other_tx` is a dependency of `self`, direct or indirect, or if
    /// `other_tx` is `self`.
    pub fn will_wait(&self, table: &TxTable, other_tx: &TxBox) -> (r: bool)
        requires
            table.wf(),
            table.holds(*self),
            table.holds(*other_tx),
        ensures
            r == reaches(table.graph(), self@, other_tx@),
    {
        if self.id == other_tx.id {
            proof {
                lemma_reaches_refl(table.graph(), self@);
            }
            return true;
        }
        Self::_is_dependency(table, self.id, other_tx.id)
    }

    /// Adds `other_tx` as a dependency of this transaction.
    ///
    /// Returns `false`, and adds nothing, if this transaction is already a dependency of
    /// `other_tx` or if `other_tx` is `self`.
    pub fn wait_for(&self, table: &mut TxTable, other_tx: &TxBox) -> (r: bool)
        requires
            old(table).wf(),
            old(table).holds(*self),
            old(table).holds(*other_tx),
        ensures
            final(table).wf(),
            r == !reaches(old(table).graph(), other_tx@, self@),
            final(table).states() == old(table).states(),
            final(table).graph() == if r {
                add_edge(old(table).graph(), self@, other_tx@)
            } else {
                old(table).graph()
            },
            acyclic(old(table).graph()) ==> acyclic(final(table).graph()),
    {
        if other_tx.will_wait(table, self) {
            return false;
        }
        proof {
            if acyclic(table.graph()) {
                lemma_add_edge_acyclic(table.graph(), self@, other_tx@);
            }
        }
        self.wait_for_unchecked(table, other_tx);
        true
    }
}

impl TxBox {
    /// Attempts to close (`close`) or abort this transaction.
    ///
    /// If a dependency is poisoned: this transaction is poisoned, that dependency removed and
    /// a poisoned error returned.  Else if a dependency is aborted and this transaction was
    /// to be closed: it stays open and an aborted error is returned.  Else if a dependency
    /// is open: it stays open and an open dependency error is returned.  Closed dependencies are removed on the way; on success every
    /// dependency is.
    pub fn close_tx(&self, table: &mut TxTable, close: bool) -> (r: TxResult<()>)
        requires
            old(table).wf(),
            old(table).holds(*self),
        ensures
            final(table).wf(),
            final(table).states() == old(table).states().update(
                self@ as int,
                final(table).states()[self@ as int],
            ),
            final(table).graph().len() == old(table).graph().len(),
            forall|i: int|
                0 <= i < old(table).graph().len() && i != self@ as int ==> #[trigger] final(table).graph()[i]
                    == old(table).graph()[i],
            old(table).states()[self@ as int] != TxState::Open ==> r is Err && final(table).states()
                == old(table).states() && final(table).graph() == old(table).graph(),
            old(table).states()[self@ as int] == TxState::Poisoned ==> r == Err::<(), TxError>(
                TxError::PoisonedError,
            ),
            ({
                let (result, state, rest) = close_outcome(
                    old(table).states(),
                    old(table).graph(),
                    self@ as int,
                    close,
                );
                &&& r == result
                &&& final(table).states() == old(table).states().update(self@ as int, state)
                &&& final(table).graph() == old(table).graph().update(self@ as int, rest)
            }),
            ({
                let s = old(table).states();
                let d = old(table).graph()[self@ as int];
                let x = self@ as int;
                let rest = final(table).graph()[self@ as int];
                &&& r == Err::<(), TxError>(TxError::AlreadyClosed) <==> (s[x] == TxState::Closed
                    || s[x] == TxState::Aborted)
                &&& r == Err::<(), TxError>(TxError::PoisonedError) <==> (s[x] == TxState::Poisoned
                    || (s[x] == TxState::Open && has_dep(s, d, TxState::Poisoned)))
                &&& r == Err::<(), TxError>(TxError::AbortedDependency) <==> (s[x] == TxState::Open
                    && close && !has_dep(s, d, TxState::Poisoned) && has_dep(
                    s,
                    d,
                    TxState::Aborted,
                ))
                &&& r == Err::<(), TxError>(TxError::OpenDependency) <==> (s[x] == TxState::Open
                    && !has_dep(s, d, TxState::Poisoned) && (close ==> !has_dep(
                    s,
                    d,
                    TxState::Aborted,
                )) && has_dep(s, d, TxState::Open))
                &&& r is Ok <==> (s[x] == TxState::Open && !has_dep(s, d, TxState::Poisoned)
                    && !has_dep(s, d, TxState::Open) && (close ==> forall|k: int|
                    0 <= k < d.len() ==> #[trigger] s[d[k] as int] == TxState::Closed))
                &&& r is Ok ==> final(table).states()[x] == target_state(close) && rest
                    == Seq::<usize>::empty()
                &&& r == Err::<(), TxError>(TxError::PoisonedError) && s[x] == TxState::Open ==> {
                    &&& final(table).states()[x] == TxState::Poisoned
                    &&& count_deps(s, rest, TxState::Poisoned) + 1 == count_deps(
                        s,
                        d,
                        TxState::Poisoned,
                    )
                    &&& count_deps(s, rest, TxState::Open) == count_deps(s, d, TxState::Open)
                    &&& count_deps(s, rest, TxState::Aborted) == count_deps(s, d, TxState::Aborted)
                    &&& count_deps(s, rest, TxState::Closed) <= count_deps(s, d, TxState::Closed)
                }
                &&& (r == Err::<(), TxError>(TxError::OpenDependency) || r == Err::<(), TxError>(
                    TxError::AbortedDependency,
                )) ==> {
                    &&& final(table).states()[x] == TxState::Open
                    &&& count_deps(s, rest, TxState::Closed) == 0
                    &&& count_deps(s, rest, TxState::Open) == count_deps(s, d, TxState::Open)
                    &&& count_deps(s, rest, TxState::Aborted) == count_deps(s, d, TxState::Aborted)
                    &&& count_deps(s, rest, TxState::Poisoned) == count_deps(
                        s,
                        d,
                        TxState::Poisoned,
                    )
                }
            }),
    {
        let x = self.id;
        let ghost s = table.states();
        let ghost g = table.graph();
        proof {
            lemma_close_outcome(s, g, x as int, close);
        }
        match table.states[x] {
            TxState::Closed | TxState::Aborted => {
                return Err(TxError::AlreadyClosed);
            },
            TxState::Poisoned => {
                return Err(TxError::PoisonedError);
            },
            TxState::Open => {},
        }
        let mut state = if close {
            TxState::Closed
        } else {
            TxState::Aborted
        };
        let mut deps: Vec<usize> = Vec::new();
        std::mem::swap(&mut deps, &mut table.deps[x]);
        let ghost parked = table.deps@;
        assert(deps@ == g[x as int]);
        assert forall|k: int| 0 <= k < deps@.len() implies #[trigger] deps@[k] < s.len() by {
            assert(g[x as int][k] < g.len());
        }
        let mut index: usize = 0;
        while index < deps.len()
            invariant
                s == old(table).states(),
                g == old(table).graph(),
                x == self@,
                old(table).wf(),
                table.states@ == s,
                table.deps@ == parked,
                parked.len() == g.len(),
                forall|i: int| 0 <= i < g.len() && i != x ==> #[trigger] parked[i]@ == g[i],
                s.len() == g.len(),
                x < s.len(),
                s[x as int] == TxState::Open,
                index <= deps@.len(),
                state != TxState::Poisoned,
                close_scan(s, g[x as int], 0, target_state(close), close) == close_scan(
                    s,
                    deps@,
                    index as int,
                    state,
                    close,
                ),
                forall|k: int| 0 <= k < deps@.len() ==> #[trigger] deps@[k] < s.len(),
            decreases deps@.len() - index,
        {
            let dep = deps[index];
            match table.states[dep] {
                TxState::Aborted => {
                    if close {
                        state = TxState::Aborted;
                    }
                },
                TxState::Poisoned => {
                    let ghost before = deps@;
                    let _ = deps.swap_remove(index);
                    assert(close_scan(s, before, index as int, state, close) == (deps@, state, true));
                    table.states.set(x, TxState::Poisoned);
                    table.deps.set(x, deps);
                    assert(table.graph() =~= g.update(x as int, deps@));
                    proof {
                        lemma_close_outcome(s, g, x as int, close);
                    }
                    return Err(TxError::PoisonedError);
                },
                TxState::Closed => {
                    let _ = deps.swap_remove(index);
                    assert forall|k: int| 0 <= k < deps@.len() implies #[trigger] deps@[k] < s.len() by {
                    }
                    continue;
                },
                TxState::Open => {
                    if !close {
                        state = TxState::Open;
                    } else if let TxState::Closed = state {
                        state = TxState::Open;
                    }
                },
            }
            index += 1;
        }
        match state {
            TxState::Open => {
                table.deps.set(x, deps);
                assert(table.graph() =~= g.update(x as int, deps@));
                Err(TxError::OpenDependency)
            },
            TxState::Aborted => {
                if close {
                    table.deps.set(x, deps);
                    assert(table.graph() =~= g.update(x as int, deps@));
                    Err(TxError::AbortedDependency)
                } else {
                    table.states.set(x, TxState::Aborted);
                    assert(table.graph() =~= g.update(x as int, Seq::<usize>::empty()));
                    Ok(())
                }
            },
            _ => {
                table.states.set(x, TxState::Closed);
                assert(table.graph() =~= g.update(x as int, Seq::<usize>::empty()));
                Ok(())
            },
        }
    }
}

} // verus!
