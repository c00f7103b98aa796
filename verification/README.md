# tx_rs

Transactions: a synchronisation primitive for checkpointing the progress of other
threads of execution and for enforcing an order of operations between them.

All transactions live in a `TxTable`, which holds the state of each and the list of
transactions it waits for.  A `TxBox` names one transaction of a table; a `TxGuard` is the
unique handle that may close, abort or poison it, and a `TxRef` observes it.

Layout of `src/`:

- `lib.rs`: `TxState`, `TxError`, `TxResult`.
- `tx_guard.rs`: `TxGuard` and `TxRef`.
- `tx_guard/tx_box.rs`: `TxTable` and `TxBox`: closing and aborting, poisoning, adding
  dependencies, and the search of the dependency graph.
- `tx_guard/graph.rs`: the dependency graph as a mathematical object: reachability,
  freedom from cycles, and the lemmas that `wait_for` and `sub_tx` keep it acyclic.
- `tx_guard/closing.rs`: what an attempt to close or abort decides, and the lemmas that
  state it by the states of the dependencies.
- `sync/rw_lock.rs`: a spin read-write lock over an atomic lock word, with the decisions on
  the lock word stated and proved.

Every function is verified with Verus except `spin_hint`, a trusted call of
`std::hint::spin_loop`; the atomic operations of the lock use vstd's specifications, which
say nothing of the values.  `tests/` runs the library on concrete values.
