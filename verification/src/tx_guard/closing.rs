//! What an attempt to close or abort a transaction decides, as a mathematical object.
use vstd::prelude::*;

use crate::{TxError, TxResult, TxState};
use super::graph::{deps_in_range, edge, is_walk, step};

verus! {

/// `d` with position `i` removed by moving the last entry into it.
pub open spec fn swap_remove(d: Seq<usize>, i: int) -> Seq<usize> {
    d.update(i, d.last()).drop_last()
}

/// The number of positions in `lo..hi` of `d` whose transaction is in state `st`.
pub open spec fn count_in(s: Seq<TxState>, d: Seq<usize>, lo: int, hi: int, st: TxState) -> nat
    decreases hi - lo,
{
    if hi <= lo {
        0
    } else {
        count_in(s, d, lo, hi - 1, st) + if s[d[hi - 1] as int] == st {
            1nat
        } else {
            0nat
        }
    }
}

/// The number of dependencies in `d` whose transaction is in state `st`.
pub open spec fn count_deps(s: Seq<TxState>, d: Seq<usize>, st: TxState) -> nat {
    count_in(s, d, 0, d.len() as int, st)
}

/// Some dependency in `d` is in state `st`.
pub open spec fn has_dep(s: Seq<TxState>, d: Seq<usize>, st: TxState) -> bool {
    exists|k: int| 0 <= k < d.len() && #[trigger] s[d[k] as int] == st
}

/// The state decided so far, `acc`, after an aborted dependency was seen: when closing
/// (`close`) it aborts; when aborting it changes nothing.
pub open spec fn after_aborted(acc: TxState, close: bool) -> TxState {
    if close {
        TxState::Aborted
    } else {
        acc
    }
}

/// The state decided so far, `acc`, after an open dependency was seen: it keeps the
/// transaction open, unless closing (`close`) was already decided against by an aborted
/// dependency.
pub open spec fn after_open(acc: TxState, close: bool) -> TxState {
    if close && acc != TxState::Closed {
        acc
    } else {
        TxState::Open
    }
}

/// The state decided so far, `acc`, after the rest of the dependencies were seen.  When
/// closing (`close`), an aborted one aborts, and otherwise an open one keeps the
/// transaction open; when aborting, an open one keeps it open.
pub open spec fn settle(acc: TxState, aborted: bool, open: bool, close: bool) -> TxState {
    if close {
        if aborted {
            TxState::Aborted
        } else if acc == TxState::Closed && open {
            TxState::Open
        } else {
            acc
        }
    } else if open {
        TxState::Open
    } else {
        acc
    }
}

/// The walk over the dependencies `d` of a transaction that closing (`close`) or aborting
/// it makes,
/// from position `i` on, with the state `acc` decided so far; `s` holds the state of every
/// transaction.  Closed dependencies are dropped on the way, and the first poisoned one
/// is dropped and ends the walk.  Gives the dependencies left, the state decided, and
/// whether a poisoned dependency ended the walk.
pub open spec fn close_scan(s: Seq<TxState>, d: Seq<usize>, i: int, acc: TxState, close: bool) -> (
    Seq<usize>,
    TxState,
    bool,
)
    decreases d.len() - i,
{
    if i < 0 || i >= d.len() {
        (d, acc, false)
    } else if s[d[i] as int] == TxState::Aborted {
        close_scan(s, d, i + 1, after_aborted(acc, close), close)
    } else if s[d[i] as int] == TxState::Poisoned {
        (swap_remove(d, i), acc, true)
    } else if s[d[i] as int] == TxState::Closed {
        close_scan(s, swap_remove(d, i), i, acc, close)
    } else {
        close_scan(s, d, i + 1, after_open(acc, close), close)
    }
}

/// Counting over a range only looks at that range.
proof fn lemma_count_ext(s: Seq<TxState>, d1: Seq<usize>, d2: Seq<usize>, lo: int, hi: int, st: TxState)
    requires
        forall|k: int| lo <= k < hi ==> d1[k] == d2[k],
    ensures
        count_in(s, d1, lo, hi, st) == count_in(s, d2, lo, hi, st),
    decreases hi - lo,
{
    if hi > lo {
        lemma_count_ext(s, d1, d2, lo, hi - 1, st);
    }
}

/// Counting over `lo..hi` is counting over `lo..m` and `m..hi`.
proof fn lemma_count_split(s: Seq<TxState>, d: Seq<usize>, lo: int, m: int, hi: int, st: TxState)
    requires
        lo <= m <= hi,
    ensures
        count_in(s, d, lo, hi, st) == count_in(s, d, lo, m, st) + count_in(s, d, m, hi, st),
    decreases hi - m,
{
    if hi > m {
        lemma_count_split(s, d, lo, m, hi - 1, st);
    }
}

/// A count is positive exactly when some position in the range is in that state.
proof fn lemma_count_positive(s: Seq<TxState>, d: Seq<usize>, lo: int, hi: int, st: TxState)
    ensures
        count_in(s, d, lo, hi, st) > 0 <==> exists|k: int| lo <= k < hi && #[trigger] s[d[k] as int]
            == st,
    decreases hi - lo,
{
    if hi > lo {
        lemma_count_positive(s, d, lo, hi - 1, st);
        if count_in(s, d, lo, hi, st) > 0 {
            if s[d[hi - 1] as int] != st {
                let k = choose|k: int| lo <= k < hi - 1 && #[trigger] s[d[k] as int] == st;
                assert(s[d[k] as int] == st);
            } else {
                assert(s[d[hi - 1] as int] == st);
            }
        } else {
            assert forall|k: int| lo <= k < hi implies #[trigger] s[d[k] as int] != st by {
                if k < hi - 1 {
                    assert(s[d[k] as int] != st);
                }
            }
        }
    }
}

/// Removing position `i` by `swap_remove` removes its state from the count of `i..`, and
/// leaves `..i` as it was.
proof fn lemma_count_swap_remove(s: Seq<TxState>, d: Seq<usize>, i: int, st: TxState)
    requires
        0 <= i < d.len(),
    ensures
        count_in(s, swap_remove(d, i), i, d.len() - 1, st) + (if s[d[i] as int] == st {
            1nat
        } else {
            0nat
        }) == count_in(s, d, i, d.len() as int, st),
        count_in(s, swap_remove(d, i), 0, i, st) == count_in(s, d, 0, i, st),
        swap_remove(d, i).len() == d.len() - 1,
{
    let e = swap_remove(d, i);
    let n = d.len() as int;
    lemma_count_ext(s, e, d, 0, i, st);
    if i < n - 1 {
        lemma_count_split(s, e, i, i + 1, n - 1, st);
        lemma_count_ext(s, e, d, i + 1, n - 1, st);
        lemma_count_split(s, d, i, i + 1, n, st);
        lemma_count_split(s, d, i + 1, n - 1, n, st);
        assert(count_in(s, e, i, i, st) == 0);
        assert(count_in(s, d, n - 1, n - 1, st) == 0);
        assert(count_in(s, d, i, i, st) == 0);
        assert(count_in(s, e, i, i + 1, st) == count_in(s, d, n - 1, n, st));
    } else {
        assert(count_in(s, d, i, i, st) == 0);
    }
}

/// Counts over a whole sequence after `swap_remove`.
proof fn lemma_count_deps_swap_remove(s: Seq<TxState>, d: Seq<usize>, i: int, st: TxState)
    requires
        0 <= i < d.len(),
    ensures
        count_deps(s, swap_remove(d, i), st) + (if s[d[i] as int] == st {
            1nat
        } else {
            0nat
        }) == count_deps(s, d, st),
{
    let e = swap_remove(d, i);
    lemma_count_swap_remove(s, d, i, st);
    lemma_count_split(s, e, 0, i, e.len() as int, st);
    lemma_count_split(s, d, 0, i, d.len() as int, st);
}

/// What the walk decides, stated by what the dependencies from `i` on hold.
pub proof fn lemma_close_scan(
    s: Seq<TxState>,
    d: Seq<usize>,
    i: int,
    acc: TxState,
    close: bool,
    n: nat,
)
    requires
        0 <= i <= d.len(),
        acc != TxState::Poisoned,
        forall|k: int| 0 <= k < d.len() ==> #[trigger] d[k] < n,
    ensures
        ({
            let (rest, state, poisoned) = close_scan(s, d, i, acc, close);
            &&& poisoned <==> count_in(s, d, i, d.len() as int, TxState::Poisoned) > 0
            &&& !poisoned ==> state == settle(
                acc,
                count_in(s, d, i, d.len() as int, TxState::Aborted) > 0,
                count_in(s, d, i, d.len() as int, TxState::Open) > 0,
                close,
            )
            &&& !poisoned ==> forall|st: TxState| #[trigger]
                count_deps(s, rest, st) == count_in(s, d, 0, i, st) + if st == TxState::Closed {
                    0nat
                } else {
                    count_in(s, d, i, d.len() as int, st)
                }
            &&& poisoned ==> forall|st: TxState|
                st != TxState::Closed && st != TxState::Poisoned ==> #[trigger] count_deps(
                    s,
                    rest,
                    st,
                ) == count_deps(s, d, st)
            &&& poisoned ==> count_deps(s, rest, TxState::Poisoned) + 1 == count_deps(
                s,
                d,
                TxState::Poisoned,
            )
            &&& poisoned ==> count_deps(s, rest, TxState::Closed) <= count_deps(
                s,
                d,
                TxState::Closed,
            )
            &&& state != TxState::Poisoned
            &&& forall|k: int| 0 <= k < rest.len() ==> #[trigger] rest[k] < n
        }),
    decreases d.len() - i,
{
    let len = d.len() as int;
    if i < len {
        let e = swap_remove(d, i);
        assert forall|st: TxState| #[trigger]
            count_in(s, d, i, len, st) == (if s[d[i] as int] == st {
                1nat
            } else {
                0nat
            }) + count_in(s, d, i + 1, len, st) by {
            lemma_count_split(s, d, i, i + 1, len, st);
            assert(count_in(s, d, i, i, st) == 0);
        }
        assert forall|st: TxState| #[trigger]
            count_in(s, d, 0, i + 1, st) == count_in(s, d, 0, i, st) + (if s[d[i] as int] == st {
                1nat
            } else {
                0nat
            }) by {
            lemma_count_split(s, d, 0, i, i + 1, st);
        }
        assert forall|st: TxState| #[trigger]
            count_deps(s, d, st) == count_in(s, d, 0, i, st) + count_in(s, d, i, len, st) by {
            lemma_count_split(s, d, 0, i, len, st);
        }
        assert forall|k: int| 0 <= k < e.len() implies #[trigger] e[k] < n by {
            if k == i {
                assert(e[k] == d[len - 1]);
            } else {
                assert(e[k] == d[k]);
            }
        }
        if s[d[i] as int] == TxState::Aborted {
            lemma_close_scan(s, d, i + 1, after_aborted(acc, close), close, n);
        } else if s[d[i] as int] == TxState::Poisoned {
            assert forall|st: TxState| #[trigger] count_deps(s, e, st) + (if s[d[i] as int] == st {
                1nat
            } else {
                0nat
            }) == count_deps(s, d, st) by {
                lemma_count_deps_swap_remove(s, d, i, st);
            }
            assert(count_deps(s, e, TxState::Poisoned) + 1 == count_deps(s, d, TxState::Poisoned));
            assert(count_deps(s, e, TxState::Closed) == count_deps(s, d, TxState::Closed));
        } else if s[d[i] as int] == TxState::Closed {
            assert forall|st: TxState| #[trigger] count_in(s, e, i, len - 1, st) + (if s[d[i] as int] == st {
                1nat
            } else {
                0nat
            }) == count_in(s, d, i, len, st) by {
                lemma_count_swap_remove(s, d, i, st);
            }
            assert forall|st: TxState| #[trigger] count_in(s, e, 0, i, st) == count_in(s, d, 0, i, st) by {
                lemma_count_swap_remove(s, d, i, st);
            }
            assert forall|st: TxState| #[trigger] count_deps(s, e, st) + (if s[d[i] as int] == st {
                1nat
            } else {
                0nat
            }) == count_deps(s, d, st) by {
                lemma_count_deps_swap_remove(s, d, i, st);
            }
            lemma_close_scan(s, e, i, acc, close, n);
            assert(count_deps(s, e, TxState::Closed) + 1 == count_deps(s, d, TxState::Closed));
            assert(count_in(s, e, i, len - 1, TxState::Poisoned) == count_in(s, d, i, len, TxState::Poisoned));
            assert(count_in(s, e, i, len - 1, TxState::Aborted) == count_in(s, d, i, len, TxState::Aborted));
            assert(count_in(s, e, i, len - 1, TxState::Open) == count_in(s, d, i, len, TxState::Open));
        } else {
            lemma_close_scan(s, d, i + 1, after_open(acc, close), close, n);
        }
    }
}

/// Counting dependencies in a state says whether one is in that state.
pub proof fn lemma_count_deps_positive(s: Seq<TxState>, d: Seq<usize>, st: TxState)
    ensures
        count_deps(s, d, st) > 0 <==> has_dep(s, d, st),
{
    lemma_count_positive(s, d, 0, d.len() as int, st);
}

/// The state that closing (`close`) or aborting a transaction aims for.
pub open spec fn target_state(close: bool) -> TxState {
    if close {
        TxState::Closed
    } else {
        TxState::Aborted
    }
}

/// What an attempt to close (`close`) or abort transaction `x` yields, given the state `s`
/// and the dependencies `g` of every transaction: the result, the new state of `x`, and
/// the new dependencies of `x`.
pub open spec fn close_outcome(s: Seq<TxState>, g: Seq<Seq<usize>>, x: int, close: bool) -> (
    TxResult<()>,
    TxState,
    Seq<usize>,
) {
    match s[x] {
        TxState::Closed | TxState::Aborted => (Err(TxError::AlreadyClosed), s[x], g[x]),
        TxState::Poisoned => (Err(TxError::PoisonedError), TxState::Poisoned, g[x]),
        TxState::Open => {
            let (rest, state, poisoned) = close_scan(s, g[x], 0, target_state(close), close);
            if poisoned {
                (Err(TxError::PoisonedError), TxState::Poisoned, rest)
            } else if state == TxState::Open {
                (Err(TxError::OpenDependency), TxState::Open, rest)
            } else if state == TxState::Aborted && close {
                (Err(TxError::AbortedDependency), TxState::Open, rest)
            } else {
                (Ok(()), state, Seq::empty())
            }
        },
    }
}

/// What an attempt to close or abort decides, stated by the states of the transaction
/// and of its dependencies.
pub proof fn lemma_close_outcome(s: Seq<TxState>, g: Seq<Seq<usize>>, x: int, close: bool)
    requires
        s.len() == g.len(),
        deps_in_range(g),
        0 <= x < g.len(),
    ensures
        ({
            let (r, state, rest) = close_outcome(s, g, x, close);
            let d = g[x];
            &&& r == Err::<(), TxError>(TxError::AlreadyClosed) <==> (s[x] == TxState::Closed || s[x]
                == TxState::Aborted)
            &&& r == Err::<(), TxError>(TxError::PoisonedError) <==> (s[x] == TxState::Poisoned || (s[x]
                == TxState::Open && has_dep(s, d, TxState::Poisoned)))
            &&& r == Err::<(), TxError>(TxError::AbortedDependency) <==> (s[x] == TxState::Open && close
                && !has_dep(s, d, TxState::Poisoned) && has_dep(s, d, TxState::Aborted))
            &&& r == Err::<(), TxError>(TxError::OpenDependency) <==> (s[x] == TxState::Open
                && !has_dep(s, d, TxState::Poisoned) && (close ==> !has_dep(s, d, TxState::Aborted))
                && has_dep(s, d, TxState::Open))
            &&& r is Ok <==> (s[x] == TxState::Open && !has_dep(s, d, TxState::Poisoned) && !has_dep(
                s,
                d,
                TxState::Open,
            ) && (close ==> forall|k: int|
                0 <= k < d.len() ==> #[trigger] s[d[k] as int] == TxState::Closed))
            &&& r is Ok ==> state == target_state(close) && rest == Seq::<usize>::empty()
            &&& r == Err::<(), TxError>(TxError::PoisonedError) && s[x] == TxState::Open ==> {
                &&& state == TxState::Poisoned
                &&& count_deps(s, rest, TxState::Poisoned) + 1 == count_deps(s, d, TxState::Poisoned)
                &&& count_deps(s, rest, TxState::Open) == count_deps(s, d, TxState::Open)
                &&& count_deps(s, rest, TxState::Aborted) == count_deps(s, d, TxState::Aborted)
                &&& count_deps(s, rest, TxState::Closed) <= count_deps(s, d, TxState::Closed)
            }
            &&& (r == Err::<(), TxError>(TxError::OpenDependency) || r == Err::<(), TxError>(
                TxError::AbortedDependency,
            )) ==> {
                &&& state == TxState::Open
                &&& count_deps(s, rest, TxState::Closed) == 0
                &&& count_deps(s, rest, TxState::Open) == count_deps(s, d, TxState::Open)
                &&& count_deps(s, rest, TxState::Aborted) == count_deps(s, d, TxState::Aborted)
                &&& count_deps(s, rest, TxState::Poisoned) == count_deps(s, d, TxState::Poisoned)
            }
            &&& forall|k: int| 0 <= k < rest.len() ==> #[trigger] rest[k] < g.len()
            &&& s[x] != TxState::Open ==> state == s[x] && rest == d && r is Err
            &&& r is Err && r != Err::<(), TxError>(TxError::PoisonedError) ==> count_deps(
                s,
                rest,
                TxState::Poisoned,
            ) == count_deps(s, d, TxState::Poisoned)
        }),
{
    let d = g[x];
    assert forall|k: int| 0 <= k < d.len() implies #[trigger] d[k] < g.len() by {
        assert(g[x][k] < g.len());
    }
    lemma_close_scan(s, d, 0, target_state(close), close, g.len());
    lemma_count_deps_positive(s, d, TxState::Poisoned);
    lemma_count_deps_positive(s, d, TxState::Aborted);
    lemma_count_deps_positive(s, d, TxState::Open);
    assert(count_in(s, d, 0, 0, TxState::Poisoned) == 0);
    assert(count_in(s, d, 0, 0, TxState::Open) == 0);
    assert(count_in(s, d, 0, 0, TxState::Aborted) == 0);
    assert(count_in(s, d, 0, 0, TxState::Closed) == 0);
    if s[x] == TxState::Open && !has_dep(s, d, TxState::Poisoned) && !has_dep(
        s,
        d,
        TxState::Aborted,
    ) && !has_dep(s, d, TxState::Open) {
        assert forall|k: int| 0 <= k < d.len() implies #[trigger] s[d[k] as int] == TxState::Closed by {
            if s[d[k] as int] == TxState::Open {
                assert(has_dep(s, d, TxState::Open));
            }
            if s[d[k] as int] == TxState::Aborted {
                assert(has_dep(s, d, TxState::Aborted));
            }
            if s[d[k] as int] == TxState::Poisoned {
                assert(has_dep(s, d, TxState::Poisoned));
            }
        }
    }
    if close && (exists|k: int| 0 <= k < d.len() && #[trigger] s[d[k] as int] != TxState::Closed) {
        let k = choose|k: int| 0 <= k < d.len() && #[trigger] s[d[k] as int] != TxState::Closed;
        assert(has_dep(s, d, s[d[k] as int]));
    }
}

/// Open transactions that wait for each other in a cycle deadlock: none of them can be
/// closed (`close`) or aborted.
pub proof fn lemma_open_cycle_blocks_close(
    s: Seq<TxState>,
    g: Seq<Seq<usize>>,
    p: Seq<usize>,
    i: int,
    close: bool,
)
    requires
        s.len() == g.len(),
        deps_in_range(g),
        is_walk(g, p),
        p.len() >= 2,
        p[0] == p.last(),
        forall|k: int| 0 <= k < p.len() ==> #[trigger] s[p[k] as int] == TxState::Open,
        0 <= i < p.len(),
    ensures
        close_outcome(s, g, p[i] as int, close).0 is Err,
{
    let j = if i == p.len() - 1 { 0 } else { i };
    assert(p[j] == p[i]);
    assert(step(g, p, j));
    let x = p[j];
    assert(edge(g, x, p[j + 1]));
    assert(s[p[j + 1] as int] == TxState::Open);
    lemma_close_outcome(s, g, x as int, close);
    let d = g[x as int];
    let k = choose|k: int| 0 <= k < d.len() && d[k] == p[j + 1];
    assert(s[d[k] as int] == TxState::Open);
    assert(has_dep(s, d, TxState::Open));
}

} // verus!
