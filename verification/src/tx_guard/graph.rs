//! The dependency graph of a table of transactions, as a mathematical object.
//!
//! Entry `a` of a graph lists the transactions that transaction `a` waits for.
use vstd::prelude::*;

verus! {

/// `a` waits directly for `b`.
pub open spec fn edge(g: Seq<Seq<usize>>, a: usize, b: usize) -> bool {
    a < g.len() && g[a as int].contains(b)
}

/// Position `i` of `p` is followed by a dependency of it.
pub open spec fn step(g: Seq<Seq<usize>>, p: Seq<usize>, i: int) -> bool {
    edge(g, p[i], p[i + 1])
}

/// `p` is a non-empty walk along dependencies.
pub open spec fn is_walk(g: Seq<Seq<usize>>, p: Seq<usize>) -> bool {
    &&& p.len() >= 1
    &&& forall|i: int| 0 <= i < p.len() - 1 ==> #[trigger] step(g, p, i)
}

/// `b` is `a` or one of its dependencies, direct or indirect.
pub open spec fn reaches(g: Seq<Seq<usize>>, a: usize, b: usize) -> bool {
    exists|p: Seq<usize>| #[trigger] is_walk(g, p) && p[0] == a && p.last() == b
}

/// Every dependency names a transaction of the graph.
pub open spec fn deps_in_range(g: Seq<Seq<usize>>) -> bool {
    forall|a: int, k: int| 0 <= a < g.len() && 0 <= k < g[a].len() ==> #[trigger] g[a][k] < g.len()
}

/// No transaction waits, directly or indirectly, for itself.
pub open spec fn acyclic(g: Seq<Seq<usize>>) -> bool {
    forall|a: usize, b: usize| #[trigger] edge(g, a, b) ==> !reaches(g, b, a)
}

/// The graph after `a` has been made to wait for `b`.
pub open spec fn add_edge(g: Seq<Seq<usize>>, a: usize, b: usize) -> Seq<Seq<usize>> {
    g.update(a as int, g[a as int].push(b))
}

/// Every transaction reaches itself.
pub proof fn lemma_reaches_refl(g: Seq<Seq<usize>>, a: usize)
    ensures
        reaches(g, a, a),
{
    let p = seq![a];
    assert(is_walk(g, p));
}

/// Reaching `b`, then one more dependency `c`.
pub proof fn lemma_reaches_step(g: Seq<Seq<usize>>, a: usize, b: usize, c: usize)
    requires
        reaches(g, a, b),
        edge(g, b, c),
    ensures
        reaches(g, a, c),
{
    let p = choose|p: Seq<usize>| #[trigger] is_walk(g, p) && p[0] == a && p.last() == b;
    let q = p.push(c);
    assert forall|i: int| 0 <= i < q.len() - 1 implies #[trigger] step(g, q, i) by {
        if i < p.len() - 1 {
            assert(step(g, p, i));
        }
    }
    assert(is_walk(g, q));
}

/// Reachability is transitive.
pub proof fn lemma_reaches_trans(g: Seq<Seq<usize>>, a: usize, b: usize, c: usize)
    requires
        reaches(g, a, b),
        reaches(g, b, c),
    ensures
        reaches(g, a, c),
{
    let p = choose|p: Seq<usize>| #[trigger] is_walk(g, p) && p[0] == a && p.last() == b;
    let q = choose|q: Seq<usize>| #[trigger] is_walk(g, q) && q[0] == b && q.last() == c;
    let r = p + q.subrange(1, q.len() as int);
    assert forall|i: int| 0 <= i < r.len() - 1 implies #[trigger] step(g, r, i) by {
        if i < p.len() - 1 {
            assert(step(g, p, i));
        } else {
            let j = i - p.len() + 1;
            assert(step(g, q, j));
        }
    }
    assert(is_walk(g, r));
}

/// Every position of a walk that starts in a set closed under dependencies is in it.
proof fn lemma_walk_stays_in_set(g: Seq<Seq<usize>>, s: spec_fn(usize) -> bool, p: Seq<usize>, i: int)
    requires
        is_walk(g, p),
        s(p[0]),
        forall|x: usize, y: usize| s(x) && #[trigger] edge(g, x, y) ==> s(y),
        0 <= i < p.len(),
    ensures
        s(p[i]),
    decreases i,
{
    if i > 0 {
        lemma_walk_stays_in_set(g, s, p, i - 1);
        assert(step(g, p, i - 1));
    }
}

/// A set that holds `a` and every dependency of each of its members holds every
/// transaction that `a` reaches.
pub proof fn lemma_closed_set_holds_reachable(
    g: Seq<Seq<usize>>,
    s: spec_fn(usize) -> bool,
    a: usize,
    b: usize,
)
    requires
        s(a),
        forall|x: usize, y: usize| s(x) && #[trigger] edge(g, x, y) ==> s(y),
        reaches(g, a, b),
    ensures
        s(b),
{
    let p = choose|p: Seq<usize>| #[trigger] is_walk(g, p) && p[0] == a && p.last() == b;
    lemma_walk_stays_in_set(g, s, p, p.len() - 1);
}

/// A dependency of `g` with `a -> b` added is a dependency of `g` or that very one.
proof fn lemma_add_edge_edge(g: Seq<Seq<usize>>, a: usize, b: usize, u: usize, v: usize)
    requires
        a < g.len(),
        edge(add_edge(g, a, b), u, v),
    ensures
        edge(g, u, v) || (u == a && v == b),
{
    let h = add_edge(g, a, b);
    if u != a {
        assert(h[u as int] == g[u as int]);
    } else {
        let k = choose|k: int| 0 <= k < h[u as int].len() && h[u as int][k] == v;
        if k < g[u as int].len() {
            assert(g[u as int][k] == v);
        }
    }
}

/// Each position of a walk in `g` with `a -> b` added is reached in `g`, or reached from
/// `b` after `a` was reached.
proof fn lemma_walk_add_edge(g: Seq<Seq<usize>>, a: usize, b: usize, p: Seq<usize>, i: int)
    requires
        a < g.len(),
        is_walk(add_edge(g, a, b), p),
        0 <= i < p.len(),
    ensures
        reaches(g, p[0], p[i]) || (reaches(g, p[0], a) && reaches(g, b, p[i])),
    decreases i,
{
    let h = add_edge(g, a, b);
    if i == 0 {
        lemma_reaches_refl(g, p[0]);
    } else {
        lemma_walk_add_edge(g, a, b, p, i - 1);
        assert(step(h, p, i - 1));
        let u = p[i - 1];
        let v = p[i];
        lemma_add_edge_edge(g, a, b, u, v);
        if edge(g, u, v) {
            if reaches(g, p[0], u) {
                lemma_reaches_step(g, p[0], u, v);
            } else {
                lemma_reaches_step(g, b, u, v);
            }
        } else {
            lemma_reaches_refl(g, b);
        }
    }
}

/// A walk in the graph with the added dependency `a -> b` either stays in the old graph
/// or passes from `a` to `b`.
pub proof fn lemma_reaches_add_edge(g: Seq<Seq<usize>>, a: usize, b: usize, x: usize, y: usize)
    requires
        a < g.len(),
        reaches(add_edge(g, a, b), x, y),
    ensures
        reaches(g, x, y) || (reaches(g, x, a) && reaches(g, b, y)),
{
    let h = add_edge(g, a, b);
    let p = choose|p: Seq<usize>| #[trigger] is_walk(h, p) && p[0] == x && p.last() == y;
    lemma_walk_add_edge(g, a, b, p, p.len() - 1);
}

/// Adding the dependency `a -> b` keeps the graph free of cycles when `b` does not reach
/// `a`.
pub proof fn lemma_add_edge_acyclic(g: Seq<Seq<usize>>, a: usize, b: usize)
    requires
        a < g.len(),
        acyclic(g),
        !reaches(g, b, a),
    ensures
        acyclic(add_edge(g, a, b)),
{
    let h = add_edge(g, a, b);
    assert forall|u: usize, v: usize| #[trigger] edge(h, u, v) implies !reaches(h, v, u) by {
        if reaches(h, v, u) {
            lemma_reaches_add_edge(g, a, b, v, u);
            lemma_add_edge_edge(g, a, b, u, v);
            if edge(g, u, v) {
                if reaches(g, v, u) {
                } else {
                    // b reaches u, u -> v, v reaches a: so b reaches a
                    lemma_reaches_step(g, b, u, v);
                    lemma_reaches_trans(g, b, v, a);
                }
            }
        }
    }
}

/// Adding a transaction with no dependencies keeps reachability between the others.
proof fn lemma_walk_push_empty(g: Seq<Seq<usize>>, p: Seq<usize>)
    requires
        is_walk(g.push(Seq::<usize>::empty()), p),
    ensures
        is_walk(g, p),
{
    let h = g.push(Seq::<usize>::empty());
    assert forall|i: int| 0 <= i < p.len() - 1 implies #[trigger] step(g, p, i) by {
        assert(step(h, p, i));
        assert(p[i] < g.len()) by {
            if p[i] == g.len() {
                assert(h[p[i] as int].len() == 0);
            }
        }
        assert(h[p[i] as int] == g[p[i] as int]);
    }
}

/// A new transaction with no dependencies, made a dependency of `a`, keeps the graph
/// free of cycles.
pub proof fn lemma_push_dependency_acyclic(g: Seq<Seq<usize>>, a: usize)
    requires
        a < g.len(),
        g.len() <= usize::MAX,
        acyclic(g),
    ensures
        acyclic(add_edge(g.push(Seq::<usize>::empty()), a, g.len() as usize)),
{
    let h = g.push(Seq::<usize>::empty());
    let n = g.len() as usize;
    assert forall|u: usize, v: usize| #[trigger] edge(h, u, v) implies !reaches(h, v, u) by {
        assert(u < g.len()) by {
            if u == n {
                assert(h[u as int].len() == 0);
            }
        }
        assert(h[u as int] == g[u as int]);
        assert(edge(g, u, v));
        if reaches(h, v, u) {
            let p = choose|p: Seq<usize>| #[trigger] is_walk(h, p) && p[0] == v && p.last() == u;
            lemma_walk_push_empty(g, p);
        }
    }
    assert(!reaches(h, n, a)) by {
        if reaches(h, n, a) {
            let p = choose|p: Seq<usize>| #[trigger] is_walk(h, p) && p[0] == n && p.last() == a;
            if p.len() > 1 {
                assert(step(h, p, 0));
                assert(h[n as int].len() == 0);
            }
        }
    }
    lemma_add_edge_acyclic(h, a, n);
}

} // verus!
