//! Topological order by levels.
//!
//! A node is found when the last of the nodes that feed it has been visited;
//! nodes are visited in the order in which they are found.
use vstd::prelude::*;

use crate::dag::block::nested;

verus! {

/// Node `u` feeds node `v` with its `j`-th outgoing connection.
pub open spec fn feeds(out: Seq<Seq<usize>>, u: int, j: int, v: int) -> bool {
    0 <= u < out.len() && 0 <= j < out[u].len() && out[u][j] == v
}

/// Connections lead to nodes of higher rank.
pub open spec fn ranked(out: Seq<Seq<usize>>, rank: spec_fn(int) -> nat) -> bool {
    forall|u: int, j: int|
        0 <= u < out.len() && 0 <= j < out[u].len() ==> rank(u) < rank(#[trigger] out[u][j] as int)
}

/// Connections lead to nodes, and never around.
pub open spec fn acyclic(out: Seq<Seq<usize>>) -> bool {
    &&& forall|u: int, j: int|
        0 <= u < out.len() && 0 <= j < out[u].len() ==> (#[trigger] out[u][j]) < out.len()
    &&& exists|rank: spec_fn(int) -> nat| #[trigger] ranked(out, rank)
}

/// No node feeds `v`.
pub open spec fn is_source(out: Seq<Seq<usize>>, v: int) -> bool {
    forall|u: int, j: int| !#[trigger] feeds(out, u, j, v)
}

/// Number of nodes in the first `l` levels.
pub open spec fn level_start(levels: Seq<Seq<usize>>, l: nat) -> nat
    decreases l,
{
    if l == 0 {
        0
    } else {
        level_start(levels, (l - 1) as nat) + levels[l - 1].len()
    }
}

/// A visit comes no later than another one.
pub open spec fn no_later(a: (int, int), b: (int, int)) -> bool {
    a.0 < b.0 || (a.0 == b.0 && a.1 <= b.1)
}

/// A visit comes before another one.
pub open spec fn earlier(a: (int, int), b: (int, int)) -> bool {
    a.0 < b.0 || (a.0 == b.0 && a.1 < b.1)
}

/// `f` is the last visit, by position in the order and connection, that feeds the node at
/// position `p`.
pub open spec fn last_feed(out: Seq<Seq<usize>>, topo: Seq<usize>, p: int, f: (int, int)) -> bool {
    &&& 0 <= f.0 < topo.len()
    &&& feeds(out, topo[f.0] as int, f.1, topo[p] as int)
    &&& forall|t: int, j: int|
        0 <= t < topo.len() && #[trigger] feeds(out, topo[t] as int, j, topo[p] as int)
            ==> no_later((t, j), f)
}

/// `levels` cut `topo` into the order in which a visit of all nodes finds them.
pub open spec fn level_order(
    out: Seq<Seq<usize>>,
    topo: Seq<usize>,
    levels: Seq<Seq<usize>>,
    found: Seq<(int, int)>,
) -> bool {
    &&& topo.len() == out.len() == found.len()
    &&& level_start(levels, levels.len()) == topo.len()
    &&& forall|l: int, k: int|
        0 <= l < levels.len() && 0 <= k < levels[l].len() ==> #[trigger] levels[l][k]
            == topo[level_start(levels, l as nat) + k]
    &&& forall|l: int| 0 <= l < levels.len() ==> (#[trigger] levels[l]).len() > 0
    // the nodes that nothing feeds come first, in increasing order
    &&& out.len() > 0 ==> levels.len() > 0 && (forall|v: int|
        0 <= v < out.len() ==> (#[trigger] is_source(out, v) <==> levels[0].contains(v as usize)))
        && (forall|a: int, b: int|
        0 <= a < b < levels[0].len() ==> #[trigger] levels[0][a] < #[trigger] levels[0][b])
    // the others follow in the order in which they are found, each a level after its last feed
    &&& forall|l: int, p: int|
        1 <= l < levels.len() && level_start(levels, l as nat) <= p < level_start(
            levels,
            (l + 1) as nat,
        ) ==> #[trigger] in_level(levels, l, p) && last_feed(out, topo, p, found[p]) && level_start(
            levels,
            (l - 1) as nat,
        ) <= found[p].0 < level_start(levels, l as nat)
    &&& forall|p: int, q: int|
        levels.len() > 0 && levels[0].len() <= p < q < topo.len() ==> earlier(
            #[trigger] found[p],
            #[trigger] found[q],
        )
}

/// `levels` cut `topo` into the order in which a visit of all nodes finds them.
pub open spec fn by_levels(out: Seq<Seq<usize>>, topo: Seq<usize>, levels: Seq<Seq<usize>>) -> bool {
    exists|found: Seq<(int, int)>| #[trigger] level_order(out, topo, levels, found)
}

/// Position `p` lies in level `l`.
pub open spec fn in_level(levels: Seq<Seq<usize>>, l: int, p: int) -> bool {
    level_start(levels, l as nat) <= p < level_start(levels, (l + 1) as nat)
}

/// Every node occurs exactly once.
pub open spec fn is_permutation(topo: Seq<usize>, n: nat) -> bool {
    &&& topo.len() == n
    &&& topo.no_duplicates()
    &&& forall|v: int| 0 <= v < n ==> topo.contains(#[trigger] (v as usize))
    &&& forall|p: int| 0 <= p < n ==> (#[trigger] topo[p]) < n
}

/// What the visit of the nodes knows after it has visited all connections of the nodes in `topo`
/// and the first `jj` connections of the node after them. `order` are the nodes found so far,
/// `pend[v]` the connections to `v` not visited yet.
struct Visit {
    order: Seq<usize>,
    pend: Seq<Set<(int, int)>>,
    found: Seq<(int, int)>,
}

/// The connection has been visited: it belongs to one of the first `t` nodes of the order, or is
/// one of the first `jj` of the next node.
spec fn visited(order: Seq<usize>, t: int, jj: int, u: int, j: int) -> bool {
    (exists|s: int| 0 <= s < t && #[trigger] order[s] == u) || (0 <= t < order.len() && order[t] == u
        && j < jj)
}

spec fn visit_ok(out: Seq<Seq<usize>>, st: Visit, n0: nat, t: int, jj: int) -> bool {
    let n = out.len();
    &&& 0 <= t <= st.order.len()
    &&& n0 <= st.order.len()
    &&& st.pend.len() == n
    &&& st.found.len() == st.order.len()
    &&& st.order.no_duplicates()
    &&& forall|p: int| 0 <= p < st.order.len() ==> (#[trigger] st.order[p]) < n
    &&& forall|v: int|
        0 <= v < n ==> (#[trigger] st.pend[v]).finite() && (forall|u: int, j: int|
            st.pend[v].contains((u, j)) <==> #[trigger] feeds(out, u, j, v) && !visited(
                st.order,
                t,
                jj,
                u,
                j,
            ))
    &&& forall|v: int|
        0 <= v < n ==> (st.order.contains(v as usize) <==> (#[trigger] st.pend[v]).len() == 0)
    &&& forall|p: int|
        n0 <= p < st.order.len() ==> {
            let f = #[trigger] st.found[p];
            &&& 0 <= f.0 <= t && f.0 < st.order.len() && (f.0 == t ==> f.1 < jj)
            &&& feeds(out, st.order[f.0] as int, f.1, st.order[p] as int)
            &&& forall|s: int, j: int|
                (0 <= s < t || (s == t && j < jj && t < st.order.len())) && #[trigger] feeds(
                    out,
                    st.order[s] as int,
                    j,
                    st.order[p] as int,
                ) ==> no_later((s, j), f)
        }
    &&& forall|p: int, q: int|
        n0 <= p < q < st.order.len() ==> earlier(#[trigger] st.found[p], #[trigger] st.found[q])
}

/// The state after connection `jj` of the node at position `t` was visited.
spec fn visit_next(out: Seq<Seq<usize>>, st: Visit, t: int, jj: int) -> Visit {
    let u = st.order[t] as int;
    let v = out[u][jj] as int;
    let left = st.pend[v].remove((u, jj));
    if left.len() == 0 {
        Visit {
            order: st.order.push(v as usize),
            pend: st.pend.update(v, left),
            found: st.found.push((t, jj)),
        }
    } else {
        Visit { pend: st.pend.update(v, left), ..st }
    }
}

proof fn lemma_visit_step(out: Seq<Seq<usize>>, st: Visit, n0: nat, t: int, jj: int)
    requires
        acyclic(out),
        out.len() <= usize::MAX,
        visit_ok(out, st, n0, t, jj),
        t < st.order.len(),
        0 <= jj < out[st.order[t] as int].len(),
    ensures
        visit_ok(out, visit_next(out, st, t, jj), n0, t, jj + 1),
        st.pend[out[st.order[t] as int][jj] as int].contains((st.order[t] as int, jj)),
        visit_next(out, st, t, jj).order.len() >= st.order.len(),
        visit_next(out, st, t, jj).order.take(st.order.len() as int) == st.order,
{
    let n = out.len();
    let u = st.order[t] as int;
    assert(st.order[t] < n);
    let v = out[u][jj] as int;
    assert(out[u][jj] < n);
    assert(feeds(out, u, jj, v));
    let nx = visit_next(out, st, t, jj);
    assert(!visited(st.order, t, jj, u, jj)) by {
        if exists|s: int| 0 <= s < t && #[trigger] st.order[s] == u {
            let s = choose|s: int| 0 <= s < t && #[trigger] st.order[s] == u;
            assert(st.order[s] == st.order[t]);
        }
    }
    assert(st.pend[v].contains((u, jj)));
    let left = st.pend[v].remove((u, jj));
    // v had an open connection, so it was not found before
    assert(st.pend[v].len() > 0) by {
        if st.pend[v].len() == 0 {
            assert(st.pend[v] =~= Set::empty());
        }
    }
    assert(!st.order.contains(v as usize));
    assert(nx.order.take(st.order.len() as int) =~= st.order);
    // which connections have been visited
    assert forall|a: int, j: int, w: int| 0 <= w < n && #[trigger] feeds(out, a, j, w) implies visited(
        nx.order,
        t,
        jj + 1,
        a,
        j,
    ) == (visited(st.order, t, jj, a, j) || (a == u && j == jj)) by {
        if exists|s: int| 0 <= s < t && #[trigger] nx.order[s] == a {
            let s = choose|s: int| 0 <= s < t && #[trigger] nx.order[s] == a;
            assert(st.order[s] == a);
        }
        if exists|s: int| 0 <= s < t && #[trigger] st.order[s] == a {
            let s = choose|s: int| 0 <= s < t && #[trigger] st.order[s] == a;
            assert(nx.order[s] == a);
        }
        assert(nx.order[t] == st.order[t]);
    }
    assert forall|w: int| 0 <= w < n implies (#[trigger] nx.pend[w]).finite() && (forall|a: int, j: int|
        nx.pend[w].contains((a, j)) <==> #[trigger] feeds(out, a, j, w) && !visited(
            nx.order,
            t,
            jj + 1,
            a,
            j,
        )) by {
        assert forall|a: int, j: int|
            nx.pend[w].contains((a, j)) <==> #[trigger] feeds(out, a, j, w) && !visited(
                nx.order,
                t,
                jj + 1,
                a,
                j,
            ) by {
            assert(st.pend[w].finite());
            if w != v {
                assert(nx.pend[w] == st.pend[w]);
            }
        }
    }
    assert(nx.order.no_duplicates()) by {
        if left.len() == 0 {
            assert forall|i: int, j: int|
                0 <= i < nx.order.len() && 0 <= j < nx.order.len() && i != j implies nx.order[i]
                != nx.order[j] by {
                if i == st.order.len() {
                    assert(st.order.contains(st.order[j]));
                } else if j == st.order.len() {
                    assert(st.order.contains(st.order[i]));
                }
            }
        }
    }
    assert forall|w: int| 0 <= w < n implies (nx.order.contains(w as usize) <==> (
    #[trigger] nx.pend[w]).len() == 0) by {
        assert(st.order.contains(w as usize) <==> st.pend[w].len() == 0);
        if left.len() == 0 {
            if w == v {
                assert(nx.order[st.order.len() as int] == v);
            } else {
                if nx.order.contains(w as usize) {
                    let i = choose|i: int| 0 <= i < nx.order.len() && nx.order[i] == w as usize;
                    assert(st.order[i] == w as usize);
                }
                if st.order.contains(w as usize) {
                    let i = choose|i: int| 0 <= i < st.order.len() && st.order[i] == w as usize;
                    assert(nx.order[i] == w as usize);
                }
            }
        }
    }
    assert forall|p: int| n0 <= p < nx.order.len() implies ({
        let f = #[trigger] nx.found[p];
        &&& 0 <= f.0 <= t && f.0 < nx.order.len() && (f.0 == t ==> f.1 < jj + 1)
        &&& feeds(out, nx.order[f.0] as int, f.1, nx.order[p] as int)
        &&& forall|s: int, j: int|
            (0 <= s < t || (s == t && j < jj + 1 && t < nx.order.len())) && #[trigger] feeds(
                out,
                nx.order[s] as int,
                j,
                nx.order[p] as int,
            ) ==> no_later((s, j), f)
    }) by {
        let f = nx.found[p];
        if p < st.order.len() {
            assert(f == st.found[p]);
            assert(nx.order[f.0] == st.order[f.0]);
            assert forall|s: int, j: int|
                (0 <= s < t || (s == t && j < jj + 1 && t < nx.order.len())) && #[trigger] feeds(
                    out,
                    nx.order[s] as int,
                    j,
                    nx.order[p] as int,
                ) implies no_later((s, j), f) by {
                assert(nx.order[s] == st.order[s]);
                if s == t && j == jj {
                    assert(st.order.contains(st.order[p]));
                } else {
                    assert(feeds(out, st.order[s] as int, j, st.order[p] as int));
                }
            }
        }
    }
    assert forall|p: int, q: int| n0 <= p < q < nx.order.len() implies earlier(
        #[trigger] nx.found[p],
        #[trigger] nx.found[q],
    ) by {
        if q < st.order.len() {
            assert(earlier(st.found[p], st.found[q]));
        } else {
            assert(nx.found[p] == st.found[p]);
        }
    }
}

/// All connections of the node at position `t` were visited.
proof fn lemma_visit_row(out: Seq<Seq<usize>>, st: Visit, n0: nat, t: int)
    requires
        visit_ok(out, st, n0, t, out[st.order[t] as int].len() as int),
        0 <= t < st.order.len(),
    ensures
        visit_ok(out, st, n0, t + 1, 0),
{
    let u = st.order[t] as int;
    let row = out[u].len() as int;
    assert forall|a: int, j: int, w: int| #[trigger] feeds(out, a, j, w) implies visited(
        st.order,
        t + 1,
        0,
        a,
        j,
    ) == visited(st.order, t, row, a, j) by {
        if visited(st.order, t + 1, 0, a, j) {
            let s = choose|s: int| 0 <= s < t + 1 && #[trigger] st.order[s] == a;
            if s == t {
                assert(j < row);
            } else {
                assert(st.order[s] == a);
            }
        }
        if visited(st.order, t, row, a, j) {
            if exists|s: int| 0 <= s < t && #[trigger] st.order[s] == a {
                let s = choose|s: int| 0 <= s < t && #[trigger] st.order[s] == a;
                assert(st.order[s] == a);
            } else {
                assert(st.order[t] == a);
            }
        }
    }
    assert forall|v: int| 0 <= v < out.len() implies (#[trigger] st.pend[v]).finite() && (forall|
        a: int,
        j: int,
    |
        st.pend[v].contains((a, j)) <==> #[trigger] feeds(out, a, j, v) && !visited(
            st.order,
            t + 1,
            0,
            a,
            j,
        )) by {
        assert forall|a: int, j: int|
            st.pend[v].contains((a, j)) <==> #[trigger] feeds(out, a, j, v) && !visited(
                st.order,
                t + 1,
                0,
                a,
                j,
            ) by {
            assert(st.pend[v].finite());
        }
    }
    assert forall|p: int| n0 <= p < st.order.len() implies ({
        let f = #[trigger] st.found[p];
        &&& 0 <= f.0 <= t + 1 && f.0 < st.order.len() && (f.0 == t + 1 ==> f.1 < 0)
        &&& feeds(out, st.order[f.0] as int, f.1, st.order[p] as int)
        &&& forall|s: int, j: int|
            (0 <= s < t + 1 || (s == t + 1 && j < 0 && t + 1 < st.order.len())) && #[trigger] feeds(
                out,
                st.order[s] as int,
                j,
                st.order[p] as int,
            ) ==> no_later((s, j), f)
    }) by {
        let f = st.found[p];
        assert(0 <= f.0 <= t);
    }
}

/// When all found nodes have been visited, all nodes have been found.
proof fn lemma_visit_complete(out: Seq<Seq<usize>>, st: Visit, n0: nat, rank: spec_fn(int) -> nat, v: int)
    requires
        acyclic(out),
        ranked(out, rank),
        out.len() <= usize::MAX,
        visit_ok(out, st, n0, st.order.len() as int, 0),
        0 <= v < out.len(),
    ensures
        st.order.contains(v as usize),
    decreases rank(v),
{
    if !st.order.contains(v as usize) {
        assert(st.pend[v].len() > 0);
        assert(st.pend[v].finite());
        let c = st.pend[v].choose();
        vstd::set::axiom_set_choose_len(st.pend[v]);
        let (u, j) = c;
        assert(st.pend[v].contains((u, j)));
        let fed = feeds(out, u, j, v);
        assert(st.pend[v].contains((u, j)) <==> fed && !visited(
            st.order,
            st.order.len() as int,
            0,
            u,
            j,
        ));
        assert(rank(c.0) < rank(out[c.0][c.1] as int));
        lemma_visit_complete(out, st, n0, rank, c.0);
        let s = choose|s: int| 0 <= s < st.order.len() && st.order[s] == c.0 as usize;
        assert(st.order[s] == c.0);
    }
}

/// Distinct numbers below `n` that cover all of them are `n` many.
proof fn lemma_cover_len(s: Seq<usize>, n: nat)
    requires
        n <= usize::MAX,
        s.no_duplicates(),
        forall|p: int| 0 <= p < s.len() ==> (#[trigger] s[p]) < n,
        forall|v: int| 0 <= v < n ==> s.contains(#[trigger] (v as usize)),
    ensures
        s.len() == n,
    decreases n,
{
    if n == 0 {
        if s.len() > 0 {
            assert(s[0] < n);
        }
    } else {
        let top = (n - 1) as usize;
        assert(s.contains((n - 1) as usize));
        let i = choose|i: int| 0 <= i < s.len() && s[i] == top;
        let r = s.remove(i);
        assert forall|p: int| 0 <= p < r.len() implies (#[trigger] r[p]) < n - 1 by {
            let q = if p < i {
                p
            } else {
                p + 1
            };
            assert(r[p] == s[q]);
            assert(s[q] < n);
            assert(s[q] != s[i]);
        }
        assert(r.no_duplicates()) by {
            assert forall|a: int, b: int| 0 <= a < r.len() && 0 <= b < r.len() && a != b implies r[a]
                != r[b] by {
                let qa = if a < i {
                    a
                } else {
                    a + 1
                };
                let qb = if b < i {
                    b
                } else {
                    b + 1
                };
                assert(r[a] == s[qa] && r[b] == s[qb]);
            }
        }
        assert forall|v: int| 0 <= v < n - 1 implies r.contains(#[trigger] (v as usize)) by {
            assert(s.contains(v as usize));
            let q = choose|q: int| 0 <= q < s.len() && s[q] == v as usize;
            if q < i {
                assert(r[q] == v as usize);
            } else {
                assert(r[q - 1] == v as usize);
            }
        }
        lemma_cover_len(r, (n - 1) as nat);
    }
}

/// `c` holds the connections to `v` before connection `jj` of node `uu`.
spec fn holds_before(out: Seq<Seq<usize>>, c: Set<(int, int)>, v: int, uu: int, jj: int) -> bool {
    &&& c.finite()
    &&& forall|u: int, j: int|
        c.contains((u, j)) <==> #[trigger] feeds(out, u, j, v) && (u < uu || (u == uu && j < jj))
}

/// The connections before connection `jj` of node `uu` have been counted.
spec fn counted(
    out: Seq<Seq<usize>>,
    pend: Seq<Set<(int, int)>>,
    indeg: Seq<u128>,
    uu: int,
    jj: int,
) -> bool {
    &&& pend.len() == out.len()
    &&& indeg.len() == out.len()
    &&& forall|v: int|
        0 <= v < out.len() ==> holds_before(out, #[trigger] pend[v], v, uu, jj) && pend[v].len()
            == indeg[v]
}

/// Counting one more connection.
proof fn lemma_count_step(
    out: Seq<Seq<usize>>,
    pend: Seq<Set<(int, int)>>,
    indeg: Seq<u128>,
    u: int,
    j: int,
    c: u128,
)
    requires
        acyclic(out),
        counted(out, pend, indeg, u, j),
        0 <= u < out.len(),
        0 <= j < out[u].len(),
        c == indeg[out[u][j] as int] + 1,
    ensures
        counted(
            out,
            pend.update(out[u][j] as int, pend[out[u][j] as int].insert((u, j))),
            indeg.update(out[u][j] as int, c),
            u,
            j + 1,
        ),
{
    let v = out[u][j] as int;
    assert(out[u][j] < out.len());
    let np = pend.update(v, pend[v].insert((u, j)));
    let ni = indeg.update(v, c);
    assert(holds_before(out, pend[v], v, u, j));
    assert(!pend[v].contains((u, j))) by {
        let fed = feeds(out, u, j, v);
        assert(pend[v].contains((u, j)) <==> fed && (u < u || (u == u && j < j)));
    }
    assert forall|w: int| 0 <= w < out.len() implies holds_before(
        out,
        #[trigger] np[w],
        w,
        u,
        j + 1,
    ) && np[w].len() == ni[w] by {
        assert(holds_before(out, pend[w], w, u, j));
        assert forall|a: int, b: int|
            np[w].contains((a, b)) <==> #[trigger] feeds(out, a, b, w) && (a < u || (a == u && b < j
                + 1)) by {
            let fed = feeds(out, a, b, w);
            assert(pend[w].contains((a, b)) <==> fed && (a < u || (a == u && b < j)));
        }
    }
}

/// Counting goes on with the next node.
proof fn lemma_count_row(
    out: Seq<Seq<usize>>,
    pend: Seq<Set<(int, int)>>,
    indeg: Seq<u128>,
    u: int,
)
    requires
        0 <= u < out.len(),
        counted(out, pend, indeg, u, out[u].len() as int),
    ensures
        counted(out, pend, indeg, u + 1, 0),
{
    assert forall|w: int| 0 <= w < out.len() implies holds_before(
        out,
        #[trigger] pend[w],
        w,
        u + 1,
        0,
    ) && pend[w].len() == indeg[w] by {
        assert(holds_before(out, pend[w], w, u, out[u].len() as int));
        assert forall|a: int, b: int|
            pend[w].contains((a, b)) <==> #[trigger] feeds(out, a, b, w) && (a < u + 1 || (a == u + 1
                && b < 0)) by {
            let fed = feeds(out, a, b, w);
            assert(pend[w].contains((a, b)) <==> fed && (a < u || (a == u && b < out[u].len())));
        }
    }
}

/// Counts the connections that lead to every node.
fn count_feeds(out: &Vec<Vec<usize>>) -> (r: (Vec<u128>, Ghost<Seq<Set<(int, int)>>>))
    requires
        acyclic(nested(out@)),
    ensures
        counted(nested(out@), r.1@, r.0@, out.len() as int, 0),
{
    let n: usize = out.len();
    let ghost o = nested(out@);
    let mut indeg: Vec<u128> = Vec::new();
    let mut k: usize = 0;
    while k < n
        invariant
            k <= n,
            indeg.len() == k,
            forall|v: int| 0 <= v < k ==> #[trigger] indeg[v] == 0,
        decreases n - k,
    {
        indeg.push(0);
        k = k + 1;
    }
    let ghost mut pend: Seq<Set<(int, int)>> = Seq::new(n as nat, |v: int| Set::empty());
    let mut u: usize = 0;
    while u < n
        invariant
            u <= n == out.len(),
            o == nested(out@),
            acyclic(o),
            counted(o, pend, indeg@, u as int, 0),
            forall|v: int| 0 <= v < n ==> #[trigger] indeg[v] <= u * usize::MAX,
        decreases n - u,
    {
        let mut j: usize = 0;
        while j < out[u].len()
            invariant
                u < n == out.len(),
                j <= out[u as int].len(),
                o == nested(out@),
                acyclic(o),
                counted(o, pend, indeg@, u as int, j as int),
                forall|v: int| 0 <= v < n ==> #[trigger] indeg[v] <= u * usize::MAX + j,
            decreases out[u as int].len() - j,
        {
            let v: usize = out[u][j];
            assert(o[u as int][j as int] == v);
            assert(o[u as int][j as int] < o.len());
            let ghost before = pend;
            let ghost ib = indeg@;
            assert(indeg[v as int] + 1 <= u128::MAX) by {
                assert(indeg[v as int] <= u * usize::MAX + j);
                assert(u * usize::MAX + j + 1 <= u128::MAX) by (nonlinear_arith)
                    requires
                        u <= usize::MAX,
                        j < usize::MAX,
                ;
            }
            let c: u128 = indeg[v] + 1;
            indeg.set(v, c);
            proof {
                lemma_count_step(o, before, ib, u as int, j as int, c);
                pend = pend.update(v as int, pend[v as int].insert((u as int, j as int)));
                assert(indeg@ =~= ib.update(v as int, c));
            }
            j = j + 1;
        }
        proof {
            assert(o[u as int] == out[u as int]@);
            lemma_count_row(o, pend, indeg@, u as int);
            assert forall|v: int| 0 <= v < n implies #[trigger] indeg[v] <= (u + 1) * usize::MAX by {
                assert(indeg[v] <= u * usize::MAX + j);
                assert(u * usize::MAX + j <= (u + 1) * usize::MAX) by (nonlinear_arith)
                    requires
                        j <= usize::MAX,
                ;
            }
        }
        u = u + 1;
    }
    (indeg, Ghost(pend))
}

/// The levels before the current one cut the visited nodes, and every found node of a later level
/// was found from the level before it.
spec fn levels_ok(order: Seq<usize>, found: Seq<(int, int)>, levels: Seq<Seq<usize>>, base: int) -> bool {
    &&& level_start(levels, levels.len()) == base
    &&& forall|l: int, k: int|
        0 <= l < levels.len() && 0 <= k < levels[l].len() ==> #[trigger] levels[l][k]
            == order[level_start(levels, l as nat) + k]
    &&& forall|l: int| 0 <= l < levels.len() ==> (#[trigger] levels[l]).len() > 0
    &&& forall|l: int, p: int|
        1 <= l < levels.len() && level_start(levels, l as nat) <= p < level_start(
            levels,
            (l + 1) as nat,
        ) ==> #[trigger] in_level(levels, l, p) && level_start(levels, (l - 1) as nat) <= found[p].0
            < level_start(levels, l as nat)
}

proof fn lemma_level_start_prefix(a: Seq<Seq<usize>>, x: Seq<usize>, l: nat)
    requires
        l <= a.len(),
    ensures
        level_start(a.push(x), l) == level_start(a, l),
    decreases l,
{
    if l > 0 {
        lemma_level_start_prefix(a, x, (l - 1) as nat);
    }
}

proof fn lemma_level_start_mono(a: Seq<Seq<usize>>, l: nat, m: nat)
    requires
        l <= m <= a.len(),
    ensures
        level_start(a, l) <= level_start(a, m),
    decreases m,
{
    if l < m {
        lemma_level_start_mono(a, l, (m - 1) as nat);
    }
}

proof fn lemma_push_level(
    order: Seq<usize>,
    found: Seq<(int, int)>,
    levels: Seq<Seq<usize>>,
    base: int,
    cur: Seq<usize>,
    order2: Seq<usize>,
    found2: Seq<(int, int)>,
)
    requires
        levels_ok(order, found, levels, base),
        cur.len() > 0,
        base + cur.len() == order.len() == found.len(),
        order.len() <= order2.len() == found2.len(),
        order2.take(order.len() as int) == order,
        found2.take(found.len() as int) == found,
        forall|k: int| 0 <= k < cur.len() ==> #[trigger] cur[k] == order[base + k],
        levels.len() > 0 ==> forall|p: int|
            base <= p < order.len() ==> level_start(levels, (levels.len() - 1) as nat) <= (
            #[trigger] found[p]).0 < base,
    ensures
        levels_ok(order2, found2, levels.push(cur), base + cur.len()),
{
    let nl = levels.push(cur);
    let m = levels.len();
    lemma_level_start_prefix(levels, cur, m);
    assert forall|l: int, k: int| 0 <= l < nl.len() && 0 <= k < nl[l].len() implies #[trigger] nl[l][k]
        == order2[level_start(nl, l as nat) + k] by {
        lemma_level_start_prefix(levels, cur, l as nat);
        if l < m {
            assert(nl[l] == levels[l]);
            assert(levels[l][k] == order[level_start(levels, l as nat) + k]);
            lemma_level_start_mono(levels, (l + 1) as nat, m);
            assert(order2.take(order.len() as int)[level_start(levels, l as nat) + k]
                == order2[level_start(levels, l as nat) + k]);
        } else {
            assert(cur[k] == order[base + k]);
            assert(order2.take(order.len() as int)[base + k] == order2[base + k]);
        }
    }
    assert forall|l: int| 0 <= l < nl.len() implies (#[trigger] nl[l]).len() > 0 by {
        if l < m {
            assert(nl[l] == levels[l]);
        }
    }
    assert forall|l: int, p: int|
        1 <= l < nl.len() && level_start(nl, l as nat) <= p < level_start(
            nl,
            (l + 1) as nat,
        ) implies #[trigger] in_level(nl, l, p) && level_start(nl, (l - 1) as nat) <= found2[p].0
        < level_start(nl, l as nat) by {
        lemma_level_start_prefix(levels, cur, l as nat);
        lemma_level_start_prefix(levels, cur, (l - 1) as nat);
        if l < m {
            lemma_level_start_prefix(levels, cur, (l + 1) as nat);
            lemma_level_start_mono(levels, (l + 1) as nat, m);
            assert(in_level(levels, l, p));
            assert(found2.take(found.len() as int)[p] == found2[p]);
        } else {
            assert(found2.take(found.len() as int)[p] == found2[p]);
            assert(level_start(levels, (m - 1) as nat) <= found[p].0 < base);
        }
    }
}

/// The nodes in the order in which a visit finds them, and the levels of that order.
#[verifier::rlimit(60)]
pub fn kahn(out: &Vec<Vec<usize>>) -> (r: (Vec<usize>, Vec<Vec<usize>>))
    requires
        acyclic(nested(out@)),
    ensures
        is_permutation(r.0@, out.len() as nat),
        by_levels(nested(out@), r.0@, nested(r.1@)),
{
    let n: usize = out.len();
    let ghost o = nested(out@);
    let (mut indeg, Ghost(pend0)) = count_feeds(out);
    let mut cur: Vec<usize> = Vec::new();
    let mut v: usize = 0;
    while v < n
        invariant
            v <= n == o.len(),
            counted(o, pend0, indeg@, n as int, 0),
            forall|k: int| 0 <= k < cur.len() ==> (#[trigger] cur[k]) < v,
            forall|w: int| 0 <= w < v ==> (cur@.contains(w as usize) <==> #[trigger] indeg[w] == 0),
            forall|a: int, b: int| 0 <= a < b < cur.len() ==> #[trigger] cur[a] < #[trigger] cur[b],
        decreases n - v,
    {
        let ghost before = cur@;
        if indeg[v] == 0 {
            cur.push(v);
            assert(cur@[before.len() as int] == v);
        }
        proof {
            assert forall|w: int| 0 <= w < v + 1 implies (cur@.contains(w as usize)
                <==> #[trigger] indeg[w] == 0) by {
                if w < v {
                    if before.contains(w as usize) {
                        let k = choose|k: int| 0 <= k < before.len() && before[k] == w as usize;
                        assert(cur@[k] == w as usize);
                    }
                    if cur@.contains(w as usize) {
                        let k = choose|k: int| 0 <= k < cur.len() && cur@[k] == w as usize;
                        if k < before.len() {
                            assert(before[k] == w as usize);
                        }
                    }
                } else if cur@.contains(v) && indeg[v as int] != 0 {
                    let k = choose|k: int| 0 <= k < cur.len() && cur@[k] == v;
                    assert(cur[k] < v);
                }
            }
        }
        v = v + 1;
    }
    let ghost n0 = cur.len() as nat;
    let ghost first = cur@;
    let ghost mut st = Visit {
        order: cur@,
        pend: pend0,
        found: Seq::new(n0, |i: int| (-1int, -1int)),
    };
    proof {
        lemma_visit_start(o, st, indeg@, n0);
    }
    let mut topo: Vec<usize> = Vec::new();
    let mut levels: Vec<Vec<usize>> = Vec::new();
    assert(topo@ + cur@ =~= cur@);
    while cur.len() > 0
        invariant
            n == out.len() == o.len(),
            o == nested(out@),
            acyclic(o),
            visit_ok(o, st, n0, topo.len() as int, 0),
            indeg.len() == n,
            forall|w: int| 0 <= w < n ==> (#[trigger] st.pend[w]).len() == indeg[w],
            st.order == topo@ + cur@,
            n0 == first.len(),
            first.len() <= st.order.len(),
            st.order.take(n0 as int) == first,
            forall|v: int|
                0 <= v < o.len() ==> (#[trigger] is_source(o, v) <==> first.contains(v as usize)),
            forall|a: int, b: int|
                0 <= a < b < first.len() ==> #[trigger] first[a] < #[trigger] first[b],
            levels_ok(st.order, st.found, nested(levels@), topo.len() as int),
            levels.len() == 0 ==> topo.len() == 0 && cur@ == first,
            levels.len() > 0 ==> levels[0]@ == first,
            levels.len() > 0 ==> forall|p: int|
                topo.len() <= p < st.order.len() ==> level_start(
                    nested(levels@),
                    (levels.len() - 1) as nat,
                ) <= (#[trigger] st.found[p]).0 < topo.len(),
        decreases n - topo.len(), cur.len(),
    {
        let ghost base = topo.len() as int;
        let ghost st0 = st;
        let ghost topo0 = topo@;
        let mut next: Vec<usize> = Vec::new();
        let mut i: usize = 0;
        assert(st.order =~= topo0 + cur@ + next@);
        assert(topo@ =~= st.order.take(base));
        assert(st.order.take(st0.order.len() as int) =~= st0.order);
        assert(st.found.take(st0.order.len() as int) =~= st0.found);
        while i < cur.len()
            invariant
                i <= cur.len(),
                n == out.len() == o.len(),
                o == nested(out@),
                acyclic(o),
                topo.len() == base + i,
                topo@ == st.order.take(base + i),
                visit_ok(o, st, n0, base + i, 0),
                indeg.len() == n,
                forall|w: int| 0 <= w < n ==> (#[trigger] st.pend[w]).len() == indeg[w],
                topo0.len() == base,
                st.order == topo0 + cur@ + next@,
                st0.order.len() == base + cur.len(),
                st0.found.len() == st0.order.len(),
                st.order.take(st0.order.len() as int) == st0.order,
                st.found.take(st0.order.len() as int) == st0.found,
                forall|p: int|
                    st0.order.len() <= p < st.order.len() ==> base <= (#[trigger] st.found[p]).0
                        < base + cur.len(),
            decreases cur.len() - i,
        {
            let u: usize = cur[i];
            assert(st.order[base + i] == u);
            assert(st.order[base + i] < n);
            topo.push(u);
            let ghost t = base + i;
            let mut j: usize = 0;
            while j < out[u].len()
                invariant
                    i < cur.len(),
                    u < n,
                    j <= out[u as int].len(),
                    n == out.len() == o.len(),
                    o == nested(out@),
                    acyclic(o),
                    t == base + i,
                    t < st.order.len(),
                    st.order[t] == u,
                    topo.len() == t + 1,
                    topo@ == st.order.take(t + 1),
                    visit_ok(o, st, n0, t, j as int),
                    indeg.len() == n,
                    forall|w: int| 0 <= w < n ==> (#[trigger] st.pend[w]).len() == indeg[w],
                    topo0.len() == base,
                    st.order == topo0 + cur@ + next@,
                    st0.order.len() == base + cur.len(),
                    st0.found.len() == st0.order.len(),
                    st.order.take(st0.order.len() as int) == st0.order,
                    st.found.take(st0.order.len() as int) == st0.found,
                    forall|p: int|
                        st0.order.len() <= p < st.order.len() ==> base <= (#[trigger] st.found[p]).0
                            < base + cur.len(),
                decreases out[u as int].len() - j,
            {
                let w: usize = out[u][j];
                let ghost prev = st;
                proof {
                    assert(o[u as int][j as int] == w);
                    assert(o[u as int][j as int] < o.len());
                    lemma_visit_step(o, st, n0, t, j as int);
                    assert(prev.pend[w as int].finite());
                    st = visit_next(o, prev, t, j as int);
                    assert(prev.pend[w as int].len() == indeg[w as int]);
                    assert(prev.pend[w as int].len() > 0) by {
                        if prev.pend[w as int].len() == 0 {
                            assert(prev.pend[w as int] =~= Set::empty());
                        }
                    }
                }
                let c: u128 = indeg[w] - 1;
                indeg.set(w, c);
                if c == 0 {
                    let ghost nb = next@;
                    next.push(w);
                    assert(topo0 + cur@ + next@ =~= (topo0 + cur@ + nb).push(w));
                }
                proof {
                    assert(st.order.take(t + 1) =~= prev.order.take(t + 1));
                    assert(st.order.take(st0.order.len() as int) =~= prev.order.take(
                        st0.order.len() as int,
                    ));
                    assert(st.found.take(st0.order.len() as int) =~= prev.found.take(
                        st0.order.len() as int,
                    ));
                    assert forall|p: int| st0.order.len() <= p < st.order.len() implies base <= (
                    #[trigger] st.found[p]).0 < base + cur.len() by {
                        if p < prev.order.len() {
                            assert(st.found[p] == prev.found[p]);
                        }
                    }
                }
                j = j + 1;
            }
            proof {
                assert(o[u as int] == out[u as int]@);
                lemma_visit_row(o, st, n0, t);
            }
            i = i + 1;
        }
        proof {
            let nl = nested(levels@);
            assert forall|k: int| 0 <= k < cur.len() implies #[trigger] cur@[k] == st0.order[base + k] by {}
            lemma_push_level(
                st0.order,
                st0.found,
                nl,
                base,
                cur@,
                st.order,
                st.found,
            );
            lemma_level_start_prefix(nl, cur@, nl.len());
            assert(topo@ =~= topo0 + cur@);
            assert(st.order.take(n0 as int) =~= first) by {
                assert(st0.order.take(n0 as int) == first);
                assert(st.order.take(n0 as int) =~= st0.order.take(n0 as int)) by {
                    assert forall|k: int| 0 <= k < n0 implies st.order[k] == st0.order[k] by {
                        assert(st.order.take(st0.order.len() as int)[k] == st.order[k]);
                    }
                }
            }
        }
        let ghost lv = levels@;
        let ghost cv = cur@;
        levels.push(cur);
        assert(nested(levels@) =~= nested(lv).push(cv));
        proof {
            lemma_topo_bound(o, st, n0, topo.len() as int);
        }
        cur = next;
    }
    proof {
        assert(st.order =~= topo@);
        assert forall|v: int| 0 <= v < n implies topo@.contains(#[trigger] (v as usize)) by {
            let rank = choose|rank: spec_fn(int) -> nat| #[trigger] ranked(o, rank);
            lemma_visit_complete(o, st, n0, rank, v);
        }
        lemma_cover_len(topo@, n as nat);
        lemma_finish(o, st, n0, nested(levels@), first);
        lemma_by_levels(o, topo@, nested(levels@), st.found);
    }
    (topo, levels)
}

/// No more nodes are found than there are.
proof fn lemma_topo_bound(out: Seq<Seq<usize>>, st: Visit, n0: nat, t: int)
    requires
        visit_ok(out, st, n0, t, 0),
    ensures
        st.order.len() <= out.len(),
{
    lemma_distinct_below(st.order, out.len());
}

/// Distinct numbers below `n` are at most `n` many.
proof fn lemma_distinct_below(s: Seq<usize>, n: nat)
    requires
        s.no_duplicates(),
        forall|p: int| 0 <= p < s.len() ==> (#[trigger] s[p]) < n,
    ensures
        s.len() <= n,
    decreases n,
{
    if n == 0 {
        if s.len() > 0 {
            assert(s[0] < n);
        }
    } else if exists|i: int| 0 <= i < s.len() && s[i] == n - 1 {
        let i = choose|i: int| 0 <= i < s.len() && s[i] == n - 1;
        let r = s.remove(i);
        assert forall|p: int| 0 <= p < r.len() implies (#[trigger] r[p]) < n - 1 by {
            let q = if p < i {
                p
            } else {
                p + 1
            };
            assert(r[p] == s[q]);
            assert(s[q] < n && s[q] != s[i]);
        }
        assert forall|a: int, b: int| 0 <= a < r.len() && 0 <= b < r.len() && a != b implies r[a]
            != r[b] by {
            let qa = if a < i {
                a
            } else {
                a + 1
            };
            let qb = if b < i {
                b
            } else {
                b + 1
            };
            assert(r[a] == s[qa] && r[b] == s[qb]);
        }
        lemma_distinct_below(r, (n - 1) as nat);
    } else {
        assert forall|p: int| 0 <= p < s.len() implies (#[trigger] s[p]) < n - 1 by {
            assert(s[p] < n && s[p] != n - 1);
        }
        lemma_distinct_below(s, (n - 1) as nat);
    }
}

/// Before the visit, exactly the nodes that nothing feeds have been found.
proof fn lemma_visit_start(out: Seq<Seq<usize>>, st: Visit, indeg: Seq<u128>, n0: nat)
    requires
        out.len() <= usize::MAX,
        counted(out, st.pend, indeg, out.len() as int, 0),
        n0 == st.order.len() == st.found.len(),
        forall|k: int| 0 <= k < st.order.len() ==> (#[trigger] st.order[k]) < out.len(),
        forall|w: int|
            0 <= w < out.len() ==> (st.order.contains(w as usize) <==> #[trigger] indeg[w] == 0),
        forall|a: int, b: int|
            0 <= a < b < st.order.len() ==> #[trigger] st.order[a] < #[trigger] st.order[b],
    ensures
        visit_ok(out, st, n0, 0, 0),
        forall|v: int|
            0 <= v < out.len() ==> (#[trigger] is_source(out, v) <==> st.order.contains(v as usize)),
{
    assert forall|v: int| 0 <= v < out.len() implies (#[trigger] is_source(out, v)
        <==> st.order.contains(v as usize)) by {
        let c = st.pend[v];
        assert(holds_before(out, c, v, out.len() as int, 0));
        assert(st.order.contains(v as usize) <==> indeg[v] == 0);
        if is_source(out, v) {
            assert(c =~= Set::empty()) by {
                assert forall|x: (int, int)| !c.contains(x) by {
                    let (a, j) = x;
                    let fed = feeds(out, a, j, v);
                    assert(c.contains((a, j)) <==> fed && (a < out.len() || (a == out.len() && j
                        < 0)));
                }
            }
        }
        if c.len() == 0 {
            assert(c =~= Set::empty());
            assert forall|a: int, j: int| !#[trigger] feeds(out, a, j, v) by {
                let fed = feeds(out, a, j, v);
                assert(c.contains((a, j)) <==> fed && (a < out.len() || (a == out.len() && j < 0)));
            }
        }
    }
    assert forall|v: int| 0 <= v < out.len() implies (#[trigger] st.pend[v]).finite() && (forall|
        a: int,
        j: int,
    |
        st.pend[v].contains((a, j)) <==> #[trigger] feeds(out, a, j, v) && !visited(
            st.order,
            0,
            0,
            a,
            j,
        )) by {
        assert forall|a: int, j: int|
            st.pend[v].contains((a, j)) <==> #[trigger] feeds(out, a, j, v) && !visited(
                st.order,
                0,
                0,
                a,
                j,
            ) by {
            assert(holds_before(out, st.pend[v], v, out.len() as int, 0));
            let fed = feeds(out, a, j, v);
            assert(st.pend[v].contains((a, j)) <==> fed && (a < out.len() || (a == out.len() && j
                < 0)));
        }
        assert(holds_before(out, st.pend[v], v, out.len() as int, 0));
    }
    assert forall|v: int| 0 <= v < out.len() implies (st.order.contains(v as usize) <==> (
    #[trigger] st.pend[v]).len() == 0) by {
        assert(st.order.contains(v as usize) <==> indeg[v] == 0);
        assert(st.pend[v].len() == indeg[v]);
    }
}

/// After the visit the order is by levels.
proof fn lemma_finish(
    out: Seq<Seq<usize>>,
    st: Visit,
    n0: nat,
    levels: Seq<Seq<usize>>,
    first: Seq<usize>,
)
    requires
        acyclic(out),
        visit_ok(out, st, n0, st.order.len() as int, 0),
        st.order.len() == out.len(),
        levels_ok(st.order, st.found, levels, st.order.len() as int),
        n0 == first.len(),
        st.order.take(n0 as int) == first,
        levels.len() > 0 ==> levels[0] == first,
        levels.len() == 0 ==> st.order.len() == 0,
        forall|v: int| 0 <= v < out.len() ==> (#[trigger] is_source(out, v) <==> first.contains(v as usize)),
        forall|a: int, b: int| 0 <= a < b < first.len() ==> #[trigger] first[a] < #[trigger] first[b],
    ensures
        level_order(out, st.order, levels, st.found),
{
    assert forall|l: int, p: int|
        1 <= l < levels.len() && level_start(levels, l as nat) <= p < level_start(
            levels,
            (l + 1) as nat,
        ) implies #[trigger] in_level(levels, l, p) && last_feed(out, st.order, p, st.found[p])
        && level_start(levels, (l - 1) as nat) <= st.found[p].0 < level_start(levels, l as nat) by {
        assert(in_level(levels, l, p));
        lemma_level_start_mono(levels, 1, l as nat);
        lemma_level_start_mono(levels, (l + 1) as nat, levels.len());
        assert(level_start(levels, 1) == level_start(levels, 0) + levels[0].len());
        let f = st.found[p];
        assert forall|t: int, j: int|
            0 <= t < st.order.len() && #[trigger] feeds(
                out,
                st.order[t] as int,
                j,
                st.order[p] as int,
            ) implies no_later((t, j), f) by {}
    }
}

proof fn lemma_by_levels(
    out: Seq<Seq<usize>>,
    topo: Seq<usize>,
    levels: Seq<Seq<usize>>,
    found: Seq<(int, int)>,
)
    requires
        level_order(out, topo, levels, found),
    ensures
        by_levels(out, topo, levels),
{
}

} // verus!
