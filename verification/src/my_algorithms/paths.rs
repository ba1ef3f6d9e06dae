//! Mathematical model of weighted graphs and shortest-path distances.
//!
//! Two levels are modelled: a dense matrix of weights indexed by integers
//! (`m[i][j] > 0` means an edge of that weight, `0` means no edge), and a
//! name-keyed adjacency map.  Distances are defined from first principles as
//! minimal path weights.

use vstd::prelude::*;

verus! {

// ---------------------------------------------------------------------------
// Matrix-level model
// ---------------------------------------------------------------------------

/// A dense weight matrix: square, one row per node.
pub open spec fn matrix_wf(m: Seq<Seq<u32>>) -> bool {
    forall|i: int| 0 <= i < m.len() ==> (#[trigger] m[i]).len() == m.len()
}

/// There is an edge from `i` to `j` (weight `0` encodes absence).
pub open spec fn m_edge(m: Seq<Seq<u32>>, i: int, j: int) -> bool {
    0 <= i < m.len() && 0 <= j < m.len() && m[i][j] > 0
}

/// A walk through the matrix graph: at least one node, every hop an edge.
pub open spec fn m_is_path(m: Seq<Seq<u32>>, p: Seq<int>) -> bool {
    &&& p.len() >= 1
    &&& 0 <= p[0] < m.len()
    &&& forall|k: int| #![trigger p[k]] 0 <= k < p.len() - 1 ==> m_edge(m, p[k], p[k + 1])
}

/// Total weight of a walk.
pub open spec fn m_path_weight(m: Seq<Seq<u32>>, p: Seq<int>) -> int
    decreases p.len(),
{
    if p.len() <= 1 {
        0
    } else {
        m[p[0]][p[1]] + m_path_weight(m, p.skip(1))
    }
}

/// `p` is a walk from `a` to `b`.
pub open spec fn m_connects(m: Seq<Seq<u32>>, p: Seq<int>, a: int, b: int) -> bool {
    m_is_path(m, p) && p.first() == a && p.last() == b
}

/// Some walk from `a` to `b` has weight at most `d`.
pub open spec fn m_reachable_within(m: Seq<Seq<u32>>, a: int, b: int, d: int) -> bool {
    exists|p: Seq<int>| m_connects(m, p, a, b) && m_path_weight(m, p) <= d
}

/// Some walk from `a` to `b` exists.
pub open spec fn m_reachable(m: Seq<Seq<u32>>, a: int, b: int) -> bool {
    exists|p: Seq<int>| m_connects(m, p, a, b)
}

/// `d` is the exact shortest-path distance from `a` to `b`.
pub open spec fn m_distance_is(m: Seq<Seq<u32>>, a: int, b: int, d: int) -> bool {
    m_reachable_within(m, a, b, d) && !m_reachable_within(m, a, b, d - 1)
}

/// Largest entry of a row.
pub open spec fn row_max(r: Seq<u32>) -> int
    decreases r.len(),
{
    if r.len() == 0 {
        0
    } else if r.last() as int >= row_max(r.drop_last()) {
        r.last() as int
    } else {
        row_max(r.drop_last())
    }
}

/// Largest entry of the whole matrix.
pub open spec fn matrix_max(m: Seq<Seq<u32>>) -> int
    decreases m.len(),
{
    if m.len() == 0 {
        0
    } else if row_max(m.last()) >= matrix_max(m.drop_last()) {
        row_max(m.last())
    } else {
        matrix_max(m.drop_last())
    }
}


pub proof fn lemma_row_max_nonneg(r: Seq<u32>)
    ensures
        row_max(r) >= 0,
    decreases r.len(),
{
    if r.len() > 0 {
        lemma_row_max_nonneg(r.drop_last());
    }
}

pub proof fn lemma_matrix_max_nonneg(m: Seq<Seq<u32>>)
    ensures
        matrix_max(m) >= 0,
    decreases m.len(),
{
    if m.len() > 0 {
        lemma_row_max_nonneg(m.last());
        lemma_matrix_max_nonneg(m.drop_last());
    }
}

pub proof fn lemma_row_max(r: Seq<u32>, j: int)
    requires
        0 <= j < r.len(),
    ensures
        r[j] <= row_max(r),
        row_max(r) >= 0,
    decreases r.len(),
{
    if j < r.len() - 1 {
        lemma_row_max(r.drop_last(), j);
    } else if r.len() > 1 {
        lemma_row_max(r.drop_last(), 0);
    }
}

pub proof fn lemma_matrix_max(m: Seq<Seq<u32>>, i: int, j: int)
    requires
        0 <= i < m.len(),
        0 <= j < m[i].len(),
    ensures
        m[i][j] <= matrix_max(m),
        matrix_max(m) >= 0,
    decreases m.len(),
{
    lemma_row_max(m[i], j);
    if i < m.len() - 1 {
        lemma_matrix_max(m.drop_last(), i, j);
    }
}

/// Every walk has non-negative weight.
pub proof fn lemma_m_path_weight_nonneg(m: Seq<Seq<u32>>, p: Seq<int>)
    ensures
        m_path_weight(m, p) >= 0,
    decreases p.len(),
{
    if p.len() > 1 {
        lemma_m_path_weight_nonneg(m, p.skip(1));
    }
}

/// Appending a node to a walk adds the weight of the final hop.
pub proof fn lemma_m_path_weight_push(m: Seq<Seq<u32>>, p: Seq<int>, v: int)
    requires
        p.len() >= 1,
    ensures
        m_path_weight(m, p.push(v)) == m_path_weight(m, p) + m[p.last()][v],
    decreases p.len(),
{
    if p.len() == 1 {
        assert(p.push(v).skip(1) =~= seq![v]);
        assert(m_path_weight(m, seq![v]) == 0);
    } else {
        lemma_m_path_weight_push(m, p.skip(1), v);
        assert(p.push(v).skip(1) =~= p.skip(1).push(v));
    }
}

/// The pushed walk is again a walk, with the same start.
pub proof fn lemma_m_path_push(m: Seq<Seq<u32>>, p: Seq<int>, v: int)
    requires
        m_is_path(m, p),
        m_edge(m, p.last(), v),
    ensures
        m_is_path(m, p.push(v)),
        p.push(v).first() == p.first(),
        p.push(v).last() == v,
{
    let q = p.push(v);
    assert forall|k: int| #![trigger q[k]] 0 <= k < q.len() - 1 implies m_edge(m, q[k], q[k + 1]) by {
        if k < p.len() - 1 {
            assert(m_edge(m, p[k], p[k + 1]));
        }
    }
}

/// Extending reachability by one edge.
pub proof fn lemma_m_reachable_step(m: Seq<Seq<u32>>, a: int, u: int, v: int, d: int)
    requires
        m_reachable_within(m, a, u, d),
        m_edge(m, u, v),
    ensures
        m_reachable_within(m, a, v, d + m[u][v]),
{
    let p = choose|p: Seq<int>| m_connects(m, p, a, u) && m_path_weight(m, p) <= d;
    lemma_m_path_push(m, p, v);
    lemma_m_path_weight_push(m, p, v);
    assert(m_connects(m, p.push(v), a, v));
}

/// The one-node walk shows distance zero from a node to itself.
pub proof fn lemma_m_distance_self(m: Seq<Seq<u32>>, a: int)
    requires
        0 <= a < m.len(),
    ensures
        m_distance_is(m, a, a, 0),
{
    let p = seq![a];
    assert(m_connects(m, p, a, a));
    assert(m_path_weight(m, p) == 0);
    assert forall|q: Seq<int>| m_connects(m, q, a, a) implies m_path_weight(m, q) > -1 by {
        lemma_m_path_weight_nonneg(m, q);
    }
}

/// Splitting a walk at position `k`: the prefix up to `k` is a walk, and the
/// rest weighs at least the weight of the hop leaving `k`.
pub proof fn lemma_m_path_split(m: Seq<Seq<u32>>, p: Seq<int>, k: int)
    requires
        m_is_path(m, p),
        0 <= k < p.len() - 1,
    ensures
        m_is_path(m, p.take(k + 1)),
        p.take(k + 1).first() == p.first(),
        p.take(k + 1).last() == p[k],
        m_path_weight(m, p) >= m_path_weight(m, p.take(k + 1)) + m[p[k]][p[k + 1]],
    decreases k,
{
    if k == 0 {
        assert(p.take(1) =~= seq![p[0]]);
        lemma_m_path_weight_nonneg(m, p.skip(1));
        assert(m_path_weight(m, p) == m[p[0]][p[1]] + m_path_weight(m, p.skip(1)));
        assert(m_path_weight(m, p.take(1)) == 0);
    } else {
        let q = p.skip(1);
        assert(m_is_path(m, q)) by {
            assert(m_edge(m, p[0], p[1]));
            assert(forall|k2: int| #![trigger q[k2]]
                0 <= k2 < q.len() - 1 ==> m_edge(m, q[k2], q[k2 + 1]));
        }
        lemma_m_path_split(m, q, k - 1);
        assert(q.take(k) =~= p.take(k + 1).skip(1));
        assert(m_path_weight(m, p.take(k + 1)) == m[p[0]][p[1]] + m_path_weight(m, q.take(k)))
            by {
            assert(p.take(k + 1)[0] == p[0] && p.take(k + 1)[1] == p[1]);
        }
    }
}

/// A walk that starts inside the set `vis` and ends outside it crosses the
/// boundary somewhere: there is a hop from a member to a non-member.
pub proof fn lemma_m_first_exit(m: Seq<Seq<u32>>, p: Seq<int>, vis: Seq<bool>)
    requires
        m_is_path(m, p),
        vis.len() == m.len(),
        vis[p.first()],
        0 <= p.last() < m.len(),
        !vis[p.last()],
    ensures
        exists|k: int|
            0 <= k < p.len() - 1 && #[trigger] vis[p[k]] && !vis[p[k + 1]] && m_edge(
                m,
                p[k],
                p[k + 1],
            ),
    decreases p.len(),
{
    if p.len() > 1 {
        if !vis[p[1]] {
            assert(m_edge(m, p[0], p[1]));
            let k0: int = 0;
            assert(0 <= k0 < p.len() - 1 && vis[p[k0]] && !vis[p[k0 + 1]] && m_edge(m, p[k0], p[k0 + 1]));
        } else {
            let q = p.skip(1);
            assert(m_is_path(m, q)) by {
                assert(m_edge(m, p[0], p[1]));
                assert(forall|k2: int| #![trigger q[k2]]
                    0 <= k2 < q.len() - 1 ==> m_edge(m, q[k2], q[k2 + 1]));
            }
            assert(q.first() == p[1] && q.last() == p.last());
            lemma_m_first_exit(m, q, vis);
            let k = choose|k: int|
                0 <= k < q.len() - 1 && #[trigger] vis[q[k]] && !vis[q[k + 1]] && m_edge(
                    m,
                    q[k],
                    q[k + 1],
                );
            assert(q[k] == p[k + 1] && q[k + 1] == p[k + 2]);
            let k1: int = k + 1;
            assert(0 <= k1 < p.len() - 1 && vis[p[k1]] && !vis[p[k1 + 1]] && m_edge(m, p[k1], p[k1 + 1]));
        }
    }
}

// ---------------------------------------------------------------------------
// Name-level model
// ---------------------------------------------------------------------------

/// A graph as a mathematical value: node names mapped to their weighted
/// adjacency maps.
pub type GraphView = Map<Seq<char>, Map<Seq<char>, u32>>;

/// The adjacency map of `u` has an entry for `v` (whatever its weight).
pub open spec fn g_has_entry(g: GraphView, u: Seq<char>, v: Seq<char>) -> bool {
    g.dom().contains(u) && g[u].dom().contains(v)
}

/// The recorded weight between `u` and `v`, `0` when there is no entry.
pub open spec fn g_weight(g: GraphView, u: Seq<char>, v: Seq<char>) -> u32 {
    if g_has_entry(g, u, v) {
        g[u][v]
    } else {
        0
    }
}

/// A usable edge: an entry of positive weight (weight `0` counts as
/// absence, as in the dense matrix shape).
pub open spec fn g_edge(g: GraphView, u: Seq<char>, v: Seq<char>) -> bool {
    g_has_entry(g, u, v) && g[u][v] > 0
}

/// The graph store's invariant: adjacency is symmetric with equal weights,
/// and every mentioned neighbour is itself a node.
pub open spec fn graph_wf(g: GraphView) -> bool {
    forall|u: Seq<char>, v: Seq<char>|
        #[trigger] g_has_entry(g, u, v) ==> g.dom().contains(v) && g_has_entry(g, v, u) && g[v][u]
            == g[u][v]
}

/// A walk through the named graph.
pub open spec fn n_is_path(g: GraphView, p: Seq<Seq<char>>) -> bool {
    &&& p.len() >= 1
    &&& g.dom().contains(p[0])
    &&& forall|k: int| #![trigger p[k]] 0 <= k < p.len() - 1 ==> g_edge(g, p[k], p[k + 1])
}

/// Total weight of a walk through the named graph.
pub open spec fn n_path_weight(g: GraphView, p: Seq<Seq<char>>) -> int
    decreases p.len(),
{
    if p.len() <= 1 {
        0
    } else {
        g_weight(g, p[0], p[1]) + n_path_weight(g, p.skip(1))
    }
}

pub open spec fn n_connects(g: GraphView, p: Seq<Seq<char>>, a: Seq<char>, b: Seq<char>) -> bool {
    n_is_path(g, p) && p.first() == a && p.last() == b
}

pub open spec fn n_reachable_within(g: GraphView, a: Seq<char>, b: Seq<char>, d: int) -> bool {
    exists|p: Seq<Seq<char>>| n_connects(g, p, a, b) && n_path_weight(g, p) <= d
}

pub open spec fn n_reachable(g: GraphView, a: Seq<char>, b: Seq<char>) -> bool {
    exists|p: Seq<Seq<char>>| n_connects(g, p, a, b)
}

/// `d` is the exact shortest-path distance from `a` to `b` in the named graph.
pub open spec fn n_distance_is(g: GraphView, a: Seq<char>, b: Seq<char>, d: int) -> bool {
    n_reachable_within(g, a, b, d) && !n_reachable_within(g, a, b, d - 1)
}

pub proof fn lemma_n_path_weight_nonneg(g: GraphView, p: Seq<Seq<char>>)
    ensures
        n_path_weight(g, p) >= 0,
    decreases p.len(),
{
    if p.len() > 1 {
        lemma_n_path_weight_nonneg(g, p.skip(1));
    }
}

pub proof fn lemma_n_path_weight_push(g: GraphView, p: Seq<Seq<char>>, v: Seq<char>)
    requires
        p.len() >= 1,
    ensures
        n_path_weight(g, p.push(v)) == n_path_weight(g, p) + g_weight(g, p.last(), v),
    decreases p.len(),
{
    if p.len() == 1 {
        assert(p.push(v).skip(1) =~= seq![v]);
        assert(n_path_weight(g, seq![v]) == 0);
        assert(p.push(v)[0] == p[0] && p.push(v)[1] == v);
    } else {
        lemma_n_path_weight_push(g, p.skip(1), v);
        assert(p.push(v).skip(1) =~= p.skip(1).push(v));
    }
}

pub proof fn lemma_n_path_push(g: GraphView, p: Seq<Seq<char>>, v: Seq<char>)
    requires
        n_is_path(g, p),
        g_edge(g, p.last(), v),
    ensures
        n_is_path(g, p.push(v)),
{
    let q = p.push(v);
    assert forall|k: int| #![trigger q[k]] 0 <= k < q.len() - 1 implies g_edge(g, q[k], q[k + 1]) by {
        if k < p.len() - 1 {
            assert(g_edge(g, p[k], p[k + 1]));
        }
    }
}

/// In a well-formed (symmetric) graph the reverse of a walk is a walk of
/// the same weight, which makes shortest distances symmetric.
pub proof fn lemma_n_path_reverse(g: GraphView, p: Seq<Seq<char>>)
    requires
        graph_wf(g),
        n_is_path(g, p),
    ensures
        n_is_path(g, p.reverse()),
        p.reverse().first() == p.last(),
        p.reverse().last() == p.first(),
        n_path_weight(g, p.reverse()) == n_path_weight(g, p),
    decreases p.len(),
{
    if p.len() == 1 {
        assert(p.reverse() =~= p);
    } else {
        let q = p.skip(1);
        assert(n_is_path(g, q)) by {
            assert(g_edge(g, p[0], p[1]));
            assert(forall|k2: int| #![trigger q[k2]]
                0 <= k2 < q.len() - 1 ==> g_edge(g, q[k2], q[k2 + 1]));
        }
        lemma_n_path_reverse(g, q);
        assert(p.reverse() =~= q.reverse().push(p[0]));
        assert(g_edge(g, p[0], p[1]));
        assert(g_edge(g, p[1], p[0]) && g[p[1]][p[0]] == g[p[0]][p[1]]) by {
            assert(g_has_entry(g, p[0], p[1]));
        }
        assert(g_weight(g, q.reverse().last(), p[0]) == g_weight(g, p[0], p[1])) by {
            assert(q.reverse().last() == q.first());
        }
        lemma_n_path_push(g, q.reverse(), p[0]);
        lemma_n_path_weight_push(g, q.reverse(), p[0]);
    }
}

/// Shortest distances are symmetric in a well-formed graph.
pub proof fn lemma_n_reachable_sym(g: GraphView, a: Seq<char>, b: Seq<char>, d: int)
    requires
        graph_wf(g),
        n_reachable_within(g, a, b, d),
    ensures
        n_reachable_within(g, b, a, d),
{
    let p = choose|p: Seq<Seq<char>>| n_connects(g, p, a, b) && n_path_weight(g, p) <= d;
    lemma_n_path_reverse(g, p);
    assert(g.dom().contains(p.reverse()[0])) by {
        if p.len() > 1 {
            assert(g_edge(g, p[p.len() - 2], p[p.len() - 1]));
            assert(g_has_entry(g, p[p.len() - 2], p[p.len() - 1]));
        }
    }
    assert(n_connects(g, p.reverse(), b, a));
}

// ---------------------------------------------------------------------------
// Correspondence between the named graph and its dense matrix
// ---------------------------------------------------------------------------

/// No name occurs twice.
pub open spec fn names_nodup(ns: Seq<Seq<char>>) -> bool {
    forall|i: int, j: int| 0 <= i < j < ns.len() ==> ns[i] != ns[j]
}

/// `mv` is the dense matrix of `g` under the index assignment `ns`.
pub open spec fn matrix_matches(g: GraphView, ns: Seq<Seq<char>>, mv: Seq<Seq<u32>>) -> bool {
    &&& matrix_wf(mv)
    &&& mv.len() == ns.len()
    &&& names_nodup(ns)
    &&& forall|x: Seq<char>| g.dom().contains(x) <==> ns.contains(x)
    &&& forall|i: int, j: int|
        0 <= i < ns.len() && 0 <= j < ns.len() ==> #[trigger] mv[i][j] == g_weight(g, ns[i], ns[j])
}

/// The index a name stands at.
pub open spec fn idx_of(ns: Seq<Seq<char>>, x: Seq<char>) -> int {
    choose|i: int| 0 <= i < ns.len() && ns[i] == x
}

pub proof fn lemma_idx_of(ns: Seq<Seq<char>>, x: Seq<char>)
    requires
        ns.contains(x),
    ensures
        0 <= idx_of(ns, x) < ns.len(),
        ns[idx_of(ns, x)] == x,
{
    let i = choose|i: int| 0 <= i < ns.len() && ns[i] == x;
    assert(ns[i] == x);
}

/// A walk through the named graph maps to a walk of equal weight through
/// the matrix.
proof fn lemma_path_names_to_index(
    g: GraphView,
    ns: Seq<Seq<char>>,
    mv: Seq<Seq<u32>>,
    p: Seq<Seq<char>>,
)
    requires
        graph_wf(g),
        matrix_matches(g, ns, mv),
        n_is_path(g, p),
    ensures
        ({
            let q = p.map_values(|x: Seq<char>| idx_of(ns, x));
            &&& m_is_path(mv, q)
            &&& m_path_weight(mv, q) == n_path_weight(g, p)
            &&& q.len() == p.len()
            &&& q.first() == idx_of(ns, p.first())
            &&& q.last() == idx_of(ns, p.last())
        }),
    decreases p.len(),
{
    let q = p.map_values(|x: Seq<char>| idx_of(ns, x));
    lemma_idx_of(ns, p[0]);
    if p.len() == 1 {
    } else {
        let pt = p.skip(1);
        assert(g_edge(g, p[0], p[1]));
        assert(g.dom().contains(p[1])) by {
            assert(g_has_entry(g, p[0], p[1]));
        }
        assert(n_is_path(g, pt)) by {
            assert(forall|k2: int| #![trigger pt[k2]]
                0 <= k2 < pt.len() - 1 ==> g_edge(g, pt[k2], pt[k2 + 1]));
        }
        lemma_path_names_to_index(g, ns, mv, pt);
        let qt = pt.map_values(|x: Seq<char>| idx_of(ns, x));
        assert(q.skip(1) =~= qt);
        lemma_idx_of(ns, p[1]);
        let i0 = idx_of(ns, p[0]);
        let i1 = idx_of(ns, p[1]);
        assert(mv[i0][i1] == g_weight(g, p[0], p[1]));
        assert(m_edge(mv, i0, i1));
        assert(m_is_path(mv, q)) by {
            assert forall|k: int| #![trigger q[k]] 0 <= k < q.len() - 1 implies m_edge(
                mv,
                q[k],
                q[k + 1],
            ) by {
                if k == 0 {
                } else {
                    assert(m_edge(mv, qt[k - 1], qt[k]));
                }
            }
        }
        assert(m_path_weight(mv, q) == mv[i0][i1] + m_path_weight(mv, q.skip(1)));
    }
}

/// A walk through the matrix maps to a walk of equal weight through the
/// named graph.
proof fn lemma_path_index_to_names(
    g: GraphView,
    ns: Seq<Seq<char>>,
    mv: Seq<Seq<u32>>,
    q: Seq<int>,
)
    requires
        matrix_matches(g, ns, mv),
        m_is_path(mv, q),
    ensures
        ({
            let p = q.map_values(|i: int| ns[i]);
            &&& n_is_path(g, p)
            &&& n_path_weight(g, p) == m_path_weight(mv, q)
            &&& p.len() == q.len()
            &&& p.first() == ns[q.first()]
            &&& p.last() == ns[q.last()]
        }),
    decreases q.len(),
{
    let p = q.map_values(|i: int| ns[i]);
    assert(ns.contains(ns[q[0]]));
    assert(g.dom().contains(ns[q[0]]));
    if q.len() == 1 {
    } else {
        let qt = q.skip(1);
        assert(m_edge(mv, q[0], q[1]));
        assert(m_is_path(mv, qt)) by {
            assert(forall|k2: int| #![trigger qt[k2]]
                0 <= k2 < qt.len() - 1 ==> m_edge(mv, qt[k2], qt[k2 + 1]));
        }
        lemma_path_index_to_names(g, ns, mv, qt);
        let pt = qt.map_values(|i: int| ns[i]);
        assert(p.skip(1) =~= pt);
        assert(mv[q[0]][q[1]] == g_weight(g, ns[q[0]], ns[q[1]]));
        assert(g_edge(g, ns[q[0]], ns[q[1]])) by {
            assert(g_weight(g, ns[q[0]], ns[q[1]]) > 0);
        }
        assert(n_is_path(g, p)) by {
            assert forall|k: int| #![trigger p[k]] 0 <= k < p.len() - 1 implies g_edge(
                g,
                p[k],
                p[k + 1],
            ) by {
                if k == 0 {
                } else {
                    assert(g_edge(g, pt[k - 1], pt[k]));
                }
            }
        }
        assert(n_path_weight(g, p) == g_weight(g, p[0], p[1]) + n_path_weight(g, p.skip(1)));
    }
}

/// Reachability within a budget agrees between the named graph and its
/// dense matrix.
pub proof fn lemma_reachable_iso(
    g: GraphView,
    ns: Seq<Seq<char>>,
    mv: Seq<Seq<u32>>,
    i: int,
    j: int,
    d: int,
)
    requires
        graph_wf(g),
        matrix_matches(g, ns, mv),
        0 <= i < ns.len(),
        0 <= j < ns.len(),
    ensures
        m_reachable_within(mv, i, j, d) <==> n_reachable_within(g, ns[i], ns[j], d),
        m_reachable(mv, i, j) <==> n_reachable(g, ns[i], ns[j]),
{
    if m_reachable_within(mv, i, j, d) {
        let q = choose|q: Seq<int>| m_connects(mv, q, i, j) && m_path_weight(mv, q) <= d;
        lemma_path_index_to_names(g, ns, mv, q);
        let p = q.map_values(|k: int| ns[k]);
        assert(n_connects(g, p, ns[i], ns[j]));
        assert(n_reachable_within(g, ns[i], ns[j], d));
    }
    if n_reachable_within(g, ns[i], ns[j], d) {
        let p = choose|p: Seq<Seq<char>>|
            n_connects(g, p, ns[i], ns[j]) && n_path_weight(g, p) <= d;
        lemma_path_names_to_index(g, ns, mv, p);
        let q = p.map_values(|x: Seq<char>| idx_of(ns, x));
        assert(q.first() == idx_of(ns, ns[i]) && q.last() == idx_of(ns, ns[j]));
        assert(idx_of(ns, ns[i]) == i) by {
            assert(ns.contains(ns[i]));
            lemma_idx_of(ns, ns[i]);
        }
        assert(idx_of(ns, ns[j]) == j) by {
            assert(ns.contains(ns[j]));
            lemma_idx_of(ns, ns[j]);
        }
        assert(m_connects(mv, q, i, j));
        assert(m_reachable_within(mv, i, j, d));
    }
    if m_reachable(mv, i, j) {
        let q = choose|q: Seq<int>| m_connects(mv, q, i, j);
        lemma_path_index_to_names(g, ns, mv, q);
        let p = q.map_values(|k: int| ns[k]);
        assert(n_connects(g, p, ns[i], ns[j]));
    }
    if n_reachable(g, ns[i], ns[j]) {
        let p = choose|p: Seq<Seq<char>>| n_connects(g, p, ns[i], ns[j]);
        lemma_path_names_to_index(g, ns, mv, p);
        let q = p.map_values(|x: Seq<char>| idx_of(ns, x));
        assert(idx_of(ns, ns[i]) == i && idx_of(ns, ns[j]) == j) by {
            assert(ns.contains(ns[i]) && ns.contains(ns[j]));
            lemma_idx_of(ns, ns[i]);
            lemma_idx_of(ns, ns[j]);
        }
        assert(m_connects(mv, q, i, j));
    }
}

/// Exact distances agree between the named graph and its dense matrix.
pub proof fn lemma_distance_iso(
    g: GraphView,
    ns: Seq<Seq<char>>,
    mv: Seq<Seq<u32>>,
    i: int,
    j: int,
    d: int,
)
    requires
        graph_wf(g),
        matrix_matches(g, ns, mv),
        0 <= i < ns.len(),
        0 <= j < ns.len(),
    ensures
        m_distance_is(mv, i, j, d) <==> n_distance_is(g, ns[i], ns[j], d),
{
    lemma_reachable_iso(g, ns, mv, i, j, d);
    lemma_reachable_iso(g, ns, mv, i, j, d - 1);
}

/// A positive maximum is attained by some entry.
pub proof fn lemma_row_max_attained(r: Seq<u32>)
    ensures
        row_max(r) == 0 || exists|j: int| 0 <= j < r.len() && r[j] == row_max(r),
    decreases r.len(),
{
    if r.len() > 0 && row_max(r) != 0 {
        if r.last() as int == row_max(r) {
            assert(r[r.len() - 1] == row_max(r));
        } else {
            lemma_row_max_attained(r.drop_last());
            let j = choose|j: int|
                0 <= j < r.drop_last().len() && r.drop_last()[j] == row_max(r.drop_last());
            assert(r[j] == row_max(r));
        }
    }
}

/// A positive maximum of the matrix is attained by some cell.
pub proof fn lemma_matrix_max_attained(m: Seq<Seq<u32>>)
    ensures
        matrix_max(m) == 0 || exists|i: int, j: int|
            0 <= i < m.len() && 0 <= j < m[i].len() && #[trigger] m[i][j] == matrix_max(m),
    decreases m.len(),
{
    if m.len() > 0 && matrix_max(m) != 0 {
        if row_max(m.last()) == matrix_max(m) {
            lemma_row_max_attained(m.last());
            let j = choose|j: int| 0 <= j < m.last().len() && m.last()[j] == row_max(m.last());
            assert(m[m.len() - 1][j] == matrix_max(m));
        } else {
            lemma_matrix_max_attained(m.drop_last());
            let (i, j): (int, int) = choose|i: int, j: int|
                0 <= i < m.drop_last().len() && 0 <= j < m.drop_last()[i].len()
                    && #[trigger] m.drop_last()[i][j] == matrix_max(m.drop_last());
            assert(m[i][j] == matrix_max(m));
        }
    }
}

/// Extending reachability by one edge, at the name level.
pub proof fn lemma_n_reachable_step(g: GraphView, a: Seq<char>, u: Seq<char>, v: Seq<char>, d: int)
    requires
        n_reachable_within(g, a, u, d),
        g_edge(g, u, v),
    ensures
        n_reachable_within(g, a, v, d + g_weight(g, u, v)),
{
    let p = choose|p: Seq<Seq<char>>| n_connects(g, p, a, u) && n_path_weight(g, p) <= d;
    lemma_n_path_push(g, p, v);
    lemma_n_path_weight_push(g, p, v);
    assert(n_connects(g, p.push(v), a, v));
}

/// A smaller budget reaches less.
pub proof fn lemma_n_within_mono(g: GraphView, a: Seq<char>, b: Seq<char>, d1: int, d2: int)
    requires
        n_reachable_within(g, a, b, d1),
        d1 <= d2,
    ensures
        n_reachable_within(g, a, b, d2),
{
    let p = choose|p: Seq<Seq<char>>| n_connects(g, p, a, b) && n_path_weight(g, p) <= d1;
    assert(n_connects(g, p, a, b) && n_path_weight(g, p) <= d2);
}

/// A pair of nodes has at most one exact distance.
pub proof fn lemma_n_distance_unique(g: GraphView, a: Seq<char>, b: Seq<char>, d1: int, d2: int)
    requires
        n_distance_is(g, a, b, d1),
        n_distance_is(g, a, b, d2),
    ensures
        d1 == d2,
{
    if d1 < d2 {
        lemma_n_within_mono(g, a, b, d1, d2 - 1);
    }
    if d2 < d1 {
        lemma_n_within_mono(g, a, b, d2, d1 - 1);
    }
}

} // verus!
