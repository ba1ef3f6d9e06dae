//! Dijkstra's shortest-path algorithm over weighted, undirected graphs.
//!
//! A graph can be held in three interchangeable shapes: a name-keyed
//! adjacency list, an index-keyed adjacency list, and a dense symmetric
//! weight matrix.  The tree builder runs a greedy relaxation from one source
//! node and returns, for every reachable node, its minimal distance and a
//! predecessor on a shortest path; the path reconstructor walks those
//! predecessors back to the source.

use vstd::prelude::*;
use vstd::pervasive::VecAdditionalExecFns;

use crate::order::{
    count_name, lemma_count_distinct, lemma_count_name_index, lemma_distinct_count, lex_le,
    names_distinct, names_sorted, sort_names,
};

use crate::my_algorithms::paths::{
    g_edge, g_has_entry, g_weight, graph_wf, lemma_distance_iso, lemma_m_distance_self,
    lemma_m_first_exit, lemma_m_path_split, lemma_m_reachable_step,
    lemma_matrix_max, lemma_matrix_max_attained, lemma_matrix_max_nonneg, lemma_reachable_iso,
    m_connects, m_distance_is, m_edge, m_path_weight, m_reachable,
    m_reachable_within, matrix_matches, matrix_max, matrix_wf, n_connects, n_distance_is,
    n_path_weight, n_reachable, n_reachable_within, names_nodup,
    lemma_n_distance_unique, lemma_n_reachable_step, lemma_n_reachable_sym, lemma_n_within_mono,
    GraphView,
};

verus! {

/// Dense weight matrix: cell `[i][j]` holds the edge weight between the
/// `i`-th and `j`-th node, `0` meaning "no edge".
pub type GraphMatrix = Vec<Vec<u32>>;

/// One record of a shortest-path tree keyed by dense node index.
/// An unreached node keeps the sentinel distance `u32::MAX` and itself as
/// its predecessor.
#[derive(Debug, Clone, Copy, PartialEq, Eq, Structural)]
pub struct ShortestPathTreeNode {
    pub node: usize,
    pub distance: u32,
    pub previous: usize,
}

/// The mathematical value of a weight matrix.
pub open spec fn matrix_view(m: &GraphMatrix) -> Seq<Seq<u32>> {
    m@.map_values(|r: Vec<u32>| r@)
}

// ---------------------------------------------------------------------------
// What the tree builder guarantees
// ---------------------------------------------------------------------------

/// A finished shortest-path tree over the matrix `mv`, rooted at `s`:
/// recorded distances are the exact minimal path weights, predecessor
/// pointers step along shortest paths with strictly decreasing distance,
/// and the sentinel `u32::MAX` marks exactly the unreachable nodes.
pub open spec fn spt_tree_ok(mv: Seq<Seq<u32>>, s: int, t: Seq<ShortestPathTreeNode>) -> bool {
    &&& t.len() == mv.len()
    &&& 0 <= s < t.len()
    &&& forall|i: int| 0 <= i < t.len() ==> (#[trigger] t[i]).node == i
    &&& t[s].distance == 0
    &&& t[s].previous as int == s
    &&& forall|i: int|
        0 <= i < t.len() && (#[trigger] t[i]).distance < u32::MAX ==> m_distance_is(
            mv,
            s,
            i,
            t[i].distance as int,
        )
    &&& forall|i: int|
        0 <= i < t.len() && i != s && (#[trigger] t[i]).distance < u32::MAX ==> {
            let pv = t[i].previous as int;
            &&& 0 <= pv < t.len()
            &&& m_edge(mv, pv, i)
            &&& t[pv].distance < u32::MAX
            &&& t[i].distance == t[pv].distance + mv[pv][i]
            &&& t[pv].distance < t[i].distance
        }
    &&& forall|i: int|
        0 <= i < t.len() && (#[trigger] t[i]).distance == u32::MAX ==> !m_reachable(mv, s, i)
            && t[i].previous as int == i
}

// ---------------------------------------------------------------------------
// Intermediate invariants of the greedy relaxation
// ---------------------------------------------------------------------------

/// How many entries of `s` are true.
pub closed spec fn count_trues(s: Seq<bool>) -> int
    decreases s.len(),
{
    if s.len() == 0 {
        0
    } else if s.last() {
        count_trues(s.drop_last()) + 1
    } else {
        count_trues(s.drop_last())
    }
}

proof fn lemma_count_trues_bounds(s: Seq<bool>)
    ensures
        0 <= count_trues(s) <= s.len(),
    decreases s.len(),
{
    if s.len() > 0 {
        lemma_count_trues_bounds(s.drop_last());
    }
}

proof fn lemma_count_trues_below(s: Seq<bool>, i: int)
    requires
        0 <= i < s.len(),
        !s[i],
    ensures
        count_trues(s) <= s.len() - 1,
    decreases s.len(),
{
    if i == s.len() - 1 {
        lemma_count_trues_bounds(s.drop_last());
    } else {
        lemma_count_trues_below(s.drop_last(), i);
    }
}

proof fn lemma_count_trues_set(s: Seq<bool>, i: int)
    requires
        0 <= i < s.len(),
        !s[i],
    ensures
        count_trues(s.update(i, true)) == count_trues(s) + 1,
    decreases s.len(),
{
    let s2 = s.update(i, true);
    if i == s.len() - 1 {
        assert(s2.drop_last() =~= s.drop_last());
        assert(s2.last());
    } else {
        assert(s2.drop_last() =~= s.drop_last().update(i, true));
        lemma_count_trues_set(s.drop_last(), i);
        assert(s2.last() == s.last());
    }
}

/// Shape of the working state: square matrix, aligned vectors, each record
/// keyed by its own index, the source at distance zero.
spec fn inv_shape(mv: Seq<Seq<u32>>, s: int, vis: Seq<bool>, t: Seq<ShortestPathTreeNode>) -> bool {
    &&& matrix_wf(mv)
    &&& 0 <= s < mv.len()
    &&& vis.len() == mv.len()
    &&& t.len() == mv.len()
    &&& forall|i: int| 0 <= i < t.len() ==> (#[trigger] t[i]).node == i
    &&& forall|i: int| 0 <= i < t.len() ==> ((#[trigger] t[i]).previous as int) < t.len()
    &&& t[s].distance == 0
    &&& t[s].previous as int == s
}

/// Every settled (visited) node already carries its exact distance.
spec fn inv_exact(mv: Seq<Seq<u32>>, s: int, vis: Seq<bool>, t: Seq<ShortestPathTreeNode>) -> bool {
    forall|i: int|
        0 <= i < t.len() && #[trigger] vis[i] ==> t[i].distance < u32::MAX && m_distance_is(
            mv,
            s,
            i,
            t[i].distance as int,
        )
}

/// Every recorded finite distance other than the source's is witnessed by a
/// settled predecessor and one edge; unreached nodes point at themselves.
spec fn inv_prev(mv: Seq<Seq<u32>>, s: int, vis: Seq<bool>, t: Seq<ShortestPathTreeNode>) -> bool {
    &&& forall|i: int|
        0 <= i < t.len() && i != s && (#[trigger] t[i]).distance < u32::MAX ==> {
            let pv = t[i].previous as int;
            &&& vis[pv]
            &&& m_edge(mv, pv, i)
            &&& t[pv].distance < u32::MAX
            &&& t[i].distance == t[pv].distance + mv[pv][i]
        }
    &&& forall|i: int|
        0 <= i < t.len() && (#[trigger] t[i]).distance == u32::MAX ==> t[i].previous as int == i
}

/// Every edge out of the settled set has been relaxed.
spec fn inv_relaxed(mv: Seq<Seq<u32>>, vis: Seq<bool>, t: Seq<ShortestPathTreeNode>) -> bool {
    forall|u: int, i: int|
        0 <= u < t.len() && 0 <= i < t.len() && vis[u] && !vis[i] && #[trigger] m_edge(mv, u, i)
            ==> t[i].distance <= t[u].distance + mv[u][i]
}

/// Settled distances never exceed frontier distances.
spec fn inv_mono(vis: Seq<bool>, t: Seq<ShortestPathTreeNode>) -> bool {
    forall|v: int, i: int|
        0 <= v < t.len() && 0 <= i < t.len() && #[trigger] vis[v] && !(#[trigger] vis[i])
            ==> t[v].distance <= t[i].distance
}

/// Finite distances stay below `processed` times the largest weight, which
/// keeps the additions of the relaxation within `u32`.
spec fn inv_bound(
    mv: Seq<Seq<u32>>,
    vis: Seq<bool>,
    t: Seq<ShortestPathTreeNode>,
    processed: int,
) -> bool {
    &&& processed == count_trues(vis)
    &&& forall|i: int|
        0 <= i < t.len() && (#[trigger] t[i]).distance < u32::MAX ==> t[i].distance <= processed
            * matrix_max(mv)
}

spec fn spt_inv(mv: Seq<Seq<u32>>, s: int, vis: Seq<bool>, t: Seq<ShortestPathTreeNode>) -> bool {
    &&& inv_shape(mv, s, vis, t)
    &&& inv_exact(mv, s, vis, t)
    &&& inv_prev(mv, s, vis, t)
    &&& inv_relaxed(mv, vis, t)
    &&& inv_mono(vis, t)
}

/// The heart of the correctness argument: when the not-yet-settled node
/// with the least recorded finite distance is picked, that distance is
/// already the exact shortest-path distance from the source.
proof fn lemma_selected_exact(
    mv: Seq<Seq<u32>>,
    s: int,
    vis: Seq<bool>,
    t: Seq<ShortestPathTreeNode>,
    node: int,
)
    requires
        spt_inv(mv, s, vis, t),
        vis[s] || node == s,
        0 <= node < t.len(),
        !vis[node],
        t[node].distance < u32::MAX,
        forall|i: int| 0 <= i < t.len() && !(#[trigger] vis[i]) ==> t[node].distance <= t[i].distance,
    ensures
        m_distance_is(mv, s, node, t[node].distance as int),
{
    let d = t[node].distance as int;
    if node == s {
        lemma_m_distance_self(mv, s);
        return ;
    }
    // reachable within d, through the recorded predecessor
    let u = t[node].previous as int;
    assert(vis[u] && m_edge(mv, u, node) && d == t[u].distance + mv[u][node]);
    assert(m_distance_is(mv, s, u, t[u].distance as int));
    lemma_m_reachable_step(mv, s, u, node, t[u].distance as int);
    assert(m_reachable_within(mv, s, node, d));
    // not reachable within d - 1
    if m_reachable_within(mv, s, node, d - 1) {
        let p = choose|p: Seq<int>|
            m_connects(mv, p, s, node) && m_path_weight(mv, p) <= d - 1;
        lemma_m_first_exit(mv, p, vis);
        let k = choose|k: int|
            0 <= k < p.len() - 1 && #[trigger] vis[p[k]] && !vis[p[k + 1]] && m_edge(
                mv,
                p[k],
                p[k + 1],
            );
        let a = p[k];
        let b = p[k + 1];
        lemma_m_path_split(mv, p, k);
        // the prefix is a walk to `a`, so it weighs at least t[a].distance
        assert(m_path_weight(mv, p.take(k + 1)) >= t[a].distance) by {
            if m_path_weight(mv, p.take(k + 1)) < t[a].distance {
                assert(m_connects(mv, p.take(k + 1), s, a));
                assert(m_reachable_within(mv, s, a, t[a].distance as int - 1));
                assert(m_distance_is(mv, s, a, t[a].distance as int));
                assert(false);
            }
        }
        // relaxation of the exit edge bounds t[b], minimality bounds t[node]
        assert(t[b].distance <= t[a].distance + mv[a][b]);
        assert(t[node].distance <= t[b].distance);
        assert(m_path_weight(mv, p) >= t[a].distance + mv[a][b]);
        assert(false);
    }
}

/// At termination every node still carrying the sentinel distance is
/// unreachable from the source.
proof fn lemma_unreached(
    mv: Seq<Seq<u32>>,
    s: int,
    vis: Seq<bool>,
    t: Seq<ShortestPathTreeNode>,
    i: int,
)
    requires
        spt_inv(mv, s, vis, t),
        vis[s],
        mv.len() * matrix_max(mv) < u32::MAX as int,
        inv_bound(mv, vis, t, count_trues(vis)),
        forall|j: int| 0 <= j < t.len() && !(#[trigger] vis[j]) ==> t[j].distance == u32::MAX,
        0 <= i < t.len(),
        t[i].distance == u32::MAX,
    ensures
        !m_reachable(mv, s, i),
{
    if m_reachable(mv, s, i) {
        let p = choose|p: Seq<int>| m_connects(mv, p, s, i);
        assert(!vis[i]);
        lemma_m_first_exit(mv, p, vis);
        let k = choose|k: int|
            0 <= k < p.len() - 1 && #[trigger] vis[p[k]] && !vis[p[k + 1]] && m_edge(
                mv,
                p[k],
                p[k + 1],
            );
        let a = p[k];
        let b = p[k + 1];
        assert(t[b].distance <= t[a].distance + mv[a][b]);
        assert(t[b].distance == u32::MAX);
        // but the right-hand side is below u32::MAX:
        let processed = count_trues(vis);
        lemma_count_trues_below(vis, b);
        lemma_count_trues_bounds(vis);
        lemma_matrix_max(mv, a, b);
        assert(t[a].distance <= processed * matrix_max(mv));
        assert(t[a].distance + mv[a][b] <= processed * matrix_max(mv) + matrix_max(mv)) by {
            assert(mv[a][b] <= matrix_max(mv));
        }
        assert(processed * matrix_max(mv) + matrix_max(mv) <= mv.len() * matrix_max(mv))
            by (nonlinear_arith)
            requires
                processed + 1 <= mv.len(),
                matrix_max(mv) >= 0,
        ;
        assert(false);
    }
}

// ---------------------------------------------------------------------------
// The tree builder over the dense matrix
// ---------------------------------------------------------------------------

/// Everything that holds while the row of the freshly settled node `node` is
/// being relaxed; `index` is how far the scan of the row has come.
spec fn relax_loop_inv(
    mv: Seq<Seq<u32>>,
    s: int,
    vis: Seq<bool>,
    t: Seq<ShortestPathTreeNode>,
    node: int,
    node_distance: int,
    processed: int,
    index: int,
) -> bool {
    &&& inv_shape(mv, s, vis, t)
    &&& inv_exact(mv, s, vis, t)
    &&& inv_prev(mv, s, vis, t)
    &&& inv_mono(vis, t)
    &&& inv_bound(mv, vis, t, processed)
    &&& 1 <= processed <= mv.len()
    &&& mv.len() * matrix_max(mv) < u32::MAX as int
    &&& 0 <= node < mv.len()
    &&& vis[node]
    &&& vis[s]
    &&& node_distance == t[node].distance
    &&& node_distance < u32::MAX
    &&& node_distance <= (processed - 1) * matrix_max(mv)
    &&& forall|i: int| 0 <= i < t.len() && !(#[trigger] vis[i]) ==> node_distance <= t[i].distance
    &&& forall|v: int| 0 <= v < t.len() && #[trigger] vis[v] ==> t[v].distance <= node_distance
    &&& forall|u: int, i: int|
        0 <= u < t.len() && 0 <= i < t.len() && vis[u] && !vis[i] && #[trigger] m_edge(mv, u, i)
            && (u != node || i < index) ==> t[i].distance <= t[u].distance + mv[u][i]
}

/// One relaxation step that does not touch the table: either the scanned
/// node is settled, or there is no edge to it, or its recorded distance is
/// already good enough.
proof fn lemma_relax_skip(
    mv: Seq<Seq<u32>>,
    s: int,
    vis: Seq<bool>,
    t: Seq<ShortestPathTreeNode>,
    node: int,
    node_distance: int,
    processed: int,
    index: int,
)
    requires
        relax_loop_inv(mv, s, vis, t, node, node_distance, processed, index),
        0 <= index < mv.len(),
        vis[index] || !m_edge(mv, node, index) || t[index].distance <= t[node].distance + mv[node][index],
    ensures
        relax_loop_inv(mv, s, vis, t, node, node_distance, processed, index + 1),
{
    assert forall|u: int, i: int|
        0 <= u < t.len() && 0 <= i < t.len() && vis[u] && !vis[i] && #[trigger] m_edge(mv, u, i)
            && (u != node || i < index + 1) implies t[i].distance <= t[u].distance + mv[u][i] by {
        if u == node && i == index {
        } else {
            assert(u != node || i < index);
        }
    }
}

/// One relaxation step that improves the scanned record: its distance drops
/// to `node_distance` plus the weight of the connecting edge, and the
/// settled node becomes its predecessor.
proof fn lemma_relax_update(
    mv: Seq<Seq<u32>>,
    s: int,
    vis: Seq<bool>,
    t_old: Seq<ShortestPathTreeNode>,
    t_new: Seq<ShortestPathTreeNode>,
    node: int,
    node_distance: int,
    processed: int,
    index: int,
)
    requires
        relax_loop_inv(mv, s, vis, t_old, node, node_distance, processed, index),
        0 <= index < mv.len(),
        !vis[index],
        m_edge(mv, node, index),
        node_distance + mv[node][index] < t_old[index].distance,
        node_distance + mv[node][index] < u32::MAX,
        t_new == t_old.update(
            index,
            ShortestPathTreeNode {
                node: index as usize,
                distance: (node_distance + mv[node][index]) as u32,
                previous: node as usize,
            },
        ),
    ensures
        relax_loop_inv(mv, s, vis, t_new, node, node_distance, processed, index + 1),
{
    let w = mv[node][index] as int;
    let ii = index;
    lemma_matrix_max(mv, node, index);
    lemma_matrix_max_nonneg(mv);
    assert(t_new[ii].distance == node_distance + w);
    assert(forall|j: int| 0 <= j < t_old.len() && j != ii ==> t_new[j] == t_old[j]);
    assert(ii != s && ii != node);
    assert(inv_shape(mv, s, vis, t_new));
    assert(inv_exact(mv, s, vis, t_new)) by {
        assert forall|i: int| 0 <= i < t_new.len() && #[trigger] vis[i] implies t_new[i].distance
            < u32::MAX && m_distance_is(mv, s, i, t_new[i].distance as int) by {
            assert(i != ii);
        }
    }
    assert(inv_prev(mv, s, vis, t_new)) by {
        assert forall|i2: int|
            0 <= i2 < t_new.len() && i2 != s && (#[trigger] t_new[i2]).distance
                < u32::MAX implies {
            let pv = t_new[i2].previous as int;
            &&& vis[pv]
            &&& m_edge(mv, pv, i2)
            &&& t_new[pv].distance < u32::MAX
            &&& t_new[i2].distance == t_new[pv].distance + mv[pv][i2]
        } by {
            let pv = t_new[i2].previous as int;
            if i2 == ii {
                assert(pv == node);
                assert(t_new[pv] == t_old[pv]);
            } else {
                assert(t_new[i2] == t_old[i2]);
                assert(vis[pv]);
                assert(pv != ii);
                assert(t_new[pv] == t_old[pv]);
            }
        }
    }
    assert(inv_mono(vis, t_new)) by {
        assert forall|v: int, i2: int|
            0 <= v < t_new.len() && 0 <= i2 < t_new.len() && #[trigger] vis[v] && !(#[trigger] vis[i2]) implies t_new[v].distance <= t_new[i2].distance by {
            assert(t_new[v] == t_old[v]);
            if i2 == ii {
                assert(t_old[v].distance <= node_distance);
            } else {
                assert(t_new[i2] == t_old[i2]);
            }
        }
    }
    assert(inv_bound(mv, vis, t_new, processed)) by {
        assert forall|i: int|
            0 <= i < t_new.len() && (#[trigger] t_new[i]).distance < u32::MAX implies t_new[i].distance <= processed * matrix_max(mv) by {
            if i == ii {
                assert(node_distance + w <= (processed - 1) * matrix_max(mv) + matrix_max(mv));
                assert((processed - 1) * matrix_max(mv) + matrix_max(mv) == processed * matrix_max(
                    mv,
                )) by (nonlinear_arith);
            } else {
                assert(t_new[i] == t_old[i]);
            }
        }
    }
    assert forall|u: int, i2: int|
        0 <= u < t_new.len() && 0 <= i2 < t_new.len() && vis[u] && !vis[i2] && #[trigger] m_edge(
            mv,
            u,
            i2,
        ) && (u != node || i2 < index + 1) implies t_new[i2].distance <= t_new[u].distance + mv[u][i2] by {
        assert(t_new[u] == t_old[u]);
        if i2 == ii {
            if u == node {
            } else {
                assert(t_old[i2].distance <= t_old[u].distance + mv[u][i2]);
            }
        } else {
            assert(t_new[i2] == t_old[i2]);
        }
    }
}

/// Builds the shortest-path tree of `graph_matrix` rooted at `source` by
/// greedy relaxation: repeatedly settle the unsettled node with the least
/// known distance and relax its whole matrix row.  Returns `None` when the
/// source index lies outside the matrix.  Unreachable nodes keep the
/// sentinel distance `u32::MAX` and themselves as predecessor.
#[verifier::rlimit(100)]
pub fn shortest_path_tree(graph_matrix: &GraphMatrix, source: usize) -> (r: Option<
    Vec<ShortestPathTreeNode>,
>)
    requires
        matrix_wf(matrix_view(graph_matrix)),
        matrix_view(graph_matrix).len() * matrix_max(matrix_view(graph_matrix)) < u32::MAX as int,
        graph_matrix@.len() < usize::MAX,
    ensures
        r.is_some() <==> (source as int) < graph_matrix@.len(),
        r.is_some() ==> spt_tree_ok(matrix_view(graph_matrix), source as int, r.unwrap()@),
{
    let ghost mv = matrix_view(graph_matrix);
    let ghost s = source as int;
    let node_count = graph_matrix.len();
    if source >= node_count {
        return None;
    }
    let mut visited: Vec<bool> = Vec::new();
    let mut tree: Vec<ShortestPathTreeNode> = Vec::new();
    let mut k: usize = 0;
    while k < node_count
        invariant
            k <= node_count,
            visited@.len() == k,
            tree@.len() == k,
            forall|i: int| 0 <= i < k ==> !(#[trigger] visited@[i]),
            forall|i: int|
                0 <= i < k ==> #[trigger] tree@[i] == (ShortestPathTreeNode {
                    node: i as usize,
                    distance: u32::MAX,
                    previous: i as usize,
                }),
        decreases node_count - k,
    {
        visited.push(false);
        tree.push(ShortestPathTreeNode { node: k, distance: u32::MAX, previous: k });
        k += 1;
    }

    // the source starts with distance zero
    tree.set(source, ShortestPathTreeNode { node: source, distance: 0, previous: source });

    let mut node: usize = source;
    let ghost processed: int = 0;
    proof {
        assert(count_trues(visited@) == 0) by {
            lemma_all_false_count(visited@);
        }
    }

    while node != usize::MAX
        invariant
            node_count == mv.len(),
            mv == matrix_view(graph_matrix),
            node_count < usize::MAX,
            mv.len() * matrix_max(mv) < u32::MAX as int,
            0 <= s < node_count,
            s == source as int,
            spt_inv(mv, s, visited@, tree@),
            inv_bound(mv, visited@, tree@, processed),
            visited@[s] || (node == source && processed == 0),
            node != usize::MAX ==> (node as int) < node_count && !visited@[node as int]
                && tree@[node as int].distance < u32::MAX && (forall|i: int|
                0 <= i < node_count && !(#[trigger] visited@[i]) ==> tree@[node as int].distance
                    <= tree@[i].distance),
            node == usize::MAX ==> (forall|i: int|
                0 <= i < node_count && !(#[trigger] visited@[i]) ==> tree@[i].distance
                    == u32::MAX),
        decreases node_count - processed,
    {
        let ghost vis_old = visited@;
        proof {
            lemma_selected_exact(mv, s, visited@, tree@, node as int);
            lemma_count_trues_bounds(visited@);
            lemma_count_trues_set(visited@, node as int);
            lemma_count_trues_bounds(visited@.update(node as int, true));
            lemma_matrix_max_nonneg(mv);
        }
        let node_distance = tree[node].distance;
        visited.set(node, true);
        proof {
            processed = processed + 1;
            let vis = visited@;
            let t = tree@;
            let nd = node as int;
            assert(vis == vis_old.update(nd, true));
            assert(inv_exact(mv, s, vis, t)) by {
                assert forall|i: int| 0 <= i < t.len() && #[trigger] vis[i] implies t[i].distance
                    < u32::MAX && m_distance_is(mv, s, i, t[i].distance as int) by {
                    if i != nd {
                        assert(vis_old[i]);
                    }
                }
            }
            assert(inv_prev(mv, s, vis, t));
            assert(inv_mono(vis, t)) by {
                assert forall|v: int, i: int|
                    0 <= v < t.len() && 0 <= i < t.len() && #[trigger] vis[v]
                        && !(#[trigger] vis[i]) implies t[v].distance <= t[i].distance by {
                    assert(!vis_old[i]);
                    if v != nd {
                        assert(vis_old[v]);
                    }
                }
            }
            assert(inv_bound(mv, vis, t, processed)) by {
                assert(count_trues(vis) == processed);
                assert forall|i: int|
                    0 <= i < t.len() && (#[trigger] t[i]).distance < u32::MAX implies t[i].distance
                    <= processed * matrix_max(mv) by {
                    assert(t[i].distance <= (processed - 1) * matrix_max(mv));
                    assert((processed - 1) * matrix_max(mv) <= processed * matrix_max(mv))
                        by (nonlinear_arith)
                        requires
                            matrix_max(mv) >= 0,
                    ;
                }
            }
            assert forall|v: int| 0 <= v < t.len() && #[trigger] vis[v] implies t[v].distance
                <= node_distance by {
                if v != nd {
                    assert(vis_old[v] && !vis_old[nd]);
                }
            }
            assert(1 <= processed <= mv.len());
            assert(node_distance <= (processed - 1) * matrix_max(mv));
            assert(vis[s] && vis[nd]);
            assert(relax_loop_inv(mv, s, vis, t, nd, node_distance as int, processed, 0)) by {
                assert forall|u: int, i: int|
                    0 <= u < t.len() && 0 <= i < t.len() && vis[u] && !vis[i] && #[trigger] m_edge(
                        mv,
                        u,
                        i,
                    ) && (u != nd || i < 0) implies t[i].distance <= t[u].distance + mv[u][i] by {
                    assert(u != nd);
                    assert(vis_old[u] && !vis_old[i]);
                }
            }
        }

        // relax every still-unsettled neighbour of the settled node
        let mut index: usize = 0;
        while index < node_count
            invariant
                index <= node_count,
                node_count == mv.len(),
                mv == matrix_view(graph_matrix),
                node_count < usize::MAX,
                (node as int) < node_count,
                relax_loop_inv(
                    mv,
                    s,
                    visited@,
                    tree@,
                    node as int,
                    node_distance as int,
                    processed,
                    index as int,
                ),
            decreases node_count - index,
        {
            if !visited[index] {
                proof {
                    assert(mv[node as int] == graph_matrix@[node as int]@);
                    assert(graph_matrix@[node as int]@.len() == node_count);
                }
                let distance = graph_matrix[node][index];
                proof {
                    assert(distance == mv[node as int][index as int]);
                    lemma_matrix_max(mv, node as int, index as int);
                    lemma_matrix_max_nonneg(mv);
                }
                if distance > 0 {
                    proof {
                        assert(node_distance + distance <= processed * matrix_max(mv))
                            by (nonlinear_arith)
                            requires
                                node_distance <= (processed - 1) * matrix_max(mv),
                                distance <= matrix_max(mv),
                                matrix_max(mv) >= 0,
                        ;
                        assert(processed * matrix_max(mv) <= mv.len() * matrix_max(mv))
                            by (nonlinear_arith)
                            requires
                                processed <= mv.len(),
                                matrix_max(mv) >= 0,
                        ;
                    }
                    let new_distance = node_distance + distance;
                    if tree[index].distance > new_distance {
                        let ghost t_old = tree@;
                        tree.set(
                            index,
                            ShortestPathTreeNode {
                                node: index,
                                distance: new_distance,
                                previous: node,
                            },
                        );
                        proof {
                            lemma_relax_update(
                                mv,
                                s,
                                visited@,
                                t_old,
                                tree@,
                                node as int,
                                node_distance as int,
                                processed,
                                index as int,
                            );
                        }
                    } else {
                        proof {
                            lemma_relax_skip(
                                mv,
                                s,
                                visited@,
                                tree@,
                                node as int,
                                node_distance as int,
                                processed,
                                index as int,
                            );
                        }
                    }
                } else {
                    proof {
                        assert(!m_edge(mv, node as int, index as int));
                        lemma_relax_skip(
                            mv,
                            s,
                            visited@,
                            tree@,
                            node as int,
                            node_distance as int,
                            processed,
                            index as int,
                        );
                    }
                }
            } else {
                proof {
                    lemma_relax_skip(
                        mv,
                        s,
                        visited@,
                        tree@,
                        node as int,
                        node_distance as int,
                        processed,
                        index as int,
                    );
                }
            }
            index += 1;
        }

        // pick the unsettled node with the least known distance
        let mut next: usize = usize::MAX;
        let mut min_distance: u32 = u32::MAX;
        let mut j: usize = 0;
        while j < node_count
            invariant
                j <= node_count,
                node_count == tree@.len(),
                node_count == visited@.len(),
                node_count < usize::MAX,
                next == usize::MAX ==> min_distance == u32::MAX && (forall|i: int|
                    0 <= i < j && !(#[trigger] visited@[i]) ==> tree@[i].distance == u32::MAX),
                next != usize::MAX ==> (next as int) < node_count && !visited@[next as int]
                    && tree@[next as int].distance == min_distance && min_distance < u32::MAX
                    && (forall|i: int|
                    0 <= i < j && !(#[trigger] visited@[i]) ==> min_distance
                        <= tree@[i].distance),
            decreases node_count - j,
        {
            if !visited[j] && tree[j].distance < min_distance {
                min_distance = tree[j].distance;
                next = j;
            }
            j += 1;
        }
        node = next;
    }

    proof {
        assert forall|i: int|
            0 <= i < node_count && (#[trigger] tree@[i]).distance == u32::MAX implies !m_reachable(
            mv,
            s,
            i,
        ) by {
            lemma_unreached(mv, s, visited@, tree@, i);
        }
        assert forall|i: int|
            0 <= i < node_count && i != s && (#[trigger] tree@[i]).distance < u32::MAX implies {
            let pv = tree@[i].previous as int;
            tree@[pv].distance < tree@[i].distance
        } by {
            let pv = tree@[i].previous as int;
            assert(m_edge(mv, pv, i));
        }
        assert forall|i: int|
            0 <= i < node_count && (#[trigger] tree@[i]).distance < u32::MAX implies m_distance_is(
            mv,
            s,
            i,
            tree@[i].distance as int,
        ) by {
            if !visited@[i] {
                assert(tree@[i].distance == u32::MAX);
            }
        }
    }

    Some(tree)
}

/// A sequence that is false everywhere counts zero trues.
proof fn lemma_all_false_count(s: Seq<bool>)
    requires
        forall|i: int| 0 <= i < s.len() ==> !(#[trigger] s[i]),
    ensures
        count_trues(s) == 0,
    decreases s.len(),
{
    if s.len() > 0 {
        lemma_all_false_count(s.drop_last());
    }
}

// ---------------------------------------------------------------------------
// The graph store: a name-keyed adjacency list
// ---------------------------------------------------------------------------

/// An index-keyed adjacency list: one entry per node, holding its name and
/// its weighted neighbours.
pub type GraphVector = Vec<(String, Vec<(String, u32)>)>;

/// The mathematical value of one adjacency row.
pub open spec fn edges_view(es: Seq<(String, u32)>) -> Map<Seq<char>, u32>
    decreases es.len(),
{
    if es.len() == 0 {
        Map::empty()
    } else {
        edges_view(es.drop_last()).insert(es.last().0@, es.last().1)
    }
}

/// The mathematical value of a whole adjacency list.
pub open spec fn adj_view(a: Seq<(String, Vec<(String, u32)>)>) -> GraphView
    decreases a.len(),
{
    if a.len() == 0 {
        Map::empty()
    } else {
        adj_view(a.drop_last()).insert(a.last().0@, edges_view(a.last().1@))
    }
}

/// No neighbour name occurs twice in a row.
pub open spec fn edges_nodup(es: Seq<(String, u32)>) -> bool {
    forall|i: int, j: int| 0 <= i < j < es.len() ==> (#[trigger] es[i]).0@ != (#[trigger] es[j]).0@
}

/// No node name occurs twice in the list.
pub open spec fn adj_nodup(a: Seq<(String, Vec<(String, u32)>)>) -> bool {
    forall|i: int, j: int| 0 <= i < j < a.len() ==> (#[trigger] a[i]).0@ != (#[trigger] a[j]).0@
}

/// Unique keys inside and out.
pub open spec fn adj_keys_ok(a: Seq<(String, Vec<(String, u32)>)>) -> bool {
    &&& adj_nodup(a)
    &&& forall|i: int| 0 <= i < a.len() ==> edges_nodup((#[trigger] a[i]).1@)
}

/// A well-formed adjacency list: unique keys inside and out, and a
/// symmetric, closed graph value.
pub open spec fn adj_wf(a: Seq<(String, Vec<(String, u32)>)>) -> bool {
    &&& adj_keys_ok(a)
    &&& graph_wf(adj_view(a))
}

proof fn lemma_edges_view_dom(es: Seq<(String, u32)>, x: Seq<char>)
    ensures
        edges_view(es).dom().contains(x) <==> exists|i: int|
            0 <= i < es.len() && (#[trigger] es[i]).0@ == x,
    decreases es.len(),
{
    if es.len() > 0 {
        lemma_edges_view_dom(es.drop_last(), x);
        if edges_view(es).dom().contains(x) {
            if es.last().0@ != x {
                let i = choose|i: int|
                    0 <= i < es.len() - 1 && (#[trigger] es.drop_last()[i]).0@ == x;
                assert(es[i].0@ == x);
            } else {
                assert(es[es.len() - 1].0@ == x);
            }
        }
        if exists|i: int| 0 <= i < es.len() && (#[trigger] es[i]).0@ == x {
            let i = choose|i: int| 0 <= i < es.len() && (#[trigger] es[i]).0@ == x;
            if i < es.len() - 1 {
                assert(es.drop_last()[i].0@ == x);
            }
        }
    }
}

proof fn lemma_edges_view_at(es: Seq<(String, u32)>, i: int)
    requires
        edges_nodup(es),
        0 <= i < es.len(),
    ensures
        edges_view(es).dom().contains(es[i].0@),
        edges_view(es)[es[i].0@] == es[i].1,
    decreases es.len(),
{
    if i == es.len() - 1 {
    } else {
        lemma_edges_view_at(es.drop_last(), i);
        assert(es.drop_last()[i] == es[i]);
        assert(es[i].0@ != es.last().0@);
    }
}

proof fn lemma_adj_view_dom(a: Seq<(String, Vec<(String, u32)>)>, x: Seq<char>)
    ensures
        adj_view(a).dom().contains(x) <==> exists|i: int|
            0 <= i < a.len() && (#[trigger] a[i]).0@ == x,
    decreases a.len(),
{
    if a.len() > 0 {
        lemma_adj_view_dom(a.drop_last(), x);
        if adj_view(a).dom().contains(x) {
            if a.last().0@ != x {
                let i = choose|i: int|
                    0 <= i < a.len() - 1 && (#[trigger] a.drop_last()[i]).0@ == x;
                assert(a[i].0@ == x);
            } else {
                assert(a[a.len() - 1].0@ == x);
            }
        }
        if exists|i: int| 0 <= i < a.len() && (#[trigger] a[i]).0@ == x {
            let i = choose|i: int| 0 <= i < a.len() && (#[trigger] a[i]).0@ == x;
            if i < a.len() - 1 {
                assert(a.drop_last()[i].0@ == x);
            }
        }
    }
}

proof fn lemma_adj_view_at(a: Seq<(String, Vec<(String, u32)>)>, i: int)
    requires
        adj_nodup(a),
        0 <= i < a.len(),
    ensures
        adj_view(a).dom().contains(a[i].0@),
        adj_view(a)[a[i].0@] == edges_view(a[i].1@),
    decreases a.len(),
{
    if i == a.len() - 1 {
    } else {
        lemma_adj_view_at(a.drop_last(), i);
        assert(a.drop_last()[i] == a[i]);
        assert(a[i].0@ != a.last().0@);
    }
}

/// Replacing the entry at `i` by one with the same name updates the map at
/// that one key.
proof fn lemma_adj_view_update(
    a: Seq<(String, Vec<(String, u32)>)>,
    i: int,
    e: (String, Vec<(String, u32)>),
)
    requires
        adj_nodup(a),
        0 <= i < a.len(),
        e.0@ == a[i].0@,
    ensures
        adj_view(a.update(i, e)) =~= adj_view(a).insert(e.0@, edges_view(e.1@)),
    decreases a.len(),
{
    let a2 = a.update(i, e);
    if i == a.len() - 1 {
        assert(a2.drop_last() =~= a.drop_last());
        assert(a2.last() == e);
    } else {
        assert(a2.drop_last() =~= a.drop_last().update(i, e));
        lemma_adj_view_update(a.drop_last(), i, e);
        assert(a2.last() == a.last());
        assert(a.last().0@ != e.0@);
    }
}

/// The same, for one adjacency row.
proof fn lemma_edges_view_update(es: Seq<(String, u32)>, i: int, e: (String, u32))
    requires
        edges_nodup(es),
        0 <= i < es.len(),
        e.0@ == es[i].0@,
    ensures
        edges_view(es.update(i, e)) =~= edges_view(es).insert(e.0@, e.1),
    decreases es.len(),
{
    let es2 = es.update(i, e);
    if i == es.len() - 1 {
        assert(es2.drop_last() =~= es.drop_last());
        assert(es2.last() == e);
    } else {
        assert(es2.drop_last() =~= es.drop_last().update(i, e));
        lemma_edges_view_update(es.drop_last(), i, e);
        assert(es2.last() == es.last());
        assert(es.last().0@ != e.0@);
    }
}

/// A graph of node names mapped to weighted neighbour maps; the
/// store behind the name-keyed shape.
pub struct GraphMap {
    adj: Vec<(String, Vec<(String, u32)>)>,
}

impl View for GraphMap {
    type V = GraphView;

    closed spec fn view(&self) -> GraphView {
        adj_view(self.adj@)
    }
}

impl GraphMap {
    /// The store's invariant: unique keys, symmetric closed adjacency.
    pub closed spec fn wf(&self) -> bool {
        adj_wf(self.adj@)
    }

    /// Number of nodes held.
    pub closed spec fn spec_node_count(&self) -> int {
        self.adj@.len() as int
    }

    /// The empty graph.
    pub fn new() -> (r: GraphMap)
        ensures
            r.wf(),
            r@ =~= Map::empty(),
            r.spec_node_count() == 0,
    {
        GraphMap { adj: Vec::new() }
    }

    /// How many nodes the graph holds.
    pub fn len(&self) -> (r: usize)
        ensures
            r == self.spec_node_count(),
    {
        self.adj.len()
    }

    /// Whether the graph holds no node at all.
    pub fn is_empty(&self) -> (r: bool)
        ensures
            r == (self.spec_node_count() == 0),
    {
        self.adj.is_empty()
    }
}

/// Finds the entry of the given node name, if any.
fn find_node(adj: &Vec<(String, Vec<(String, u32)>)>, name: &String) -> (r: Option<usize>)
    ensures
        match r {
            Some(i) => (i as int) < adj@.len() && adj@[i as int].0@ == name@,
            None => forall|i: int| 0 <= i < adj@.len() ==> (#[trigger] adj@[i]).0@ != name@,
        },
{
    let n = adj.len();
    let mut i: usize = 0;
    while i < n
        invariant
            n == adj@.len(),
            0 <= i <= n,
            forall|k: int| 0 <= k < i ==> (#[trigger] adj@[k]).0@ != name@,
        decreases n - i,
    {
        if adj[i].0.eq(name) {
            return Some(i);
        }
        i += 1;
    }
    None
}

/// Finds the slot of the given neighbour name in a row, if any.
fn find_edge(es: &Vec<(String, u32)>, name: &String) -> (r: Option<usize>)
    ensures
        match r {
            Some(i) => (i as int) < es@.len() && es@[i as int].0@ == name@,
            None => forall|i: int| 0 <= i < es@.len() ==> (#[trigger] es@[i]).0@ != name@,
        },
{
    let n = es.len();
    let mut i: usize = 0;
    while i < n
        invariant
            n == es@.len(),
            0 <= i <= n,
            forall|k: int| 0 <= k < i ==> (#[trigger] es@[k]).0@ != name@,
        decreases n - i,
    {
        if es[i].0.eq(name) {
            return Some(i);
        }
        i += 1;
    }
    None
}

/// What `add_edge` does to the graph value: the weight is recorded under
/// both endpoints, creating their nodes as needed (last write wins).
pub open spec fn spec_add_edge(g: GraphView, a: Seq<char>, b: Seq<char>, w: u32) -> GraphView {
    let ea = if g.dom().contains(a) {
        g[a]
    } else {
        Map::empty()
    };
    let g1 = g.insert(a, ea.insert(b, w));
    let eb = if g1.dom().contains(b) {
        g1[b]
    } else {
        Map::empty()
    };
    g1.insert(b, eb.insert(a, w))
}

/// Recording an edge keeps the store's invariant.
proof fn lemma_spec_add_edge_wf(g: GraphView, a: Seq<char>, b: Seq<char>, w: u32)
    requires
        graph_wf(g),
    ensures
        graph_wf(spec_add_edge(g, a, b, w)),
{
    let g2 = spec_add_edge(g, a, b, w);
    assert forall|u: Seq<char>, v: Seq<char>| #[trigger] g_has_entry(g2, u, v) implies g2.dom()
        .contains(v) && g_has_entry(g2, v, u) && g2[v][u] == g2[u][v] by {
        if u == b {
            if v == a {
            } else {
                if b == a {
                    assert(g_has_entry(g, u, v) || (v == b && w == g2[u][v]));
                } else {
                    assert(g_has_entry(g, u, v));
                }
            }
        } else if u == a {
            if v == b {
            } else {
                assert(g_has_entry(g, u, v));
            }
        } else {
            assert(g_has_entry(g, u, v));
        }
    }
}

/// Inserts or overwrites the symmetric edge `a - b` with weight
/// `distance`, creating the two nodes if they are absent.  Always
/// succeeds; repeating the same call changes nothing further.
pub fn add_edge(graph: &mut GraphMap, a: &str, b: &str, distance: u32)
    requires
        old(graph).wf(),
    ensures
        final(graph).wf(),
        final(graph)@ == spec_add_edge(old(graph)@, a@, b@, distance),
        final(graph)@.dom() =~= old(graph)@.dom().insert(a@).insert(b@),
{
    let a_string = a.to_owned();
    let b_string = b.to_owned();
    upsert_edge(&mut graph.adj, &a_string, b_string.clone(), distance);
    upsert_edge(&mut graph.adj, &b_string, a_string, distance);
    proof {
        lemma_spec_add_edge_wf(old(graph)@, a@, b@, distance);
    }
}

/// Records `to -> w` in the row of `at`, creating the row if needed.
fn upsert_edge(
    adj: &mut Vec<(String, Vec<(String, u32)>)>,
    at: &String,
    to: String,
    w: u32,
)
    requires
        adj_nodup(old(adj)@),
        forall|i: int| 0 <= i < old(adj)@.len() ==> edges_nodup((#[trigger] old(adj)@[i]).1@),
    ensures
        adj_nodup(final(adj)@),
        forall|i: int| 0 <= i < final(adj)@.len() ==> edges_nodup((#[trigger] final(adj)@[i]).1@),
        adj_view(final(adj)@) == ({
            let g = adj_view(old(adj)@);
            let ea = if g.dom().contains(at@) {
                g[at@]
            } else {
                Map::empty()
            };
            g.insert(at@, ea.insert(to@, w))
        }),
{
    let ghost a0 = adj@;
    let ghost g0 = adj_view(a0);
    match find_node(adj, at) {
        Some(i) => {
            proof {
                lemma_adj_view_at(a0, i as int);
                lemma_adj_view_dom(a0, at@);
            }
            let pair = adj.remove(i);
            let (name, mut es) = pair;
            let ghost es0 = es@;
            match find_edge(&es, &to) {
                Some(j) => {
                    es.set(j, (to, w));
                    proof {
                        lemma_edges_view_update(es0, j as int, es@[j as int]);
                    }
                },
                None => {
                    es.push((to, w));
                    proof {
                        assert(es@.drop_last() =~= es0);
                    }
                },
            }
            let ghost es1 = es@;
            adj.insert(i, (name, es));
            proof {
                assert(adj@ =~= a0.update(i as int, (a0[i as int].0, adj@[i as int].1)));
                lemma_adj_view_update(a0, i as int, adj@[i as int]);
                assert(edges_view(es1) =~= edges_view(es0).insert(to@, w));
                assert(edges_nodup(es1));
            }
        },
        None => {
            proof {
                lemma_adj_view_dom(a0, at@);
            }
            let mut es: Vec<(String, u32)> = Vec::new();
            let ghost to_view = to@;
            es.push((to, w));
            adj.push((at.clone(), es));
            proof {
                assert(adj@.drop_last() =~= a0);
                let esv = adj@.last().1@;
                assert(esv.len() == 1 && esv.last().0@ == to_view && esv.last().1 == w);
                assert(esv.drop_last() =~= Seq::<(String, u32)>::empty());
                assert(edges_view(esv.drop_last()) =~= Map::<Seq<char>, u32>::empty());
                assert(edges_view(adj@.last().1@) =~= Map::<Seq<char>, u32>::empty().insert(
                    to_view,
                    w,
                ));
                assert(adj_view(adj@) =~= g0.insert(at@, Map::empty().insert(to_view, w)));
                assert(to_view == to@);
            }
        },
    }
}

// ---------------------------------------------------------------------------
// Conversions between the three graph shapes
// ---------------------------------------------------------------------------

/// The views of a list of names.
pub open spec fn names_views(s: Seq<String>) -> Seq<Seq<char>> {
    s.map_values(|x: String| x@)
}

/// Entry-wise equal names and rows give the same graph value.
proof fn lemma_adj_view_congruent(
    a: Seq<(String, Vec<(String, u32)>)>,
    b: Seq<(String, Vec<(String, u32)>)>,
)
    requires
        a.len() == b.len(),
        forall|k: int|
            0 <= k < a.len() ==> (#[trigger] a[k]).0@ == (#[trigger] b[k]).0@ && a[k].1@ == b[k].1@,
    ensures
        adj_view(a) =~= adj_view(b),
    decreases a.len(),
{
    if a.len() > 0 {
        lemma_adj_view_congruent(a.drop_last(), b.drop_last());
        assert(a.last().0@ == b.last().0@ && a.last().1@ == b.last().1@);
    }
}

/// Converts the name-keyed shape into the index-keyed shape.  The
/// conversion is lossless: the returned list holds exactly the same nodes,
/// neighbours and weights.
pub fn graph_map_to_vector(graph_map: &GraphMap) -> (r: Option<GraphVector>)
    requires
        graph_map.wf(),
    ensures
        r.is_some(),
        adj_wf(r.unwrap()@),
        adj_view(r.unwrap()@) == graph_map@,
        r.unwrap()@.len() == graph_map.spec_node_count(),
{
    let adj = &graph_map.adj;
    let n = adj.len();
    let mut out: GraphVector = Vec::new();
    let mut i: usize = 0;
    while i < n
        invariant
            n == adj@.len(),
            0 <= i <= n,
            out@.len() == i,
            forall|k: int|
                0 <= k < i ==> (#[trigger] out@[k]).0@ == (#[trigger] adj@[k]).0@ && out@[k].1@
                    == adj@[k].1@,
        decreases n - i,
    {
        let row = &adj[i].1;
        let m = row.len();
        let mut es: Vec<(String, u32)> = Vec::new();
        let mut j: usize = 0;
        while j < m
            invariant
                m == row@.len(),
                0 <= j <= m,
                es@.len() == j,
                forall|k: int| 0 <= k < j ==> #[trigger] es@[k] == row@[k],
            decreases m - j,
        {
            es.push((row[j].0.clone(), row[j].1));
            j += 1;
        }
        proof {
            assert(es@ =~= row@);
        }
        out.push((adj[i].0.clone(), es));
        i += 1;
    }
    proof {
        lemma_adj_view_congruent(out@, adj@);
        assert forall|k1: int, k2: int| 0 <= k1 < k2 < out@.len() implies (#[trigger] out@[k1]).0@
            != (#[trigger] out@[k2]).0@ by {
            assert((adj@[k1]).0@ != (adj@[k2]).0@);
            assert(out@[k1].0@ == adj@[k1].0@ && out@[k2].0@ == adj@[k2].0@);
        }
        assert forall|k: int| 0 <= k < out@.len() implies edges_nodup((#[trigger] out@[k]).1@) by {
            assert(out@[k].1@ == adj@[k].1@);
            assert(edges_nodup(adj@[k].1@));
        }
    }
    Some(out)
}

/// The recorded weight between two names, `0` when there is no entry.
fn weight_between(adj: &Vec<(String, Vec<(String, u32)>)>, u: &String, v: &String) -> (r: u32)
    requires
        adj_keys_ok(adj@),
    ensures
        r == g_weight(adj_view(adj@), u@, v@),
{
    match find_node(adj, u) {
        Some(i) => {
            proof {
                lemma_adj_view_at(adj@, i as int);
            }
            match find_edge(&adj[i].1, v) {
                Some(j) => {
                    proof {
                        lemma_edges_view_at(adj@[i as int].1@, j as int);
                    }
                    adj[i].1[j].1
                },
                None => {
                    proof {
                        lemma_edges_view_dom(adj@[i as int].1@, v@);
                    }
                    0
                },
            }
        },
        None => {
            proof {
                lemma_adj_view_dom(adj@, u@);
            }
            0
        },
    }
}

/// The canonical index assignment and dense matrix of an adjacency list:
/// node names sorted lexicographically, and the weight of every pair in
/// its cell (`0` for "no edge"; a weight `0` is therefore lost, which is
/// the documented limit of the dense shape).
fn matrix_from_adj(adj: &Vec<(String, Vec<(String, u32)>)>) -> (r: (Vec<String>, GraphMatrix))
    requires
        adj_keys_ok(adj@),
    ensures
        names_sorted(r.0@),
        names_distinct(r.0@),
        r.0@.len() == adj@.len(),
        matrix_matches(adj_view(adj@), names_views(r.0@), matrix_view(&r.1)),
{
    let ghost g = adj_view(adj@);
    let n = adj.len();
    let mut names: Vec<String> = Vec::new();
    let mut i: usize = 0;
    while i < n
        invariant
            n == adj@.len(),
            0 <= i <= n,
            names@.len() == i,
            forall|k: int| 0 <= k < i ==> (#[trigger] names@[k])@ == (#[trigger] adj@[k]).0@,
        decreases n - i,
    {
        names.push(adj[i].0.clone());
        i += 1;
    }
    let ghost orig = names@;
    proof {
        assert forall|k1: int, k2: int| 0 <= k1 < k2 < orig.len() implies (#[trigger] orig[k1])@
            != (#[trigger] orig[k2])@ by {
            assert((adj@[k1]).0@ != (adj@[k2]).0@);
            assert(orig[k1]@ == adj@[k1].0@ && orig[k2]@ == adj@[k2].0@);
        }
        assert(names_distinct(orig));
    }
    sort_names(&mut names);
    proof {
        assert forall|x: Seq<char>| count_name(names@, x) <= 1 by {
            lemma_distinct_count(orig, x);
        }
        lemma_count_distinct(names@);
    }
    let mut matrix: GraphMatrix = Vec::new();
    let mut i2: usize = 0;
    while i2 < n
        invariant
            n == adj@.len(),
            n == names@.len(),
            adj_keys_ok(adj@),
            g == adj_view(adj@),
            0 <= i2 <= n,
            matrix@.len() == i2,
            forall|ii: int| 0 <= ii < i2 ==> (#[trigger] matrix@[ii])@.len() == n,
            forall|ii: int, jj: int|
                0 <= ii < i2 && 0 <= jj < n ==> (#[trigger] matrix@[ii]@[jj]) == g_weight(
                    g,
                    names@[ii]@,
                    names@[jj]@,
                ),
        decreases n - i2,
    {
        let mut row: Vec<u32> = Vec::new();
        let mut j: usize = 0;
        while j < n
            invariant
                n == adj@.len(),
                n == names@.len(),
                adj_keys_ok(adj@),
                g == adj_view(adj@),
                i2 < n,
                0 <= j <= n,
                row@.len() == j,
                forall|jj: int|
                    0 <= jj < j ==> #[trigger] row@[jj] == g_weight(g, names@[i2 as int]@, names@[jj]@),
            decreases n - j,
        {
            let w = weight_between(adj, &names[i2], &names[j]);
            row.push(w);
            j += 1;
        }
        matrix.push(row);
        i2 += 1;
    }
    proof {
        let ns = names_views(names@);
        let mv = matrix_view(&matrix);
        assert(matrix_wf(mv)) by {
            assert(forall|ii: int| 0 <= ii < mv.len() ==> #[trigger] mv[ii] == matrix@[ii]@);
        }
        assert(names_nodup(ns));
        assert forall|x: Seq<char>| g.dom().contains(x) <==> ns.contains(x) by {
            lemma_adj_view_dom(adj@, x);
            lemma_count_name_index(orig, x);
            lemma_count_name_index(names@, x);
            if g.dom().contains(x) {
                let i3 = choose|i3: int| 0 <= i3 < adj@.len() && (#[trigger] adj@[i3]).0@ == x;
                assert(orig[i3]@ == x);
                assert(count_name(names@, x) > 0);
                let i4 = choose|i4: int| 0 <= i4 < names@.len() && (#[trigger] names@[i4])@ == x;
                assert(ns[i4] == x);
            }
            if ns.contains(x) {
                let i4 = choose|i4: int| 0 <= i4 < ns.len() && ns[i4] == x;
                assert(names@[i4]@ == x);
                assert(count_name(orig, x) > 0);
                let i3 = choose|i3: int| 0 <= i3 < orig.len() && (#[trigger] orig[i3])@ == x;
                assert(adj@[i3].0@ == x);
            }
        }
        assert forall|ii: int, jj: int|
            0 <= ii < ns.len() && 0 <= jj < ns.len() implies #[trigger] mv[ii][jj] == g_weight(
            g,
            ns[ii],
            ns[jj],
        ) by {
            assert(mv[ii] == matrix@[ii]@);
            assert(matrix@[ii]@[jj] == g_weight(g, names@[ii]@, names@[jj]@));
        }
    }
    (names, matrix)
}

/// Converts the name-keyed shape into the sorted node-name list and the
/// dense matrix.  Repeated calls give the same index assignment.
pub fn graph_map_to_matrix(graph_map: &GraphMap) -> (r: (Vec<String>, GraphMatrix))
    requires
        graph_map.wf(),
    ensures
        names_sorted(r.0@),
        names_distinct(r.0@),
        r.0@.len() == graph_map.spec_node_count(),
        matrix_matches(graph_map@, names_views(r.0@), matrix_view(&r.1)),
{
    matrix_from_adj(&graph_map.adj)
}

/// Converts the index-keyed shape into the sorted node-name list and the
/// dense matrix.
pub fn graph_vector_to_matrix(graph_vector: &GraphVector) -> (r: (Vec<String>, GraphMatrix))
    requires
        adj_keys_ok(graph_vector@),
    ensures
        names_sorted(r.0@),
        names_distinct(r.0@),
        r.0@.len() == graph_vector@.len(),
        matrix_matches(adj_view(graph_vector@), names_views(r.0@), matrix_view(&r.1)),
{
    matrix_from_adj(graph_vector)
}

// ---------------------------------------------------------------------------
// Shortest-path trees and paths keyed by node name
// ---------------------------------------------------------------------------

/// One record of a shortest-path tree keyed by node name.
#[derive(Debug, Clone, PartialEq)]
pub struct ShortestPathTreeNodeString {
    pub node: String,
    pub distance: u32,
    pub previous: String,
}

/// A shortest-path tree rooted at `node`: one record per reachable node,
/// in ascending order of node name.
#[derive(Debug, Clone, PartialEq)]
pub struct ShortestPathTreeString {
    pub node: String,
    pub edges: Vec<ShortestPathTreeNodeString>,
}

/// A reconstructed path with its total distance.
#[derive(Debug, Clone, PartialEq)]
pub struct ShortestPathString {
    pub from: String,
    pub to: String,
    pub distance: u32,
    pub path: Vec<String>,
}

/// The tree has a record for the node named `x`.
pub open spec fn tree_has(t: ShortestPathTreeString, x: Seq<char>) -> bool {
    exists|k: int| 0 <= k < t.edges@.len() && (#[trigger] t.edges@[k]).node@ == x
}

/// The slot of the record for `x`.
pub open spec fn tree_idx(t: ShortestPathTreeString, x: Seq<char>) -> int {
    choose|k: int| 0 <= k < t.edges@.len() && (#[trigger] t.edges@[k]).node@ == x
}

/// The recorded distance of the node named `x`.
pub open spec fn tree_dist(t: ShortestPathTreeString, x: Seq<char>) -> u32 {
    t.edges@[tree_idx(t, x)].distance
}

/// No node is recorded twice.
pub open spec fn tree_records_distinct(t: ShortestPathTreeString) -> bool {
    forall|k1: int, k2: int|
        0 <= k1 < k2 < t.edges@.len() ==> (#[trigger] t.edges@[k1]).node@ != (
        #[trigger] t.edges@[k2]).node@
}

/// What walking the tree backward relies on: distinct records, the root
/// recorded at distance zero pointing at itself, and every other record
/// pointing at a recorded predecessor of strictly smaller distance.
pub open spec fn tree_string_wf(t: ShortestPathTreeString) -> bool {
    &&& tree_records_distinct(t)
    &&& forall|k: int|
        0 <= k < t.edges@.len() && (#[trigger] t.edges@[k]).node@ != t.node@ ==> tree_has(
            t,
            t.edges@[k].previous@,
        ) && tree_dist(t, t.edges@[k].previous@) < t.edges@[k].distance
    &&& forall|k: int|
        0 <= k < t.edges@.len() && (#[trigger] t.edges@[k]).node@ == t.node@
            ==> t.edges@[k].previous@ == t.node@ && t.edges@[k].distance == 0
}

/// The full guarantee of the tree builders: a well-formed tree over the
/// graph `g` rooted at `s`, holding exactly the reachable nodes, each with
/// its exact shortest distance and a predecessor one shortest-path edge
/// away, in ascending order of node name.
pub open spec fn tree_string_ok(g: GraphView, s: Seq<char>, t: ShortestPathTreeString) -> bool {
    &&& t.node@ == s
    &&& tree_string_wf(t)
    &&& forall|k1: int, k2: int|
        0 <= k1 < k2 < t.edges@.len() ==> lex_le(
            (#[trigger] t.edges@[k1]).node@,
            (#[trigger] t.edges@[k2]).node@,
        )
    &&& forall|k: int|
        0 <= k < t.edges@.len() ==> g.dom().contains((#[trigger] t.edges@[k]).node@)
            && n_distance_is(g, s, t.edges@[k].node@, t.edges@[k].distance as int)
    &&& forall|k: int|
        0 <= k < t.edges@.len() && (#[trigger] t.edges@[k]).node@ != s ==> g_edge(
            g,
            t.edges@[k].previous@,
            t.edges@[k].node@,
        ) && t.edges@[k].distance == tree_dist(t, t.edges@[k].previous@) + g_weight(
            g,
            t.edges@[k].previous@,
            t.edges@[k].node@,
        )
    &&& forall|x: Seq<char>|
        g.dom().contains(x) && #[trigger] n_reachable(g, s, x) ==> tree_has(t, x)
}

/// With distinct records, slot `k` is the slot its own name resolves to.
proof fn lemma_tree_idx(t: ShortestPathTreeString, k: int)
    requires
        tree_records_distinct(t),
        0 <= k < t.edges@.len(),
    ensures
        tree_has(t, t.edges@[k].node@),
        tree_idx(t, t.edges@[k].node@) == k,
{
    let x = t.edges@[k].node@;
    assert(tree_has(t, x));
    let k2 = tree_idx(t, x);
    assert(0 <= k2 < t.edges@.len() && t.edges@[k2].node@ == x);
    if k2 != k {
        if k2 < k {
            assert(t.edges@[k2].node@ != t.edges@[k].node@);
        } else {
            assert(t.edges@[k].node@ != t.edges@[k2].node@);
        }
    }
}

/// All weights small enough that no path of `n` hops can overflow `u32`.
pub open spec fn graph_weights_fit(g: GraphView, n: int) -> bool {
    forall|u: Seq<char>, v: Seq<char>|
        #[trigger] g_has_entry(g, u, v) ==> n * (g[u][v] as int) < u32::MAX as int
}

proof fn lemma_weights_fit_matrix(g: GraphView, ns: Seq<Seq<char>>, mv: Seq<Seq<u32>>)
    requires
        matrix_matches(g, ns, mv),
        graph_weights_fit(g, mv.len() as int),
    ensures
        mv.len() * matrix_max(mv) < u32::MAX as int,
{
    lemma_matrix_max_attained(mv);
    lemma_matrix_max_nonneg(mv);
    if matrix_max(mv) == 0 {
        assert(mv.len() * 0 == 0);
    } else {
        let (i, j): (int, int) = choose|i: int, j: int|
            0 <= i < mv.len() && 0 <= j < mv[i].len() && #[trigger] mv[i][j] == matrix_max(mv);
        assert(mv[i][j] == g_weight(g, ns[i], ns[j]));
        assert(g_has_entry(g, ns[i], ns[j]));
        assert((mv.len() as int) * (g[ns[i]][ns[j]] as int) < u32::MAX as int);
    }
}

/// Finds the slot of the record for the given node name, if any.
fn find_record(edges: &Vec<ShortestPathTreeNodeString>, name: &String) -> (r: Option<usize>)
    ensures
        match r {
            Some(i) => (i as int) < edges@.len() && edges@[i as int].node@ == name@,
            None => forall|i: int| 0 <= i < edges@.len() ==> (#[trigger] edges@[i]).node@ != name@,
        },
{
    let n = edges.len();
    let mut i: usize = 0;
    while i < n
        invariant
            n == edges@.len(),
            0 <= i <= n,
            forall|k: int| 0 <= k < i ==> (#[trigger] edges@[k]).node@ != name@,
        decreases n - i,
    {
        if edges[i].node.eq(name) {
            return Some(i);
        }
        i += 1;
    }
    None
}

/// Finds the position of the given name in a list, if any.
fn find_name(names: &Vec<String>, name: &String) -> (r: Option<usize>)
    ensures
        match r {
            Some(i) => (i as int) < names@.len() && names@[i as int]@ == name@,
            None => forall|i: int| 0 <= i < names@.len() ==> (#[trigger] names@[i])@ != name@,
        },
{
    let n = names.len();
    let mut i: usize = 0;
    while i < n
        invariant
            n == names@.len(),
            0 <= i <= n,
            forall|k: int| 0 <= k < i ==> (#[trigger] names@[k])@ != name@,
        decreases n - i,
    {
        if names[i].eq(name) {
            return Some(i);
        }
        i += 1;
    }
    None
}

/// Builds the name-keyed shortest-path tree of an adjacency list through
/// its dense matrix.
#[verifier::rlimit(100)]
fn tree_from_adj(adj: &Vec<(String, Vec<(String, u32)>)>, source: &str) -> (r: Option<
    ShortestPathTreeString,
>)
    requires
        adj_wf(adj@),
        adj@.len() < usize::MAX,
        graph_weights_fit(adj_view(adj@), adj@.len() as int),
    ensures
        r.is_some() <==> adj_view(adj@).dom().contains(source@),
        r.is_some() ==> tree_string_ok(adj_view(adj@), source@, r.unwrap()),
{
    let ghost g = adj_view(adj@);
    let (node_names, matrix) = matrix_from_adj(adj);
    let ghost ns = names_views(node_names@);
    let ghost mv = matrix_view(&matrix);
    let source_string = source.to_owned();
    let position = find_name(&node_names, &source_string);
    if position.is_none() {
        proof {
            if g.dom().contains(source@) {
                assert(ns.contains(source@));
                let i = choose|i: int| 0 <= i < ns.len() && ns[i] == source@;
                assert(node_names@[i]@ == source@);
            }
        }
        return None;
    }
    let si = position.unwrap();
    proof {
        assert(ns[si as int] == source@);
        assert(ns.contains(source@));
        lemma_weights_fit_matrix(g, ns, mv);
    }
    let tree_option = shortest_path_tree(&matrix, si);
    let tree = tree_option.unwrap();
    let ghost t = tree@;
    let node_count = node_names.len();
    let mut edges: Vec<ShortestPathTreeNodeString> = Vec::new();
    let ghost mut srcs: Seq<int> = Seq::empty();
    let mut i: usize = 0;
    while i < node_count
        invariant
            node_count == node_names@.len(),
            node_count == t.len(),
            node_count == mv.len(),
            node_count == ns.len(),
            t == tree@,
            ns == names_views(node_names@),
            0 <= i <= node_count,
            (si as int) < node_count,
            spt_tree_ok(mv, si as int, t),
            edges@.len() == srcs.len(),
            forall|k: int| 0 <= k < srcs.len() ==> 0 <= #[trigger] srcs[k] < i,
            forall|k: int| 0 <= k < srcs.len() ==> t[#[trigger] srcs[k]].distance < u32::MAX,
            forall|k: int|
                0 <= k < srcs.len() ==> (#[trigger] edges@[k]).node@ == ns[srcs[k]]
                    && edges@[k].distance == t[srcs[k]].distance && edges@[k].previous@
                    == ns[t[srcs[k]].previous as int],
            forall|k1: int, k2: int| 0 <= k1 < k2 < srcs.len() ==> srcs[k1] < srcs[k2],
            forall|j: int|
                0 <= j < i && (#[trigger] t[j]).distance < u32::MAX ==> exists|k: int|
                    0 <= k < srcs.len() && #[trigger] srcs[k] == j,
        decreases node_count - i,
    {
        if tree[i].distance < u32::MAX {
            proof {
                assert(ns.len() == node_names@.len());
                if i as int != si as int {
                    assert((t[i as int].previous as int) < t.len());
                } else {
                    assert(t[i as int].previous as int == si as int);
                }
            }
            let pv = tree[i].previous;
            edges.push(
                ShortestPathTreeNodeString {
                    node: node_names[i].clone(),
                    distance: tree[i].distance,
                    previous: node_names[pv].clone(),
                },
            );
            proof {
                let srcs_old = srcs;
                srcs = srcs.push(i as int);
                assert(srcs.drop_last() =~= srcs_old);
                assert(srcs[srcs.len() - 1] == i as int);
                assert(ns[i as int] == node_names@[i as int]@);
                assert(ns[pv as int] == node_names@[pv as int]@);
                assert(edges@.last().node@ == ns[i as int]);
                assert(edges@.last().previous@ == ns[t[i as int].previous as int]);
                assert forall|k: int| 0 <= k < srcs.len() implies 0 <= #[trigger] srcs[k] < i
                    + 1 by {
                    if k < srcs.len() - 1 {
                        assert(srcs[k] == srcs_old[k]);
                        assert(0 <= srcs_old[k] < i);
                    }
                }
                assert forall|k: int| 0 <= k < srcs.len() implies t[#[trigger] srcs[k]].distance
                    < u32::MAX by {
                    if k < srcs.len() - 1 {
                        assert(srcs[k] == srcs_old[k]);
                        assert(t[srcs_old[k]].distance < u32::MAX);
                    }
                }
                assert forall|k: int|
                    0 <= k < srcs.len() implies (#[trigger] edges@[k]).node@ == ns[srcs[k]]
                    && edges@[k].distance == t[srcs[k]].distance && edges@[k].previous@
                    == ns[t[srcs[k]].previous as int] by {
                    let e_old = edges@.drop_last();
                    if k < srcs.len() - 1 {
                        assert(srcs[k] == srcs_old[k]);
                        assert(edges@[k] == e_old[k]);
                        assert(e_old[k].node@ == ns[srcs_old[k]]);
                        assert(e_old[k].distance == t[srcs_old[k]].distance);
                        assert(e_old[k].previous@ == ns[t[srcs_old[k]].previous as int]);
                    } else {
                        assert(edges@[k] == edges@.last());
                    }
                }
                assert forall|k1: int, k2: int| 0 <= k1 < k2 < srcs.len() implies srcs[k1]
                    < srcs[k2] by {
                    if k2 < srcs.len() - 1 {
                        assert(srcs[k1] == srcs_old[k1] && srcs[k2] == srcs_old[k2]);
                        assert(srcs_old[k1] < srcs_old[k2]);
                    } else {
                        assert(srcs[k1] == srcs_old[k1]);
                        assert(0 <= srcs_old[k1] < i);
                        assert(srcs[k2] == i as int);
                    }
                }
                assert forall|j: int|
                    0 <= j < i + 1 && (#[trigger] t[j]).distance < u32::MAX implies exists|k: int|
                    0 <= k < srcs.len() && #[trigger] srcs[k] == j by {
                    if j < i {
                        let k = choose|k: int| 0 <= k < srcs_old.len() && #[trigger] srcs_old[k] == j;
                        assert(srcs[k] == j);
                    } else {
                        assert(srcs[srcs.len() - 1] == j);
                    }
                }
            }
        }
        i += 1;
    }
    let result = ShortestPathTreeString { node: source.to_owned(), edges };
    proof {
        let te = result.edges@;
        assert(te == edges@);
        assert(te.len() == srcs.len());
        assert(ns.len() == node_names@.len());
        assert(result.node@ == source@ && source@ == ns[si as int]);
        // each slot of the result corresponds to one matrix index
        assert(tree_records_distinct(result)) by {
            assert forall|k1: int, k2: int| 0 <= k1 < k2 < te.len() implies (
            #[trigger] te[k1]).node@ != (#[trigger] te[k2]).node@ by {
                assert(srcs[k1] < srcs[k2]);
            }
        }
        assert forall|k1: int, k2: int| 0 <= k1 < k2 < te.len() implies lex_le(
            (#[trigger] te[k1]).node@,
            (#[trigger] te[k2]).node@,
        ) by {
            assert(srcs[k1] < srcs[k2]);
            assert(te[k1].node@ == node_names@[srcs[k1]]@ && te[k2].node@ == node_names@[srcs[k2]]@);
        }
        assert forall|k: int| 0 <= k < te.len() implies g.dom().contains((#[trigger] te[k]).node@)
            && n_distance_is(g, source@, te[k].node@, te[k].distance as int) by {
            let j = srcs[k];
            assert(ns.contains(ns[j]));
            lemma_distance_iso(g, ns, mv, si as int, j, t[j].distance as int);
            assert(m_distance_is(mv, si as int, j, t[j].distance as int));
        }
        assert forall|k: int| 0 <= k < te.len() && (#[trigger] te[k]).node@ != source@ implies
            g_edge(g, te[k].previous@, te[k].node@) && te[k].distance == tree_dist(
            result,
            te[k].previous@,
        ) + g_weight(g, te[k].previous@, te[k].node@) && tree_has(result, te[k].previous@)
            && tree_dist(result, te[k].previous@) < te[k].distance by {
            let j = srcs[k];
            assert(j != si as int) by {
                if j == si as int {
                    assert(te[k].node@ == ns[si as int]);
                }
            }
            let pv = t[j].previous as int;
            assert(m_edge(mv, pv, j) && t[pv].distance < u32::MAX && t[j].distance == t[pv].distance
                + mv[pv][j] && t[pv].distance < t[j].distance);
            assert(mv[pv][j] == g_weight(g, ns[pv], ns[j]));
            assert(g_edge(g, ns[pv], ns[j])) by {
                assert(g_weight(g, ns[pv], ns[j]) > 0);
            }
            // the predecessor has its own record
            let k2 = choose|k2: int| 0 <= k2 < srcs.len() && #[trigger] srcs[k2] == pv;
            assert(te[k2].node@ == ns[pv]);
            lemma_tree_idx(result, k2);
            assert(tree_dist(result, te[k].previous@) == t[pv].distance);
        }
        assert forall|k: int| 0 <= k < te.len() && (#[trigger] te[k]).node@ == source@ implies te[
        k].previous@ == source@ && te[k].distance == 0 by {
            let j = srcs[k];
            assert(j == si as int) by {
                if j != si as int {
                    assert(ns[j] != ns[si as int]);
                }
            }
            assert(t[si as int].distance == 0 && t[si as int].previous as int == si as int);
        }
        assert forall|x: Seq<char>| g.dom().contains(x) && #[trigger] n_reachable(
            g,
            source@,
            x,
        ) implies tree_has(result, x) by {
            assert(ns.contains(x));
            let j = choose|j: int| 0 <= j < ns.len() && ns[j] == x;
            lemma_reachable_iso(g, ns, mv, si as int, j, 0);
            assert(m_reachable(mv, si as int, j));
            assert(t[j].distance < u32::MAX) by {
                if t[j].distance == u32::MAX {
                    assert(!m_reachable(mv, si as int, j));
                }
            }
            let k = choose|k: int| 0 <= k < srcs.len() && #[trigger] srcs[k] == j;
            assert(te[k].node@ == x);
        }
    }
    Some(result)
}

/// Builds the shortest-path tree of the name-keyed shape, rooted at
/// `source`; `None` when the source node is not in the graph.
pub fn shortest_path_tree_from_map_graph(graph_map: &GraphMap, source: &str) -> (r: Option<
    ShortestPathTreeString,
>)
    requires
        graph_map.wf(),
        graph_map.spec_node_count() < usize::MAX,
        graph_weights_fit(graph_map@, graph_map.spec_node_count()),
    ensures
        r.is_some() <==> graph_map@.dom().contains(source@),
        r.is_some() ==> tree_string_ok(graph_map@, source@, r.unwrap()),
{
    tree_from_adj(&graph_map.adj, source)
}

/// Builds the shortest-path tree of the index-keyed shape, rooted at
/// `source`; `None` when the source node is not in the graph.
pub fn shortest_path_tree_from_vector_graph(graph_vector: &GraphVector, source: &str) -> (r:
    Option<ShortestPathTreeString>)
    requires
        adj_wf(graph_vector@),
        graph_vector@.len() < usize::MAX,
        graph_weights_fit(adj_view(graph_vector@), graph_vector@.len() as int),
    ensures
        r.is_some() <==> adj_view(graph_vector@).dom().contains(source@),
        r.is_some() ==> tree_string_ok(adj_view(graph_vector@), source@, r.unwrap()),
{
    tree_from_adj(graph_vector, source)
}

// ---------------------------------------------------------------------------
// Path reconstruction
// ---------------------------------------------------------------------------

/// Reverses a list of names.
fn reversed_names(v: Vec<String>) -> (r: Vec<String>)
    ensures
        r@.len() == v@.len(),
        forall|i: int| 0 <= i < r@.len() ==> #[trigger] r@[i] == v@[v@.len() - 1 - i],
{
    let mut rest = v;
    let mut out: Vec<String> = Vec::new();
    let ghost orig = rest@;
    while rest.len() > 0
        invariant
            rest@ =~= orig.take(orig.len() - out@.len()),
            out@.len() <= orig.len(),
            forall|i: int| 0 <= i < out@.len() ==> #[trigger] out@[i] == orig[orig.len() - 1 - i],
        decreases rest@.len(),
    {
        let x = rest.pop().unwrap();
        out.push(x);
        proof {
            assert(rest@ =~= orig.take(orig.len() - out@.len()));
        }
    }
    out
}

/// The slots `ks` form a backward chain through the tree: each record's
/// predecessor is the node of the next slot.
spec fn chain_ok(t: ShortestPathTreeString, ks: Seq<int>) -> bool
    decreases ks.len(),
{
    if ks.len() == 0 {
        true
    } else {
        &&& 0 <= ks.last() < t.edges@.len()
        &&& (ks.len() > 1 ==> t.edges@[ks[ks.len() - 2]].previous@ == t.edges@[ks.last()].node@)
        &&& chain_ok(t, ks.drop_last())
    }
}

proof fn lemma_chain_ok_at(t: ShortestPathTreeString, ks: Seq<int>, i: int)
    requires
        chain_ok(t, ks),
        0 <= i < ks.len(),
    ensures
        0 <= ks[i] < t.edges@.len(),
        i < ks.len() - 1 ==> t.edges@[ks[i]].previous@ == t.edges@[ks[i + 1]].node@,
    decreases ks.len(),
{
    if i < ks.len() - 1 {
        lemma_chain_ok_at(t, ks.drop_last(), i);
        assert(ks.drop_last()[i] == ks[i]);
        if i < ks.len() - 2 {
            assert(ks.drop_last()[i + 1] == ks[i + 1]);
        }
    }
}


proof fn lemma_chain_push(t: ShortestPathTreeString, ks: Seq<int>, k: int)
    requires
        chain_ok(t, ks),
        0 <= k < t.edges@.len(),
        ks.len() > 0 ==> t.edges@[ks.last()].previous@ == t.edges@[k].node@,
    ensures
        chain_ok(t, ks.push(k)),
{
    let ks2 = ks.push(k);
    assert(ks2.drop_last() =~= ks);
    assert(ks2.last() == k);
    if ks.len() > 0 {
        assert(ks2[ks2.len() - 2] == ks.last());
    }
}

/// The walk accumulated so far: `q` names the records at the slots `ks`,
/// which form a backward chain from slot `k0` up to a record whose
/// predecessor is the tree's root.
spec fn walk_ok(t: ShortestPathTreeString, q: Seq<String>, ks: Seq<int>, k0: int) -> bool {
    &&& q.len() == ks.len()
    &&& ks.len() >= 1
    &&& ks[0] == k0
    &&& chain_ok(t, ks)
    &&& forall|i: int|
        0 <= i < ks.len() ==> (#[trigger] q[i])@ == t.edges@[ks[i]].node@ && 0 <= ks[i]
            < t.edges@.len()
    &&& t.edges@[ks.last()].previous@ == t.node@
}

/// Reversing a finished walk, the root appended, gives a forward path in
/// which every node's record points at the node before it.
proof fn lemma_walker_ensures(
    t: ShortestPathTreeString,
    ks: Seq<int>,
    q: Seq<String>,
    p: Seq<String>,
)
    requires
        walk_ok(t, q.drop_last(), ks, ks[0]),
        q.len() == ks.len() + 1,
        q.last()@ == t.node@,
        p.len() == q.len(),
        forall|i: int| 0 <= i < p.len() ==> #[trigger] p[i] == q[q.len() - 1 - i],
    ensures
        forall|i: int|
            #![trigger p[i]]
            1 <= i < p.len() ==> exists|k: int|
                0 <= k < t.edges@.len() && (#[trigger] t.edges@[k]).node@ == p[i]@ && t.edges@[
                k].previous@ == p[i - 1]@,
{
    assert forall|i: int| #![trigger p[i]] 1 <= i < p.len() implies exists|k: int|
        0 <= k < t.edges@.len() && (#[trigger] t.edges@[k]).node@ == p[i]@ && t.edges@[
        k].previous@ == p[i - 1]@ by {
        let j = q.len() - 1 - i;
        assert(p[i] == q[j]);
        assert(p[i - 1] == q[j + 1]);
        assert(0 <= j < ks.len());
        let k = ks[j];
        lemma_chain_ok_at(t, ks, j);
        assert(q[j] == q.drop_last()[j]);
        assert(t.edges@[k].node@ == q[j]@);
        if j < ks.len() - 1 {
            assert(t.edges@[k].previous@ == t.edges@[ks[j + 1]].node@);
            assert(q[j + 1] == q.drop_last()[j + 1]);
        } else {
            assert(t.edges@[k].previous@ == t.node@);
        }
    }
}

/// Accumulates the backward walk from the record at slot `k0` up to (not
/// including) the tree's root, returning the visited names and, as ghost
/// data, their record slots.
#[verifier::rlimit(100)]
fn walk_records(t: &ShortestPathTreeString, k0: usize) -> (r: (Vec<String>, Ghost<Seq<int>>))
    requires
        tree_string_wf(*t),
        (k0 as int) < t.edges@.len(),
    ensures
        walk_ok(*t, r.0@, r.1@, k0 as int),
{
    let ghost tv = *t;
    let edges = &t.edges;
    let from = &t.node;
    let mut path: Vec<String> = Vec::new();
    path.push(edges[k0].node.clone());
    let mut prev_name = edges[k0].previous.clone();
    let ghost mut ks: Seq<int> = seq![k0 as int];
    let ghost mut kprev: int = k0 as int;
    proof {
        if edges@[k0 as int].node@ != tv.node@ {
            assert(tree_has(tv, prev_name@));
            kprev = tree_idx(tv, prev_name@);
        }
        assert(chain_ok(tv, Seq::<int>::empty()));
        assert(chain_ok(tv, ks)) by {
            assert(ks.drop_last() =~= Seq::<int>::empty());
        }
    }
    while !prev_name.eq(from)
        invariant
            tv == *t,
            tree_string_wf(tv),
            edges@ == tv.edges@,
            from@ == tv.node@,
            path@.len() == ks.len(),
            ks.len() >= 1,
            ks[0] == k0 as int,
            chain_ok(tv, ks),
            forall|i: int|
                0 <= i < ks.len() ==> (#[trigger] path@[i])@ == tv.edges@[ks[i]].node@
                    && 0 <= ks[i] < tv.edges@.len(),
            0 <= ks.last() < tv.edges@.len(),
            tv.edges@[ks.last()].previous@ == prev_name@,
            prev_name@ != tv.node@ ==> tree_has(tv, prev_name@) && 0 <= kprev < tv.edges@.len()
                && tv.edges@[kprev].node@ == prev_name@,
        decreases (if prev_name@ != tv.node@ {
            tv.edges@[kprev].distance as int
        } else {
            0
        }),
    {
        let found2 = find_record(edges, &prev_name);
        let k = match found2 {
            Some(k) => k,
            None => {
                proof {
                    assert(tree_has(tv, prev_name@));
                    let ki = tree_idx(tv, prev_name@);
                    assert(tv.edges@[ki].node@ == prev_name@);
                    assert(false);
                }
                return (path, Ghost(ks));
            },
        };
        proof {
            assert(tv.edges@[k as int].node@ == prev_name@);
            assert(tv.edges@[k as int].node@ != tv.node@);
            assert(k as int == kprev) by {
                if k as int != kprev {
                    if (k as int) < kprev {
                        assert(tv.edges@[k as int].node@ != tv.edges@[kprev].node@);
                    } else {
                        assert(tv.edges@[kprev].node@ != tv.edges@[k as int].node@);
                    }
                }
            }
            assert(tv.edges@[ks.last()].previous@ == tv.edges@[k as int].node@);
            lemma_chain_push(tv, ks, k as int);
        }
        path.push(prev_name.clone());
        prev_name = edges[k].previous.clone();
        proof {
            let ks_old = ks;
            ks = ks.push(k as int);
            assert(ks.drop_last() =~= ks_old);
            assert forall|i: int|
                0 <= i < ks.len() implies (#[trigger] path@[i])@ == tv.edges@[ks[i]].node@ && 0
                <= ks[i] < tv.edges@.len() by {
                if i < ks.len() - 1 {
                    assert(path@[i] == path@.drop_last()[i]);
                    assert(ks[i] == ks_old[i]);
                }
            }
            if prev_name@ != tv.node@ {
                assert(tree_has(tv, prev_name@));
                kprev = tree_idx(tv, prev_name@);
                assert(tv.edges@[kprev].node@ == prev_name@);
                assert(kprev == k as int || tv.edges@[kprev].distance == tree_dist(
                    tv,
                    prev_name@,
                ));
                assert(tree_dist(tv, prev_name@) < tv.edges@[k as int].distance);
            }
        }
    }
    proof {
        assert(prev_name@ == from@);
        assert(walk_ok(tv, path@, ks, k0 as int));
    }
    let result = (path, Ghost(ks));
    proof {
        assert(result.0@ == path@ && result.1@ == ks && tv == *t);
        assert(walk_ok(*t, result.0@, result.1@, k0 as int));
    }
    result
}

/// Walks a shortest-path tree backward from `to` to the tree's root,
/// returning the ordered path and the recorded distance; `None` when the
/// tree holds no record for `to`.
#[verifier::rlimit(100)]
pub fn shortest_path_from_tree_string(to: &str, shortest_path_tree: &ShortestPathTreeString) -> (r:
    Option<ShortestPathString>)
    requires
        tree_string_wf(*shortest_path_tree),
    ensures
        r.is_some() <==> tree_has(*shortest_path_tree, to@),
        r.is_some() ==> ({
            let p = r.unwrap();
            &&& p.from@ == shortest_path_tree.node@
            &&& p.to@ == to@
            &&& p.distance == tree_dist(*shortest_path_tree, to@)
            &&& p.path@.len() >= 2
            &&& p.path@[0]@ == shortest_path_tree.node@
            &&& p.path@.last()@ == to@
            &&& forall|i: int|
                #![trigger p.path@[i]]
                1 <= i < p.path@.len() ==> exists|k: int|
                    0 <= k < shortest_path_tree.edges@.len() && (
                    #[trigger] shortest_path_tree.edges@[k]).node@ == p.path@[i]@
                        && shortest_path_tree.edges@[k].previous@ == p.path@[i - 1]@
        }),
{
    let t = shortest_path_tree;
    let ghost tv = *shortest_path_tree;
    let to_string = to.to_owned();
    let found = find_record(&t.edges, &to_string);
    if found.is_none() {
        return None;
    }
    let k0 = found.unwrap();
    proof {
        lemma_tree_idx(tv, k0 as int);
    }
    let distance = t.edges[k0].distance;
    let (walked, ks_ghost) = walk_records(t, k0);
    let ghost ks = ks_ghost@;
    let ghost walked_view = walked@;
    let mut path = walked;
    path.push(t.node.clone());
    let ghost q = path@;
    let path2 = reversed_names(path);
    let result = ShortestPathString {
        from: t.node.clone(),
        to: to.to_owned(),
        distance,
        path: path2,
    };
    proof {
        let p = result.path@;
        assert(p.len() == q.len() && q.len() >= 2);
        assert(q.last()@ == tv.node@);
        assert(q.drop_last() =~= walked_view);
        assert(walk_ok(tv, q.drop_last(), ks, ks[0]));
        assert(q[0]@ == to@) by {
            assert(q[0] == q.drop_last()[0]);
        }
        lemma_walker_ensures(tv, ks, q, p);
        assert(p[0] == q[q.len() - 1]);
        assert(p.last() == q[0]);
    }
    Some(result)
}

// ---------------------------------------------------------------------------
// Properties of the trees
// ---------------------------------------------------------------------------

/// Triangle inequality of a shortest-path tree: no recorded distance
/// exceeds a neighbour's recorded distance plus the weight of the
/// connecting edge.
pub proof fn lemma_tree_triangle_inequality(
    g: GraphView,
    s: Seq<char>,
    t: ShortestPathTreeString,
    k1: int,
    k2: int,
)
    requires
        graph_wf(g),
        tree_string_ok(g, s, t),
        0 <= k1 < t.edges@.len(),
        0 <= k2 < t.edges@.len(),
        g_edge(g, t.edges@[k2].node@, t.edges@[k1].node@),
    ensures
        t.edges@[k1].distance <= t.edges@[k2].distance + g_weight(
            g,
            t.edges@[k2].node@,
            t.edges@[k1].node@,
        ),
{
    let a = t.edges@[k2].node@;
    let b = t.edges@[k1].node@;
    let d1 = t.edges@[k1].distance as int;
    let d2 = t.edges@[k2].distance as int;
    let w = g_weight(g, a, b) as int;
    assert(n_distance_is(g, s, a, d2));
    assert(n_distance_is(g, s, b, d1));
    lemma_n_reachable_step(g, s, a, b, d2);
    if d1 > d2 + w {
        lemma_n_within_mono(g, s, b, d2 + w, d1 - 1);
    }
}

/// Agreement of two trees built over the same graph and source: they hold
/// the same nodes with the same distances.  In particular the distances a
/// tree records are wholly determined by the graph and the source.
pub proof fn lemma_representation_agreement(
    g: GraphView,
    s: Seq<char>,
    t1: ShortestPathTreeString,
    t2: ShortestPathTreeString,
)
    requires
        graph_wf(g),
        tree_string_ok(g, s, t1),
        tree_string_ok(g, s, t2),
    ensures
        forall|k: int|
            0 <= k < t1.edges@.len() ==> tree_has(t2, (#[trigger] t1.edges@[k]).node@) && tree_dist(
                t2,
                t1.edges@[k].node@,
            ) == t1.edges@[k].distance,
        forall|k: int|
            0 <= k < t2.edges@.len() ==> tree_has(t1, (#[trigger] t2.edges@[k]).node@) && tree_dist(
                t1,
                t2.edges@[k].node@,
            ) == t2.edges@[k].distance,
{
    lemma_tree_agreement_one_way(g, s, t1, t2);
    lemma_tree_agreement_one_way(g, s, t2, t1);
}

proof fn lemma_tree_agreement_one_way(
    g: GraphView,
    s: Seq<char>,
    t1: ShortestPathTreeString,
    t2: ShortestPathTreeString,
)
    requires
        graph_wf(g),
        tree_string_ok(g, s, t1),
        tree_string_ok(g, s, t2),
    ensures
        forall|k: int|
            0 <= k < t1.edges@.len() ==> tree_has(t2, (#[trigger] t1.edges@[k]).node@) && tree_dist(
                t2,
                t1.edges@[k].node@,
            ) == t1.edges@[k].distance,
{
    assert forall|k: int| 0 <= k < t1.edges@.len() implies tree_has(
        t2,
        (#[trigger] t1.edges@[k]).node@,
    ) && tree_dist(t2, t1.edges@[k].node@) == t1.edges@[k].distance by {
        let x = t1.edges@[k].node@;
        let d = t1.edges@[k].distance as int;
        assert(n_distance_is(g, s, x, d));
        assert(n_reachable(g, s, x)) by {
            let p = choose|p: Seq<Seq<char>>| n_connects(g, p, s, x) && n_path_weight(g, p) <= d;
            assert(n_connects(g, p, s, x));
        }
        assert(tree_has(t2, x));
        let k2 = tree_idx(t2, x);
        assert(0 <= k2 < t2.edges@.len() && t2.edges@[k2].node@ == x);
        assert(n_distance_is(g, s, x, t2.edges@[k2].distance as int));
        lemma_n_distance_unique(g, s, x, d, t2.edges@[k2].distance as int);
    }
}

/// Agreement between a dense-matrix tree and a name-keyed tree over the
/// same graph: a node's record is finite exactly when the name-keyed tree
/// holds its name, and then the distances are equal.
pub proof fn lemma_matrix_tree_agreement(
    g: GraphView,
    ns: Seq<Seq<char>>,
    mv: Seq<Seq<u32>>,
    s_idx: int,
    recs: Seq<ShortestPathTreeNode>,
    t: ShortestPathTreeString,
)
    requires
        graph_wf(g),
        matrix_matches(g, ns, mv),
        0 <= s_idx < ns.len(),
        spt_tree_ok(mv, s_idx, recs),
        tree_string_ok(g, ns[s_idx], t),
    ensures
        forall|i: int|
            0 <= i < recs.len() ==> ((#[trigger] recs[i]).distance < u32::MAX <==> tree_has(
                t,
                ns[i],
            )),
        forall|i: int|
            0 <= i < recs.len() && (#[trigger] recs[i]).distance < u32::MAX ==> tree_dist(t, ns[i])
                == recs[i].distance,
{
    assert forall|i: int| 0 <= i < recs.len() implies ((#[trigger] recs[i]).distance < u32::MAX
        <==> tree_has(t, ns[i])) && (recs[i].distance < u32::MAX ==> tree_dist(t, ns[i]) == recs[
        i].distance) by {
        lemma_reachable_iso(g, ns, mv, s_idx, i, 0);
        if recs[i].distance < u32::MAX {
            lemma_distance_iso(g, ns, mv, s_idx, i, recs[i].distance as int);
            assert(n_distance_is(g, ns[s_idx], ns[i], recs[i].distance as int));
            assert(n_reachable(g, ns[s_idx], ns[i])) by {
                let p = choose|p: Seq<Seq<char>>|
                    n_connects(g, p, ns[s_idx], ns[i]) && n_path_weight(g, p) <= recs[i].distance;
                assert(n_connects(g, p, ns[s_idx], ns[i]));
            }
            assert(ns.contains(ns[i]));
            assert(tree_has(t, ns[i]));
            let k2 = tree_idx(t, ns[i]);
            assert(n_distance_is(g, ns[s_idx], ns[i], t.edges@[k2].distance as int));
            lemma_n_distance_unique(
                g,
                ns[s_idx],
                ns[i],
                recs[i].distance as int,
                t.edges@[k2].distance as int,
            );
        } else {
            assert(!m_reachable(mv, s_idx, i));
            if tree_has(t, ns[i]) {
                let k2 = tree_idx(t, ns[i]);
                let d = t.edges@[k2].distance as int;
                assert(n_distance_is(g, ns[s_idx], ns[i], d));
                lemma_reachable_iso(g, ns, mv, s_idx, i, d);
                assert(n_reachable_within(g, ns[s_idx], ns[i], d));
                assert(m_reachable_within(mv, s_idx, i, d));
                let p = choose|p: Seq<int>|
                    m_connects(mv, p, s_idx, i) && m_path_weight(mv, p) <= d;
                assert(m_connects(mv, p, s_idx, i));
                assert(false);
            }
        }
    }
}

/// Symmetry of shortest distances: whatever exact distance holds from `a`
/// to `b` also holds from `b` to `a`.
pub proof fn lemma_shortest_path_symmetry(
    g: GraphView,
    a: Seq<char>,
    b: Seq<char>,
    dab: int,
    dba: int,
)
    requires
        graph_wf(g),
        n_distance_is(g, a, b, dab),
        n_distance_is(g, b, a, dba),
    ensures
        dab == dba,
{
    lemma_n_reachable_sym(g, a, b, dab);
    assert(n_reachable_within(g, b, a, dab));
    if dab < dba {
        lemma_n_within_mono(g, b, a, dab, dba - 1);
    }
    if dba < dab {
        lemma_n_reachable_sym(g, b, a, dba);
        lemma_n_within_mono(g, a, b, dba, dab - 1);
    }
}

/// The exact shortest path between two named nodes of the name-keyed
/// graph: `None` when either node is missing or no path connects them.
pub fn shortest_path_from_map_graph(graph_map: &GraphMap, from: &str, to: &str) -> (r: Option<
    ShortestPathString,
>)
    requires
        graph_map.wf(),
        graph_map.spec_node_count() < usize::MAX,
        graph_weights_fit(graph_map@, graph_map.spec_node_count()),
    ensures
        r.is_some() <==> graph_map@.dom().contains(from@) && graph_map@.dom().contains(to@)
            && n_reachable(graph_map@, from@, to@),
        r.is_some() ==> ({
            let p = r.unwrap();
            &&& p.from@ == from@
            &&& p.to@ == to@
            &&& n_distance_is(graph_map@, from@, to@, p.distance as int)
            &&& p.path@.len() >= 2
            &&& p.path@[0]@ == from@
            &&& p.path@.last()@ == to@
        }),
{
    let ghost g = graph_map@;
    let from_string = from.to_owned();
    let to_string = to.to_owned();
    let has_from = find_node(&graph_map.adj, &from_string);
    let has_to = find_node(&graph_map.adj, &to_string);
    proof {
        lemma_adj_view_dom(graph_map.adj@, from@);
        lemma_adj_view_dom(graph_map.adj@, to@);
    }
    if has_from.is_none() || has_to.is_none() {
        return None;
    }
    let tree_option = shortest_path_tree_from_map_graph(graph_map, from);
    let tree = tree_option.unwrap();
    let walked = shortest_path_from_tree_string(to, &tree);
    proof {
        if tree_has(tree, to@) {
            let k = tree_idx(tree, to@);
            assert(n_distance_is(g, from@, to@, tree.edges@[k].distance as int));
            assert(n_reachable(g, from@, to@)) by {
                let d = tree.edges@[k].distance as int;
                let p = choose|p: Seq<Seq<char>>|
                    n_connects(g, p, from@, to@) && n_path_weight(g, p) <= d;
                assert(n_connects(g, p, from@, to@));
            }
            assert(tree_dist(tree, to@) == tree.edges@[k].distance);
        } else {
            if n_reachable(g, from@, to@) {
                assert(tree_has(tree, to@));
            }
        }
    }
    walked
}

} // verus!
