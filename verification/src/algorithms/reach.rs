use vstd::prelude::*;

use crate::graph::Node;

verus! {

/// The nodes that an edge leads to from a node of `set`.
pub open spec fn successors(nodes: Seq<Node>, set: Set<usize>) -> Set<usize> {
    Set::new(
        |t: usize|
            exists|u: usize, k: int|
                set.contains(u) && 0 <= u < nodes.len() && 0 <= k < nodes[u as int].connections@.len()
                    && (#[trigger] nodes[u as int].connections@[k]).to.0 == t,
    )
}

/// The nodes that a walk of at most `k` steps from `start` can reach.
pub open spec fn within(nodes: Seq<Node>, start: usize, k: nat) -> Set<usize>
    decreases k,
{
    if k == 0 {
        set![start]
    } else {
        within(nodes, start, (k - 1) as nat).union(successors(nodes, within(nodes, start, (k - 1) as nat)))
    }
}

/// A step along an edge from a node reachable in `k` steps reaches a node
/// reachable in `k + 1` steps.
pub proof fn lemma_within_step(nodes: Seq<Node>, start: usize, k: nat, u: usize, e: int)
    requires
        within(nodes, start, k).contains(u),
        u < nodes.len(),
        0 <= e < nodes[u as int].connections@.len(),
    ensures
        within(nodes, start, k + 1).contains(nodes[u as int].connections@[e].to.0),
{
    let t = nodes[u as int].connections@[e].to.0;
    assert(successors(nodes, within(nodes, start, k)).contains(t));
}

/// Reaching in fewer steps is reaching in more.
pub proof fn lemma_within_monotone(nodes: Seq<Node>, start: usize, i: nat, j: nat)
    requires
        i <= j,
    ensures
        within(nodes, start, i).subset_of(within(nodes, start, j)),
    decreases j - i,
{
    if i < j {
        lemma_within_monotone(nodes, start, i, (j - 1) as nat);
    }
}

/// Node `u` of the graph has an outgoing edge to `v`.
pub open spec fn edge_step(nodes: Seq<Node>, u: usize, v: usize) -> bool {
    u < nodes.len() && exists|k: int|
        0 <= k < nodes[u as int].connections@.len() && (#[trigger] nodes[u as int].connections@[k]).to.0 == v
}

/// `path` starts at `start` and each of its nodes has an edge to the next.
pub open spec fn is_edge_path(nodes: Seq<Node>, start: usize, path: Seq<usize>) -> bool {
    &&& path.len() >= 1
    &&& path[0] == start
    &&& forall|i: int| 0 <= i < path.len() - 1 ==> #[trigger] edge_step(nodes, path[i], path[i + 1])
}

proof fn lemma_path_within(nodes: Seq<Node>, start: usize, path: Seq<usize>)
    requires
        is_edge_path(nodes, start, path),
    ensures
        within(nodes, start, (path.len() - 1) as nat).contains(path.last()),
    decreases path.len(),
{
    if path.len() > 1 {
        let pre = path.drop_last();
        assert forall|i: int| 0 <= i < pre.len() - 1 implies #[trigger] edge_step(nodes, pre[i], pre[i + 1]) by {
            assert(edge_step(nodes, path[i], path[i + 1]));
        }
        lemma_path_within(nodes, start, pre);
        let u = pre.last();
        let n = path.len() - 1;
        let i = n - 1;
        assert(edge_step(nodes, path[i], path[i + 1]));
        assert(path[i] == u && path[i + 1] == path.last());
        let k = choose|k: int|
            0 <= k < nodes[u as int].connections@.len() && (#[trigger] nodes[u as int].connections@[k]).to.0 == path.last();
        lemma_within_step(nodes, start, (n - 1) as nat, u, k);
    }
}

proof fn lemma_within_has_path(nodes: Seq<Node>, start: usize, k: nat, v: usize)
    requires
        within(nodes, start, k).contains(v),
    ensures
        exists|path: Seq<usize>| #[trigger] is_edge_path(nodes, start, path) && path.len() <= k + 1 && path.last() == v,
    decreases k,
{
    if k == 0 {
        let p = seq![start];
        assert(is_edge_path(nodes, start, p));
    } else {
        let prev = within(nodes, start, (k - 1) as nat);
        if prev.contains(v) {
            lemma_within_has_path(nodes, start, (k - 1) as nat, v);
        } else {
            assert(successors(nodes, prev).contains(v));
            let (u, e) = choose|u: usize, e: int|
                prev.contains(u) && 0 <= u < nodes.len() && 0 <= e < nodes[u as int].connections@.len()
                    && (#[trigger] nodes[u as int].connections@[e]).to.0 == v;
            lemma_within_has_path(nodes, start, (k - 1) as nat, u);
            let p = choose|p: Seq<usize>| #[trigger] is_edge_path(nodes, start, p) && p.len() <= k && p.last() == u;
            let q = p.push(v);
            assert(edge_step(nodes, u, v));
            assert forall|i: int| 0 <= i < q.len() - 1 implies #[trigger] edge_step(nodes, q[i], q[i + 1]) by {
                if i < p.len() - 1 {
                    assert(q[i] == p[i] && q[i + 1] == p[i + 1]);
                    assert(edge_step(nodes, p[i], p[i + 1]));
                } else {
                    assert(q[i] == u && q[i + 1] == v);
                }
            }
            assert(is_edge_path(nodes, start, q));
        }
    }
}

/// A node is reachable in at most `k` steps exactly when some path along
/// edges from `start`, of at most `k` edges, ends at it.
pub proof fn lemma_within_means_paths(nodes: Seq<Node>, start: usize, k: nat, v: usize)
    ensures
        within(nodes, start, k).contains(v) <==> exists|path: Seq<usize>|
            #[trigger] is_edge_path(nodes, start, path) && path.len() <= k + 1 && path.last() == v,
{
    if within(nodes, start, k).contains(v) {
        lemma_within_has_path(nodes, start, k, v);
    }
    if exists|path: Seq<usize>| #[trigger] is_edge_path(nodes, start, path) && path.len() <= k + 1 && path.last() == v {
        let p = choose|p: Seq<usize>| #[trigger] is_edge_path(nodes, start, p) && p.len() <= k + 1 && p.last() == v;
        lemma_path_within(nodes, start, p);
        lemma_within_monotone(nodes, start, (p.len() - 1) as nat, k);
    }
}

} // verus!
