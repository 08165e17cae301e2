use vstd::prelude::*;
use std::collections::{HashMap, VecDeque};

use crate::algorithms::reach::{lemma_within_monotone, lemma_within_step, successors, within};
use crate::algorithms::walkers::is_walk;
use crate::graph::{Edge, HeteroDiGraph, Node, NodeRef, RawNodeRef};

verus! {

broadcast use vstd::std_specs::hash::group_hash_axioms;

/// `d` is the least number of steps in which a walk from `start` reaches `v`.
pub open spec fn is_level(nodes: Seq<Node>, start: usize, v: usize, d: nat) -> bool {
    &&& within(nodes, start, d).contains(v)
    &&& (d == 0 || !within(nodes, start, (d - 1) as nat).contains(v))
}

/// `m` maps each node within `max_hops` steps of `start` to its hop distance, and holds no other node.
pub open spec fn hop_distances(nodes: Seq<Node>, start: usize, max_hops: usize, m: Map<usize, usize>) -> bool {
    &&& forall|v: usize| #[trigger] m.contains_key(v) <==> within(nodes, start, max_hops as nat).contains(v)
    &&& forall|v: usize| #[trigger] m.contains_key(v) ==> is_level(nodes, start, v, m[v] as nat)
}

/// A node has one hop distance.
pub proof fn lemma_level_unique(nodes: Seq<Node>, start: usize, v: usize, d1: nat, d2: nat)
    requires
        is_level(nodes, start, v, d1),
        is_level(nodes, start, v, d2),
    ensures
        d1 == d2,
{
    if d1 < d2 {
        lemma_within_monotone(nodes, start, d1, (d2 - 1) as nat);
    } else if d2 < d1 {
        lemma_within_monotone(nodes, start, d2, (d1 - 1) as nat);
    }
}

proof fn lemma_level_bound(nodes: Seq<Node>, start: usize, u: usize, du: nat, k: nat)
    requires
        is_level(nodes, start, u, du),
        within(nodes, start, k).contains(u),
    ensures
        du <= k,
{
    if du > k {
        lemma_within_monotone(nodes, start, k, (du - 1) as nat);
    }
}

/// Every node reachable in `k + 1` steps is reachable in `k` steps or is a
/// successor of one that is.
proof fn lemma_within_unfold(nodes: Seq<Node>, start: usize, k: nat, x: usize)
    requires
        within(nodes, start, k + 1).contains(x),
    ensures
        within(nodes, start, k).contains(x) || successors(nodes, within(nodes, start, k)).contains(x),
{
}

//////////////////////////////////////////////////////////////////////////////////////////////////
// The state of the search
//////////////////////////////////////////////////////////////////////////////////////////////////

pub open spec fn queue_ok(nodes: Seq<Node>, start: usize, max_hops: usize, q: Seq<(usize, usize)>) -> bool {
    &&& forall|i: int|
        0 <= i < q.len() ==> (#[trigger] q[i]).0 < nodes.len() && within(nodes, start, q[i].1 as nat).contains(q[i].0)
            && q[i].1 <= max_hops
    &&& forall|i: int, j: int| 0 <= i <= j < q.len() ==> (#[trigger] q[i]).1 <= (#[trigger] q[j]).1
    &&& q.len() > 0 ==> q.last().1 <= q[0].1 + 1
}

pub open spec fn found_ok(nodes: Seq<Node>, start: usize, max_hops: usize, d: Map<usize, usize>) -> bool {
    forall|v: usize|
        #[trigger] d.contains_key(v) ==> v < nodes.len() && is_level(nodes, start, v, d[v] as nat) && d[v]
            <= max_hops
}

pub open spec fn below_front(d: Map<usize, usize>, q: Seq<(usize, usize)>) -> bool {
    q.len() > 0 ==> forall|v: usize| #[trigger] d.contains_key(v) ==> d[v] <= q[0].1
}

/// Each successor of a found node within the limit is found or waits in the queue one step further.
pub open spec fn closed(nodes: Seq<Node>, max_hops: usize, d: Map<usize, usize>, q: Seq<(usize, usize)>) -> bool {
    forall|u: usize, k: int|
        #![trigger d.contains_key(u), nodes[u as int].connections@[k]]
        d.contains_key(u) && d[u] < max_hops && u < nodes.len() && 0 <= k < nodes[u as int].connections@.len() ==> {
            let w = nodes[u as int].connections@[k].to.0;
            d.contains_key(w) || exists|j: int| 0 <= j < q.len() && #[trigger] q[j] == (w, (d[u] + 1) as usize)
        }
}

pub open spec fn start_ok(start: usize, d: Map<usize, usize>, q: Seq<(usize, usize)>) -> bool {
    d.contains_key(start) || (q.len() > 0 && q[0] == (start, 0usize))
}

pub open spec fn search_ok(nodes: Seq<Node>, start: usize, max_hops: usize, d: Map<usize, usize>, q: Seq<(usize, usize)>) -> bool {
    &&& queue_ok(nodes, start, max_hops, q)
    &&& found_ok(nodes, start, max_hops, d)
    &&& below_front(d, q)
    &&& closed(nodes, max_hops, d, q)
    &&& start_ok(start, d, q)
}

/// The total degree of the nodes below `k` that are not yet found.
pub open spec fn unfound_degree(nodes: Seq<Node>, d: Map<usize, usize>, k: int) -> nat
    decreases k,
{
    if k <= 0 {
        0
    } else {
        unfound_degree(nodes, d, k - 1) + if d.contains_key((k - 1) as usize) {
            0nat
        } else {
            nodes[k - 1].connections@.len()
        }
    }
}

proof fn lemma_unfound_degree_insert(nodes: Seq<Node>, d: Map<usize, usize>, v: usize, x: usize, k: int)
    requires
        !d.contains_key(v),
        0 <= k <= nodes.len(),
        nodes.len() <= usize::MAX,
    ensures
        unfound_degree(nodes, d.insert(v, x), k) + (if v < k {
            nodes[v as int].connections@.len()
        } else {
            0
        }) == unfound_degree(nodes, d, k),
    decreases k,
{
    if k > 0 {
        lemma_unfound_degree_insert(nodes, d, v, x, k - 1);
    }
}

/// Before the node at the front of the queue is taken, every node reachable
/// in fewer steps than its distance has been found.
proof fn lemma_found_below(nodes: Seq<Node>, start: usize, max_hops: usize, d: Map<usize, usize>, q: Seq<(usize, usize)>, k: nat)
    requires
        search_ok(nodes, start, max_hops, d, q),
        q.len() > 0,
        k < q[0].1,
    ensures
        forall|x: usize| #[trigger] within(nodes, start, k).contains(x) ==> d.contains_key(x),
    decreases k,
{
    let front = q[0].1;
    assert(d.contains_key(start)) by {
        if !d.contains_key(start) {
            assert(q[0] == (start, 0usize));
        }
    }
    if k == 0 {
        assert forall|x: usize| #[trigger] within(nodes, start, k).contains(x) implies d.contains_key(x) by {
            assert(x == start);
        }
    } else {
        lemma_found_below(nodes, start, max_hops, d, q, (k - 1) as nat);
        assert forall|x: usize| #[trigger] within(nodes, start, k).contains(x) implies d.contains_key(x) by {
            lemma_within_unfold(nodes, start, (k - 1) as nat, x);
            if !within(nodes, start, (k - 1) as nat).contains(x) {
                let (u, e) = choose|u: usize, e: int|
                    within(nodes, start, (k - 1) as nat).contains(u) && 0 <= u < nodes.len() && 0 <= e
                        < nodes[u as int].connections@.len() && (#[trigger] nodes[u as int].connections@[e]).to.0 == x;
                assert(d.contains_key(u));
                lemma_level_bound(nodes, start, u, d[u] as nat, (k - 1) as nat);
                assert(d[u] <= front);
                if !d.contains_key(x) {
                    assert(d[u] < max_hops) by {
                        assert(q[0].1 <= max_hops);
                    }
                    let j = choose|j: int| 0 <= j < q.len() && #[trigger] q[j] == (x, (d[u] + 1) as usize);
                    assert(q[0].1 <= q[j].1);
                }
            }
        }
    }
}

/// With the queue empty, every node within the limit has been found.
proof fn lemma_found_all(nodes: Seq<Node>, start: usize, max_hops: usize, d: Map<usize, usize>, k: nat)
    requires
        search_ok(nodes, start, max_hops, d, Seq::empty()),
        k <= max_hops,
    ensures
        forall|x: usize| #[trigger] within(nodes, start, k).contains(x) ==> d.contains_key(x),
    decreases k,
{
    if k == 0 {
        assert forall|x: usize| #[trigger] within(nodes, start, k).contains(x) implies d.contains_key(x) by {
            assert(x == start);
        }
    } else {
        lemma_found_all(nodes, start, max_hops, d, (k - 1) as nat);
        assert forall|x: usize| #[trigger] within(nodes, start, k).contains(x) implies d.contains_key(x) by {
            lemma_within_unfold(nodes, start, (k - 1) as nat, x);
            if !within(nodes, start, (k - 1) as nat).contains(x) {
                let (u, e) = choose|u: usize, e: int|
                    within(nodes, start, (k - 1) as nat).contains(u) && 0 <= u < nodes.len() && 0 <= e
                        < nodes[u as int].connections@.len() && (#[trigger] nodes[u as int].connections@[e]).to.0 == x;
                assert(d.contains_key(u));
                lemma_level_bound(nodes, start, u, d[u] as nat, (k - 1) as nat);
            }
        }
    }
}

//////////////////////////////////////////////////////////////////////////////////////////////////
// Breadth-first search
//////////////////////////////////////////////////////////////////////////////////////////////////

impl HeteroDiGraph {
    /// The hop distance from `start` of each node at most `max_hops` steps away.
    pub fn hop_distances_from(&self, start: usize, max_hops: usize) -> (r: HashMap<usize, usize>)
        requires
            self.wf(),
            start < self.nodes@.len(),
        ensures
            hop_distances(self.nodes@, start, max_hops, r@),
    {
        let ghost nodes = self.nodes@;
        let mut distances: HashMap<usize, usize> = HashMap::new();
        let mut queue: VecDeque<(usize, usize)> = VecDeque::new();
        queue.push_back((start, 0));
        assert(queue_ok(nodes, start, max_hops, queue@)) by {
            assert(queue@[0] == (start, 0usize));
        }
        while queue.len() > 0
            invariant
                self.wf(),
                nodes == self.nodes@,
                start < nodes.len(),
                search_ok(nodes, start, max_hops, distances@, queue@),
            decreases unfound_degree(nodes, distances@, nodes.len() as int) + queue@.len(),
        {
            let ghost q0 = queue@;
            let ghost d0 = distances@;
            let (node, dist) = queue.pop_front().unwrap();
            assert(queue@ =~= q0.drop_first());
            if distances.contains_key(&node) {
                proof {
                    assert forall|u: usize, k: int|
                        #![trigger distances@.contains_key(u), nodes[u as int].connections@[k]]
                        distances@.contains_key(u) && distances@[u] < max_hops && u < nodes.len() && 0 <= k
                            < nodes[u as int].connections@.len() implies {
                            let w = nodes[u as int].connections@[k].to.0;
                            distances@.contains_key(w) || exists|j: int| 0 <= j < queue@.len() && #[trigger] queue@[j] == (w, (distances@[u] + 1) as usize)
                        } by {
                        let w = nodes[u as int].connections@[k].to.0;
                        if !distances@.contains_key(w) {
                            let j = choose|j: int| 0 <= j < q0.len() && #[trigger] q0[j] == (w, (d0[u] + 1) as usize);
                            assert(j != 0);
                            assert(queue@[j - 1] == q0[j]);
                        }
                    }
                    if queue@.len() > 0 {
                        assert(q0[0].1 <= q0[1].1);
                        assert(queue@[0] == q0[1]);
                        assert(queue@.last() == q0.last());
                    }
                    assert forall|i: int, j: int| 0 <= i <= j < queue@.len() implies (#[trigger] queue@[i]).1 <= (#[trigger] queue@[j]).1 by {
                        assert(queue@[i] == q0[i + 1]);
                        assert(queue@[j] == q0[j + 1]);
                    }
                    assert forall|i: int| 0 <= i < queue@.len() implies (#[trigger] queue@[i]).0 < nodes.len() && within(nodes, start, queue@[i].1 as nat).contains(queue@[i].0)
                        && queue@[i].1 <= max_hops by {
                        assert(queue@[i] == q0[i + 1]);
                    }
                }
            } else {
                proof {
                    assert(is_level(nodes, start, node, dist as nat)) by {
                        if dist > 0 && within(nodes, start, (dist - 1) as nat).contains(node) {
                            lemma_found_below(nodes, start, max_hops, d0, q0, (dist - 1) as nat);
                        }
                    }
                    assert(nodes.len() == self.nodes.len());
                    lemma_unfound_degree_insert(nodes, d0, node, dist, nodes.len() as int);
                }
                distances.insert(node, dist);
                let ghost mut added: Seq<(usize, usize)> = Seq::empty();
                if dist < max_hops {
                    assert(self.node_wf(node as int));
                    let conns = &self.nodes[node].connections;
                    let ghost q1 = queue@;
                    let mut k: usize = 0;
                    while k < conns.len()
                        invariant
                            self.wf(),
                            nodes == self.nodes@,
                            conns == &nodes[node as int].connections,
                            node < nodes.len(),
                            dist < max_hops,
                            within(nodes, start, dist as nat).contains(node),
                            k <= conns@.len(),
                            queue@.len() == q1.len() + k,
                            forall|i: int| 0 <= i < q1.len() ==> #[trigger] queue@[i] == q1[i],
                            forall|i: int|
                                0 <= i < k ==> #[trigger] queue@[q1.len() + i] == (conns@[i].to.0, (dist + 1) as usize),
                        decreases conns.len() - k,
                    {
                        queue.push_back((conns[k].to.0, dist + 1));
                        k = k + 1;
                    }
                    proof {
                        added = conns@.map_values(|c: Edge| (c.to.0, (dist + 1) as usize));
                        assert forall|i: int| 0 <= i < added.len() implies queue@[q1.len() + i] == added[i] by {
                            assert(queue@[q1.len() + i] == (conns@[i].to.0, (dist + 1) as usize));
                        }
                        assert(queue@ =~= q1 + added);
                    }
                }
                assert(queue@ =~= q0.drop_first() + added);
                proof {
                    let q = queue@;
                    let d = distances@;
                    assert forall|i: int|
                        0 <= i < q.len() implies (#[trigger] q[i]).0 < nodes.len() && within(nodes, start, q[i].1 as nat).contains(q[i].0)
                            && q[i].1 <= max_hops by {
                        if i < q0.len() - 1 {
                            assert(q[i] == q0[i + 1]);
                        } else {
                            let e = i - (q0.len() - 1);
                            assert(q[i] == added[e]);
                            assert(self.node_wf(node as int));
                            lemma_within_step(nodes, start, dist as nat, node, e);
                        }
                    }
                    assert forall|i: int, j: int| 0 <= i <= j < q.len() implies (#[trigger] q[i]).1 <= (#[trigger] q[j]).1 by {
                        if j < q0.len() - 1 {
                            assert(q[i] == q0[i + 1]);
                            assert(q[j] == q0[j + 1]);
                        } else if i < q0.len() - 1 {
                            assert(q[i] == q0[i + 1]);
                            assert(q0[0].1 <= q0[q0.len() - 1].1);
                        }
                    }
                    if q.len() > 0 {
                        if q0.len() > 1 {
                            assert(q[0] == q0[1]);
                            assert(q0[0].1 <= q0[1].1);
                            assert(q0[1].1 <= q0[q0.len() - 1].1);
                        }
                    }
                    assert forall|v: usize| #[trigger] d.contains_key(v) implies v < nodes.len() && is_level(nodes, start, v, d[v] as nat) && d[v]
                        <= max_hops by {
                        if v != node {
                            assert(d0.contains_key(v));
                        }
                    }
                    if q.len() > 0 {
                        assert forall|v: usize| #[trigger] d.contains_key(v) implies d[v] <= q[0].1 by {
                            if q0.len() > 1 {
                                assert(q[0] == q0[1]);
                                assert(q0[0].1 <= q0[1].1);
                            }
                            if v != node {
                                assert(d0[v] <= q0[0].1);
                            }
                        }
                    }
                    assert forall|u: usize, k: int|
                        #![trigger d.contains_key(u), nodes[u as int].connections@[k]]
                        d.contains_key(u) && d[u] < max_hops && u < nodes.len() && 0 <= k < nodes[u as int].connections@.len() implies {
                            let w = nodes[u as int].connections@[k].to.0;
                            d.contains_key(w) || exists|j: int| 0 <= j < q.len() && #[trigger] q[j] == (w, (d[u] + 1) as usize)
                        } by {
                        let w = nodes[u as int].connections@[k].to.0;
                        if u == node {
                            let j = q0.len() - 1 + k;
                            assert(q[j] == added[k]);
                            assert(q[j] == (w, (dist + 1) as usize));
                        } else if !d.contains_key(w) {
                            assert(d0.contains_key(u));
                            let j = choose|j: int| 0 <= j < q0.len() && #[trigger] q0[j] == (w, (d0[u] + 1) as usize);
                            assert(j != 0);
                            assert(q[j - 1] == q0[j]);
                        }
                    }
                }
            }
        }
        proof {
            assert(queue@ =~= Seq::<(usize, usize)>::empty());
            lemma_found_all(nodes, start, max_hops, distances@, max_hops as nat);
            assert forall|v: usize| #[trigger] distances@.contains_key(v) implies within(nodes, start, max_hops as nat).contains(v) by {
                lemma_within_monotone(nodes, start, distances@[v] as nat, max_hops as nat);
            }
        }
        distances
    }

    /// For each node, in order, the hop distances of the nodes at most
    /// `max_hops` steps away from it.
    pub fn sparse_distance_matrix(&self, max_hops: usize) -> (r: Vec<HashMap<usize, usize>>)
        requires
            self.wf(),
        ensures
            r@.len() == self.nodes@.len(),
            forall|s: int| 0 <= s < r@.len() ==> hop_distances(self.nodes@, s as usize, max_hops, (#[trigger] r@[s])@),
    {
        let mut result: Vec<HashMap<usize, usize>> = Vec::new();
        let mut s: usize = 0;
        while s < self.nodes.len()
            invariant
                self.wf(),
                s <= self.nodes@.len(),
                result@.len() == s,
                forall|i: int| 0 <= i < s ==> hop_distances(self.nodes@, i as usize, max_hops, (#[trigger] result@[i])@),
            decreases self.nodes.len() - s,
        {
            result.push(self.hop_distances_from(s, max_hops));
            s = s + 1;
        }
        result
    }
}

/// The `i`-th node of a walk from `start` is reachable from `start` in `i` steps.
proof fn lemma_walk_prefix_within(nodes: Seq<Node>, graph_uid: usize, start: NodeRef, path: Seq<NodeRef>, i: int)
    requires
        is_walk(nodes, graph_uid, start, path),
        0 <= i < path.len(),
    ensures
        within(nodes, start.node_uid, i as nat).contains(path[i].node_uid),
    decreases i,
{
    if i > 0 {
        lemma_walk_prefix_within(nodes, graph_uid, start, path, i - 1);
        let u = path[i - 1].node_uid;
        assert(path[i - 1].node_uid < nodes.len());
        let k = choose|k: int|
            0 <= k < nodes[u as int].connections@.len() && (#[trigger] nodes[u as int].connections@[k]).to
                == RawNodeRef(path[i].node_uid);
        lemma_within_step(nodes, start.node_uid, (i - 1) as nat, u, k);
    }
}

/// A walk of at most `max_hops` steps stays among the nodes that the hop
/// distances from its start measure, and each of its nodes lies no farther
/// from the start than its place on the walk.
pub proof fn lemma_walk_stays_within(
    nodes: Seq<Node>,
    graph_uid: usize,
    start: NodeRef,
    path: Seq<NodeRef>,
    max_hops: usize,
    m: Map<usize, usize>,
)
    requires
        is_walk(nodes, graph_uid, start, path),
        path.len() <= max_hops + 1,
        hop_distances(nodes, start.node_uid, max_hops, m),
    ensures
        forall|i: int|
            0 <= i < path.len() ==> m.contains_key(#[trigger] path[i].node_uid) && m[path[i].node_uid] <= i,
{
    assert forall|i: int| 0 <= i < path.len() implies m.contains_key(#[trigger] path[i].node_uid) && m[path[i].node_uid]
        <= i by {
        let v = path[i].node_uid;
        lemma_walk_prefix_within(nodes, graph_uid, start, path, i);
        lemma_within_monotone(nodes, start.node_uid, i as nat, max_hops as nat);
        assert(m.contains_key(v));
        lemma_level_bound(nodes, start.node_uid, v, m[v] as nat, i as nat);
    }
}

} // verus!
