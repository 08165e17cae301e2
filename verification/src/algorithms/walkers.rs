use vstd::prelude::*;
use rand::Rng;

use crate::algorithms::neighbourhood::has_edge_to;
use crate::algorithms::reach::{lemma_within_monotone, lemma_within_step, within};
use crate::errors::HetNetError;
use crate::graph::{Edge, HeteroDiGraph, Node, NodeRef, RawNodeRef};

verus! {

#[verifier::external_type_specification]
#[verifier::external_body]
pub struct ExThreadRng(rand::rngs::ThreadRng);

/// `Rng::random_range` of the rand crate on the range `0..n`: a value drawn
/// from `0..n`. The range must not be empty: the crate panics on an empty one.
/// Which value comes out is left open.
#[verifier::external_body]
fn random_index(rng: &mut rand::rngs::ThreadRng, n: usize) -> (r: usize)
    requires
        n > 0,
    ensures
        r < n,
{
    rng.random_range(0..n)
}

/// The walk follows edges of the graph from `start`: each node leads to the next.
pub open spec fn is_walk(nodes: Seq<Node>, graph_uid: usize, start: NodeRef, path: Seq<NodeRef>) -> bool {
    &&& path.len() > 0
    &&& path[0] == start
    &&& forall|i: int| 0 <= i < path.len() ==> (#[trigger] path[i]).graph_uid == graph_uid && path[i].node_uid < nodes.len()
    &&& forall|i: int|
        0 <= i < path.len() - 1 ==> has_edge_to(nodes, (#[trigger] path[i]).node_uid, RawNodeRef(path[i + 1].node_uid))
}

/// Every node that a walk of fewer than `path_length` steps from `start`
/// can reach has an outgoing edge, so that no walk gets stuck.
pub open spec fn no_dead_end_within(nodes: Seq<Node>, start: usize, path_length: usize) -> bool {
    path_length > 0 ==> forall|v: usize|
        #[trigger] within(nodes, start, (path_length - 1) as nat).contains(v) && v < nodes.len()
            ==> nodes[v as int].connections@.len() > 0
}

/// The path passes through node `v`.
pub open spec fn visits(path: Seq<NodeRef>, v: usize) -> bool {
    exists|j: int| 0 <= j < path.len() && (#[trigger] path[j]).node_uid == v
}

/// The number of paths that pass through node `v`.
pub open spec fn visit_count(paths: Seq<Seq<NodeRef>>, v: usize) -> nat
    decreases paths.len(),
{
    if paths.len() == 0 {
        0
    } else {
        visit_count(paths.drop_last(), v) + if visits(paths.last(), v) {
            1nat
        } else {
            0nat
        }
    }
}

/// Adds one to the count of each node that `path` passes through.
fn count_visits(counts: &mut Vec<usize>, path: &Vec<NodeRef>, Ghost(paths): Ghost<Seq<Seq<NodeRef>>>)
    requires
        forall|j: int| 0 <= j < path@.len() ==> (#[trigger] path@[j]).node_uid < old(counts)@.len(),
        forall|v: int| 0 <= v < old(counts)@.len() ==> #[trigger] old(counts)@[v] == visit_count(paths, v as usize),
        paths.len() < usize::MAX,
    ensures
        final(counts)@.len() == old(counts)@.len(),
        forall|v: int| 0 <= v < final(counts)@.len() ==> #[trigger] final(counts)@[v] == visit_count(paths.push(path@), v as usize),
{
    let n = counts.len();
    let mut seen: Vec<bool> = Vec::new();
    let mut v: usize = 0;
    while v < n
        invariant
            v <= n,
            seen@.len() == v,
            forall|i: int| 0 <= i < v ==> !(#[trigger] seen@[i]),
        decreases n - v,
    {
        seen.push(false);
        v = v + 1;
    }
    let mut j: usize = 0;
    while j < path.len()
        invariant
            n == counts@.len(),
            n == old(counts)@.len(),
            seen@.len() == n,
            j <= path@.len(),
            forall|i: int| 0 <= i < path@.len() ==> (#[trigger] path@[i]).node_uid < n,
            forall|u: int| 0 <= u < n ==> (#[trigger] seen@[u] <==> visits(path@.take(j as int), u as usize)),
            forall|u: int|
                0 <= u < n ==> #[trigger] counts@[u] == visit_count(paths, u as usize) + if seen@[u] {
                    1nat
                } else {
                    0nat
                },
            forall|u: int| 0 <= u < n ==> #[trigger] old(counts)@[u] == visit_count(paths, u as usize),
            paths.len() < usize::MAX,
        decreases path.len() - j,
    {
        let u = path[j].node_uid;
        proof {
            assert forall|w: int| 0 <= w < n implies (#[trigger] visits(path@.take(j + 1), w as usize) <==> (visits(path@.take(j as int), w as usize) || w == u)) by {
                if visits(path@.take(j + 1), w as usize) {
                    let i = choose|i: int| 0 <= i < j + 1 && (#[trigger] path@.take(j + 1)[i]).node_uid == w as usize;
                    if i < j {
                        assert(path@.take(j as int)[i] == path@.take(j + 1)[i]);
                    }
                }
                if visits(path@.take(j as int), w as usize) {
                    let i = choose|i: int| 0 <= i < j && (#[trigger] path@.take(j as int)[i]).node_uid == w as usize;
                    assert(path@.take(j + 1)[i] == path@.take(j as int)[i]);
                }
                if w == u {
                    assert(path@.take(j + 1)[j as int].node_uid == u);
                }
            }
        }
        if !seen[u] {
            proof {
                lemma_visit_count_bound(paths, u);
            }
            counts.set(u, counts[u] + 1);
            seen.set(u, true);
        }
        j = j + 1;
    }
    proof {
        assert(path@.take(j as int) =~= path@);
        assert forall|w: int| 0 <= w < n implies #[trigger] counts@[w] == visit_count(paths.push(path@), w as usize) by {
            assert(paths.push(path@).drop_last() =~= paths);
        }
    }
}

proof fn lemma_visit_count_bound(paths: Seq<Seq<NodeRef>>, v: usize)
    ensures
        visit_count(paths, v) <= paths.len(),
    decreases paths.len(),
{
    if paths.len() > 0 {
        lemma_visit_count_bound(paths.drop_last(), v);
    }
}

/// The distinct targets of the first `k` edges, in order of first appearance.
pub open spec fn first_targets(conns: Seq<Edge>, k: int) -> Seq<RawNodeRef>
    decreases k,
{
    if k <= 0 {
        Seq::empty()
    } else {
        let r = first_targets(conns, k - 1);
        let t = conns[k - 1].to;
        if r.contains(t) {
            r
        } else {
            r.push(t)
        }
    }
}

/// The distinct nodes that node `v` leads to, in order of first appearance.
pub open spec fn targets_of(nodes: Seq<Node>, v: usize) -> Seq<RawNodeRef> {
    first_targets(nodes[v as int].connections@, nodes[v as int].connections@.len() as int)
}

/// Among the first `k` edges, every edge to `y` comes after some edge to `x`.
pub open spec fn appears_before(conns: Seq<Edge>, x: RawNodeRef, y: RawNodeRef, k: int) -> bool {
    forall|j: int| 0 <= j < k && #[trigger] conns[j].to == y ==> exists|i: int| 0 <= i < j && (#[trigger] conns[i]).to == x
}

/// The distinct targets of the first `k` edges stand once each, are exactly
/// the targets of those edges, and come in order of first appearance: a target
/// listed before another is reached by an earlier edge than any edge to the other.
pub proof fn lemma_first_targets(conns: Seq<Edge>, k: int)
    requires
        0 <= k <= conns.len(),
    ensures
        first_targets(conns, k).no_duplicates(),
        forall|t: RawNodeRef| #[trigger] first_targets(conns, k).contains(t) <==> exists|i: int| 0 <= i < k && conns[i].to == t,
        forall|a: int, b: int|
            0 <= a < b < first_targets(conns, k).len() ==> appears_before(
                conns,
                #[trigger] first_targets(conns, k)[a],
                #[trigger] first_targets(conns, k)[b],
                k,
            ),
    decreases k,
{
    if k == 0 {
        assert(first_targets(conns, 0).len() == 0);
    } else {
        lemma_first_targets(conns, k - 1);
        let prev = first_targets(conns, k - 1);
        let r = first_targets(conns, k);
        let t = conns[k - 1].to;
        if prev.contains(t) {
            assert(r == prev);
            assert forall|u: RawNodeRef| #[trigger] r.contains(u) <==> exists|i: int| 0 <= i < k && conns[i].to == u by {
                if u == t {
                    let i = choose|i: int| 0 <= i < k - 1 && conns[i].to == u;
                }
            }
            assert forall|a: int, b: int| 0 <= a < b < r.len() implies appears_before(conns, #[trigger] r[a], #[trigger] r[b], k) by {
                assert(appears_before(conns, prev[a], prev[b], k - 1));
                assert forall|j: int| 0 <= j < k && #[trigger] conns[j].to == r[b] implies exists|i: int|
                    0 <= i < j && (#[trigger] conns[i]).to == r[a] by {
                    let j2 = if j == k - 1 {
                        assert(prev.contains(prev[b]));
                        choose|j2: int| 0 <= j2 < k - 1 && conns[j2].to == prev[b]
                    } else {
                        j
                    };
                    assert(conns[j2].to == prev[b]);
                    let i = choose|i: int| 0 <= i < j2 && (#[trigger] conns[i]).to == prev[a];
                    assert(i < j && conns[i].to == r[a]);
                }
            }
        } else {
            assert(r == prev.push(t));
            assert forall|x: int, y: int| 0 <= x < r.len() && 0 <= y < r.len() && x != y implies r[x] != r[y] by {
                if x < prev.len() && y < prev.len() {
                    assert(r[x] == prev[x] && r[y] == prev[y]);
                } else if x < prev.len() {
                    assert(prev.contains(r[x]));
                } else {
                    assert(prev.contains(r[y]));
                }
            }
            assert forall|u: RawNodeRef| #[trigger] r.contains(u) <==> exists|i: int| 0 <= i < k && conns[i].to == u by {
                if r.contains(u) && u != t {
                    let x = choose|x: int| 0 <= x < r.len() && r[x] == u;
                    assert(prev[x] == u);
                    assert(prev.contains(u));
                }
                if u == t {
                    assert(r[prev.len() as int] == u);
                }
                if (exists|i: int| 0 <= i < k && conns[i].to == u) && u != t {
                    let i = choose|i: int| 0 <= i < k && conns[i].to == u;
                    assert(i < k - 1);
                    assert(prev.contains(u));
                    let x = choose|x: int| 0 <= x < prev.len() && prev[x] == u;
                    assert(r[x] == u);
                }
            }
            assert forall|a: int, b: int| 0 <= a < b < r.len() implies appears_before(conns, #[trigger] r[a], #[trigger] r[b], k) by {
                assert(r[a] == prev[a]);
                assert(prev.contains(prev[a]));
                let i0 = choose|i0: int| 0 <= i0 < k - 1 && conns[i0].to == prev[a];
                if b < prev.len() {
                    assert(r[b] == prev[b]);
                    assert(appears_before(conns, prev[a], prev[b], k - 1));
                }
                assert forall|j: int| 0 <= j < k && #[trigger] conns[j].to == r[b] implies exists|i: int|
                    0 <= i < j && (#[trigger] conns[i]).to == r[a] by {
                    if b < prev.len() {
                        if j < k - 1 {
                            let i = choose|i: int| 0 <= i < j && (#[trigger] conns[i]).to == prev[a];
                            assert(i < j && conns[i].to == r[a]);
                        } else {
                            assert(i0 < j && conns[i0].to == r[a]);
                        }
                    } else {
                        assert(r[b] == t);
                        if j < k - 1 {
                            assert(prev.contains(t));
                        }
                        assert(i0 < j && conns[i0].to == r[a]);
                    }
                }
            }
        }
    }
}

/// The nodes of the walk from `start` whose `i`-th step goes to the
/// `choices[i]`-th distinct target of the node reached before it.
pub open spec fn choice_walk(nodes: Seq<Node>, start: usize, choices: Seq<usize>) -> Seq<usize>
    decreases choices.len(),
{
    if choices.len() == 0 {
        seq![start]
    } else {
        let p = choice_walk(nodes, start, choices.drop_last());
        p.push(targets_of(nodes, p.last())[choices.last() as int].0)
    }
}

/// Each choice picks one of the distinct targets of the node that the walk has reached.
pub open spec fn valid_choices(nodes: Seq<Node>, start: usize, choices: Seq<usize>) -> bool {
    forall|i: int|
        0 <= i < choices.len() ==> #[trigger] choices[i] < targets_of(
            nodes,
            choice_walk(nodes, start, choices.take(i)).last(),
        ).len()
}

/// The nodes of a walk as references into the graph numbered `graph_uid`.
pub open spec fn path_refs(graph_uid: usize, walk: Seq<usize>) -> Seq<NodeRef> {
    walk.map_values(|v: usize| NodeRef { graph_uid, node_uid: v })
}

proof fn lemma_choice_walk_step(nodes: Seq<Node>, start: usize, choices: Seq<usize>, i: int)
    requires
        0 <= i < choices.len(),
    ensures
        choice_walk(nodes, start, choices.take(i + 1)) == choice_walk(nodes, start, choices.take(i)).push(
            targets_of(nodes, choice_walk(nodes, start, choices.take(i)).last())[choices[i] as int].0,
        ),
{
    assert(choices.take(i + 1).drop_last() =~= choices.take(i));
    assert(choices.take(i + 1).last() == choices[i]);
}

proof fn lemma_choice_walk_len(nodes: Seq<Node>, start: usize, choices: Seq<usize>)
    ensures
        choice_walk(nodes, start, choices).len() == choices.len() + 1,
    decreases choices.len(),
{
    if choices.len() > 0 {
        lemma_choice_walk_len(nodes, start, choices.drop_last());
    }
}

impl HeteroDiGraph {
    /// The distinct nodes that `node`'s outgoing edges lead to, in order of first appearance.
    pub fn distinct_targets(&self, node: usize) -> (r: Vec<RawNodeRef>)
        requires
            self.wf(),
            node < self.nodes@.len(),
        ensures
            r@ == targets_of(self.nodes@, node),
            r@.no_duplicates(),
            forall|t: RawNodeRef| r@.contains(t) <==> has_edge_to(self.nodes@, node, t),
    {
        let conns = &self.nodes[node].connections;
        let mut r: Vec<RawNodeRef> = Vec::new();
        let mut k: usize = 0;
        while k < conns.len()
            invariant
                conns == &self.nodes@[node as int].connections,
                k <= conns@.len(),
                r@ == first_targets(conns@, k as int),
                r@.no_duplicates(),
                forall|t: RawNodeRef| r@.contains(t) <==> exists|i: int| 0 <= i < k && (#[trigger] conns@[i]).to == t,
            decreases conns.len() - k,
        {
            let to = conns[k].to;
            let mut present = false;
            let mut j: usize = 0;
            while j < r.len()
                invariant
                    j <= r@.len(),
                    present <==> exists|i: int| 0 <= i < j && r@[i] == to,
                decreases r.len() - j,
            {
                if r[j] == to {
                    present = true;
                }
                j = j + 1;
            }
            let ghost before = r@;
            proof {
                if present {
                    let i = choose|i: int| 0 <= i < j && r@[i] == to;
                    assert(before.contains(to));
                } else {
                    assert(!before.contains(to));
                }
                assert(first_targets(conns@, k + 1) == (if before.contains(to) {
                    before
                } else {
                    before.push(to)
                }));
            }
            if !present {
                r.push(to);
                assert forall|i: int, l: int| 0 <= i < r@.len() && 0 <= l < r@.len() && i != l implies r@[i] != r@[l] by {
                    if i < before.len() && l < before.len() {
                    } else if i == before.len() {
                        assert(!before.contains(to));
                        assert(before[l] == r@[l]);
                    } else {
                        assert(!before.contains(to));
                        assert(before[i] == r@[i]);
                    }
                }
            }
            proof {
                assert forall|t: RawNodeRef| r@.contains(t) <==> exists|i: int| 0 <= i < k + 1 && (#[trigger] conns@[i]).to == t by {
                    if r@.contains(t) && !before.contains(t) {
                        assert(t == to);
                        assert(conns@[k as int].to == t);
                    }
                    if before.contains(t) {
                        let i = choose|i: int| 0 <= i < before.len() && before[i] == t;
                        assert(r@[i] == t);
                    }
                    if t == to && !before.contains(t) {
                        assert(r@[before.len() as int] == t);
                    }
                    if (exists|i: int| 0 <= i < k + 1 && (#[trigger] conns@[i]).to == t) && t != to {
                        let i = choose|i: int| 0 <= i < k + 1 && (#[trigger] conns@[i]).to == t;
                        assert(i < k);
                    }
                }
            }
            k = k + 1;
        }
        r
    }

    /// The walk from `start` whose `i`-th step goes to the `choices[i]`-th
    /// distinct node (in order of first appearance) that the current node
    /// leads to. Fails where `start` belongs to another graph or is no node of it.
    pub fn walk_with_choices(&self, start: NodeRef, choices: &Vec<usize>) -> (r: Result<Vec<NodeRef>, HetNetError>)
        requires
            self.wf(),
            start.graph_uid == self.uid && start.node_uid < self.nodes@.len() ==> valid_choices(
                self.nodes@,
                start.node_uid,
                choices@,
            ),
        ensures
            start.graph_uid != self.uid ==> r matches Err(HetNetError::InvalidReference),
            start.graph_uid == self.uid && start.node_uid >= self.nodes@.len() ==> (r matches Err(
                HetNetError::InvalidNodeId { uid },
            ) && uid == start.node_uid),
            start.graph_uid == self.uid && start.node_uid < self.nodes@.len() ==> (r matches Ok(path) && path@
                == path_refs(self.uid, choice_walk(self.nodes@, start.node_uid, choices@)) && path@.len()
                == choices@.len() + 1 && is_walk(self.nodes@, self.uid, start, path@)),
    {
        if start.graph_uid != self.uid {
            return Err(HetNetError::InvalidReference);
        }
        if start.node_uid >= self.nodes.len() {
            return Err(HetNetError::InvalidNodeId { uid: start.node_uid });
        }
        let ghost nodes = self.nodes@;
        let ghost s = start.node_uid;
        let mut path: Vec<NodeRef> = Vec::new();
        path.push(start);
        let mut current = start.node_uid;
        let mut i: usize = 0;
        assert(choices@.take(0) =~= Seq::<usize>::empty());
        assert(path@ =~= path_refs(self.uid, choice_walk(nodes, s, choices@.take(0))));
        while i < choices.len()
            invariant
                self.wf(),
                nodes == self.nodes@,
                s == start.node_uid,
                start.graph_uid == self.uid,
                s < nodes.len(),
                valid_choices(nodes, s, choices@),
                i <= choices@.len(),
                current < nodes.len(),
                current == choice_walk(nodes, s, choices@.take(i as int)).last(),
                path@ == path_refs(self.uid, choice_walk(nodes, s, choices@.take(i as int))),
                path@.len() == i + 1,
                is_walk(nodes, self.uid, start, path@),
            decreases choices.len() - i,
        {
            let targets = self.distinct_targets(current);
            let c = choices[i];
            assert(c < targets@.len());
            let next = targets[c];
            proof {
                lemma_choice_walk_step(nodes, s, choices@, i as int);
                assert(targets@.contains(next));
                assert(self.node_wf(current as int));
                let e = choose|k: int| 0 <= k < nodes[current as int].connections@.len() && (#[trigger] nodes[current as int].connections@[k]).to == next;
                assert(nodes[current as int].connections@[e].to.0 < nodes.len());
            }
            let ghost before = path@;
            path.push(next.upgrade(self.uid));
            proof {
                assert(path@ =~= path_refs(self.uid, choice_walk(nodes, s, choices@.take(i + 1))));
                assert forall|j: int| 0 <= j < path@.len() - 1 implies has_edge_to(nodes, (#[trigger] path@[j]).node_uid, RawNodeRef(path@[j + 1].node_uid)) by {
                    if j < before.len() - 1 {
                        assert(path@[j] == before[j]);
                        assert(path@[j + 1] == before[j + 1]);
                    } else {
                        assert(path@[j] == before.last());
                    }
                }
            }
            current = next.0;
            i = i + 1;
        }
        assert(choices@.take(i as int) =~= choices@);
        Ok(path)
    }

    /// A random walk of `path_length` steps from `start`: each step goes to
    /// one of the distinct nodes that the current node leads to, each chosen
    /// with the same chance. Returns the walk and the choices drawn for it.
    /// Fails where `start` belongs to another graph or is no node of it.
    pub fn walk_unweighted(&self, start: NodeRef, path_length: usize, rng: &mut rand::rngs::ThreadRng) -> (r: Result<
        (Vec<NodeRef>, Ghost<Seq<usize>>),
        HetNetError,
    >)
        requires
            self.wf(),
            start.graph_uid == self.uid && start.node_uid < self.nodes@.len() ==> no_dead_end_within(
                self.nodes@,
                start.node_uid,
                path_length,
            ),
            path_length < usize::MAX,
        ensures
            start.graph_uid != self.uid ==> r matches Err(HetNetError::InvalidReference),
            start.graph_uid == self.uid && start.node_uid >= self.nodes@.len() ==> (r matches Err(
                HetNetError::InvalidNodeId { uid },
            ) && uid == start.node_uid),
            start.graph_uid == self.uid && start.node_uid < self.nodes@.len() ==> (r matches Ok((path, draws))
                && draws@.len() == path_length && valid_choices(self.nodes@, start.node_uid, draws@) && path@
                == path_refs(self.uid, choice_walk(self.nodes@, start.node_uid, draws@)) && path@.len()
                == path_length + 1 && is_walk(self.nodes@, self.uid, start, path@)),
    {
        if start.graph_uid != self.uid {
            return Err(HetNetError::InvalidReference);
        }
        if start.node_uid >= self.nodes.len() {
            return Err(HetNetError::InvalidNodeId { uid: start.node_uid });
        }
        let ghost nodes = self.nodes@;
        let ghost s = start.node_uid;
        let mut draws: Vec<usize> = Vec::new();
        let mut current = start.node_uid;
        let mut i: usize = 0;
        while i < path_length
            invariant
                self.wf(),
                nodes == self.nodes@,
                s == start.node_uid,
                s < nodes.len(),
                no_dead_end_within(nodes, s, path_length),
                i <= path_length,
                draws@.len() == i,
                current < nodes.len(),
                current == choice_walk(nodes, s, draws@).last(),
                valid_choices(nodes, s, draws@),
                within(nodes, s, i as nat).contains(current),
            decreases path_length - i,
        {
            proof {
                lemma_within_monotone(nodes, s, i as nat, (path_length - 1) as nat);
                assert(within(nodes, s, (path_length - 1) as nat).contains(current));
            }
            let targets = self.distinct_targets(current);
            proof {
                let e = nodes[current as int].connections@[0];
                assert(has_edge_to(nodes, current, e.to));
                assert(targets@.contains(e.to));
            }
            let c = random_index(rng, targets.len());
            let next = targets[c];
            let ghost old_draws = draws@;
            draws.push(c);
            proof {
                assert(targets@.contains(next));
                let e = choose|k: int| 0 <= k < nodes[current as int].connections@.len() && (#[trigger] nodes[current as int].connections@[k]).to == next;
                lemma_within_step(nodes, s, i as nat, current, e);
                assert(self.node_wf(current as int));
                assert(draws@.drop_last() =~= old_draws);
                assert forall|j: int| 0 <= j < draws@.len() implies #[trigger] draws@[j] < targets_of(
                    nodes,
                    choice_walk(nodes, s, draws@.take(j)).last(),
                ).len() by {
                    if j < old_draws.len() {
                        assert(draws@.take(j) =~= old_draws.take(j));
                        assert(draws@[j] == old_draws[j]);
                    } else {
                        assert(draws@.take(j) =~= old_draws);
                    }
                }
            }
            current = next.0;
            i = i + 1;
        }
        let path = match self.walk_with_choices(start, &draws) {
            Ok(p) => p,
            Err(e) => {
                return Err(e);
            },
        };
        Ok((path, Ghost(draws@)))
    }

    /// Performs `n_iter` random walks of `path_length` steps from `start`
    /// and counts, for each node, the walks that pass through it.
    pub fn distribution(
        &self,
        start: NodeRef,
        path_length: usize,
        n_iter: usize,
        rng: &mut rand::rngs::ThreadRng,
    ) -> (r: Result<Vec<usize>, HetNetError>)
        requires
            self.wf(),
            start.graph_uid == self.uid && start.node_uid < self.nodes@.len() ==> no_dead_end_within(
                self.nodes@,
                start.node_uid,
                path_length,
            ),
            path_length < usize::MAX,
        ensures
            n_iter > 0 && start.graph_uid != self.uid ==> r matches Err(HetNetError::InvalidReference),
            n_iter > 0 && start.graph_uid == self.uid && start.node_uid >= self.nodes@.len() ==> (r matches Err(
                HetNetError::InvalidNodeId { uid },
            ) && uid == start.node_uid),
            n_iter == 0 || (start.graph_uid == self.uid && start.node_uid < self.nodes@.len()) ==> (r matches Ok(counts)
                && counts@.len() == self.nodes@.len() && exists|paths: Seq<Seq<NodeRef>>|
                {
                    &&& paths.len() == n_iter
                    &&& forall|i: int|
                        0 <= i < n_iter ==> (#[trigger] paths[i]).len() == path_length + 1 && is_walk(
                            self.nodes@,
                            self.uid,
                            start,
                            paths[i],
                        )
                    &&& forall|v: int| 0 <= v < counts@.len() ==> #[trigger] counts@[v] == visit_count(paths, v as usize)
                }),
    {
        let n = self.nodes.len();
        let mut counts: Vec<usize> = Vec::new();
        let mut v: usize = 0;
        while v < n
            invariant
                v <= n,
                counts@.len() == v,
                forall|i: int| 0 <= i < v ==> #[trigger] counts@[i] == 0,
            decreases n - v,
        {
            counts.push(0);
            v = v + 1;
        }
        let ghost mut paths: Seq<Seq<NodeRef>> = Seq::empty();
        let mut i: usize = 0;
        while i < n_iter
            invariant
                self.wf(),
                n == self.nodes@.len(),
                start.graph_uid == self.uid && start.node_uid < n ==> no_dead_end_within(self.nodes@, start.node_uid, path_length),
                path_length < usize::MAX,
                i <= n_iter,
                i > 0 ==> start.graph_uid == self.uid && start.node_uid < n,
                paths.len() == i,
                counts@.len() == n,
                forall|k: int|
                    0 <= k < i ==> (#[trigger] paths[k]).len() == path_length + 1 && is_walk(
                        self.nodes@,
                        self.uid,
                        start,
                        paths[k],
                    ),
                forall|u: int| 0 <= u < n ==> #[trigger] counts@[u] == visit_count(paths, u as usize),
            decreases n_iter - i,
        {
            let path = match self.walk_unweighted(start, path_length, rng) {
                Ok((p, _)) => p,
                Err(e) => {
                    return Err(e);
                },
            };
            count_visits(&mut counts, &path, Ghost(paths));
            proof {
                paths = paths.push(path@);
            }
            i = i + 1;
        }
        Ok(counts)
    }
}

} // verus!
