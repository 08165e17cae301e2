use vstd::prelude::*;

use crate::graph::{HeteroDiGraph, Node};

verus! {

/// Some edge of node `u` leads to node `v`.
pub open spec fn leads_to(nodes: Seq<Node>, u: int, v: usize) -> bool {
    exists|k: int| 0 <= k < nodes[u].connections@.len() && (#[trigger] nodes[u].connections@[k]).to.0 == v
}

/// The nodes below `n` with an edge to `v`, in increasing order.
pub open spec fn incoming_prefix(nodes: Seq<Node>, v: usize, n: int) -> Seq<usize>
    decreases n,
{
    if n <= 0 {
        Seq::empty()
    } else {
        let rest = incoming_prefix(nodes, v, n - 1);
        if leads_to(nodes, n - 1, v) {
            rest.push((n - 1) as usize)
        } else {
            rest
        }
    }
}

/// The nodes with an edge to `v` are listed in increasing order, each once.
pub proof fn lemma_incoming_prefix(nodes: Seq<Node>, v: usize, n: int)
    requires
        0 <= n <= nodes.len(),
        nodes.len() <= usize::MAX,
    ensures
        forall|i: int, j: int|
            0 <= i < j < incoming_prefix(nodes, v, n).len() ==> #[trigger] incoming_prefix(nodes, v, n)[i]
                < #[trigger] incoming_prefix(nodes, v, n)[j],
        forall|i: int| 0 <= i < incoming_prefix(nodes, v, n).len() ==> #[trigger] incoming_prefix(nodes, v, n)[i] < n,
        forall|u: usize| #[trigger] incoming_prefix(nodes, v, n).contains(u) <==> (u < n && leads_to(nodes, u as int, v)),
    decreases n,
{
    if n > 0 {
        lemma_incoming_prefix(nodes, v, n - 1);
        let rest = incoming_prefix(nodes, v, n - 1);
        let last = (n - 1) as usize;
        let full = incoming_prefix(nodes, v, n);
        assert(full == (if leads_to(nodes, n - 1, v) {
            rest.push(last)
        } else {
            rest
        }));
        assert forall|u: usize| #[trigger] full.contains(u) <==> (u < n && leads_to(nodes, u as int, v)) by {
            if u == last && leads_to(nodes, n - 1, v) {
                assert(full[rest.len() as int] == u);
                assert(full.contains(u));
            }
            if full.contains(u) {
                let i = choose|i: int| 0 <= i < full.len() && full[i] == u;
                if i < rest.len() {
                    assert(rest[i] == u);
                    assert(rest.contains(u));
                } else {
                    assert(full[i] == last);
                }
            }
            if u < last && leads_to(nodes, u as int, v) {
                assert(rest.contains(u));
                let i = choose|i: int| 0 <= i < rest.len() && rest[i] == u;
                assert(full[i] == u);
            }
        }
    }
}

/// Whether one of the first `k` edges of node `u` leads to `t`.
pub open spec fn leads_to_among(nodes: Seq<Node>, u: int, t: usize, k: int) -> bool {
    exists|e: int| 0 <= e < k && (#[trigger] nodes[u].connections@[e]).to.0 == t
}

impl HeteroDiGraph {
    /// For each node, the nodes with an edge to it, in increasing order, each once.
    pub fn collect_incoming_nodes(&self) -> (r: Vec<Vec<usize>>)
        requires
            self.wf(),
        ensures
            r@.len() == self.nodes@.len(),
            forall|v: int| 0 <= v < r@.len() ==> (#[trigger] r@[v])@ == incoming_prefix(self.nodes@, v as usize, r@.len() as int),
            forall|v: int, u: usize|
                0 <= v < r@.len() ==> (#[trigger] r@[v]@.contains(u) <==> (u < r@.len() && leads_to(
                    self.nodes@,
                    u as int,
                    v as usize,
                ))),
            forall|v: int| 0 <= v < r@.len() ==> (#[trigger] r@[v])@.no_duplicates(),
    {
        let ghost nodes = self.nodes@;
        let n = self.nodes.len();
        let mut incoming: Vec<Vec<usize>> = Vec::new();
        let mut i: usize = 0;
        while i < n
            invariant
                n == nodes.len(),
                i <= n,
                incoming@.len() == i,
                forall|t: int| 0 <= t < i ==> (#[trigger] incoming@[t])@ == Seq::<usize>::empty(),
            decreases n - i,
        {
            incoming.push(Vec::new());
            i = i + 1;
        }
        proof {
            assert forall|t: int| 0 <= t < n implies (#[trigger] incoming@[t])@ == incoming_prefix(nodes, t as usize, 0) by {
            }
        }
        let mut u: usize = 0;
        while u < n
            invariant
                self.wf(),
                nodes == self.nodes@,
                n == nodes.len(),
                u <= n,
                incoming@.len() == n,
                forall|t: int| 0 <= t < n ==> (#[trigger] incoming@[t])@ == incoming_prefix(nodes, t as usize, u as int),
            decreases n - u,
        {
            assert(self.node_wf(u as int));
            let conns = &self.nodes[u].connections;
            let mut k: usize = 0;
            while k < conns.len()
                invariant
                    self.wf(),
                    nodes == self.nodes@,
                    n == nodes.len(),
                    u < n,
                    conns == &nodes[u as int].connections,
                    self.node_wf(u as int),
                    k <= conns@.len(),
                    incoming@.len() == n,
                    forall|t: int|
                        0 <= t < n ==> (#[trigger] incoming@[t])@ == (if leads_to_among(nodes, u as int, t as usize, k as int) {
                            incoming_prefix(nodes, t as usize, u as int).push(u)
                        } else {
                            incoming_prefix(nodes, t as usize, u as int)
                        }),
                decreases conns.len() - k,
            {
                let t = conns[k].to.0;
                assert(t < n);
                proof {
                    lemma_incoming_prefix(nodes, t, u as int);
                }
                let ghost before = incoming@[t as int]@;
                let len = incoming[t].len();
                let already = len > 0 && incoming[t][len - 1] == u;
                proof {
                    let base = incoming_prefix(nodes, t, u as int);
                    if leads_to_among(nodes, u as int, t, k as int) {
                        assert(already);
                    } else {
                        if already {
                            assert(base[base.len() - 1] < u);
                        }
                        assert(!already);
                    }
                }
                if !already {
                    incoming[t].push(u);
                }
                proof {
                    assert forall|s: int| 0 <= s < n implies (#[trigger] incoming@[s])@ == (if leads_to_among(
                        nodes,
                        u as int,
                        s as usize,
                        k + 1,
                    ) {
                        incoming_prefix(nodes, s as usize, u as int).push(u)
                    } else {
                        incoming_prefix(nodes, s as usize, u as int)
                    }) by {
                        if s == t {
                            assert(nodes[u as int].connections@[k as int].to.0 == t);
                            assert(leads_to_among(nodes, u as int, t, k + 1));
                        } else {
                            if leads_to_among(nodes, u as int, s as usize, k + 1) {
                                let e = choose|e: int| 0 <= e < k + 1 && (#[trigger] nodes[u as int].connections@[e]).to.0 == s as usize;
                                assert(e < k);
                                assert(leads_to_among(nodes, u as int, s as usize, k as int));
                            }
                        }
                    }
                }
                k = k + 1;
            }
            proof {
                assert forall|t: int| 0 <= t < n implies (#[trigger] incoming@[t])@ == incoming_prefix(nodes, t as usize, u + 1) by {
                    assert(leads_to_among(nodes, u as int, t as usize, conns@.len() as int) == leads_to(nodes, u as int, t as usize));
                }
            }
            u = u + 1;
        }
        proof {
            assert forall|v: int| 0 <= v < n implies (#[trigger] incoming@[v])@.no_duplicates() by {
                lemma_incoming_prefix(nodes, v as usize, n as int);
                let s = incoming@[v]@;
                assert forall|i: int, j: int| 0 <= i < s.len() && 0 <= j < s.len() && i != j implies s[i] != s[j] by {
                    if i < j {
                        assert(s[i] < s[j]);
                    } else {
                        assert(s[j] < s[i]);
                    }
                }
            }
            assert forall|v: int, w: usize| 0 <= v < n implies (#[trigger] incoming@[v]@.contains(w) <==> (w < n
                && leads_to(nodes, w as int, v as usize))) by {
                lemma_incoming_prefix(nodes, v as usize, n as int);
            }
        }
        incoming
    }
}

/// The number of entries in the first `v` lists.
pub open spec fn total_before(lists: Seq<Vec<usize>>, v: int) -> nat
    decreases v,
{
    if v <= 0 {
        0
    } else {
        total_before(lists, v - 1) + lists[v - 1]@.len()
    }
}

proof fn lemma_total_before_monotone(lists: Seq<Vec<usize>>, a: int, b: int)
    requires
        0 <= a <= b,
    ensures
        total_before(lists, a) <= total_before(lists, b),
    decreases b - a,
{
    if a < b {
        lemma_total_before_monotone(lists, a, b - 1);
    }
}

/// For each node, where the walk states of the steps that end at it begin:
/// the number of incoming nodes of all nodes before it.
pub fn transition_offsets(incoming: &Vec<Vec<usize>>) -> (r: Vec<usize>)
    requires
        total_before(incoming@, incoming@.len() as int) <= usize::MAX,
    ensures
        r@.len() == incoming@.len(),
        forall|v: int| 0 <= v < r@.len() ==> #[trigger] r@[v] == total_before(incoming@, v),
{
    let mut offsets: Vec<usize> = Vec::new();
    let mut offset: usize = 0;
    let mut v: usize = 0;
    while v < incoming.len()
        invariant
            v <= incoming@.len(),
            total_before(incoming@, incoming@.len() as int) <= usize::MAX,
            offset == total_before(incoming@, v as int),
            offsets@.len() == v,
            forall|i: int| 0 <= i < v ==> #[trigger] offsets@[i] == total_before(incoming@, i),
        decreases incoming@.len() - v,
    {
        offsets.push(offset);
        proof {
            lemma_total_before_monotone(incoming@, v + 1, incoming@.len() as int);
        }
        offset = offset + incoming[v].len();
        v = v + 1;
    }
    offsets
}

/// The walk state of a step from `current` to `w`: the offset of `w` plus the
/// place of `current` among the incoming nodes of `w`; `None` where
/// `current` has no edge to `w`.
pub fn transition_state(incoming: &Vec<Vec<usize>>, offsets: &Vec<usize>, w: usize, current: usize) -> (r: Option<usize>)
    requires
        w < incoming@.len(),
        offsets@.len() == incoming@.len(),
        forall|v: int| 0 <= v < offsets@.len() ==> #[trigger] offsets@[v] == total_before(incoming@, v),
        total_before(incoming@, incoming@.len() as int) <= usize::MAX,
    ensures
        match r {
            Some(s) => exists|i: int|
                0 <= i < incoming@[w as int]@.len() && incoming@[w as int]@[i] == current && s == offsets@[w as int] + i
                    && forall|j: int| 0 <= j < i ==> #[trigger] incoming@[w as int]@[j] != current,
            None => !incoming@[w as int]@.contains(current),
        },
{
    let list = &incoming[w];
    proof {
        lemma_total_before_monotone(incoming@, w + 1, incoming@.len() as int);
    }
    let mut i: usize = 0;
    while i < list.len()
        invariant
            list == &incoming@[w as int],
            w < offsets@.len(),
            i <= list@.len(),
            offsets@[w as int] + list@.len() <= usize::MAX,
            forall|j: int| 0 <= j < i ==> #[trigger] list@[j] != current,
        decreases list@.len() - i,
    {
        if list[i] == current {
            return Some(offsets[w] + i);
        }
        i = i + 1;
    }
    None
}

/// Distinct steps get distinct walk states, and every state lies below the
/// total number of incoming entries.
pub proof fn lemma_transition_states_distinct(lists: Seq<Vec<usize>>, w1: int, i1: int, w2: int, i2: int)
    requires
        0 <= w1 < lists.len(),
        0 <= w2 < lists.len(),
        0 <= i1 < lists[w1]@.len(),
        0 <= i2 < lists[w2]@.len(),
        w1 != w2 || i1 != i2,
    ensures
        total_before(lists, w1) + i1 != total_before(lists, w2) + i2,
        total_before(lists, w1) + i1 < total_before(lists, lists.len() as int),
{
    lemma_total_before_monotone(lists, w1 + 1, lists.len() as int);
    if w1 < w2 {
        lemma_total_before_monotone(lists, w1 + 1, w2);
    } else if w2 < w1 {
        lemma_total_before_monotone(lists, w2 + 1, w1);
    }
}

/// Byte sizes of the parts of one alias sampler: what every sampler holds,
/// and what each of its entries adds; and the bytes of the walker besides
/// its samplers.
#[derive(Clone, Copy)]
pub struct SamplerLayout {
    pub header: usize,
    pub sampler: usize,
    pub entry: usize,
}

/// The bytes of the samplers of node `v`: one for the first step from it and
/// one for each node it can be entered from (and, with `bi` set, for each node
/// it leads to), each with an entry per node it can move to.
pub open spec fn node_table_size(nodes: Seq<Node>, v: int, bi: nat, layout: SamplerLayout) -> nat {
    let n_out = nodes[v].connections@.len();
    let n_in = incoming_prefix(nodes, v as usize, nodes.len() as int).len();
    (n_in + 1 + bi * n_out) * (layout.sampler as nat + (n_out + bi * n_in) * (layout.entry as nat))
}

pub open spec fn table_size_before(nodes: Seq<Node>, k: int, bi: nat, layout: SamplerLayout) -> nat
    decreases k,
{
    if k <= 0 {
        0
    } else {
        table_size_before(nodes, k - 1, bi, layout) + node_table_size(nodes, k - 1, bi, layout)
    }
}

/// The estimated bytes of a cached second-order walker over `nodes`.
pub open spec fn walker_table_size(nodes: Seq<Node>, bi: nat, layout: SamplerLayout) -> nat {
    layout.header as nat + table_size_before(nodes, nodes.len() as int, bi, layout)
}

proof fn lemma_table_size_monotone(nodes: Seq<Node>, a: int, b: int, bi: nat, layout: SamplerLayout)
    requires
        0 <= a <= b,
    ensures
        table_size_before(nodes, a, bi, layout) <= table_size_before(nodes, b, bi, layout),
    decreases b - a,
{
    if a < b {
        lemma_table_size_monotone(nodes, a, b - 1, bi, layout);
    }
}

proof fn lemma_factor_le_product(a: nat, b: nat)
    requires
        b >= 1,
    ensures
        a <= a * b,
        a <= b * a,
{
    assert(a <= a * b) by (nonlinear_arith)
        requires
            b >= 1,
    ;
    assert(a * b == b * a) by (nonlinear_arith);
}

impl HeteroDiGraph {
    /// The estimated bytes of a cached second-order walker over this graph,
    /// with moves along edges only (`bi` 0) or along edges both ways (`bi` 1);
    /// `None` where the estimate does not fit in a `usize`.
    pub fn walker_size_estimate(&self, bi: usize, layout: SamplerLayout) -> (r: Option<usize>)
        requires
            self.wf(),
            bi <= 1,
            layout.sampler > 0,
            layout.entry > 0,
        ensures
            r == (if walker_table_size(self.nodes@, bi as nat, layout) <= usize::MAX {
                Some(walker_table_size(self.nodes@, bi as nat, layout) as usize)
            } else {
                None::<usize>
            }),
    {
        let ghost nodes = self.nodes@;
        let ghost total = walker_table_size(nodes, bi as nat, layout);
        let incoming = self.collect_incoming_nodes();
        let mut size: usize = layout.header;
        let mut v: usize = 0;
        while v < self.nodes.len()
            invariant
                self.wf(),
                nodes == self.nodes@,
                bi <= 1,
                layout.sampler > 0,
                layout.entry > 0,
                total == walker_table_size(nodes, bi as nat, layout),
                incoming@.len() == nodes.len(),
                forall|w: int| 0 <= w < incoming@.len() ==> (#[trigger] incoming@[w])@ == incoming_prefix(nodes, w as usize, incoming@.len() as int),
                v <= nodes.len(),
                size == layout.header + table_size_before(nodes, v as int, bi as nat, layout),
            decreases nodes.len() - v,
        {
            let n_out = self.nodes[v].connections.len();
            let n_in = incoming[v].len();
            let ghost node_size = node_table_size(nodes, v as int, bi as nat, layout);
            let ghost entries: nat = n_out as nat + (bi as nat) * (n_in as nat);
            let ghost factor: nat = n_in as nat + 1 + (bi as nat) * (n_out as nat);
            let ghost sampler: nat = layout.sampler as nat + entries * (layout.entry as nat);
            proof {
                lemma_table_size_monotone(nodes, v + 1, nodes.len() as int, bi as nat, layout);
                assert(node_size == factor * sampler);
                assert(total >= size + node_size);
                lemma_factor_le_product(entries, layout.entry as nat);
                lemma_factor_le_product(sampler, factor);
                lemma_factor_le_product(factor, sampler);
                assert(bi * n_in <= n_in) by (nonlinear_arith)
                    requires
                        bi <= 1,
                ;
                assert(bi * n_out <= n_out) by (nonlinear_arith)
                    requires
                        bi <= 1,
                ;
            }
            // Any overflow on the way means the whole estimate does not fit.
            let entries_exec = match n_out.checked_add(bi * n_in) {
                Some(x) => x,
                None => {
                    return None;
                },
            };
            let entry_bytes = match entries_exec.checked_mul(layout.entry) {
                Some(x) => x,
                None => {
                    return None;
                },
            };
            let sampler_exec = match entry_bytes.checked_add(layout.sampler) {
                Some(x) => x,
                None => {
                    return None;
                },
            };
            let factor_exec = match n_in.checked_add(bi * n_out) {
                Some(x) => match x.checked_add(1) {
                    Some(y) => y,
                    None => {
                        return None;
                    },
                },
                None => {
                    return None;
                },
            };
            let node_bytes = match factor_exec.checked_mul(sampler_exec) {
                Some(x) => x,
                None => {
                    return None;
                },
            };
            size = match size.checked_add(node_bytes) {
                Some(x) => x,
                None => {
                    return None;
                },
            };
            v = v + 1;
        }
        Some(size)
    }
}

/// Every step along an edge has a walk state: the node the step leaves is
/// among the incoming nodes of the node it enters.
pub proof fn lemma_every_step_has_state(nodes: Seq<Node>, u: int, k: int)
    requires
        0 <= u < nodes.len(),
        nodes.len() <= usize::MAX,
        0 <= k < nodes[u].connections@.len(),
    ensures
        incoming_prefix(nodes, nodes[u].connections@[k].to.0, nodes.len() as int).contains(u as usize),
{
    let w = nodes[u].connections@[k].to.0;
    assert(leads_to(nodes, u, w));
    lemma_incoming_prefix(nodes, w, nodes.len() as int);
    assert(leads_to(nodes, (u as usize) as int, w));
}

proof fn lemma_node_table_size_monotone(nodes: Seq<Node>, v: int, bi1: nat, bi2: nat, layout: SamplerLayout)
    requires
        bi1 <= bi2,
    ensures
        node_table_size(nodes, v, bi1, layout) <= node_table_size(nodes, v, bi2, layout),
{
    let n_out = nodes[v].connections@.len();
    let n_in = incoming_prefix(nodes, v as usize, nodes.len() as int).len();
    let s = layout.sampler as nat;
    let e = layout.entry as nat;
    assert(bi1 * n_out <= bi2 * n_out) by (nonlinear_arith)
        requires
            bi1 <= bi2,
    ;
    assert(bi1 * n_in <= bi2 * n_in) by (nonlinear_arith)
        requires
            bi1 <= bi2,
    ;
    let a1: nat = n_in + 1 + bi1 * n_out;
    let a2: nat = n_in + 1 + bi2 * n_out;
    let x1: nat = n_out + bi1 * n_in;
    let x2: nat = n_out + bi2 * n_in;
    assert(x1 * e <= x2 * e) by (nonlinear_arith)
        requires
            x1 <= x2,
    ;
    let b1: nat = s + x1 * e;
    let b2: nat = s + x2 * e;
    assert(a1 * b1 <= a2 * b2) by (nonlinear_arith)
        requires
            a1 <= a2,
            b1 <= b2,
    ;
}

proof fn lemma_table_size_before_monotone_bi(nodes: Seq<Node>, k: int, bi1: nat, bi2: nat, layout: SamplerLayout)
    requires
        bi1 <= bi2,
    ensures
        table_size_before(nodes, k, bi1, layout) <= table_size_before(nodes, k, bi2, layout),
    decreases k,
{
    if k > 0 {
        lemma_table_size_before_monotone_bi(nodes, k - 1, bi1, bi2, layout);
        lemma_node_table_size_monotone(nodes, k - 1, bi1, bi2, layout);
    }
}

/// The estimate grows with the multiplier: a walker that also moves against
/// edges never needs fewer bytes. A graph without nodes needs only the header.
pub proof fn lemma_table_size_monotone_in_bi(nodes: Seq<Node>, bi1: nat, bi2: nat, layout: SamplerLayout)
    requires
        bi1 <= bi2,
    ensures
        walker_table_size(nodes, bi1, layout) <= walker_table_size(nodes, bi2, layout),
        nodes.len() == 0 ==> walker_table_size(nodes, bi1, layout) == layout.header,
{
    lemma_table_size_before_monotone_bi(nodes, nodes.len() as int, bi1, bi2, layout);
}

} // verus!
