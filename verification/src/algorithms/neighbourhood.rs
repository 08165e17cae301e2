use vstd::prelude::*;
use std::collections::HashSet;

use crate::errors::HetNetError;
use crate::graph::{HeteroDiGraph, Node, RawNodeRef};

verus! {

broadcast use vstd::std_specs::hash::group_hash_axioms;

/// How a step of a second-order walk relates to the node the walk came from.
#[derive(Debug, Clone, Copy, PartialEq, Eq, Structural)]
pub enum Transition {
    /// The walk has no previous node.
    First,
    /// The step returns to the previous node.
    Return,
    /// The step reaches a node that the previous node also leads to.
    Common,
    /// The step moves away from the previous node.
    Explore,
}

/// Node `from` has an outgoing edge to `to`.
pub open spec fn has_edge_to(nodes: Seq<Node>, from: usize, to: RawNodeRef) -> bool {
    exists|k: int| 0 <= k < nodes[from as int].connections@.len() && (#[trigger] nodes[from as int].connections@[k]).to == to
}

pub open spec fn spec_transition(nodes: Seq<Node>, prev: Option<RawNodeRef>, to: RawNodeRef) -> Transition {
    match prev {
        None => Transition::First,
        Some(p) => if p == to {
            Transition::Return
        } else if has_edge_to(nodes, p.0, to) {
            Transition::Common
        } else {
            Transition::Explore
        },
    }
}

/// How a step to `to` is classified: the first step of a walk is `First`; a
/// step back to the previous node `p` is `Return`; any other step is
/// `Common` exactly when `p` itself has an outgoing edge to `to`, and
/// `Explore` otherwise. Edges into `p` play no part.
pub proof fn lemma_transition_meaning(nodes: Seq<Node>, prev: Option<RawNodeRef>, to: RawNodeRef)
    ensures
        prev is None ==> spec_transition(nodes, prev, to) == Transition::First,
        prev matches Some(p) ==> (spec_transition(nodes, prev, to) == Transition::Return <==> p == to),
        prev matches Some(p) ==> (p != to ==> (spec_transition(nodes, prev, to) == Transition::Common <==> exists|i: int|
            0 <= i < nodes[p.0 as int].connections@.len() && (#[trigger] nodes[p.0 as int].connections@[i]).to == to)),
        prev matches Some(p) ==> (p != to ==> (spec_transition(nodes, prev, to) == Transition::Explore <==> forall|i: int|
            0 <= i < nodes[p.0 as int].connections@.len() ==> (#[trigger] nodes[p.0 as int].connections@[i]).to != to)),
{
}

impl HeteroDiGraph {
    /// For each outgoing edge of `node`, in order: the node it leads to and
    /// how that step relates to `prev`, the node the walk came from.
    pub fn transitions(&self, node: RawNodeRef, prev: Option<RawNodeRef>) -> (r: Result<
        Vec<(RawNodeRef, Transition)>,
        HetNetError,
    >)
        requires
            self.wf(),
            node.0 < self.nodes@.len() ==> (prev matches Some(p) ==> p.0 < self.nodes@.len()),
        ensures
            node.0 >= self.nodes@.len() ==> (r matches Err(HetNetError::InvalidNodeId { uid }) && uid == node.0),
            node.0 < self.nodes@.len() ==> (r matches Ok(v) && {
                let conns = self.nodes@[node.0 as int].connections@;
                &&& v@.len() == conns.len()
                &&& forall|k: int|
                    0 <= k < conns.len() ==> #[trigger] v@[k] == (conns[k].to, spec_transition(self.nodes@, prev, conns[k].to))
            }),
    {
        if node.0 >= self.nodes.len() {
            return Err(HetNetError::InvalidNodeId { uid: node.0 });
        }
        let conns = &self.nodes[node.0].connections;
        let mut reachable: HashSet<usize> = HashSet::new();
        match prev {
            Some(p) => {
                let prev_conns = &self.nodes[p.0].connections;
                let mut j: usize = 0;
                while j < prev_conns.len()
                    invariant
                        j <= prev_conns@.len(),
                        forall|t: usize|
                            reachable@.contains(t) <==> exists|k: int| 0 <= k < j && (#[trigger] prev_conns@[k]).to.0 == t,
                    decreases prev_conns.len() - j,
                {
                    reachable.insert(prev_conns[j].to.0);
                    proof {
                        assert forall|t: usize|
                            reachable@.contains(t) <==> exists|k: int| 0 <= k < j + 1 && (#[trigger] prev_conns@[k]).to.0 == t by {
                            if t == prev_conns@[j as int].to.0 {
                                assert(prev_conns@[j as int].to.0 == t);
                            }
                        }
                    }
                    j = j + 1;
                }
            },
            None => {},
        }
        let mut result: Vec<(RawNodeRef, Transition)> = Vec::new();
        let mut k: usize = 0;
        while k < conns.len()
            invariant
                k <= conns@.len(),
                conns == &self.nodes@[node.0 as int].connections,
                result@.len() == k,
                prev matches Some(p) ==> p.0 < self.nodes@.len() && forall|t: usize|
                    reachable@.contains(t) <==> exists|i: int|
                        0 <= i < self.nodes@[p.0 as int].connections@.len()
                            && (#[trigger] self.nodes@[p.0 as int].connections@[i]).to.0 == t,
                forall|i: int|
                    0 <= i < k ==> #[trigger] result@[i] == (conns@[i].to, spec_transition(self.nodes@, prev, conns@[i].to)),
            decreases conns.len() - k,
        {
            let to = conns[k].to;
            let kind = match prev {
                None => Transition::First,
                Some(p) => {
                    if p == to {
                        Transition::Return
                    } else if reachable.contains(&to.0) {
                        proof {
                            let i = choose|i: int|
                                0 <= i < self.nodes@[p.0 as int].connections@.len()
                                    && (#[trigger] self.nodes@[p.0 as int].connections@[i]).to.0 == to.0;
                            assert(self.nodes@[p.0 as int].connections@[i].to == to);
                        }
                        Transition::Common
                    } else {
                        Transition::Explore
                    }
                },
            };
            result.push((to, kind));
            k = k + 1;
        }
        Ok(result)
    }
}

} // verus!
