use vstd::prelude::*;

use crate::errors::HetNetError;
use crate::graph::{EdgeRef, HeteroDiGraph};

verus! {

/// The copy of a graph that is to carry new weights, and, for each outgoing
/// edge of each node, the position among the given edge references of the
/// one that names it, if any: that edge's weight is replaced.
#[derive(Debug)]
pub struct Reweighted {
    pub graph: HeteroDiGraph,
    pub sources: Vec<Vec<Option<usize>>>,
}

/// `source` is the first position in `targets` naming the edge `edge_uid`,
/// or `None` where no position names it.
pub open spec fn is_weight_source(targets: Seq<EdgeRef>, edge_uid: usize, source: Option<usize>) -> bool {
    match source {
        Some(j) => j < targets.len() && targets[j as int].edge_uid == edge_uid && forall|l: int|
            0 <= l < j ==> #[trigger] targets[l].edge_uid != edge_uid,
        None => forall|l: int| 0 <= l < targets.len() ==> #[trigger] targets[l].edge_uid != edge_uid,
    }
}

fn find_source(targets: &Vec<EdgeRef>, edge_uid: usize) -> (r: Option<usize>)
    ensures
        is_weight_source(targets@, edge_uid, r),
{
    let mut j: usize = 0;
    while j < targets.len()
        invariant
            j <= targets@.len(),
            forall|l: int| 0 <= l < j ==> #[trigger] targets@[l].edge_uid != edge_uid,
        decreases targets.len() - j,
    {
        if targets[j].edge_uid == edge_uid {
            return Some(j);
        }
        j = j + 1;
    }
    None
}

impl HeteroDiGraph {
    /// The graph, numbered `uid`, that is to carry new weights for the edges
    /// `targets`, with the place of each edge's new weight among them. Fails
    /// where a reference belongs to another graph.
    pub fn update_weights(&self, targets: &Vec<EdgeRef>, uid: usize) -> (r: Result<Reweighted, HetNetError>)
        requires
            self.wf(),
        ensures
            (exists|i: int| 0 <= i < targets@.len() && (#[trigger] targets@[i]).graph_uid != self.uid) ==> r matches Err(
                HetNetError::InvalidReference,
            ),
            (forall|i: int| 0 <= i < targets@.len() ==> (#[trigger] targets@[i]).graph_uid == self.uid) ==> (r matches Ok(rw)
                && rw.graph.wf() && rw.graph.uid == uid && rw.graph.same_structure(*self) && rw.graph.graph_metadata
                == self.graph_metadata && rw.sources@.len() == self.nodes@.len() && forall|n: int|
                0 <= n < self.nodes@.len() ==> (#[trigger] rw.sources@[n])@.len() == self.nodes@[n].connections@.len()
                    && forall|k: int|
                    0 <= k < self.nodes@[n].connections@.len() ==> is_weight_source(
                        targets@,
                        self.nodes@[n].connections@[k].uid,
                        #[trigger] rw.sources@[n]@[k],
                    )),
    {
        let mut i: usize = 0;
        while i < targets.len()
            invariant
                i <= targets@.len(),
                forall|j: int| 0 <= j < i ==> (#[trigger] targets@[j]).graph_uid == self.uid,
            decreases targets.len() - i,
        {
            if targets[i].graph_uid != self.uid {
                return Err(HetNetError::InvalidReference);
            }
            i = i + 1;
        }
        let mut sources: Vec<Vec<Option<usize>>> = Vec::new();
        let mut n: usize = 0;
        while n < self.nodes.len()
            invariant
                n <= self.nodes@.len(),
                sources@.len() == n,
                forall|m: int|
                    0 <= m < n ==> (#[trigger] sources@[m])@.len() == self.nodes@[m].connections@.len() && forall|k: int|
                        0 <= k < self.nodes@[m].connections@.len() ==> is_weight_source(
                            targets@,
                            self.nodes@[m].connections@[k].uid,
                            #[trigger] sources@[m]@[k],
                        ),
            decreases self.nodes.len() - n,
        {
            let conns = &self.nodes[n].connections;
            let mut row: Vec<Option<usize>> = Vec::new();
            let mut k: usize = 0;
            while k < conns.len()
                invariant
                    conns == &self.nodes@[n as int].connections,
                    k <= conns@.len(),
                    row@.len() == k,
                    forall|l: int| 0 <= l < k ==> is_weight_source(targets@, conns@[l].uid, #[trigger] row@[l]),
                decreases conns.len() - k,
            {
                row.push(find_source(targets, conns[k].uid));
                k = k + 1;
            }
            sources.push(row);
            n = n + 1;
        }
        Ok(Reweighted { graph: self.copy_with_uid(uid), sources })
    }
}

} // verus!
