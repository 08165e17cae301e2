use vstd::prelude::*;

use crate::graph::{GraphMetadata, HeteroDiGraph};

verus! {

impl HeteroDiGraph {
    /// The graph, numbered `uid`, that is to carry each node's outgoing
    /// weights normalised to sum to one; it is marked as a Markov graph.
    pub fn to_markov_graph(&self, uid: usize) -> (g: HeteroDiGraph)
        requires
            self.wf(),
        ensures
            g.wf(),
            g.uid == uid,
            g.same_structure(*self),
            g.graph_metadata == (GraphMetadata { next_edge_id: self.graph_metadata.next_edge_id, is_markov: true }),
    {
        let copy = self.copy_with_uid(uid);
        let ghost before = copy;
        let g = HeteroDiGraph {
            uid: copy.uid,
            node_metadata: copy.node_metadata,
            edge_metadata: copy.edge_metadata,
            graph_metadata: GraphMetadata { next_edge_id: self.graph_metadata.next_edge_id, is_markov: true },
            nodes: copy.nodes,
        };
        assert forall|i: int| 0 <= i < g.nodes@.len() implies #[trigger] g.node_wf(i) by {
            assert(before.node_wf(i));
        }
        g
    }
}

} // verus!
