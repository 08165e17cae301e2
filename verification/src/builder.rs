use vstd::prelude::*;

use crate::errors::HetNetError;
use crate::graph::{
    properties_wf, Edge, EdgeMetadata, EdgeRef, GraphMetadata, HeteroDiGraph, Node, NodeMetadata,
    NodeRef, RawNodeRef,
};
use crate::properties::Properties;
use crate::type_table::{position_of, TypeTable};

verus! {

/// Collects nodes and edges, then builds a graph.
#[derive(Debug)]
pub struct HeteroDiGraphBuilder {
    pub graph_uid: usize,
    pub nodes: Vec<Node>,
    pub node_types: TypeTable,
    pub edge_types: TypeTable,
    pub node_properties: Vec<Properties>,
    pub edge_properties: Vec<Properties>,
    pub next_edge_id: usize,
}

/// No two edges, at whatever nodes, carry the same identifier.
pub open spec fn edge_uids_distinct(nodes: Seq<Node>) -> bool {
    forall|i: int, k: int, j: int, l: int|
        0 <= i < nodes.len() && 0 <= j < nodes.len() && 0 <= k < nodes[i].connections@.len() && 0
            <= l < nodes[j].connections@.len() && (i != j || k != l) ==> (#[trigger] nodes[i].connections@[k]).uid
            != (#[trigger] nodes[j].connections@[l]).uid
}

/// Every edge identifier is below `bound`.
pub open spec fn edge_uids_below(nodes: Seq<Node>, bound: usize) -> bool {
    forall|i: int, k: int|
        0 <= i < nodes.len() && 0 <= k < nodes[i].connections@.len() ==> (#[trigger] nodes[i].connections@[k]).uid
            < bound
}

impl HeteroDiGraphBuilder {
    /// Node `i` is numbered `i`, its properties stand at `i`, its type is
    /// known, and its edges lead to nodes of the builder with known types.
    pub open spec fn node_wf(&self, i: int) -> bool {
        let node = self.nodes@[i];
        &&& node.uid == i
        &&& node.property_index == i
        &&& node.node_type < self.node_types@.len()
        &&& forall|k: int|
            0 <= k < node.connections@.len() ==> {
                &&& (#[trigger] node.connections@[k]).to.0 < self.nodes@.len()
                &&& node.connections@[k].edge_type < self.edge_types@.len()
            }
    }

    pub open spec fn wf(&self) -> bool {
        &&& self.node_types.wf()
        &&& self.edge_types.wf()
        &&& properties_wf(self.node_properties@)
        &&& properties_wf(self.edge_properties@)
        &&& self.node_properties@.len() == self.nodes@.len()
        &&& self.edge_properties@.len() == self.next_edge_id
        &&& forall|i: int| 0 <= i < self.nodes@.len() ==> #[trigger] self.node_wf(i)
        &&& edge_uids_below(self.nodes@, self.next_edge_id)
        &&& edge_uids_distinct(self.nodes@)
    }

    /// The type name of each node added so far, in the order added.
    pub open spec fn node_type_seq(&self) -> Seq<Seq<char>> {
        Seq::new(self.nodes@.len(), |k: int| self.node_types@[self.nodes@[k].node_type as int])
    }

    /// The properties of each node added so far, in the order added.
    pub open spec fn node_property_seq(&self) -> Seq<Map<Seq<char>, Seq<char>>> {
        Seq::new(self.nodes@.len(), |k: int| self.node_properties@[self.nodes@[k].property_index as int]@)
    }

    /// The outgoing edges of node `i` so far, in the order added: identifier,
    /// target and type name of each.
    pub open spec fn edge_seq(&self, i: int) -> Seq<(usize, usize, Seq<char>)> {
        self.nodes@[i].connections@.map_values(|e: Edge| (e.uid, e.to.0, self.edge_types@[e.edge_type as int]))
    }

    /// An empty builder for the graph numbered `graph_uid`.
    pub fn new(graph_uid: usize) -> (b: HeteroDiGraphBuilder)
        ensures
            b.wf(),
            b.graph_uid == graph_uid,
            b.nodes@.len() == 0,
            b.node_types@.len() == 0,
            b.edge_types@.len() == 0,
            b.next_edge_id == 0,
            b.node_type_seq() == Seq::<Seq<char>>::empty(),
            b.node_property_seq() == Seq::<Map<Seq<char>, Seq<char>>>::empty(),
    {
        HeteroDiGraphBuilder {
            graph_uid,
            nodes: Vec::new(),
            node_types: TypeTable::new(),
            edge_types: TypeTable::new(),
            node_properties: Vec::new(),
            edge_properties: Vec::new(),
            next_edge_id: 0,
        }
    }

    /// Adds a node of type `node_type`; nodes are numbered in the order they are added.
    pub fn add_node(&mut self, node_type: String, properties: Option<Properties>) -> (r: NodeRef)
        requires
            old(self).wf(),
            old(self).nodes@.len() < usize::MAX,
            old(self).node_types@.len() < usize::MAX,
            properties matches Some(p) ==> p.wf(),
        ensures
            final(self).wf(),
            r == (NodeRef { graph_uid: old(self).graph_uid, node_uid: old(self).nodes@.len() as usize }),
            final(self).nodes@.len() == old(self).nodes@.len() + 1,
            forall|i: int| 0 <= i < old(self).nodes@.len() ==> #[trigger] final(self).nodes@[i] == old(self).nodes@[i],
            final(self).nodes@.last().uid == r.node_uid,
            final(self).nodes@.last().property_index == r.node_uid,
            final(self).nodes@.last().connections@.len() == 0,
            final(self).node_types@ == (if old(self).node_types@.contains(node_type@) {
                old(self).node_types@
            } else {
                old(self).node_types@.push(node_type@)
            }),
            Some(final(self).nodes@.last().node_type as int) == position_of(final(self).node_types@, node_type@),
            final(self).node_types@[final(self).nodes@.last().node_type as int] == node_type@,
            final(self).node_properties@.drop_last() == old(self).node_properties@,
            match properties {
                Some(p) => final(self).node_properties@.last() == p,
                None => final(self).node_properties@.last()@ == Map::<Seq<char>, Seq<char>>::empty(),
            },
            final(self).graph_uid == old(self).graph_uid,
            final(self).edge_types == old(self).edge_types,
            final(self).edge_properties == old(self).edge_properties,
            final(self).next_edge_id == old(self).next_edge_id,
            final(self).node_type_seq() == old(self).node_type_seq().push(node_type@),
            final(self).node_property_seq() == old(self).node_property_seq().push(match properties {
                Some(p) => p@,
                None => Map::<Seq<char>, Seq<char>>::empty(),
            }),
            forall|i: int| 0 <= i < old(self).nodes@.len() ==> #[trigger] final(self).edge_seq(i) == old(self).edge_seq(i),
            final(self).edge_seq(old(self).nodes@.len() as int) == Seq::<(usize, usize, Seq<char>)>::empty(),
    {
        let uid = self.nodes.len();
        let type_id = self.node_types.intern(node_type);
        let ghost expected = if properties is Some {
            properties->0@
        } else {
            Map::<Seq<char>, Seq<char>>::empty()
        };
        let props = match properties {
            Some(p) => p,
            None => Properties::new(),
        };
        assert(props@ == expected);
        let ghost old_nodes = self.nodes@;
        self.nodes.push(Node { uid, property_index: uid, node_type: type_id, connections: Vec::new() });
        self.node_properties.push(props);
        proof {
            assert(self.node_properties@.drop_last() =~= old(self).node_properties@);
            assert forall|k: int| 0 <= k < old_nodes.len() implies self.nodes@[k] == old_nodes[k]
                && self.node_types@[old_nodes[k].node_type as int] == old(self).node_types@[old_nodes[k].node_type as int]
                && self.node_properties@[k] == old(self).node_properties@[k] by {
                assert(old(self).node_wf(k));
            }
            assert(self.node_type_seq() =~= old(self).node_type_seq().push(node_type@));
            assert(self.node_properties@[old_nodes.len() as int] == props);
            assert(self.nodes@[old_nodes.len() as int].property_index == old_nodes.len());
            assert forall|k: int| 0 <= k < self.nodes@.len() implies #[trigger] self.node_property_seq()[k]
                == old(self).node_property_seq().push(expected)[k] by {
                if k < old_nodes.len() {
                    assert(old(self).node_wf(k));
                    assert(self.nodes@[k] == old_nodes[k]);
                }
            }
            assert(self.node_property_seq() =~= old(self).node_property_seq().push(expected));
            assert forall|i: int| 0 <= i < old_nodes.len() implies #[trigger] self.edge_seq(i) == old(self).edge_seq(i) by {
                assert(self.edge_seq(i) =~= old(self).edge_seq(i));
            }
            assert(self.edge_seq(old_nodes.len() as int) =~= Seq::<(usize, usize, Seq<char>)>::empty());
            assert forall|i: int| 0 <= i < self.nodes@.len() implies #[trigger] self.node_wf(i) by {
                if i < old_nodes.len() {
                    assert(old(self).node_wf(i));
                    assert(self.nodes@[i] == old_nodes[i]);
                }
            }
            assert forall|i: int, k: int|
                0 <= i < self.nodes@.len() && 0 <= k < self.nodes@[i].connections@.len() implies (#[trigger] self.nodes@[i].connections@[k]).uid
                < self.next_edge_id by {
                assert(i < old_nodes.len());
                assert(self.nodes@[i] == old_nodes[i]);
            }
            assert forall|i: int, k: int, j: int, l: int|
                0 <= i < self.nodes@.len() && 0 <= j < self.nodes@.len() && 0 <= k
                    < self.nodes@[i].connections@.len() && 0 <= l < self.nodes@[j].connections@.len()
                    && (i != j || k != l) implies (#[trigger] self.nodes@[i].connections@[k]).uid
                != (#[trigger] self.nodes@[j].connections@[l]).uid by {
                assert(i < old_nodes.len() && j < old_nodes.len());
                assert(self.nodes@[i] == old_nodes[i]);
                assert(self.nodes@[j] == old_nodes[j]);
            }
        }
        NodeRef { graph_uid: self.graph_uid, node_uid: uid }
    }

    /// Adds an edge of type `edge_type` from `from` to `to`. Identifiers are
    /// handed out in order. Fails where a node belongs to another graph.
    pub fn add_edge(
        &mut self,
        from: NodeRef,
        to: NodeRef,
        edge_type: String,
        properties: Option<Properties>,
    ) -> (r: Result<EdgeRef, HetNetError>)
        requires
            old(self).wf(),
            from.graph_uid == old(self).graph_uid && to.graph_uid == old(self).graph_uid ==> from.node_uid
                < old(self).nodes@.len() && to.node_uid < old(self).nodes@.len(),
            old(self).next_edge_id < usize::MAX,
            old(self).edge_types@.len() < usize::MAX,
            properties matches Some(p) ==> p.wf(),
        ensures
            final(self).wf(),
            from.graph_uid != old(self).graph_uid || to.graph_uid != old(self).graph_uid ==> (r matches Err(
                HetNetError::InvalidReference,
            ) && *final(self) == *old(self)),
            from.graph_uid == old(self).graph_uid && to.graph_uid == old(self).graph_uid ==> {
                let e = final(self).nodes@[from.node_uid as int].connections@.last();
                &&& r == Ok::<EdgeRef, HetNetError>(
                    EdgeRef { graph_uid: old(self).graph_uid, edge_uid: old(self).next_edge_id },
                )
                &&& final(self).next_edge_id == old(self).next_edge_id + 1
                &&& final(self).nodes@.len() == old(self).nodes@.len()
                &&& forall|i: int|
                    0 <= i < old(self).nodes@.len() && i != from.node_uid ==> #[trigger] final(self).nodes@[i]
                        == old(self).nodes@[i]
                &&& final(self).nodes@[from.node_uid as int].uid == old(self).nodes@[from.node_uid as int].uid
                &&& final(self).nodes@[from.node_uid as int].property_index == old(self).nodes@[from.node_uid as int].property_index
                &&& final(self).nodes@[from.node_uid as int].node_type == old(self).nodes@[from.node_uid as int].node_type
                &&& final(self).nodes@[from.node_uid as int].connections@ == old(self).nodes@[from.node_uid as int].connections@.push(e)
                &&& e.uid == old(self).next_edge_id
                &&& e.to == RawNodeRef(to.node_uid)
                &&& Some(e.edge_type as int) == position_of(final(self).edge_types@, edge_type@)
                &&& final(self).edge_types@[e.edge_type as int] == edge_type@
                &&& final(self).edge_types@ == (if old(self).edge_types@.contains(edge_type@) {
                    old(self).edge_types@
                } else {
                    old(self).edge_types@.push(edge_type@)
                })
                &&& final(self).edge_properties@.drop_last() == old(self).edge_properties@
                &&& match properties {
                    Some(p) => final(self).edge_properties@.last() == p,
                    None => final(self).edge_properties@.last()@ == Map::<Seq<char>, Seq<char>>::empty(),
                }
                &&& final(self).graph_uid == old(self).graph_uid
                &&& final(self).node_types == old(self).node_types
                &&& final(self).node_properties == old(self).node_properties
                &&& final(self).node_type_seq() == old(self).node_type_seq()
                &&& final(self).node_property_seq() == old(self).node_property_seq()
                &&& final(self).edge_seq(from.node_uid as int) == old(self).edge_seq(from.node_uid as int).push(
                    (old(self).next_edge_id, to.node_uid, edge_type@),
                )
                &&& forall|i: int|
                    0 <= i < old(self).nodes@.len() && i != from.node_uid ==> #[trigger] final(self).edge_seq(i)
                        == old(self).edge_seq(i)
            },
    {
        if from.graph_uid != self.graph_uid || to.graph_uid != self.graph_uid {
            return Err(HetNetError::InvalidReference);
        }
        let type_id = self.edge_types.intern(edge_type);
        let edge = Edge { edge_type: type_id, to: RawNodeRef(to.node_uid), uid: self.next_edge_id };
        self.next_edge_id = self.next_edge_id + 1;
        let ghost old_nodes = self.nodes@;
        let ghost f = from.node_uid as int;
        self.nodes[from.node_uid].connections.push(edge);
        let props = match properties {
            Some(p) => p,
            None => Properties::new(),
        };
        self.edge_properties.push(props);
        proof {
            assert(self.edge_properties@.drop_last() =~= old(self).edge_properties@);
            assert(self.node_type_seq() =~= old(self).node_type_seq());
            assert(self.node_property_seq() =~= old(self).node_property_seq());
            assert forall|i: int| 0 <= i < old_nodes.len() && i != f implies #[trigger] self.edge_seq(i) == old(self).edge_seq(i) by {
                assert(old(self).node_wf(i));
                assert(self.nodes@[i] == old_nodes[i]);
                assert(self.edge_seq(i) =~= old(self).edge_seq(i));
            }
            assert(old(self).node_wf(f));
            assert(self.edge_seq(f) =~= old(self).edge_seq(f).push((old(self).next_edge_id, to.node_uid, edge_type@)));
            assert(self.nodes@[f].connections@.drop_last() =~= old_nodes[f].connections@);
            assert forall|i: int| 0 <= i < self.nodes@.len() implies #[trigger] self.node_wf(i) by {
                assert(old(self).node_wf(i));
                if i == f {
                    assert forall|k: int| 0 <= k < self.nodes@[i].connections@.len() implies {
                        &&& (#[trigger] self.nodes@[i].connections@[k]).to.0 < self.nodes@.len()
                        &&& self.nodes@[i].connections@[k].edge_type < self.edge_types@.len()
                    } by {
                        if k < old_nodes[i].connections@.len() {
                            assert(self.nodes@[i].connections@[k] == old_nodes[i].connections@[k]);
                        }
                    }
                } else {
                    assert(self.nodes@[i] == old_nodes[i]);
                }
            }
            assert forall|i: int, k: int|
                0 <= i < self.nodes@.len() && 0 <= k < self.nodes@[i].connections@.len() implies (#[trigger] self.nodes@[i].connections@[k]).uid
                < self.next_edge_id by {
                if i == f && k == old_nodes[i].connections@.len() {
                } else if i == f {
                    assert(self.nodes@[i].connections@[k] == old_nodes[i].connections@[k]);
                } else {
                    assert(self.nodes@[i] == old_nodes[i]);
                }
            }
            assert forall|i: int, k: int, j: int, l: int|
                0 <= i < self.nodes@.len() && 0 <= j < self.nodes@.len() && 0 <= k
                    < self.nodes@[i].connections@.len() && 0 <= l < self.nodes@[j].connections@.len()
                    && (i != j || k != l) implies (#[trigger] self.nodes@[i].connections@[k]).uid
                != (#[trigger] self.nodes@[j].connections@[l]).uid by {
                let new_i = i == f && k == old_nodes[f].connections@.len();
                let new_j = j == f && l == old_nodes[f].connections@.len();
                if !new_i {
                    if i == f {
                        assert(self.nodes@[i].connections@[k] == old_nodes[i].connections@[k]);
                    } else {
                        assert(self.nodes@[i] == old_nodes[i]);
                    }
                }
                if !new_j {
                    if j == f {
                        assert(self.nodes@[j].connections@[l] == old_nodes[j].connections@[l]);
                    } else {
                        assert(self.nodes@[j] == old_nodes[j]);
                    }
                }
            }
        }
        Ok(EdgeRef { graph_uid: self.graph_uid, edge_uid: edge.uid })
    }

    /// The graph with the nodes, edges, types and properties collected so far.
    pub fn build(self) -> (g: HeteroDiGraph)
        requires
            self.wf(),
        ensures
            g.wf(),
            g.uid == self.graph_uid,
            g.nodes == self.nodes,
            g.node_metadata.node_types == self.node_types,
            g.edge_metadata.edge_types == self.edge_types,
            g.node_metadata.node_properties == self.node_properties,
            g.edge_metadata.edge_properties == self.edge_properties,
            g.graph_metadata == (GraphMetadata { next_edge_id: self.next_edge_id, is_markov: false }),
            edge_uids_distinct(g.nodes@),
            forall|i: int|
                0 <= i < g.nodes@.len() ==> g.node_type_names()[(#[trigger] g.nodes@[i]).node_type as int]
                    == self.node_type_seq()[i] && g.node_metadata.node_properties@[g.nodes@[i].property_index as int]@
                    == self.node_property_seq()[i],
            forall|i: int, k: int|
                0 <= i < g.nodes@.len() && 0 <= k < g.nodes@[i].connections@.len() ==> #[trigger] g.edge_view(i, k)
                    == (
                    EdgeRef { graph_uid: g.uid, edge_uid: self.edge_seq(i)[k].0 },
                    NodeRef { graph_uid: g.uid, node_uid: i as usize },
                    NodeRef { graph_uid: g.uid, node_uid: self.edge_seq(i)[k].1 },
                    self.edge_seq(i)[k].2,
                ),
    {
        let g = HeteroDiGraph {
            uid: self.graph_uid,
            node_metadata: NodeMetadata {
                node_types: self.node_types,
                node_properties: self.node_properties,
            },
            edge_metadata: EdgeMetadata {
                edge_types: self.edge_types,
                edge_properties: self.edge_properties,
            },
            graph_metadata: GraphMetadata { next_edge_id: self.next_edge_id, is_markov: false },
            nodes: self.nodes,
        };
        assert forall|i: int| 0 <= i < g.nodes@.len() implies #[trigger] g.node_wf(i) by {
            assert(self.node_wf(i));
        }
        assert forall|i: int, k: int|
            0 <= i < g.nodes@.len() && 0 <= k < g.nodes@[i].connections@.len() implies #[trigger] g.edge_view(i, k)
                == (
                EdgeRef { graph_uid: g.uid, edge_uid: self.edge_seq(i)[k].0 },
                NodeRef { graph_uid: g.uid, node_uid: i as usize },
                NodeRef { graph_uid: g.uid, node_uid: self.edge_seq(i)[k].1 },
                self.edge_seq(i)[k].2,
            ) by {
            assert(self.node_wf(i));
        }
        g
    }
}

} // verus!
