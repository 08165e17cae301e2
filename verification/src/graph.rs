use vstd::prelude::*;

use crate::errors::GraphQueryingError;
use crate::properties::Properties;
use crate::type_table::TypeTable;

verus! {

//////////////////////////////////////////////////////////////////////////////////////////////////
// Types
//////////////////////////////////////////////////////////////////////////////////////////////////

/// A directed graph whose nodes and edges carry types and string properties.
#[derive(Debug)]
pub struct HeteroDiGraph {
    pub uid: usize,
    pub node_metadata: NodeMetadata,
    pub edge_metadata: EdgeMetadata,
    pub graph_metadata: GraphMetadata,
    pub nodes: Vec<Node>,
}

#[derive(Debug, Clone, Copy)]
pub struct GraphMetadata {
    pub next_edge_id: usize,
    pub is_markov: bool,
}

#[derive(Debug)]
pub struct NodeMetadata {
    pub node_types: TypeTable,
    pub node_properties: Vec<Properties>,
}

#[derive(Debug)]
pub struct EdgeMetadata {
    pub edge_types: TypeTable,
    pub edge_properties: Vec<Properties>,
}

/// A node: its identifier, where its properties stand, its type and its outgoing edges.
#[derive(Debug)]
pub struct Node {
    pub uid: usize,
    pub property_index: usize,
    pub node_type: usize,
    pub connections: Vec<Edge>,
}

/// An outgoing edge: its identifier, its type and the node it leads to.
#[derive(Debug, Clone, Copy, PartialEq, Eq, Structural)]
pub struct Edge {
    pub uid: usize,
    pub edge_type: usize,
    pub to: RawNodeRef,
}

/// A node of one particular graph.
#[derive(Debug, Clone, Copy, PartialEq, Eq, Hash, Structural)]
pub struct NodeRef {
    pub graph_uid: usize,
    pub node_uid: usize,
}

/// An edge of one particular graph.
#[derive(Debug, Clone, Copy, PartialEq, Eq, Hash, Structural)]
pub struct EdgeRef {
    pub graph_uid: usize,
    pub edge_uid: usize,
}

/// A node index within a graph known from context.
#[derive(Debug, Clone, Copy, PartialEq, Eq, Hash, Structural)]
pub struct RawNodeRef(pub usize);

impl NodeRef {
    /// The node's index, without the graph.
    pub fn downgrade(&self) -> (r: RawNodeRef)
        ensures
            r == RawNodeRef(self.node_uid),
    {
        RawNodeRef(self.node_uid)
    }
}

impl RawNodeRef {
    /// The node of graph `graph_uid` at this index.
    pub fn upgrade(&self, graph_uid: usize) -> (r: NodeRef)
        ensures
            r == (NodeRef { graph_uid, node_uid: self.0 }),
    {
        NodeRef { graph_uid, node_uid: self.0 }
    }
}

/// A node as the graph describes it to its users.
#[derive(Debug)]
pub struct NodeDescriptor {
    pub uid: NodeRef,
    pub node_type: String,
}

/// An edge as the graph describes it to its users.
#[derive(Debug)]
pub struct EdgeDescriptor {
    pub uid: EdgeRef,
    pub from: NodeRef,
    pub to: NodeRef,
    pub edge_type: String,
}

impl NodeDescriptor {
    pub fn uid(&self) -> (r: NodeRef)
        ensures
            r == self.uid,
    {
        self.uid
    }

    /// The name of the node's type.
    pub fn node_type(&self) -> (r: &str)
        ensures
            r@ == self.node_type@,
    {
        self.node_type.as_str()
    }
}

impl EdgeDescriptor {
    pub fn uid(&self) -> (r: EdgeRef)
        ensures
            r == self.uid,
    {
        self.uid
    }

    pub fn from(&self) -> (r: NodeRef)
        ensures
            r == self.from,
    {
        self.from
    }

    pub fn to(&self) -> (r: NodeRef)
        ensures
            r == self.to,
    {
        self.to
    }

    /// The name of the edge's type.
    pub fn edge_type(&self) -> (r: &str)
        ensures
            r@ == self.edge_type@,
    {
        self.edge_type.as_str()
    }
}

/// An edge description as plain values: identifier, source, target, type name.
pub type EdgeView = (EdgeRef, NodeRef, NodeRef, Seq<char>);

pub open spec fn edge_descriptor_view(d: EdgeDescriptor) -> EdgeView {
    (d.uid, d.from, d.to, d.edge_type@)
}

//////////////////////////////////////////////////////////////////////////////////////////////////
// Well-formedness
//////////////////////////////////////////////////////////////////////////////////////////////////

pub open spec fn properties_wf(props: Seq<Properties>) -> bool {
    forall|i: int| 0 <= i < props.len() ==> (#[trigger] props[i]).wf()
}

impl HeteroDiGraph {
    pub open spec fn node_type_names(&self) -> Seq<Seq<char>> {
        self.node_metadata.node_types@
    }

    pub open spec fn edge_type_names(&self) -> Seq<Seq<char>> {
        self.edge_metadata.edge_types@
    }

    /// The `k`-th outgoing edge of node `i`.
    pub open spec fn edge_at(&self, i: int, k: int) -> Edge {
        self.nodes@[i].connections@[k]
    }

    /// Node `i` is numbered `i`, its type and properties exist, and its edges
    /// carry known types and lead to nodes of the graph.
    pub open spec fn node_wf(&self, i: int) -> bool {
        let node = self.nodes@[i];
        &&& node.uid == i
        &&& node.node_type < self.node_type_names().len()
        &&& node.property_index < self.node_metadata.node_properties@.len()
        &&& forall|k: int|
            0 <= k < node.connections@.len() ==> {
                &&& (#[trigger] node.connections@[k]).to.0 < self.nodes@.len()
                &&& node.connections@[k].edge_type < self.edge_type_names().len()
            }
    }

    pub open spec fn wf(&self) -> bool {
        &&& self.node_metadata.node_types.wf()
        &&& self.edge_metadata.edge_types.wf()
        &&& properties_wf(self.node_metadata.node_properties@)
        &&& properties_wf(self.edge_metadata.edge_properties@)
        &&& forall|i: int| 0 <= i < self.nodes@.len() ==> #[trigger] self.node_wf(i)
    }

    /// The description of the `k`-th outgoing edge of node `i`.
    pub open spec fn edge_view(&self, i: int, k: int) -> EdgeView {
        let e = self.edge_at(i, k);
        (
            EdgeRef { graph_uid: self.uid, edge_uid: e.uid },
            NodeRef { graph_uid: self.uid, node_uid: self.nodes@[i].uid },
            NodeRef { graph_uid: self.uid, node_uid: e.to.0 },
            self.edge_type_names()[e.edge_type as int],
        )
    }

    /// The descriptions of the outgoing edges of node `i`, in order.
    pub open spec fn node_edge_views(&self, i: int) -> Seq<EdgeView> {
        Seq::new(self.nodes@[i].connections@.len(), |k: int| self.edge_view(i, k))
    }

    /// All edge descriptions: node by node, and each node's edges in order.
    pub open spec fn edge_list_view(&self) -> Seq<EdgeView> {
        Seq::new(self.nodes@.len(), |i: int| self.node_edge_views(i)).flatten()
    }
}

/// A copy of a list of property maps.
pub fn duplicate_properties(props: &Vec<Properties>) -> (r: Vec<Properties>)
    requires
        properties_wf(props@),
    ensures
        properties_wf(r@),
        r@.len() == props@.len(),
        forall|i: int| 0 <= i < r@.len() ==> (#[trigger] r@[i])@ == props@[i]@,
{
    let mut r: Vec<Properties> = Vec::new();
    let mut i: usize = 0;
    while i < props.len()
        invariant
            properties_wf(props@),
            i <= props.len(),
            r@.len() == i,
            properties_wf(r@),
            forall|j: int| 0 <= j < i ==> (#[trigger] r@[j])@ == props@[j]@,
        decreases props.len() - i,
    {
        assert(props@[i as int].wf());
        r.push(props[i].duplicate());
        i = i + 1;
    }
    r
}

impl NodeMetadata {
    /// A copy of the node types and properties.
    pub fn duplicate(&self) -> (r: NodeMetadata)
        requires
            self.node_types.wf(),
            properties_wf(self.node_properties@),
        ensures
            r.node_types.wf(),
            r.node_types@ == self.node_types@,
            properties_wf(r.node_properties@),
            r.node_properties@.len() == self.node_properties@.len(),
            forall|i: int| 0 <= i < r.node_properties@.len() ==> (#[trigger] r.node_properties@[i])@ == self.node_properties@[i]@,
    {
        NodeMetadata {
            node_types: self.node_types.duplicate(),
            node_properties: duplicate_properties(&self.node_properties),
        }
    }
}

fn copy_edges(edges: &Vec<Edge>) -> (r: Vec<Edge>)
    ensures
        r@ == edges@,
{
    let mut r: Vec<Edge> = Vec::new();
    let mut i: usize = 0;
    while i < edges.len()
        invariant
            i <= edges.len(),
            r@ == edges@.take(i as int),
        decreases edges.len() - i,
    {
        r.push(edges[i]);
        assert(edges@.take(i + 1) =~= edges@.take(i as int).push(edges@[i as int]));
        i = i + 1;
    }
    assert(edges@.take(i as int) =~= edges@);
    r
}

impl HeteroDiGraph {
    /// A copy of the graph under the number `uid`: same nodes, edges, types
    /// and properties.
    pub fn copy_with_uid(&self, uid: usize) -> (g: HeteroDiGraph)
        requires
            self.wf(),
        ensures
            g.wf(),
            g.uid == uid,
            g.same_structure(*self),
            g.graph_metadata == self.graph_metadata,
    {
        let mut nodes: Vec<Node> = Vec::new();
        let mut i: usize = 0;
        while i < self.nodes.len()
            invariant
                i <= self.nodes@.len(),
                nodes@.len() == i,
                forall|j: int| 0 <= j < i ==> #[trigger] same_node(nodes@[j], self.nodes@[j]),
            decreases self.nodes.len() - i,
        {
            let node = &self.nodes[i];
            nodes.push(Node {
                uid: node.uid,
                property_index: node.property_index,
                node_type: node.node_type,
                connections: copy_edges(&node.connections),
            });
            i = i + 1;
        }
        let edge_properties = duplicate_properties(&self.edge_metadata.edge_properties);
        let g = HeteroDiGraph {
            uid,
            node_metadata: self.node_metadata.duplicate(),
            edge_metadata: EdgeMetadata {
                edge_types: self.edge_metadata.edge_types.duplicate(),
                edge_properties,
            },
            graph_metadata: self.graph_metadata,
            nodes,
        };
        assert forall|j: int| 0 <= j < g.nodes@.len() implies #[trigger] g.node_wf(j) by {
            assert(self.node_wf(j));
            assert(same_node(g.nodes@[j], self.nodes@[j]));
        }
        g
    }
}

/// Two nodes agree in identifier, property position, type and outgoing edges.
pub open spec fn same_node(a: Node, b: Node) -> bool {
    &&& a.uid == b.uid
    &&& a.property_index == b.property_index
    &&& a.node_type == b.node_type
    &&& a.connections@ == b.connections@
}

impl HeteroDiGraph {
    /// The graphs agree in everything but their number and metadata: nodes,
    /// edges, type names, and the contents of all properties.
    pub open spec fn same_structure(&self, other: HeteroDiGraph) -> bool {
        &&& self.nodes@.len() == other.nodes@.len()
        &&& forall|i: int| 0 <= i < self.nodes@.len() ==> #[trigger] same_node(self.nodes@[i], other.nodes@[i])
        &&& self.node_type_names() == other.node_type_names()
        &&& self.edge_type_names() == other.edge_type_names()
        &&& self.node_metadata.node_properties@.len() == other.node_metadata.node_properties@.len()
        &&& forall|i: int|
            0 <= i < self.node_metadata.node_properties@.len() ==> (#[trigger] self.node_metadata.node_properties@[i])@
                == other.node_metadata.node_properties@[i]@
        &&& self.edge_metadata.edge_properties@.len() == other.edge_metadata.edge_properties@.len()
        &&& forall|i: int|
            0 <= i < self.edge_metadata.edge_properties@.len() ==> (#[trigger] self.edge_metadata.edge_properties@[i])@
                == other.edge_metadata.edge_properties@[i]@
    }
}

//////////////////////////////////////////////////////////////////////////////////////////////////
// Basic interface
//////////////////////////////////////////////////////////////////////////////////////////////////

impl HeteroDiGraph {
    /// One description per node, in node order.
    pub fn node_list(&self) -> (r: Vec<NodeDescriptor>)
        requires
            self.wf(),
        ensures
            r@.len() == self.nodes@.len(),
            forall|i: int|
                0 <= i < r@.len() ==> (#[trigger] r@[i]).uid == (NodeRef {
                    graph_uid: self.uid,
                    node_uid: i as usize,
                }) && r@[i].node_type@ == self.node_type_names()[self.nodes@[i].node_type as int],
    {
        let mut result: Vec<NodeDescriptor> = Vec::with_capacity(self.nodes.len());
        let mut i: usize = 0;
        while i < self.nodes.len()
            invariant
                self.wf(),
                i <= self.nodes@.len(),
                result@.len() == i,
                forall|j: int|
                    0 <= j < i ==> (#[trigger] result@[j]).uid == (NodeRef {
                        graph_uid: self.uid,
                        node_uid: j as usize,
                    }) && result@[j].node_type@ == self.node_type_names()[self.nodes@[j].node_type as int],
            decreases self.nodes.len() - i,
        {
            let node = &self.nodes[i];
            assert(self.node_wf(i as int));
            let name = self.node_metadata.node_types.name(node.node_type).clone();
            result.push(
                NodeDescriptor {
                    uid: NodeRef { graph_uid: self.uid, node_uid: node.uid },
                    node_type: name,
                },
            );
            i = i + 1;
        }
        result
    }

    /// One description per edge: node by node, each node's edges in order.
    pub fn edge_list(&self) -> (r: Vec<EdgeDescriptor>)
        requires
            self.wf(),
        ensures
            r@.map_values(|d: EdgeDescriptor| edge_descriptor_view(d)) == self.edge_list_view(),
    {
        let ghost per_node = Seq::new(self.nodes@.len(), |i: int| self.node_edge_views(i));
        let mut result: Vec<EdgeDescriptor> = Vec::new();
        let mut i: usize = 0;
        assert(per_node.take(0) =~= Seq::<Seq<EdgeView>>::empty());
        while i < self.nodes.len()
            invariant
                self.wf(),
                i <= self.nodes@.len(),
                per_node == Seq::new(self.nodes@.len(), |i: int| self.node_edge_views(i)),
                result@.map_values(|d: EdgeDescriptor| edge_descriptor_view(d)) == per_node.take(
                    i as int,
                ).flatten(),
            decreases self.nodes.len() - i,
        {
            let node = &self.nodes[i];
            assert(self.node_wf(i as int));
            let ghost before = result@.map_values(|d: EdgeDescriptor| edge_descriptor_view(d));
            let mut k: usize = 0;
            while k < node.connections.len()
                invariant
                    self.wf(),
                    i < self.nodes@.len(),
                    node == &self.nodes@[i as int],
                    self.node_wf(i as int),
                    k <= node.connections@.len(),
                    result@.map_values(|d: EdgeDescriptor| edge_descriptor_view(d)) == before
                        + self.node_edge_views(i as int).take(k as int),
                decreases node.connections.len() - k,
            {
                let edge = node.connections[k];
                assert(edge == self.edge_at(i as int, k as int));
                let name = self.edge_metadata.edge_types.name(edge.edge_type).clone();
                let ghost old_result = result@;
                result.push(
                    EdgeDescriptor {
                        uid: EdgeRef { graph_uid: self.uid, edge_uid: edge.uid },
                        from: NodeRef { graph_uid: self.uid, node_uid: node.uid },
                        to: edge.to.upgrade(self.uid),
                        edge_type: name,
                    },
                );
                assert(result@.map_values(|d: EdgeDescriptor| edge_descriptor_view(d))
                    =~= old_result.map_values(|d: EdgeDescriptor| edge_descriptor_view(d)).push(
                    self.edge_view(i as int, k as int),
                ));
                assert(self.node_edge_views(i as int).take(k + 1) =~= self.node_edge_views(
                    i as int,
                ).take(k as int).push(self.edge_view(i as int, k as int)));
                k = k + 1;
            }
            assert(self.node_edge_views(i as int).take(k as int) =~= self.node_edge_views(i as int));
            assert(per_node.take(i + 1) =~= per_node.take(i as int).push(per_node[i as int]));
            assert(per_node[i as int] == self.node_edge_views(i as int));
            proof {
                per_node.take(i as int).lemma_flatten_push(per_node[i as int]);
            }
            assert(per_node.take(i as int).push(per_node[i as int]).flatten() =~= per_node.take(
                i as int,
            ).flatten() + per_node[i as int]);
            i = i + 1;
        }
        assert(per_node.take(i as int) =~= per_node);
        result
    }

    /// The properties of a node of this graph.
    pub fn node_properties(&self, reference: NodeRef) -> (r: Result<&Properties, GraphQueryingError>)
        requires
            self.wf(),
        ensures
            reference.graph_uid != self.uid ==> r matches Err(GraphQueryingError::InvalidReference),
            reference.graph_uid == self.uid && reference.node_uid >= self.nodes@.len() ==> (r matches Err(
                GraphQueryingError::InvalidNodeId { uid },
            ) && uid == reference.node_uid),
            reference.graph_uid == self.uid && reference.node_uid < self.nodes@.len() ==> (r matches Ok(p)
                && p == self.node_metadata.node_properties@[self.nodes@[reference.node_uid as int].property_index as int]),
    {
        if reference.graph_uid != self.uid {
            return Err(GraphQueryingError::InvalidReference);
        }
        if reference.node_uid >= self.nodes.len() {
            return Err(GraphQueryingError::InvalidNodeId { uid: reference.node_uid });
        }
        let index = self.nodes[reference.node_uid].property_index;
        assert(self.node_wf(reference.node_uid as int));
        Ok(&self.node_metadata.node_properties[index])
    }

    /// The properties of an edge of this graph.
    pub fn edge_properties(&self, reference: EdgeRef) -> (r: Result<&Properties, GraphQueryingError>)
        requires
            self.wf(),
        ensures
            reference.graph_uid != self.uid ==> r matches Err(GraphQueryingError::InvalidReference),
            reference.graph_uid == self.uid && reference.edge_uid
                >= self.edge_metadata.edge_properties@.len() ==> (r matches Err(
                GraphQueryingError::InvalidEdgeId { uid },
            ) && uid == reference.edge_uid),
            reference.graph_uid == self.uid && reference.edge_uid
                < self.edge_metadata.edge_properties@.len() ==> (r matches Ok(p) && p
                == self.edge_metadata.edge_properties@[reference.edge_uid as int]),
    {
        if reference.graph_uid != self.uid {
            return Err(GraphQueryingError::InvalidReference);
        }
        if reference.edge_uid >= self.edge_metadata.edge_properties.len() {
            return Err(GraphQueryingError::InvalidEdgeId { uid: reference.edge_uid });
        }
        Ok(&self.edge_metadata.edge_properties[reference.edge_uid])
    }
}

} // verus!
