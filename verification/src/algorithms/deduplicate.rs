use vstd::prelude::*;
use std::collections::HashSet;

use crate::algorithms::utils::{is_unknown_type_error, spec_convert_edge_types, string_views};
use crate::builder::{edge_uids_below, edge_uids_distinct};
use crate::errors::HetNetError;
use crate::graph::{properties_wf, Edge, EdgeMetadata, HeteroDiGraph, Node};
use crate::properties::Properties;

verus! {

broadcast use vstd::std_specs::hash::group_hash_axioms;

//////////////////////////////////////////////////////////////////////////////////////////////////
// Types
//////////////////////////////////////////////////////////////////////////////////////////////////

/// What happens to the properties of edges that are merged.
#[derive(Debug, Clone, Copy, PartialEq, Eq, Structural)]
pub enum DataHandling {
    /// Merged edges get a fresh identifier, and so no properties.
    Discard,
    /// Merged edges must carry equal properties; the first edge's identifier stays.
    EnforceIdentical,
}

/// What happens to the weights of edges that are merged.
#[derive(Debug, Clone, Copy, PartialEq, Eq, Structural)]
pub enum WeightHandling {
    SetToOne,
    EnforceIdentical,
    SumAggregate,
}

/// How the weight of an edge of the deduplicated graph follows from the
/// weights of the node's outgoing edges before merging, given by their positions.
#[derive(Debug)]
pub enum WeightPlan {
    /// The weight of the one input edge.
    Keep(usize),
    /// Weight one.
    One,
    /// The input edges' weights must agree; the weight is the first one.
    Identical(Vec<usize>),
    /// The sum of the input edges' weights, added in this order.
    Sum(Vec<usize>),
}

/// The deduplicated graph, with a weight plan for each outgoing edge of each node.
#[derive(Debug)]
pub struct Deduplicated {
    pub graph: HeteroDiGraph,
    pub plans: Vec<Vec<WeightPlan>>,
}

//////////////////////////////////////////////////////////////////////////////////////////////////
// Specification
//////////////////////////////////////////////////////////////////////////////////////////////////

/// The properties stored under an edge identifier, if any.
pub open spec fn prop_at(props: Seq<Properties>, uid: usize) -> Option<Map<Seq<char>, Seq<char>>> {
    if uid < props.len() {
        Some(props[uid as int]@)
    } else {
        None
    }
}

/// The position of an edge in `res` with the same type and target as `e`.
pub open spec fn find_dup(res: Seq<Edge>, e: Edge) -> Option<int> {
    if exists|j: int| 0 <= j < res.len() && res[j].edge_type == e.edge_type && res[j].to == e.to {
        Some(choose|j: int| 0 <= j < res.len() && res[j].edge_type == e.edge_type && res[j].to == e.to)
    } else {
        None
    }
}

/// Deduplicated outgoing edges, the positions of the input edges behind
/// each, and the next free identifier; `None` where properties differ
/// although they must agree.
pub open spec fn spec_dedup_edges(
    conns: Seq<Edge>,
    dedup: Set<usize>,
    dh: DataHandling,
    props: Seq<Properties>,
    next: int,
) -> Option<(Seq<Edge>, Seq<Seq<usize>>, int)>
    decreases conns.len(),
{
    if conns.len() == 0 {
        Some((Seq::empty(), Seq::empty(), next))
    } else {
        match spec_dedup_edges(conns.drop_last(), dedup, dh, props, next) {
            None => None,
            Some((res, orig, nx)) => {
                let e = conns.last();
                let k = (conns.len() - 1) as usize;
                if !dedup.contains(e.edge_type) {
                    Some((res.push(e), orig.push(seq![k]), nx))
                } else {
                    match find_dup(res, e) {
                        None => if dh == DataHandling::Discard {
                            Some(
                                (
                                    res.push(Edge { uid: nx as usize, edge_type: e.edge_type, to: e.to }),
                                    orig.push(seq![k]),
                                    nx + 1,
                                ),
                            )
                        } else {
                            Some((res.push(e), orig.push(seq![k]), nx))
                        },
                        Some(j) => if dh == DataHandling::EnforceIdentical && prop_at(props, res[j].uid)
                            != prop_at(props, e.uid) {
                            None
                        } else {
                            Some((res, orig.update(j, orig[j].push(k)), nx))
                        },
                    }
                }
            },
        }
    }
}

/// Node by node: the deduplicated edges and their origins, and the next free identifier.
pub open spec fn spec_dedup_nodes(
    nodes: Seq<Node>,
    dedup: Set<usize>,
    dh: DataHandling,
    props: Seq<Properties>,
    next: int,
) -> Option<(Seq<(Seq<Edge>, Seq<Seq<usize>>)>, int)>
    decreases nodes.len(),
{
    if nodes.len() == 0 {
        Some((Seq::empty(), next))
    } else {
        match spec_dedup_nodes(nodes.drop_last(), dedup, dh, props, next) {
            None => None,
            Some((per, nx)) => match spec_dedup_edges(nodes.last().connections@, dedup, dh, props, nx) {
                None => None,
                Some((res, orig, nx2)) => Some((per.push((res, orig)), nx2)),
            },
        }
    }
}

/// The number of edges of all nodes.
pub open spec fn edge_count(nodes: Seq<Node>) -> int
    decreases nodes.len(),
{
    if nodes.len() == 0 {
        0
    } else {
        edge_count(nodes.drop_last()) + nodes.last().connections@.len()
    }
}

/// The plan fits an edge: kept for a type that is not deduplicated, and
/// otherwise set by the weight handling over the merged edges.
pub open spec fn plan_fits(p: WeightPlan, deduplicated: bool, wh: WeightHandling, origins: Seq<usize>) -> bool {
    match p {
        WeightPlan::Keep(i) => !deduplicated && origins.len() > 0 && i == origins[0],
        WeightPlan::One => deduplicated && wh == WeightHandling::SetToOne,
        WeightPlan::Identical(v) => deduplicated && wh == WeightHandling::EnforceIdentical && v@ == origins,
        WeightPlan::Sum(v) => deduplicated && wh == WeightHandling::SumAggregate && v@ == origins,
    }
}

/// Among edges of deduplicated types, no two share type and target.
pub open spec fn dedup_keys_unique(res: Seq<Edge>, dedup: Set<usize>) -> bool {
    forall|a: int, b: int|
        0 <= a < res.len() && 0 <= b < res.len() && a != b && dedup.contains(res[a].edge_type)
            && res[a].edge_type == res[b].edge_type ==> res[a].to != res[b].to
}

proof fn lemma_dedup_edges_bounds(conns: Seq<Edge>, dedup: Set<usize>, dh: DataHandling, props: Seq<Properties>, next: int)
    requires
        conns.len() <= usize::MAX,
        spec_dedup_edges(conns, dedup, dh, props, next) is Some,
    ensures
        ({
            let (res, orig, nx) = spec_dedup_edges(conns, dedup, dh, props, next)->Some_0;
            &&& next <= nx <= next + conns.len()
            &&& res.len() == orig.len()
            &&& forall|j: int| 0 <= j < orig.len() ==> (#[trigger] orig[j]).len() > 0
            &&& forall|j: int, i: int| 0 <= j < orig.len() && 0 <= i < orig[j].len() ==> (#[trigger] orig[j][i]) < conns.len()
            &&& forall|j: int| 0 <= j < res.len() ==> (#[trigger] res[j]).edge_type == conns[orig[j][0] as int].edge_type
                && res[j].to == conns[orig[j][0] as int].to
        }),
    decreases conns.len(),
{
    if conns.len() > 0 {
        lemma_dedup_edges_bounds(conns.drop_last(), dedup, dh, props, next);
        let (res, orig, nx) = spec_dedup_edges(conns.drop_last(), dedup, dh, props, next)->Some_0;
        let (res2, orig2, nx2) = spec_dedup_edges(conns, dedup, dh, props, next)->Some_0;
        assert forall|j: int, i: int| 0 <= j < orig2.len() && 0 <= i < orig2[j].len() implies (#[trigger] orig2[j][i]) < conns.len() by {
            if j < orig.len() && i < orig[j].len() {
                assert(orig2[j][i] == orig[j][i]);
            }
        }
        let e = conns.last();
        let k = conns.len() - 1;
        assert(conns[k] == e);
        assert forall|j: int| 0 <= j < res.len() implies (#[trigger] res[j]).edge_type == conns[orig[j][0] as int].edge_type
            && res[j].to == conns[orig[j][0] as int].to by {
            assert(orig[j].len() > 0);
            assert(conns.drop_last()[orig[j][0] as int] == conns[orig[j][0] as int]);
        }
        if !dedup.contains(e.edge_type) {
            assert(orig2 == orig.push(seq![k as usize]));
            assert forall|j: int| 0 <= j < res2.len() implies (#[trigger] res2[j]).edge_type == conns[orig2[j][0] as int].edge_type
                && res2[j].to == conns[orig2[j][0] as int].to by {
                if j < res.len() {
                    assert(res2[j] == res[j]);
                    assert(orig2[j] == orig[j]);
                } else {
                    assert(orig2[j] == seq![k as usize]);
                    assert(orig2[j][0] == k as usize);
                }
            }
        } else {
            match find_dup(res, e) {
                None => {
                    assert(orig2 == orig.push(seq![k as usize]));
                    assert forall|j: int| 0 <= j < res2.len() implies (#[trigger] res2[j]).edge_type == conns[orig2[j][0] as int].edge_type
                        && res2[j].to == conns[orig2[j][0] as int].to by {
                        if j < res.len() {
                            assert(res2[j] == res[j]);
                            assert(orig2[j] == orig[j]);
                        } else {
                            assert(orig2[j] == seq![k as usize]);
                            assert(orig2[j][0] == k as usize);
                        }
                    }
                },
                Some(j0) => {
                    assert(res2 == res);
                    assert(orig2 == orig.update(j0, orig[j0].push(k as usize)));
                    assert forall|j: int| 0 <= j < res2.len() implies (#[trigger] res2[j]).edge_type == conns[orig2[j][0] as int].edge_type
                        && res2[j].to == conns[orig2[j][0] as int].to by {
                        assert(orig[j].len() > 0);
                        assert(orig2[j][0] == orig[j][0]);
                    }
                },
            }
        }
    }
}

proof fn lemma_dedup_none_extends(
    conns: Seq<Edge>,
    dedup: Set<usize>,
    dh: DataHandling,
    props: Seq<Properties>,
    next: int,
    k: int,
)
    requires
        0 <= k <= conns.len(),
        spec_dedup_edges(conns.take(k), dedup, dh, props, next) is None,
    ensures
        spec_dedup_edges(conns, dedup, dh, props, next) is None,
    decreases conns.len() - k,
{
    if k < conns.len() {
        assert(conns.take(k + 1).drop_last() =~= conns.take(k));
        lemma_dedup_none_extends(conns, dedup, dh, props, next, k + 1);
    } else {
        assert(conns.take(k) =~= conns);
    }
}

//////////////////////////////////////////////////////////////////////////////////////////////////
// Implementation
//////////////////////////////////////////////////////////////////////////////////////////////////

/// The first position in `result` of an edge with the type and target of `edge`.
fn find_duplicate(result: &Vec<Edge>, edge: &Edge) -> (r: Option<usize>)
    ensures
        match r {
            Some(j) => j < result@.len() && result@[j as int].edge_type == edge.edge_type && result@[j as int].to == edge.to,
            None => forall|i: int| 0 <= i < result@.len() ==> !(result@[i].edge_type == edge.edge_type && result@[i].to == edge.to),
        },
{
    let mut j: usize = 0;
    while j < result.len()
        invariant
            j <= result@.len(),
            forall|i: int| 0 <= i < j ==> !(result@[i].edge_type == edge.edge_type && result@[i].to == edge.to),
        decreases result.len() - j,
    {
        if result[j].edge_type == edge.edge_type && result[j].to == edge.to {
            return Some(j);
        }
        j = j + 1;
    }
    None
}

/// The plan for an edge of the deduplicated graph.
fn plan_for(deduplicated: bool, weight_handling: WeightHandling, origins: &Vec<usize>) -> (p: WeightPlan)
    requires
        origins@.len() > 0,
    ensures
        plan_fits(p, deduplicated, weight_handling, origins@),
{
    if !deduplicated {
        WeightPlan::Keep(origins[0])
    } else {
        match weight_handling {
            WeightHandling::SetToOne => WeightPlan::One,
            WeightHandling::EnforceIdentical => WeightPlan::Identical(origins.clone()),
            WeightHandling::SumAggregate => WeightPlan::Sum(origins.clone()),
        }
    }
}

/// Merges the outgoing edges `edges` of one node: edges of a type in `dedup`
/// with equal type and target become one. Returns the edges and their weight plans.
pub fn deduplicate_edges(
    edges: &Vec<Edge>,
    dedup: &HashSet<usize>,
    data_handling: DataHandling,
    weight_handling: WeightHandling,
    next_edge_id: &mut usize,
    metadata: &EdgeMetadata,
) -> (r: Result<(Vec<Edge>, Vec<WeightPlan>), HetNetError>)
    requires
        properties_wf(metadata.edge_properties@),
        *old(next_edge_id) + edges@.len() <= usize::MAX,
    ensures
        match spec_dedup_edges(edges@, dedup@, data_handling, metadata.edge_properties@, *old(next_edge_id) as int) {
            None => r matches Err(HetNetError::NotAllEdgePropertiesEqual),
            Some((res, orig, nx)) => r matches Ok((v, plans)) && v@ == res && *final(next_edge_id) == nx
                && dedup_keys_unique(res, dedup@) && dedup_covers(edges@, res, dedup@) && origins_ok(edges@, res, orig) && plans@.len() == res.len() && forall|j: int|
                0 <= j < res.len() ==> plan_fits(#[trigger] plans@[j], dedup@.contains(res[j].edge_type), weight_handling, orig[j]),
        },
{
    let ghost conns = edges@;
    let ghost props = metadata.edge_properties@;
    let ghost next0 = *next_edge_id as int;
    let mut result: Vec<Edge> = Vec::new();
    let mut origins: Vec<Vec<usize>> = Vec::new();
    let mut k: usize = 0;
    assert(conns.take(0) =~= Seq::<Edge>::empty());
    while k < edges.len()
        invariant
            conns == edges@,
            props == metadata.edge_properties@,
            properties_wf(props),
            k <= conns.len(),
            next0 == *old(next_edge_id) as int,
            next0 + conns.len() <= usize::MAX,
            spec_dedup_edges(conns.take(k as int), dedup@, data_handling, props, next0) == Some(
                (result@, origins@.map_values(|o: Vec<usize>| o@), *next_edge_id as int),
            ),
            dedup_keys_unique(result@, dedup@),
            *next_edge_id <= next0 + k,
        decreases edges.len() - k,
    {
        let ghost res0 = result@;
        let ghost orig0 = origins@.map_values(|o: Vec<usize>| o@);
        let ghost nx0 = *next_edge_id as int;
        proof {
            assert(conns.take(k + 1).drop_last() =~= conns.take(k as int));
            assert(conns.take(k + 1).last() == conns[k as int]);
            lemma_dedup_edges_bounds(conns.take(k as int), dedup@, data_handling, props, next0);
        }
        let edge = edges[k];
        if !dedup.contains(&edge.edge_type) {
            result.push(edge);
            let mut o: Vec<usize> = Vec::new();
            o.push(k);
            origins.push(o);
            proof {
                assert(origins@.map_values(|o: Vec<usize>| o@) =~= orig0.push(seq![k]));
            }
        } else {
            let found = find_duplicate(&result, &edge);
            match found {
                None => {
                    assert(find_dup(res0, edge) is None);
                    if data_handling == DataHandling::Discard {
                        let uid = *next_edge_id;
                        *next_edge_id = *next_edge_id + 1;
                        result.push(Edge { uid, edge_type: edge.edge_type, to: edge.to });
                    } else {
                        result.push(edge);
                    }
                    let mut o: Vec<usize> = Vec::new();
                    o.push(k);
                    origins.push(o);
                    proof {
                        assert(origins@.map_values(|o: Vec<usize>| o@) =~= orig0.push(seq![k]));
                    }
                },
                Some(j) => {
                    proof {
                        assert(find_dup(res0, edge) == Some(j as int));
                    }
                    if data_handling == DataHandling::EnforceIdentical {
                        let first_uid = result[j].uid;
                        let same = if first_uid < metadata.edge_properties.len() && edge.uid < metadata.edge_properties.len() {
                            assert(props[first_uid as int].wf());
                            metadata.edge_properties[first_uid].same_as(&metadata.edge_properties[edge.uid])
                        } else {
                            first_uid >= metadata.edge_properties.len() && edge.uid >= metadata.edge_properties.len()
                        };
                        if !same {
                            proof {
                                assert(prop_at(props, res0[j as int].uid) != prop_at(props, edge.uid));
                                assert(spec_dedup_edges(conns.take(k + 1), dedup@, data_handling, props, next0) is None);
                                lemma_dedup_none_extends(conns, dedup@, data_handling, props, next0, k + 1);
                            }
                            return Err(HetNetError::NotAllEdgePropertiesEqual);
                        }
                    }
                    origins[j].push(k);
                    proof {
                        assert(origins@.map_values(|o: Vec<usize>| o@) =~= orig0.update(j as int, orig0[j as int].push(k)));
                    }
                },
            }
        }
        k = k + 1;
    }
    assert(conns.take(k as int) =~= conns);
    let mut plans: Vec<WeightPlan> = Vec::new();
    let mut j: usize = 0;
    proof {
        lemma_dedup_edges_bounds(conns, dedup@, data_handling, props, next0);
        lemma_dedup_edges_cover(conns, dedup@, data_handling, props, next0);
        lemma_dedup_edges_origins(conns, dedup@, data_handling, props, next0);
        assert forall|i: int| 0 <= i < origins@.len() implies (#[trigger] origins@[i])@.len() > 0 by {
            assert(origins@.map_values(|o: Vec<usize>| o@)[i] == origins@[i]@);
        }
    }
    while j < result.len()
        invariant
            j <= result@.len(),
            result@.len() == origins@.len(),
            forall|i: int| 0 <= i < origins@.len() ==> (#[trigger] origins@[i])@.len() > 0,
            plans@.len() == j,
            forall|i: int| 0 <= i < j ==> plan_fits(#[trigger] plans@[i], dedup@.contains(result@[i].edge_type), weight_handling, origins@[i]@),
        decreases result.len() - j,
    {
        let deduplicated = dedup.contains(&result[j].edge_type);
        let plan = plan_for(deduplicated, weight_handling, &origins[j]);
        plans.push(plan);
        j = j + 1;
    }
    Ok((result, plans))
}

proof fn lemma_dedup_nodes_bounds(nodes: Seq<Node>, dedup: Set<usize>, dh: DataHandling, props: Seq<Properties>, next: int)
    requires
        spec_dedup_nodes(nodes, dedup, dh, props, next) is Some,
    ensures
        ({
            let (per, nx) = spec_dedup_nodes(nodes, dedup, dh, props, next)->Some_0;
            &&& per.len() == nodes.len()
            &&& next <= nx <= next + edge_count(nodes)
        }),
    decreases nodes.len(),
{
    if nodes.len() > 0 {
        lemma_dedup_nodes_bounds(nodes.drop_last(), dedup, dh, props, next);
        let (per, nx) = spec_dedup_nodes(nodes.drop_last(), dedup, dh, props, next)->Some_0;
        assert(nodes.last().connections@.len() == nodes.last().connections.len());
        lemma_dedup_edges_bounds(nodes.last().connections@, dedup, dh, props, nx);
    }
}

proof fn lemma_dedup_nodes_none_extends(
    nodes: Seq<Node>,
    dedup: Set<usize>,
    dh: DataHandling,
    props: Seq<Properties>,
    next: int,
    k: int,
)
    requires
        0 <= k <= nodes.len(),
        spec_dedup_nodes(nodes.take(k), dedup, dh, props, next) is None,
    ensures
        spec_dedup_nodes(nodes, dedup, dh, props, next) is None,
    decreases nodes.len() - k,
{
    if k < nodes.len() {
        assert(nodes.take(k + 1).drop_last() =~= nodes.take(k));
        lemma_dedup_nodes_none_extends(nodes, dedup, dh, props, next, k + 1);
    } else {
        assert(nodes.take(k) =~= nodes);
    }
}

proof fn lemma_edge_count_prefix(nodes: Seq<Node>, i: int)
    requires
        0 <= i < nodes.len(),
    ensures
        edge_count(nodes.take(i + 1)) == edge_count(nodes.take(i)) + nodes[i].connections@.len(),
        edge_count(nodes.take(i + 1)) <= edge_count(nodes),
    decreases nodes.len(),
{
    assert(nodes.take(i + 1).drop_last() =~= nodes.take(i));
    if i + 1 < nodes.len() {
        lemma_edge_count_prefix(nodes.drop_last(), i);
        assert(nodes.drop_last().take(i + 1) =~= nodes.take(i + 1));
        assert(nodes.drop_last().take(i) =~= nodes.take(i));
    } else {
        assert(nodes.take(i + 1) =~= nodes);
    }
}

/// The set of the listed identifiers.
pub open spec fn id_set(ids: Seq<usize>) -> Set<usize> {
    Set::new(|t: usize| ids.contains(t))
}

impl HeteroDiGraph {
    /// A new graph, numbered `uid`, where the outgoing edges of each node that
    /// have a type named in `types` and share type and target are merged
    /// into one. Weights are not handled here: each edge of the result
    /// comes with the plan that gives its weight.
    pub fn deduplicate_edges(
        &self,
        types: Vec<String>,
        data_handling: DataHandling,
        weight_handling: WeightHandling,
        allow_unknown_types: bool,
        uid: usize,
    ) -> (r: Result<Deduplicated, HetNetError>)
        requires
            self.wf(),
            self.graph_metadata.next_edge_id + edge_count(self.nodes@) <= usize::MAX,
        ensures
            match spec_convert_edge_types(string_views(types@), self.edge_type_names(), allow_unknown_types) {
                Err(n) => r matches Err(e) && is_unknown_type_error(e, "edge"@, n),
                Ok(ids) => match spec_dedup_nodes(
                    self.nodes@,
                    id_set(ids),
                    data_handling,
                    self.edge_metadata.edge_properties@,
                    self.graph_metadata.next_edge_id as int,
                ) {
                    None => r matches Err(HetNetError::NotAllEdgePropertiesEqual),
                    Some((per, _)) => r matches Ok(d) && {
                        let g = d.graph;
                        &&& g.wf()
                        &&& g.uid == uid
                        &&& g.nodes@.len() == self.nodes@.len()
                        &&& d.plans@.len() == self.nodes@.len()
                        &&& forall|i: int|
                            0 <= i < g.nodes@.len() ==> {
                                &&& (#[trigger] g.nodes@[i]).uid == self.nodes@[i].uid
                                &&& g.nodes@[i].property_index == self.nodes@[i].property_index
                                &&& g.nodes@[i].node_type == self.nodes@[i].node_type
                                &&& g.nodes@[i].connections@ == per[i].0
                                &&& dedup_keys_unique(g.nodes@[i].connections@, id_set(ids))
                                &&& dedup_covers(self.nodes@[i].connections@, g.nodes@[i].connections@, id_set(ids))
                                &&& d.plans@[i]@.len() == per[i].0.len()
                                &&& forall|k: int|
                                    0 <= k < per[i].0.len() ==> plan_fits(
                                        #[trigger] d.plans@[i]@[k],
                                        id_set(ids).contains(per[i].0[k].edge_type),
                                        weight_handling,
                                        per[i].1[k],
                                    )
                            }
                        &&& forall|i: int|
                            0 <= i < self.nodes@.len() ==> origins_ok(self.nodes@[i].connections@, per[i].0, #[trigger] per[i].1)
                        &&& g.node_type_names() == self.node_type_names()
                        &&& g.node_metadata.node_properties@.len() == self.node_metadata.node_properties@.len()
                        &&& forall|i: int|
                            0 <= i < g.node_metadata.node_properties@.len() ==> (#[trigger] g.node_metadata.node_properties@[i])@
                                == self.node_metadata.node_properties@[i]@
                        &&& g.edge_type_names() == self.edge_type_names()
                        &&& g.edge_metadata.edge_properties@.len() == 0
                        &&& g.graph_metadata == self.graph_metadata
                        &&& (edge_uids_distinct(self.nodes@) && edge_uids_below(
                            self.nodes@,
                            self.graph_metadata.next_edge_id,
                        ) ==> edge_uids_distinct(g.nodes@))
                    },
                },
            },
    {
        let ghost tv = string_views(types@);
        let ids = match self.convert_edge_types(types, allow_unknown_types) {
            Ok(ids) => ids,
            Err(e) => {
                return Err(e);
            },
        };
        let mut dedup: HashSet<usize> = HashSet::new();
        let mut i: usize = 0;
        assert(dedup@ =~= id_set(ids@.take(0)));
        while i < ids.len()
            invariant
                i <= ids@.len(),
                dedup@ == id_set(ids@.take(i as int)),
            decreases ids.len() - i,
        {
            dedup.insert(ids[i]);
            proof {
                assert forall|t: usize| dedup@.contains(t) == id_set(ids@.take(i + 1)).contains(t) by {
                    if t == ids@[i as int] {
                        assert(ids@.take(i + 1)[i as int] == t);
                    }
                    if ids@.take(i + 1).contains(t) && t != ids@[i as int] {
                        let j = choose|j: int| 0 <= j < i + 1 && #[trigger] ids@.take(i + 1)[j] == t;
                        assert(ids@.take(i as int)[j] == t);
                    }
                    if ids@.take(i as int).contains(t) {
                        let j = choose|j: int| 0 <= j < i && #[trigger] ids@.take(i as int)[j] == t;
                        assert(ids@.take(i + 1)[j] == t);
                    }
                }
                assert(dedup@ =~= id_set(ids@.take(i + 1)));
            }
            i = i + 1;
        }
        assert(ids@.take(i as int) =~= ids@);
        let ghost dset = id_set(ids@);
        let ghost nodes = self.nodes@;
        let ghost props = self.edge_metadata.edge_properties@;
        let ghost next0 = self.graph_metadata.next_edge_id as int;
        let mut next_edge_id = self.graph_metadata.next_edge_id;
        let mut new_nodes: Vec<Node> = Vec::new();
        let mut plans: Vec<Vec<WeightPlan>> = Vec::new();
        let mut n: usize = 0;
        assert(nodes.take(0) =~= Seq::<Node>::empty());
        while n < self.nodes.len()
            invariant
                self.wf(),
                nodes == self.nodes@,
                props == self.edge_metadata.edge_properties@,
                next0 == self.graph_metadata.next_edge_id as int,
                next0 + edge_count(nodes) <= usize::MAX,
                dedup@ == dset,
                dset == id_set(ids@),
                tv == string_views(types@),
                spec_convert_edge_types(tv, self.edge_type_names(), allow_unknown_types) == Ok::<Seq<usize>, Seq<char>>(ids@),
                n <= nodes.len(),
                spec_dedup_nodes(nodes.take(n as int), dset, data_handling, props, next0) is Some,
                spec_dedup_nodes(nodes.take(n as int), dset, data_handling, props, next0)->Some_0.1 == next_edge_id,
                new_nodes@.len() == n,
                plans@.len() == n,
                forall|i: int|
                    0 <= i < n ==> {
                        let per = spec_dedup_nodes(nodes.take(n as int), dset, data_handling, props, next0)->Some_0.0;
                        &&& (#[trigger] new_nodes@[i]).uid == nodes[i].uid
                        &&& new_nodes@[i].property_index == nodes[i].property_index
                        &&& new_nodes@[i].node_type == nodes[i].node_type
                        &&& new_nodes@[i].connections@ == per[i].0
                        &&& dedup_keys_unique(new_nodes@[i].connections@, dset)
                        &&& dedup_covers(nodes[i].connections@, new_nodes@[i].connections@, dset)
                        &&& plans@[i]@.len() == per[i].0.len()
                        &&& forall|k: int|
                            0 <= k < per[i].0.len() ==> plan_fits(
                                #[trigger] plans@[i]@[k],
                                dset.contains(per[i].0[k].edge_type),
                                weight_handling,
                                per[i].1[k],
                            )
                    },
            decreases nodes.len() - n,
        {
            let ghost pre = spec_dedup_nodes(nodes.take(n as int), dset, data_handling, props, next0)->Some_0;
            proof {
                lemma_dedup_nodes_bounds(nodes.take(n as int), dset, data_handling, props, next0);
                lemma_edge_count_prefix(nodes, n as int);
                assert(nodes.take(n + 1).drop_last() =~= nodes.take(n as int));
                assert(nodes.take(n + 1).last() == nodes[n as int]);
            }
            let node = &self.nodes[n];
            match deduplicate_edges(&node.connections, &dedup, data_handling, weight_handling, &mut next_edge_id, &self.edge_metadata) {
                Ok((connections, node_plans)) => {
                    let ghost post = spec_dedup_nodes(nodes.take(n + 1), dset, data_handling, props, next0)->Some_0;
                    new_nodes.push(Node {
                        uid: node.uid,
                        property_index: node.property_index,
                        node_type: node.node_type,
                        connections,
                    });
                    plans.push(node_plans);
                    proof {
                        assert(post.0 == pre.0.push(post.0[n as int]));
                        assert forall|i: int| 0 <= i < n + 1 implies {
                            &&& (#[trigger] new_nodes@[i]).uid == nodes[i].uid
                            &&& new_nodes@[i].property_index == nodes[i].property_index
                            &&& new_nodes@[i].node_type == nodes[i].node_type
                            &&& new_nodes@[i].connections@ == post.0[i].0
                            &&& dedup_keys_unique(new_nodes@[i].connections@, dset)
                            &&& dedup_covers(nodes[i].connections@, new_nodes@[i].connections@, dset)
                        &&& dedup_covers(nodes[i].connections@, new_nodes@[i].connections@, dset)
                            &&& plans@[i]@.len() == post.0[i].0.len()
                            &&& forall|k: int|
                                0 <= k < post.0[i].0.len() ==> plan_fits(
                                    #[trigger] plans@[i]@[k],
                                    dset.contains(post.0[i].0[k].edge_type),
                                    weight_handling,
                                    post.0[i].1[k],
                                )
                        } by {
                            if i < n {
                                assert(post.0[i] == pre.0[i]);
                            }
                        }
                    }
                },
                Err(e) => {
                    proof {
                        assert(spec_dedup_edges(nodes[n as int].connections@, dset, data_handling, props, pre.1) is None);
                        assert(spec_dedup_nodes(nodes.take(n + 1), dset, data_handling, props, next0) is None);
                        lemma_dedup_nodes_none_extends(nodes, dset, data_handling, props, next0, n + 1);
                        assert(e matches HetNetError::NotAllEdgePropertiesEqual);
                        assert(spec_dedup_nodes(self.nodes@, id_set(ids@), data_handling, self.edge_metadata.edge_properties@, self.graph_metadata.next_edge_id as int) is None);
                    }
                    return Err(e);
                },
            }
            n = n + 1;
        }
        assert(nodes.take(n as int) =~= nodes);
        let ghost per = spec_dedup_nodes(nodes, dset, data_handling, props, next0)->Some_0.0;
        let graph = HeteroDiGraph {
            uid,
            node_metadata: self.node_metadata.duplicate(),
            graph_metadata: self.graph_metadata,
            edge_metadata: EdgeMetadata {
                edge_types: self.edge_metadata.edge_types.duplicate(),
                edge_properties: Vec::new(),
            },
            nodes: new_nodes,
        };
        proof {
            assert forall|i: int| 0 <= i < graph.nodes@.len() implies #[trigger] graph.node_wf(i) by {
                assert(self.node_wf(i));
                let conns = nodes[i].connections@;
                assert(conns.len() == self.nodes@[i].connections.len());
                let pre_i = spec_dedup_nodes(nodes.take(i), dset, data_handling, props, next0);
                lemma_dedup_prefix_some(nodes, dset, data_handling, props, next0, i);
                let nx = pre_i->Some_0.1;
                lemma_dedup_per_node(nodes, dset, data_handling, props, next0, i);
                lemma_dedup_edges_bounds(conns, dset, data_handling, props, nx);
                let (res, orig, _) = spec_dedup_edges(conns, dset, data_handling, props, nx)->Some_0;
                assert forall|k: int| 0 <= k < graph.nodes@[i].connections@.len() implies {
                    &&& (#[trigger] graph.nodes@[i].connections@[k]).to.0 < graph.nodes@.len()
                    &&& graph.nodes@[i].connections@[k].edge_type < graph.edge_type_names().len()
                } by {
                    assert(graph.nodes@[i].connections@[k] == res[k]);
                    let o = orig[k][0] as int;
                    assert(conns[o] == nodes[i].connections@[o]);
                }
            }
        }
        proof {
            assert forall|i: int| 0 <= i < self.nodes@.len() implies origins_ok(self.nodes@[i].connections@, per[i].0, #[trigger] per[i].1) by {
                lemma_dedup_per_node(nodes, dset, data_handling, props, next0, i);
                let nx = spec_dedup_nodes(nodes.take(i), dset, data_handling, props, next0)->Some_0.1;
                assert(nodes[i].connections@.len() == self.nodes@[i].connections.len());
                lemma_dedup_edges_origins(nodes[i].connections@, dset, data_handling, props, nx);
            }
            if edge_uids_distinct(self.nodes@) && edge_uids_below(self.nodes@, self.graph_metadata.next_edge_id) {
                lemma_dedup_nodes_uids(nodes, dset, data_handling, props, next0);
                assert forall|i: int, k: int, j: int, l: int|
                    0 <= i < graph.nodes@.len() && 0 <= j < graph.nodes@.len() && 0 <= k
                        < graph.nodes@[i].connections@.len() && 0 <= l < graph.nodes@[j].connections@.len() && (i != j
                        || k != l) implies (#[trigger] graph.nodes@[i].connections@[k]).uid
                    != (#[trigger] graph.nodes@[j].connections@[l]).uid by {
                    assert(graph.nodes@[i].connections@ == per[i].0);
                    assert(graph.nodes@[j].connections@ == per[j].0);
                    assert(per[i].0[k].uid != per[j].0[l].uid);
                }
            }
        }
        Ok(Deduplicated { graph, plans })
    }
}

/// `x` has the type and target of `e`, and is `e` itself where that type is not merged.
pub open spec fn edge_matches(x: Edge, e: Edge, dedup: Set<usize>) -> bool {
    x.edge_type == e.edge_type && x.to == e.to && (!dedup.contains(e.edge_type) ==> x == e)
}

/// Some edge of `es` matches `e`.
pub open spec fn has_match(es: Seq<Edge>, e: Edge, dedup: Set<usize>) -> bool {
    exists|b: int| 0 <= b < es.len() && edge_matches(#[trigger] es[b], e, dedup)
}

/// The result `res` of merging `conns` loses no connection and invents none:
/// every input edge has a result edge of its type and target, every result
/// edge has an input edge of its type and target, and an edge of a type that
/// is not merged is kept exactly as it was.
pub open spec fn dedup_covers(conns: Seq<Edge>, res: Seq<Edge>, dedup: Set<usize>) -> bool {
    &&& forall|a: int| 0 <= a < conns.len() ==> has_match(res, #[trigger] conns[a], dedup)
    &&& forall|b: int| 0 <= b < res.len() ==> has_match(conns, #[trigger] res[b], dedup)
}

/// Merging parallel edges of the types in `dedup` keeps every connection of
/// the node and adds none (see `dedup_covers`).
pub proof fn lemma_dedup_edges_cover(conns: Seq<Edge>, dedup: Set<usize>, dh: DataHandling, props: Seq<Properties>, next: int)
    requires
        spec_dedup_edges(conns, dedup, dh, props, next) is Some,
    ensures
        dedup_covers(conns, spec_dedup_edges(conns, dedup, dh, props, next)->Some_0.0, dedup),
    decreases conns.len(),
{
    if conns.len() > 0 {
        let pre = conns.drop_last();
        lemma_dedup_edges_cover(pre, dedup, dh, props, next);
        let (res0, orig0, nx0) = spec_dedup_edges(pre, dedup, dh, props, next)->Some_0;
        let res = spec_dedup_edges(conns, dedup, dh, props, next)->Some_0.0;
        let e = conns.last();
        let last = conns.len() - 1;
        assert(conns[last] == e);
        let fresh = Edge { uid: nx0 as usize, edge_type: e.edge_type, to: e.to };
        let grows = !dedup.contains(e.edge_type) || find_dup(res0, e) is None;
        if !dedup.contains(e.edge_type) {
            assert(res == res0.push(e));
        } else if find_dup(res0, e) is None {
            if dh == DataHandling::Discard {
                assert(res == res0.push(fresh));
            } else {
                assert(res == res0.push(e));
            }
        } else {
            assert(res == res0);
        }
        assert forall|a: int| 0 <= a < conns.len() implies has_match(res, #[trigger] conns[a], dedup) by {
            if a < last {
                assert(pre[a] == conns[a]);
                assert(has_match(res0, pre[a], dedup));
                let b = choose|b: int| 0 <= b < res0.len() && edge_matches(#[trigger] res0[b], pre[a], dedup);
                assert(res[b] == res0[b]);
            } else if grows {
                assert(edge_matches(res[res0.len() as int], e, dedup));
            } else {
                let j = find_dup(res0, e)->Some_0;
                assert(res[j] == res0[j]);
                assert(edge_matches(res[j], e, dedup));
            }
        }
        assert forall|b: int| 0 <= b < res.len() implies has_match(conns, #[trigger] res[b], dedup) by {
            if b < res0.len() {
                assert(res[b] == res0[b]);
                assert(has_match(pre, res0[b], dedup));
                let a = choose|a: int| 0 <= a < pre.len() && edge_matches(#[trigger] pre[a], res0[b], dedup);
                assert(conns[a] == pre[a]);
            } else {
                assert(edge_matches(conns[last], res[b], dedup));
            }
        }
    }
}

/// `orig[j]` lists, in increasing order, the positions of the input edges
/// merged into result edge `j`: each has the type and target of that result
/// edge, and every input edge is listed under exactly one result edge.
pub open spec fn origins_ok(conns: Seq<Edge>, res: Seq<Edge>, orig: Seq<Seq<usize>>) -> bool {
    &&& res.len() == orig.len()
    &&& forall|j: int| 0 <= j < orig.len() ==> (#[trigger] orig[j]).len() > 0
    &&& forall|j: int, x: int, y: int|
        0 <= j < orig.len() && 0 <= x < y < orig[j].len() ==> (#[trigger] orig[j][x]) < (#[trigger] orig[j][y])
    &&& forall|j: int, x: int|
        0 <= j < orig.len() && 0 <= x < orig[j].len() ==> (#[trigger] orig[j][x]) < conns.len()
            && conns[orig[j][x] as int].edge_type == res[j].edge_type && conns[orig[j][x] as int].to == res[j].to
    &&& forall|a: int| 0 <= a < conns.len() ==> #[trigger] listed(orig, a)
    &&& forall|j1: int, x1: int, j2: int, x2: int|
        0 <= j1 < orig.len() && 0 <= j2 < orig.len() && 0 <= x1 < orig[j1].len() && 0 <= x2 < orig[j2].len()
            && #[trigger] orig[j1][x1] == #[trigger] orig[j2][x2] ==> j1 == j2
}

/// Position `a` is listed under some result edge.
pub open spec fn listed(orig: Seq<Seq<usize>>, a: int) -> bool {
    exists|j: int, x: int| 0 <= j < orig.len() && 0 <= x < orig[j].len() && #[trigger] orig[j][x] == a
}

/// The weight plan of each merged edge names exactly the input edges merged into it.
pub proof fn lemma_dedup_edges_origins(conns: Seq<Edge>, dedup: Set<usize>, dh: DataHandling, props: Seq<Properties>, next: int)
    requires
        conns.len() <= usize::MAX,
        spec_dedup_edges(conns, dedup, dh, props, next) is Some,
    ensures
        origins_ok(
            conns,
            spec_dedup_edges(conns, dedup, dh, props, next)->Some_0.0,
            spec_dedup_edges(conns, dedup, dh, props, next)->Some_0.1,
        ),
    decreases conns.len(),
{
    if conns.len() > 0 {
        let pre = conns.drop_last();
        lemma_dedup_edges_origins(pre, dedup, dh, props, next);
        let (res0, orig0, nx0) = spec_dedup_edges(pre, dedup, dh, props, next)->Some_0;
        let (res, orig, nx) = spec_dedup_edges(conns, dedup, dh, props, next)->Some_0;
        let e = conns.last();
        let k = conns.len() - 1;
        assert(conns[k] == e);
        assert forall|j: int, x: int| 0 <= j < orig0.len() && 0 <= x < orig0[j].len() implies (#[trigger] orig0[j][x]) < k
            && conns[orig0[j][x] as int] == pre[orig0[j][x] as int] by {}
        let grows = !dedup.contains(e.edge_type) || find_dup(res0, e) is None;
        if grows {
            assert(orig == orig0.push(seq![k as usize]));
            assert(res.len() == res0.len() + 1);
            assert(res.last().edge_type == e.edge_type && res.last().to == e.to);
            assert forall|j: int| 0 <= j < res0.len() implies #[trigger] res[j] == res0[j] by {}
            assert forall|j: int, x: int|
                0 <= j < orig.len() && 0 <= x < orig[j].len() implies (#[trigger] orig[j][x]) < conns.len()
                    && conns[orig[j][x] as int].edge_type == res[j].edge_type && conns[orig[j][x] as int].to == res[j].to by {
                if j < orig0.len() {
                    assert(orig[j] == orig0[j]);
                    assert(res[j] == res0[j]);
                }
            }
            assert forall|a: int| 0 <= a < conns.len() implies #[trigger] listed(orig, a) by {
                if a < k {
                    assert(listed(orig0, a));
                    let (j, x) = choose|j: int, x: int| 0 <= j < orig0.len() && 0 <= x < orig0[j].len() && #[trigger] orig0[j][x] == a;
                    assert(orig[j][x] == a);
                } else {
                    assert(orig[orig0.len() as int][0] == a);
                }
            }
            assert forall|j1: int, x1: int, j2: int, x2: int|
                0 <= j1 < orig.len() && 0 <= j2 < orig.len() && 0 <= x1 < orig[j1].len() && 0 <= x2 < orig[j2].len()
                    && #[trigger] orig[j1][x1] == #[trigger] orig[j2][x2] implies j1 == j2 by {
                if j1 < orig0.len() {
                    assert(orig[j1] == orig0[j1]);
                }
                if j2 < orig0.len() {
                    assert(orig[j2] == orig0[j2]);
                }
            }
            assert forall|j: int, x: int, y: int|
                0 <= j < orig.len() && 0 <= x < y < orig[j].len() implies (#[trigger] orig[j][x]) < (#[trigger] orig[j][y]) by {
                if j < orig0.len() {
                    assert(orig[j] == orig0[j]);
                }
            }
        } else {
            let j0 = find_dup(res0, e)->Some_0;
            assert(orig == orig0.update(j0, orig0[j0].push(k as usize)));
            assert(res == res0);
            assert forall|j: int, x: int|
                0 <= j < orig.len() && 0 <= x < orig[j].len() implies (#[trigger] orig[j][x]) < conns.len()
                    && conns[orig[j][x] as int].edge_type == res[j].edge_type && conns[orig[j][x] as int].to == res[j].to by {
                if j != j0 {
                    assert(orig[j] == orig0[j]);
                } else if x < orig0[j].len() {
                    assert(orig[j][x] == orig0[j][x]);
                } else {
                    assert(orig[j][x] == k);
                }
            }
            assert forall|a: int| 0 <= a < conns.len() implies #[trigger] listed(orig, a) by {
                if a < k {
                    assert(listed(orig0, a));
                    let (j, x) = choose|j: int, x: int| 0 <= j < orig0.len() && 0 <= x < orig0[j].len() && #[trigger] orig0[j][x] == a;
                    if j == j0 {
                        assert(orig[j][x] == orig0[j][x]);
                    } else {
                        assert(orig[j] == orig0[j]);
                    }
                    assert(orig[j][x] == a);
                } else {
                    assert(orig[j0][orig0[j0].len() as int] == a);
                }
            }
            assert forall|j: int| 0 <= j < orig.len() implies (#[trigger] orig[j]).len() > 0 by {
                if j != j0 {
                    assert(orig[j] == orig0[j]);
                }
            }
            assert forall|j1: int, x1: int, j2: int, x2: int|
                0 <= j1 < orig.len() && 0 <= j2 < orig.len() && 0 <= x1 < orig[j1].len() && 0 <= x2 < orig[j2].len()
                    && #[trigger] orig[j1][x1] == #[trigger] orig[j2][x2] implies j1 == j2 by {
                let v1 = orig[j1][x1];
                if j1 != j0 || x1 < orig0[j1].len() {
                    if j1 != j0 {
                        assert(orig[j1] == orig0[j1]);
                    }
                    assert(orig[j1][x1] == orig0[j1][x1]);
                    assert(v1 < k);
                } else {
                    assert(v1 == k);
                }
                if j2 != j0 || x2 < orig0[j2].len() {
                    if j2 != j0 {
                        assert(orig[j2] == orig0[j2]);
                    }
                    assert(orig[j2][x2] == orig0[j2][x2]);
                }
            }
            assert forall|j: int, x: int, y: int|
                0 <= j < orig.len() && 0 <= x < y < orig[j].len() implies (#[trigger] orig[j][x]) < (#[trigger] orig[j][y]) by {
                if j != j0 {
                    assert(orig[j] == orig0[j]);
                } else {
                    assert(orig[j][x] == orig0[j][x]);
                    if y < orig0[j].len() {
                        assert(orig[j][y] == orig0[j][y]);
                    } else {
                        assert(orig[j][y] == k);
                    }
                }
            }
        }
    }
}

/// Some edge of `conns` carries the identifier `uid`.
pub open spec fn uid_from(conns: Seq<Edge>, uid: usize) -> bool {
    exists|j: int| 0 <= j < conns.len() && (#[trigger] conns[j]).uid == uid
}

proof fn lemma_dedup_edges_uids(conns: Seq<Edge>, dedup: Set<usize>, dh: DataHandling, props: Seq<Properties>, next: int)
    requires
        spec_dedup_edges(conns, dedup, dh, props, next) is Some,
        0 <= next,
        next + conns.len() <= usize::MAX,
        forall|a: int, b: int| 0 <= a < b < conns.len() ==> (#[trigger] conns[a]).uid != (#[trigger] conns[b]).uid,
        forall|a: int| 0 <= a < conns.len() ==> (#[trigger] conns[a]).uid < next,
    ensures
        ({
            let (res, orig, nx) = spec_dedup_edges(conns, dedup, dh, props, next)->Some_0;
            &&& next <= nx <= next + conns.len()
            &&& forall|a: int|
                0 <= a < res.len() ==> uid_from(conns, (#[trigger] res[a]).uid) || (next <= res[a].uid < nx)
            &&& forall|a: int, b: int| 0 <= a < b < res.len() ==> (#[trigger] res[a]).uid != (#[trigger] res[b]).uid
        }),
    decreases conns.len(),
{
    if conns.len() > 0 {
        let pre = conns.drop_last();
        assert forall|a: int, b: int| 0 <= a < b < pre.len() implies (#[trigger] pre[a]).uid != (#[trigger] pre[b]).uid by {
            assert(pre[a] == conns[a] && pre[b] == conns[b]);
        }
        assert forall|a: int| 0 <= a < pre.len() implies (#[trigger] pre[a]).uid < next by {
            assert(pre[a] == conns[a]);
        }
        lemma_dedup_edges_uids(pre, dedup, dh, props, next);
        let (res0, orig0, nx0) = spec_dedup_edges(pre, dedup, dh, props, next)->Some_0;
        let e = conns.last();
        let (res, orig, nx) = spec_dedup_edges(conns, dedup, dh, props, next)->Some_0;
        assert forall|u: usize| uid_from(pre, u) implies uid_from(conns, u) by {
            let j = choose|j: int| 0 <= j < pre.len() && (#[trigger] pre[j]).uid == u;
            assert(conns[j] == pre[j]);
        }
        assert(uid_from(conns, e.uid)) by {
            assert(conns[conns.len() - 1] == e);
        }
        // The last input edge's identifier differs from every earlier result's.
        assert forall|a: int| 0 <= a < res0.len() implies (#[trigger] res0[a]).uid != e.uid by {
            if uid_from(pre, res0[a].uid) {
                let j = choose|j: int| 0 <= j < pre.len() && (#[trigger] pre[j]).uid == res0[a].uid;
                assert(pre[j] == conns[j]);
                assert(conns[j].uid != conns[conns.len() - 1].uid);
            } else {
                assert(conns[conns.len() - 1].uid < next);
            }
        }
        // Every earlier result's identifier is below the next free one.
        assert forall|a: int| 0 <= a < res0.len() implies (#[trigger] res0[a]).uid < nx0 by {
            if uid_from(pre, res0[a].uid) {
                let j = choose|j: int| 0 <= j < pre.len() && (#[trigger] pre[j]).uid == res0[a].uid;
                assert(pre[j].uid < next);
            }
        }
        assert forall|a: int| 0 <= a < res.len() implies uid_from(conns, (#[trigger] res[a]).uid) || (next <= res[a].uid
            < nx) by {
            if a < res0.len() {
                assert(res[a] == res0[a]);
            }
        }
        assert forall|a: int, b: int| 0 <= a < b < res.len() implies (#[trigger] res[a]).uid != (#[trigger] res[b]).uid by {
            if b < res0.len() {
                assert(res[a] == res0[a] && res[b] == res0[b]);
            } else {
                assert(res[a] == res0[a]);
            }
        }
    }
}

/// The deduplicated edges of each node carry identifiers of that node's input
/// edges or fresh ones from `next` up to `nx`, and no identifier stands twice.
pub open spec fn dedup_uids_ok(nodes: Seq<Node>, per: Seq<(Seq<Edge>, Seq<Seq<usize>>)>, next: int, nx: int) -> bool {
    &&& forall|i: int, a: int|
        0 <= i < per.len() && 0 <= a < per[i].0.len() ==> uid_from(nodes[i].connections@, (#[trigger] per[i].0[a]).uid)
            || (next <= per[i].0[a].uid < nx)
    &&& forall|i: int, a: int, j: int, b: int|
        0 <= i < per.len() && 0 <= j < per.len() && 0 <= a < per[i].0.len() && 0 <= b < per[j].0.len() && (i != j || a
            != b) ==> (#[trigger] per[i].0[a]).uid != (#[trigger] per[j].0[b]).uid
}

/// Deduplication never hands out an identifier twice: every edge it leaves
/// carries an identifier of an input edge of the same node or a fresh one,
/// and no two edges of the result, at whatever nodes, share one, provided
/// the input's identifiers are distinct and below `next`.
pub proof fn lemma_dedup_nodes_uids(nodes: Seq<Node>, dedup: Set<usize>, dh: DataHandling, props: Seq<Properties>, next: int)
    requires
        spec_dedup_nodes(nodes, dedup, dh, props, next) is Some,
        0 <= next,
        next + edge_count(nodes) <= usize::MAX,
        edge_uids_distinct(nodes),
        forall|i: int, k: int|
            0 <= i < nodes.len() && 0 <= k < nodes[i].connections@.len() ==> (#[trigger] nodes[i].connections@[k]).uid < next,
    ensures
        ({
            let (per, nx) = spec_dedup_nodes(nodes, dedup, dh, props, next)->Some_0;
            &&& per.len() == nodes.len()
            &&& next <= nx <= next + edge_count(nodes)
            &&& dedup_uids_ok(nodes, per, next, nx)
        }),
    decreases nodes.len(),
{
    if nodes.len() > 0 {
        let pre = nodes.drop_last();
        assert(edge_count(nodes) == edge_count(pre) + nodes.last().connections@.len());
        assert forall|i: int, k: int, j: int, l: int|
            0 <= i < pre.len() && 0 <= j < pre.len() && 0 <= k < pre[i].connections@.len() && 0 <= l
                < pre[j].connections@.len() && (i != j || k != l) implies (#[trigger] pre[i].connections@[k]).uid
            != (#[trigger] pre[j].connections@[l]).uid by {
            assert(pre[i] == nodes[i] && pre[j] == nodes[j]);
            assert(nodes[i].connections@[k].uid != nodes[j].connections@[l].uid);
        }
        assert forall|i: int, k: int| 0 <= i < pre.len() && 0 <= k < pre[i].connections@.len() implies (
        #[trigger] pre[i].connections@[k]).uid < next by {
            assert(pre[i] == nodes[i]);
            assert(nodes[i].connections@[k].uid < next);
        }
        lemma_dedup_nodes_uids(pre, dedup, dh, props, next);
        let (per0, nx0) = spec_dedup_nodes(pre, dedup, dh, props, next)->Some_0;
        let last = nodes.len() - 1;
        let conns = nodes[last].connections@;
        assert(nodes.last() == nodes[last]);
        assert forall|a: int, b: int| 0 <= a < b < conns.len() implies (#[trigger] conns[a]).uid != (#[trigger] conns[b]).uid by {
            assert(nodes[last].connections@[a].uid != nodes[last].connections@[b].uid);
        }
        assert forall|a: int| 0 <= a < conns.len() implies (#[trigger] conns[a]).uid < nx0 by {
            assert(nodes[last].connections@[a].uid < next);
        }
        lemma_dedup_edges_uids(conns, dedup, dh, props, nx0);
        let (res, orig, nx) = spec_dedup_edges(conns, dedup, dh, props, nx0)->Some_0;
        let per = per0.push((res, orig));
        assert(spec_dedup_nodes(nodes, dedup, dh, props, next)->Some_0 == (per, nx));
        // An identifier taken over from the last node's input differs from every earlier result's.
        assert forall|i: int, a: int, b: int|
            0 <= i < per0.len() && 0 <= a < per0[i].0.len() && 0 <= b < res.len() && uid_from(conns, res[b].uid)
                implies (#[trigger] per0[i].0[a]).uid != (#[trigger] res[b]).uid by {
            let l = choose|l: int| 0 <= l < conns.len() && (#[trigger] conns[l]).uid == res[b].uid;
            assert(conns[l].uid < next);
            if uid_from(pre[i].connections@, per0[i].0[a].uid) {
                let k = choose|k: int| 0 <= k < pre[i].connections@.len() && (#[trigger] pre[i].connections@[k]).uid
                    == per0[i].0[a].uid;
                assert(pre[i] == nodes[i]);
                assert(nodes[i].connections@[k].uid != nodes[last].connections@[l].uid);
            }
        }
        assert forall|i: int, a: int| 0 <= i < per0.len() && 0 <= a < per0[i].0.len() implies (
        #[trigger] per0[i].0[a]).uid < nx0 by {
            if uid_from(pre[i].connections@, per0[i].0[a].uid) {
                let k = choose|k: int| 0 <= k < pre[i].connections@.len() && (#[trigger] pre[i].connections@[k]).uid
                    == per0[i].0[a].uid;
                assert(pre[i].connections@[k].uid < next);
            }
        }
        assert forall|i: int, a: int|
            0 <= i < per.len() && 0 <= a < per[i].0.len() implies uid_from(nodes[i].connections@, (#[trigger] per[i].0[a]).uid)
                || (next <= per[i].0[a].uid < nx) by {
            if i < per0.len() {
                assert(per[i] == per0[i]);
                assert(pre[i] == nodes[i]);
            } else {
                assert(per[i] == (res, orig));
            }
        }
        assert forall|i: int, a: int, j: int, b: int|
            0 <= i < per.len() && 0 <= j < per.len() && 0 <= a < per[i].0.len() && 0 <= b < per[j].0.len() && (i != j
                || a != b) implies (#[trigger] per[i].0[a]).uid != (#[trigger] per[j].0[b]).uid by {
            if i < per0.len() && j < per0.len() {
                assert(per[i] == per0[i] && per[j] == per0[j]);
            } else if i < per0.len() {
                assert(per[i] == per0[i] && per[j] == (res, orig));
                if !uid_from(conns, res[b].uid) {
                    assert(per0[i].0[a].uid < nx0);
                }
            } else if j < per0.len() {
                assert(per[j] == per0[j] && per[i] == (res, orig));
                if !uid_from(conns, res[a].uid) {
                    assert(per0[j].0[b].uid < nx0);
                }
            } else {
                assert(per[i] == (res, orig) && per[j] == (res, orig));
                if a < b {
                    assert(res[a].uid != res[b].uid);
                } else {
                    assert(res[b].uid != res[a].uid);
                }
            }
        }
    }
}

/// Every prefix of a graph whose deduplication succeeds also succeeds.
proof fn lemma_dedup_prefix_some(nodes: Seq<Node>, dedup: Set<usize>, dh: DataHandling, props: Seq<Properties>, next: int, i: int)
    requires
        0 <= i <= nodes.len(),
        spec_dedup_nodes(nodes, dedup, dh, props, next) is Some,
    ensures
        spec_dedup_nodes(nodes.take(i), dedup, dh, props, next) is Some,
    decreases nodes.len() - i,
{
    if spec_dedup_nodes(nodes.take(i), dedup, dh, props, next) is None {
        lemma_dedup_nodes_none_extends(nodes, dedup, dh, props, next, i);
    }
}

/// The deduplicated edges of node `i` are those computed from the identifier
/// reached after the nodes before it.
proof fn lemma_dedup_per_node(nodes: Seq<Node>, dedup: Set<usize>, dh: DataHandling, props: Seq<Properties>, next: int, i: int)
    requires
        0 <= i < nodes.len(),
        spec_dedup_nodes(nodes, dedup, dh, props, next) is Some,
    ensures
        spec_dedup_nodes(nodes.take(i), dedup, dh, props, next) is Some,
        ({
            let nx = spec_dedup_nodes(nodes.take(i), dedup, dh, props, next)->Some_0.1;
            let r = spec_dedup_edges(nodes[i].connections@, dedup, dh, props, nx);
            &&& r is Some
            &&& spec_dedup_nodes(nodes, dedup, dh, props, next)->Some_0.0[i] == (r->Some_0.0, r->Some_0.1)
        }),
    decreases nodes.len(),
{
    lemma_dedup_prefix_some(nodes, dedup, dh, props, next, i);
    lemma_dedup_prefix_some(nodes, dedup, dh, props, next, nodes.len() - 1);
    assert(nodes.take(nodes.len() - 1) =~= nodes.drop_last());
    let (per_dl, nx_dl) = spec_dedup_nodes(nodes.drop_last(), dedup, dh, props, next)->Some_0;
    let last = spec_dedup_edges(nodes.last().connections@, dedup, dh, props, nx_dl);
    assert(last is Some);
    assert(spec_dedup_nodes(nodes, dedup, dh, props, next)->Some_0.0 == per_dl.push((last->Some_0.0, last->Some_0.1)));
    lemma_dedup_nodes_bounds(nodes.drop_last(), dedup, dh, props, next);
    if i + 1 < nodes.len() {
        lemma_dedup_per_node(nodes.drop_last(), dedup, dh, props, next, i);
        assert(nodes.drop_last().take(i) =~= nodes.take(i));
        assert(nodes.drop_last()[i] == nodes[i]);
    } else {
        assert(nodes.take(i) =~= nodes.drop_last());
    }
}

} // verus!
