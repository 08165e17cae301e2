use std::collections::HashMap;

use hetnet::algorithms::deduplicate::{DataHandling, WeightHandling, WeightPlan};
use hetnet::algorithms::fast_walker::{transition_offsets, transition_state, SamplerLayout};
use hetnet::algorithms::neighbourhood::Transition;
use hetnet::algorithms::walk_tuning::evaluate::{nodes_by_distance, walk_coverage};
use hetnet::builder::HeteroDiGraphBuilder;
use hetnet::errors::HetNetError;
use hetnet::graph::{EdgeRef, HeteroDiGraph, RawNodeRef};
use hetnet::meta_path::MetaPath;
use hetnet::properties::Properties;

/// Two authors and two papers: author 0 wrote both papers, author 3 wrote paper 1,
/// and paper 2 cites paper 1.
fn library(uid: usize) -> HeteroDiGraph {
    let mut b = HeteroDiGraphBuilder::new(uid);
    let a0 = b.add_node("Author".to_string(), None);
    let p1 = b.add_node("Paper".to_string(), None);
    let p2 = b.add_node("Paper".to_string(), None);
    let a3 = b.add_node("Author".to_string(), None);
    b.add_edge(a0, p1, "writes".to_string(), None).unwrap();
    b.add_edge(a0, p2, "writes".to_string(), None).unwrap();
    b.add_edge(a3, p1, "writes".to_string(), None).unwrap();
    b.add_edge(p2, p1, "cites".to_string(), None).unwrap();
    b.build()
}

fn edges_of(g: &HeteroDiGraph) -> Vec<(usize, usize, usize, String)> {
    g.edge_list()
        .iter()
        .map(|d| (d.uid().edge_uid, d.from().node_uid, d.to().node_uid, d.edge_type().to_string()))
        .collect()
}

fn one_prop(k: &str, v: &str) -> Properties {
    let mut p = Properties::new();
    p.insert(k.to_string(), v.to_string());
    p
}

/// Node 0 has edges x to 1, y to 1, x to 1 again and x to 2.
fn doubled(first: &str, second: &str) -> HeteroDiGraph {
    let mut b = HeteroDiGraphBuilder::new(30);
    let a = b.add_node("N".to_string(), None);
    let c = b.add_node("N".to_string(), None);
    let d = b.add_node("N".to_string(), None);
    b.add_edge(a, c, "x".to_string(), Some(one_prop("k", first))).unwrap();
    b.add_edge(a, c, "y".to_string(), None).unwrap();
    b.add_edge(a, c, "x".to_string(), Some(one_prop("k", second))).unwrap();
    b.add_edge(a, d, "x".to_string(), None).unwrap();
    b.build()
}

fn plan_summary(p: &WeightPlan) -> String {
    match p {
        WeightPlan::Keep(i) => format!("keep {}", i),
        WeightPlan::One => "one".to_string(),
        WeightPlan::Identical(v) => format!("identical {:?}", v),
        WeightPlan::Sum(v) => format!("sum {:?}", v),
    }
}

#[test]
fn subgraph_links_authors_to_their_papers() {
    let g = library(1);
    let mp = MetaPath::new("[Author]-{writes}->[Paper]").unwrap();
    let sub = g.meta_path_subgraph(vec![("wrote".to_string(), mp)], false, 20).unwrap();
    assert_eq!(sub.uid, 20);
    let types: Vec<String> = sub.node_list().iter().map(|d| d.node_type().to_string()).collect();
    assert_eq!(types, vec!["Author", "Paper", "Paper", "Author"]);
    assert_eq!(
        edges_of(&sub),
        vec![
            (0, 0, 1, "wrote".to_string()),
            (1, 0, 2, "wrote".to_string()),
            (2, 3, 2, "wrote".to_string()),
        ]
    );
}

#[test]
fn subgraph_reports_unknown_types() {
    let g = library(1);
    let mp = MetaPath::new("[Venue]->[Paper]").unwrap();
    match g.meta_path_subgraph(vec![("v".to_string(), mp)], true, 21) {
        Err(HetNetError::UnknownType { kind, name }) => {
            assert_eq!(kind, "node");
            assert_eq!(name, "Venue");
        }
        other => panic!("expected an unknown type, got {:?}", other.map(|s| s.uid)),
    }
}

#[test]
fn walk_meta_path_ends_in_stack_order() {
    let g = library(1);
    let mp = MetaPath::new("[Author]-{writes}->[Paper]").unwrap();
    let resolved = g.resolve_meta_path(&mp, false).unwrap().unwrap();
    assert_eq!(g.walk_meta_path(0, &resolved, false), vec![2, 1]);
    assert_eq!(g.walk_meta_path(3, &resolved, true), vec![1]);
    let two = MetaPath::new("[Author]->[Paper]-{cites}->[Paper]").unwrap();
    let resolved_two = g.resolve_meta_path(&two, false).unwrap().unwrap();
    assert_eq!(g.walk_meta_path(0, &resolved_two, false), vec![1]);
    assert_eq!(g.walk_meta_path(3, &resolved_two, false), Vec::<usize>::new());
}

#[test]
fn unknown_names_may_be_allowed() {
    let g = library(1);
    let mp = MetaPath::new("[Venue]->[Paper]").unwrap();
    assert!(matches!(g.resolve_meta_path(&mp, true), Ok(None)));
    assert!(matches!(g.resolve_meta_path(&mp, false), Err(HetNetError::UnknownType { .. })));
}

#[test]
fn edge_type_names_convert_to_identifiers() {
    let g = library(1);
    assert_eq!(g.convert_edge_types(vec!["cites".to_string(), "writes".to_string()], false).unwrap(), vec![1, 0]);
    assert_eq!(g.convert_edge_types(vec!["nope".to_string(), "cites".to_string()], true).unwrap(), vec![1]);
    match g.convert_edge_types(vec!["nope".to_string()], false) {
        Err(HetNetError::UnknownType { kind, name }) => {
            assert_eq!(kind, "edge");
            assert_eq!(name, "nope");
        }
        other => panic!("expected an unknown type, got {:?}", other),
    }
}

#[test]
fn deduplicate_discard_and_sum() {
    let g = doubled("1", "2");
    let d = g
        .deduplicate_edges(vec!["x".to_string()], DataHandling::Discard, WeightHandling::SumAggregate, false, 31)
        .unwrap();
    assert_eq!(d.graph.uid, 31);
    assert_eq!(
        edges_of(&d.graph),
        vec![(4, 0, 1, "x".to_string()), (1, 0, 1, "y".to_string()), (5, 0, 2, "x".to_string())]
    );
    let plans: Vec<String> = d.plans[0].iter().map(plan_summary).collect();
    assert_eq!(plans, vec!["sum [0, 2]", "keep 1", "sum [3]"]);
    assert_eq!(d.plans[1].len(), 0);
}

#[test]
fn deduplicate_keeping_identical_data() {
    let g = doubled("1", "1");
    let d = g
        .deduplicate_edges(vec!["x".to_string()], DataHandling::EnforceIdentical, WeightHandling::SetToOne, false, 32)
        .unwrap();
    assert_eq!(
        edges_of(&d.graph),
        vec![(0, 0, 1, "x".to_string()), (1, 0, 1, "y".to_string()), (3, 0, 2, "x".to_string())]
    );
    let plans: Vec<String> = d.plans[0].iter().map(plan_summary).collect();
    assert_eq!(plans, vec!["one", "keep 1", "one"]);
}

#[test]
fn deduplicate_with_identical_weights_plan() {
    let g = doubled("1", "2");
    let d = g
        .deduplicate_edges(vec!["x".to_string()], DataHandling::Discard, WeightHandling::EnforceIdentical, false, 33)
        .unwrap();
    let plans: Vec<String> = d.plans[0].iter().map(plan_summary).collect();
    assert_eq!(plans, vec!["identical [0, 2]", "keep 1", "identical [3]"]);
}

#[test]
fn deduplicate_refuses_differing_data() {
    let g = doubled("1", "2");
    assert!(matches!(
        g.deduplicate_edges(vec!["x".to_string()], DataHandling::EnforceIdentical, WeightHandling::SetToOne, false, 34),
        Err(HetNetError::NotAllEdgePropertiesEqual)
    ));
}

#[test]
fn deduplicate_unknown_type() {
    let g = doubled("1", "1");
    assert!(matches!(
        g.deduplicate_edges(vec!["z".to_string()], DataHandling::Discard, WeightHandling::SetToOne, false, 35),
        Err(HetNetError::UnknownType { .. })
    ));
    let d = g
        .deduplicate_edges(vec!["z".to_string()], DataHandling::Discard, WeightHandling::SetToOne, true, 35)
        .unwrap();
    assert_eq!(edges_of(&d.graph), edges_of(&g));
    let plans: Vec<String> = d.plans[0].iter().map(plan_summary).collect();
    assert_eq!(plans, vec!["keep 0", "keep 1", "keep 2", "keep 3"]);
}

#[test]
fn update_weights_checks_references() {
    let g = library(1);
    assert!(matches!(
        g.update_weights(&vec![EdgeRef { graph_uid: 2, edge_uid: 0 }], 40),
        Err(HetNetError::InvalidReference)
    ));
    let u = g
        .update_weights(&vec![EdgeRef { graph_uid: 1, edge_uid: 3 }, EdgeRef { graph_uid: 1, edge_uid: 0 }], 40)
        .unwrap();
    assert_eq!(u.graph.uid, 40);
    assert_eq!(edges_of(&u.graph), edges_of(&g));
    // Node 0 holds edges 0 and 1, node 2 holds edge 3, node 3 holds edge 2.
    assert_eq!(u.sources, vec![vec![Some(1), None], vec![], vec![Some(0)], vec![None]]);
}

#[test]
fn markov_graph_is_marked() {
    let g = library(1);
    assert!(!g.graph_metadata.is_markov);
    let m = g.to_markov_graph(41);
    assert!(m.graph_metadata.is_markov);
    assert_eq!(m.uid, 41);
    assert_eq!(edges_of(&m), edges_of(&g));
}

#[test]
fn transitions_classify_steps() {
    let g = library(1);
    assert_eq!(
        g.transitions(RawNodeRef(0), None).unwrap(),
        vec![(RawNodeRef(1), Transition::First), (RawNodeRef(2), Transition::First)]
    );
    assert_eq!(
        g.transitions(RawNodeRef(0), Some(RawNodeRef(2))).unwrap(),
        vec![(RawNodeRef(1), Transition::Common), (RawNodeRef(2), Transition::Return)]
    );
    assert_eq!(
        g.transitions(RawNodeRef(0), Some(RawNodeRef(3))).unwrap(),
        vec![(RawNodeRef(1), Transition::Common), (RawNodeRef(2), Transition::Explore)]
    );
    assert!(matches!(g.transitions(RawNodeRef(9), None), Err(HetNetError::InvalidNodeId { uid: 9 })));
}

fn sorted(m: &HashMap<usize, usize>) -> Vec<(usize, usize)> {
    let mut v: Vec<(usize, usize)> = m.iter().map(|(a, b)| (*a, *b)).collect();
    v.sort();
    v
}

#[test]
fn hop_distances_respect_the_limit() {
    let g = library(1);
    assert_eq!(sorted(&g.hop_distances_from(0, 2)), vec![(0, 0), (1, 1), (2, 1)]);
    assert_eq!(sorted(&g.hop_distances_from(0, 0)), vec![(0, 0)]);
    assert_eq!(sorted(&g.hop_distances_from(3, 5)), vec![(1, 1), (3, 0)]);
    assert_eq!(sorted(&g.hop_distances_from(1, 5)), vec![(1, 0)]);
}

#[test]
fn hop_distances_take_the_shortest_route() {
    // 0 -> 1 -> 2 -> 3 and a shortcut 0 -> 3.
    let mut b = HeteroDiGraphBuilder::new(2);
    let n: Vec<_> = (0..4).map(|_| b.add_node("N".to_string(), None)).collect();
    b.add_edge(n[0], n[1], "e".to_string(), None).unwrap();
    b.add_edge(n[1], n[2], "e".to_string(), None).unwrap();
    b.add_edge(n[2], n[3], "e".to_string(), None).unwrap();
    b.add_edge(n[0], n[3], "e".to_string(), None).unwrap();
    let g = b.build();
    assert_eq!(sorted(&g.hop_distances_from(0, 10)), vec![(0, 0), (1, 1), (2, 2), (3, 1)]);
    let matrix = g.sparse_distance_matrix(1);
    assert_eq!(matrix.len(), 4);
    assert_eq!(sorted(&matrix[0]), vec![(0, 0), (1, 1), (3, 1)]);
    assert_eq!(sorted(&matrix[2]), vec![(2, 0), (3, 1)]);
    assert_eq!(sorted(&matrix[3]), vec![(3, 0)]);
}

#[test]
fn levels_and_coverage() {
    let g = library(1);
    let distances = g.hop_distances_from(0, 2);
    let levels = nodes_by_distance(&distances, 4);
    assert_eq!(levels, vec![vec![0], vec![1, 2]]);
    assert_eq!(walk_coverage(0, &vec![0, 2], &distances, &levels), vec![(1, 1), (1, 2)]);
    assert_eq!(walk_coverage(0, &vec![0], &distances, &levels), vec![(1, 1)]);
    assert_eq!(walk_coverage(0, &vec![1, 2, 1], &distances, &levels), vec![(1, 1), (2, 2)]);
}

#[test]
fn incoming_nodes_and_walk_states() {
    let g = library(1);
    let incoming = g.collect_incoming_nodes();
    assert_eq!(incoming, vec![vec![], vec![0, 2, 3], vec![0], vec![]]);
    let offsets = transition_offsets(&incoming);
    assert_eq!(offsets, vec![0, 0, 3, 4]);
    assert_eq!(transition_state(&incoming, &offsets, 1, 2), Some(1));
    assert_eq!(transition_state(&incoming, &offsets, 1, 3), Some(2));
    assert_eq!(transition_state(&incoming, &offsets, 2, 0), Some(3));
    assert_eq!(transition_state(&incoming, &offsets, 1, 1), None);
}

#[test]
fn incoming_nodes_count_parallel_edges_once() {
    let g = doubled("1", "1");
    assert_eq!(g.collect_incoming_nodes(), vec![vec![], vec![0], vec![0]]);
}

#[test]
fn walker_size_estimates() {
    let g = library(1);
    let layout = SamplerLayout { header: 8, sampler: 10, entry: 3 };
    assert_eq!(g.walker_size_estimate(0, layout), Some(103));
    assert_eq!(g.walker_size_estimate(1, layout), Some(206));
    let huge = SamplerLayout { header: usize::MAX, sampler: 10, entry: 3 };
    assert_eq!(g.walker_size_estimate(0, huge), None);
}
