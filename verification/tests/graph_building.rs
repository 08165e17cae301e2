use hetnet::builder::HeteroDiGraphBuilder;
use hetnet::errors::{GraphQueryingError, HetNetError};
use hetnet::graph::{EdgeRef, HeteroDiGraph, NodeRef, RawNodeRef};
use hetnet::properties::Properties;

fn props(pairs: &[(&str, &str)]) -> Properties {
    let mut p = Properties::new();
    for (k, v) in pairs {
        p.insert(k.to_string(), v.to_string());
    }
    p
}

/// Two authors and two papers: author 0 wrote both papers, author 3 wrote paper 1,
/// and paper 2 cites paper 1.
fn library(uid: usize) -> HeteroDiGraph {
    let mut b = HeteroDiGraphBuilder::new(uid);
    let a0 = b.add_node("Author".to_string(), Some(props(&[("name", "Ada")])));
    let p1 = b.add_node("Paper".to_string(), None);
    let p2 = b.add_node("Paper".to_string(), None);
    let a3 = b.add_node("Author".to_string(), None);
    b.add_edge(a0, p1, "writes".to_string(), Some(props(&[("year", "1843")]))).unwrap();
    b.add_edge(a0, p2, "writes".to_string(), None).unwrap();
    b.add_edge(a3, p1, "writes".to_string(), None).unwrap();
    b.add_edge(p2, p1, "cites".to_string(), None).unwrap();
    b.build()
}

#[test]
fn nodes_are_numbered_in_order() {
    let mut b = HeteroDiGraphBuilder::new(7);
    let x = b.add_node("A".to_string(), None);
    let y = b.add_node("B".to_string(), None);
    assert_eq!(x, NodeRef { graph_uid: 7, node_uid: 0 });
    assert_eq!(y, NodeRef { graph_uid: 7, node_uid: 1 });
}

#[test]
fn edges_are_numbered_in_order() {
    let mut b = HeteroDiGraphBuilder::new(3);
    let x = b.add_node("A".to_string(), None);
    let y = b.add_node("A".to_string(), None);
    let e0 = b.add_edge(x, y, "r".to_string(), None).unwrap();
    let e1 = b.add_edge(y, x, "r".to_string(), None).unwrap();
    assert_eq!(e0, EdgeRef { graph_uid: 3, edge_uid: 0 });
    assert_eq!(e1, EdgeRef { graph_uid: 3, edge_uid: 1 });
}

#[test]
fn edge_between_graphs_is_refused() {
    let mut b = HeteroDiGraphBuilder::new(1);
    let x = b.add_node("A".to_string(), None);
    let foreign = NodeRef { graph_uid: 2, node_uid: 0 };
    assert!(matches!(
        b.add_edge(x, foreign, "r".to_string(), None),
        Err(HetNetError::InvalidReference)
    ));
    assert!(matches!(
        b.add_edge(foreign, x, "r".to_string(), None),
        Err(HetNetError::InvalidReference)
    ));
    let g = b.build();
    assert_eq!(g.edge_list().len(), 0);
}

#[test]
fn node_list_names_types() {
    let g = library(11);
    let nodes = g.node_list();
    let types: Vec<&str> = nodes.iter().map(|d| d.node_type()).collect();
    assert_eq!(types, vec!["Author", "Paper", "Paper", "Author"]);
    for (i, d) in nodes.iter().enumerate() {
        assert_eq!(d.uid(), NodeRef { graph_uid: 11, node_uid: i });
    }
}

#[test]
fn edge_list_goes_node_by_node() {
    let g = library(11);
    let edges = g.edge_list();
    let summary: Vec<(usize, usize, usize, &str)> = edges
        .iter()
        .map(|d| (d.uid().edge_uid, d.from().node_uid, d.to().node_uid, d.edge_type()))
        .collect();
    assert_eq!(
        summary,
        vec![(0, 0, 1, "writes"), (1, 0, 2, "writes"), (3, 2, 1, "cites"), (2, 3, 1, "writes")]
    );
    assert!(edges.iter().all(|d| d.uid().graph_uid == 11 && d.from().graph_uid == 11));
}

#[test]
fn node_properties_are_found() {
    let g = library(5);
    let p = g.node_properties(NodeRef { graph_uid: 5, node_uid: 0 }).unwrap();
    assert_eq!(p.get(&"name".to_string()).map(|s| s.as_str()), Some("Ada"));
    assert_eq!(p.len(), 1);
    let empty = g.node_properties(NodeRef { graph_uid: 5, node_uid: 2 }).unwrap();
    assert_eq!(empty.len(), 0);
}

#[test]
fn node_properties_errors() {
    let g = library(5);
    assert!(matches!(
        g.node_properties(NodeRef { graph_uid: 6, node_uid: 0 }),
        Err(GraphQueryingError::InvalidReference)
    ));
    assert!(matches!(
        g.node_properties(NodeRef { graph_uid: 5, node_uid: 9 }),
        Err(GraphQueryingError::InvalidNodeId { uid: 9 })
    ));
}

#[test]
fn edge_properties_are_found() {
    let g = library(5);
    let p = g.edge_properties(EdgeRef { graph_uid: 5, edge_uid: 0 }).unwrap();
    assert_eq!(p.get(&"year".to_string()).map(|s| s.as_str()), Some("1843"));
    assert!(matches!(
        g.edge_properties(EdgeRef { graph_uid: 4, edge_uid: 0 }),
        Err(GraphQueryingError::InvalidReference)
    ));
    assert!(matches!(
        g.edge_properties(EdgeRef { graph_uid: 5, edge_uid: 4 }),
        Err(GraphQueryingError::InvalidEdgeId { uid: 4 })
    ));
}

#[test]
fn references_convert_both_ways() {
    let r = NodeRef { graph_uid: 8, node_uid: 3 };
    assert_eq!(r.downgrade(), RawNodeRef(3));
    assert_eq!(RawNodeRef(3).upgrade(8), r);
    assert_eq!(r.downgrade().upgrade(8), r);
}

#[test]
fn properties_insert_replaces() {
    let mut p = Properties::new();
    p.insert("k".to_string(), "1".to_string());
    p.insert("k".to_string(), "2".to_string());
    assert_eq!(p.len(), 1);
    assert_eq!(p.get(&"k".to_string()).map(|s| s.as_str()), Some("2"));
    assert_eq!(p.get(&"other".to_string()), None);
    let q = p.duplicate();
    assert!(p.same_as(&q));
    let mut r = q.duplicate();
    r.insert("j".to_string(), "0".to_string());
    assert!(!p.same_as(&r));
}

#[test]
fn copies_keep_structure_under_a_new_uid() {
    let g = library(5);
    let c = g.copy_with_uid(9);
    assert_eq!(c.uid, 9);
    let a: Vec<(usize, usize, usize)> =
        g.edge_list().iter().map(|d| (d.uid().edge_uid, d.from().node_uid, d.to().node_uid)).collect();
    let b: Vec<(usize, usize, usize)> =
        c.edge_list().iter().map(|d| (d.uid().edge_uid, d.from().node_uid, d.to().node_uid)).collect();
    assert_eq!(a, b);
}
