use hetnet::builder::HeteroDiGraphBuilder;
use hetnet::errors::HetNetError;
use hetnet::graph::{HeteroDiGraph, NodeRef, RawNodeRef};

/// A cycle 0 -> 1 -> 2 -> 0 with an extra edge 1 -> 0 and a parallel edge 0 -> 1.
fn cycle(uid: usize) -> HeteroDiGraph {
    let mut b = HeteroDiGraphBuilder::new(uid);
    let n: Vec<_> = (0..3).map(|_| b.add_node("N".to_string(), None)).collect();
    b.add_edge(n[0], n[1], "e".to_string(), None).unwrap();
    b.add_edge(n[1], n[2], "e".to_string(), None).unwrap();
    b.add_edge(n[2], n[0], "e".to_string(), None).unwrap();
    b.add_edge(n[1], n[0], "e".to_string(), None).unwrap();
    b.add_edge(n[0], n[1], "f".to_string(), None).unwrap();
    b.build()
}

fn has_edge(g: &HeteroDiGraph, from: usize, to: usize) -> bool {
    g.edge_list().iter().any(|d| d.from().node_uid == from && d.to().node_uid == to)
}

#[test]
fn walks_follow_edges() {
    let g = cycle(4);
    let mut rng = rand::rng();
    for _ in 0..20 {
        let start = NodeRef { graph_uid: 4, node_uid: 1 };
        let path = g.walk_unweighted(start, 6, &mut rng).unwrap().0;
        assert_eq!(path.len(), 7);
        assert_eq!(path[0], start);
        for w in path.windows(2) {
            assert_eq!(w[1].graph_uid, 4);
            assert!(has_edge(&g, w[0].node_uid, w[1].node_uid));
        }
    }
}

#[test]
fn walk_of_length_zero_is_the_start() {
    let g = cycle(4);
    let mut rng = rand::rng();
    let start = NodeRef { graph_uid: 4, node_uid: 2 };
    assert_eq!(g.walk_unweighted(start, 0, &mut rng).unwrap().0, vec![start]);
}

#[test]
fn walk_errors() {
    let g = cycle(4);
    let mut rng = rand::rng();
    assert!(matches!(
        g.walk_unweighted(NodeRef { graph_uid: 5, node_uid: 0 }, 3, &mut rng),
        Err(HetNetError::InvalidReference)
    ));
    assert!(matches!(
        g.walk_unweighted(NodeRef { graph_uid: 4, node_uid: 3 }, 3, &mut rng),
        Err(HetNetError::InvalidNodeId { uid: 3 })
    ));
}

#[test]
fn distinct_targets_drop_parallel_edges() {
    let g = cycle(4);
    assert_eq!(g.distinct_targets(0), vec![RawNodeRef(1)]);
    assert_eq!(g.distinct_targets(1), vec![RawNodeRef(2), RawNodeRef(0)]);
}

#[test]
fn distribution_counts_walks_through_each_node() {
    let g = cycle(4);
    let mut rng = rand::rng();
    let start = NodeRef { graph_uid: 4, node_uid: 0 };
    let counts = g.distribution(start, 1, 25, &mut rng).unwrap();
    assert_eq!(counts, vec![25, 25, 0]);
    let longer = g.distribution(start, 4, 10, &mut rng).unwrap();
    assert_eq!(longer.len(), 3);
    assert_eq!(longer[0], 10);
    assert!(longer.iter().all(|c| *c <= 10));
}

#[test]
fn distribution_without_walks_is_empty() {
    let g = cycle(4);
    let mut rng = rand::rng();
    let foreign = NodeRef { graph_uid: 9, node_uid: 0 };
    assert_eq!(g.distribution(foreign, 3, 0, &mut rng).unwrap(), vec![0, 0, 0]);
    assert!(matches!(g.distribution(foreign, 3, 2, &mut rng), Err(HetNetError::InvalidReference)));
}

#[test]
fn walks_stay_within_their_hop_distances() {
    let g = cycle(4);
    let mut rng = rand::rng();
    let start = NodeRef { graph_uid: 4, node_uid: 0 };
    let distances = g.hop_distances_from(0, 5);
    for _ in 0..10 {
        let path = g.walk_unweighted(start, 5, &mut rng).unwrap().0;
        for (i, r) in path.iter().enumerate() {
            let d = distances.get(&r.node_uid).copied().unwrap();
            assert!(d <= i);
        }
    }
}

#[test]
fn walk_with_choices_follows_the_choices() {
    let g = cycle(4);
    let start = NodeRef { graph_uid: 4, node_uid: 1 };
    // Node 1 leads to 2 then 0; node 0 leads to 1 only.
    let path = g.walk_with_choices(start, &vec![1, 0, 0]).unwrap();
    let nodes: Vec<usize> = path.iter().map(|r| r.node_uid).collect();
    assert_eq!(nodes, vec![1, 0, 1, 2]);
    assert!(path.iter().all(|r| r.graph_uid == 4));
    let only_start = g.walk_with_choices(start, &vec![]).unwrap();
    assert_eq!(only_start, vec![start]);
    assert!(matches!(
        g.walk_with_choices(NodeRef { graph_uid: 5, node_uid: 1 }, &vec![0]),
        Err(HetNetError::InvalidReference)
    ));
}
