use rollout_policy::policy::Edge;
use rollout_policy::policy::Node;
use rollout_policy::policy::UpdateGraph;
use rollout_policy::policy::apply;
use rollout_policy::policy::filter_deadends;
use rollout_policy::policy::throttle_rollouts;

fn node(id: u64, version: &str, threshold: Option<u64>) -> Node {
    Node { id, version: String::from(version), threshold }
}

fn edge(from: u64, to: u64, threshold: Option<u64>) -> Edge {
    Edge { from, to, threshold }
}

fn node_ids(g: &UpdateGraph) -> Vec<u64> {
    g.nodes.iter().map(|n| n.id).collect()
}

fn edge_pairs(g: &UpdateGraph) -> Vec<(u64, u64)> {
    g.edges.iter().map(|e| (e.from, e.to)).collect()
}

fn clone_graph(g: &UpdateGraph) -> UpdateGraph {
    UpdateGraph {
        nodes: g.nodes.iter().map(|n| node(n.id, n.version.as_str(), n.threshold)).collect(),
        edges: g.edges.iter().map(|e| edge(e.from, e.to, e.threshold)).collect(),
    }
}

/// The staged-rollout chain: A (always visible), B at threshold 0.0, C at
/// threshold 0.9, linked A -> B -> C.
fn chain_graph() -> UpdateGraph {
    UpdateGraph {
        nodes: vec![
            node(1, "A", None),
            node(2, "B", Some(0)),
            node(3, "C", Some(900_000)),
        ],
        edges: vec![edge(1, 2, None), edge(2, 3, None)],
    }
}

#[test]
fn throttling_hides_the_cautious_release_and_its_edge() {
    let t = throttle_rollouts(chain_graph(), 500_000);
    assert_eq!(node_ids(&t), vec![1, 2]);
    assert_eq!(edge_pairs(&t), vec![(1, 2)]);
}

#[test]
fn pruning_the_throttled_chain_reaches_the_empty_fixed_point() {
    // After throttling, B has lost its only outgoing edge; removing B strands
    // A in turn, so iterated pruning empties the chain.
    let t = throttle_rollouts(chain_graph(), 500_000);
    let f = filter_deadends(t);
    assert!(f.nodes.is_empty());
    assert!(f.edges.is_empty());
    let a = apply(chain_graph(), 500_000);
    assert!(a.nodes.is_empty());
    assert!(a.edges.is_empty());
}

#[test]
fn throttling_is_monotonic_in_wariness() {
    let g = UpdateGraph {
        nodes: vec![
            node(1, "A", None),
            node(2, "B", Some(400_000)),
            node(3, "C", Some(800_000)),
        ],
        edges: vec![
            edge(1, 2, Some(400_000)),
            edge(2, 3, Some(800_000)),
            edge(2, 1, None),
        ],
    };
    let low = throttle_rollouts(clone_graph(&g), 300_000);
    let mid = throttle_rollouts(clone_graph(&g), 500_000);
    let high = throttle_rollouts(g, 900_000);
    assert_eq!(node_ids(&low), vec![1]);
    assert_eq!(node_ids(&mid), vec![1, 2]);
    assert_eq!(node_ids(&high), vec![1, 2, 3]);
    assert_eq!(edge_pairs(&low), Vec::<(u64, u64)>::new());
    assert_eq!(edge_pairs(&mid), vec![(1, 2), (2, 1)]);
    assert_eq!(edge_pairs(&high), vec![(1, 2), (2, 3), (2, 1)]);
    for pair in edge_pairs(&low) {
        assert!(edge_pairs(&mid).contains(&pair));
    }
    for pair in edge_pairs(&mid) {
        assert!(edge_pairs(&high).contains(&pair));
    }
}

#[test]
fn a_cycle_survives_pruning_untouched() {
    let g = UpdateGraph {
        nodes: vec![node(1, "A", None), node(2, "B", None)],
        edges: vec![edge(1, 2, None), edge(2, 1, None)],
    };
    let f = filter_deadends(g);
    assert_eq!(node_ids(&f), vec![1, 2]);
    assert_eq!(edge_pairs(&f), vec![(1, 2), (2, 1)]);
}

#[test]
fn pruning_twice_equals_pruning_once() {
    for wariness in [0u64, 300_000, 500_000, 900_000, 1_000_000] {
        let g = UpdateGraph {
            nodes: vec![
                node(1, "A", None),
                node(2, "B", Some(400_000)),
                node(3, "C", Some(800_000)),
                node(4, "D", None),
            ],
            edges: vec![
                edge(1, 2, None),
                edge(2, 1, None),
                edge(2, 3, Some(600_000)),
                edge(3, 4, None),
                edge(4, 3, None),
            ],
        };
        let once = filter_deadends(throttle_rollouts(g, wariness));
        let twice = filter_deadends(clone_graph(&once));
        assert_eq!(node_ids(&once), node_ids(&twice));
        assert_eq!(edge_pairs(&once), edge_pairs(&twice));
    }
}

#[test]
fn an_empty_graph_is_a_valid_result() {
    let empty = UpdateGraph { nodes: vec![], edges: vec![] };
    let out = apply(empty, 500_000);
    assert!(out.nodes.is_empty());
    assert!(out.edges.is_empty());
}

#[test]
fn unannotated_graphs_pass_throttling_unchanged() {
    let g = UpdateGraph {
        nodes: vec![node(1, "A", None), node(2, "B", None)],
        edges: vec![edge(1, 2, None), edge(2, 1, None)],
    };
    let t = throttle_rollouts(g, 0);
    assert_eq!(node_ids(&t), vec![1, 2]);
    assert_eq!(edge_pairs(&t), vec![(1, 2), (2, 1)]);
}
