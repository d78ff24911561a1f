use std::cell::Cell;

use rand::Rng;
use tma_engine::BranchNetwork;

#[derive(Clone, Copy, Debug, PartialEq)]
struct Flow {
    point: [f64; 2],
    flow: f64,
    capacity: f64,
}

#[derive(Clone, Copy, Debug, PartialEq)]
struct Link {
    weight: f64,
    capacity: f64,
}

/// Grows a network from the origin with two translations, (1, 0) chosen with
/// weight 0.6 and (-1, 0) with weight 0.4, and the flow rules of an IFS growth.
fn grown_flow_network(depth_limit: usize) -> BranchNetwork<Flow, Link> {
    let mut rng = rand::thread_rng();
    let appended = (1usize << (depth_limit + 1)) - 2;
    let choices: Vec<usize> = (0..appended)
        .map(|_| if rng.gen_range(0.0..1.0) < 0.6 { 0 } else { 1 })
        .collect();
    let spawn = |current: &Flow, chosen: usize| {
        let dx = if chosen == 0 { 1.0 } else { -1.0 };
        let next_capacity = current.capacity * 0.9 + current.flow * 0.1;
        (
            Flow {
                point: [current.point[0] + dx, current.point[1]],
                flow: current.flow * 0.9,
                capacity: next_capacity,
            },
            Link { weight: current.flow, capacity: next_capacity },
        )
    };
    let mut network = BranchNetwork::new(Flow { point: [0.0, 0.0], flow: 1.0, capacity: 1.0 });
    network.grow_from_ifs(&choices, &spawn, depth_limit);
    network
}

fn total_flow(network: &BranchNetwork<Flow, Link>) -> f64 {
    network.nodes().iter().map(|node| node.payload.flow).sum()
}

fn total_capacity(network: &BranchNetwork<Flow, Link>) -> f64 {
    network.nodes().iter().map(|node| node.payload.capacity).sum()
}

/// Grows a network whose payloads number the nodes in the order they were
/// made (the root is 0): the choices are the numbers themselves.
fn numbered_growth(network: &mut BranchNetwork<u64, u64>, depth_limit: usize, counter: &Cell<u64>) {
    let appended = (1u64 << (depth_limit + 1)) - 2;
    let choices: Vec<usize> = (counter.get() + 1..=counter.get() + appended).map(|c| c as usize).collect();
    counter.set(counter.get() + appended);
    let spawn = |parent: &u64, chosen: usize| (chosen as u64, *parent);
    network.grow_from_ifs(&choices, &spawn, depth_limit);
}

#[test]
fn branch_network_tracks_recursive_growth() {
    let network = grown_flow_network(2);

    assert!(network.len() > 1);
    assert!(network.root().depth == 0);
}

#[test]
fn branch_network_tracks_edges_between_parents_and_children() {
    let network = grown_flow_network(1);

    assert!(!network.edges().is_empty());
    assert!(network.edges()[0].to > network.edges()[0].from);
    assert!(network.nodes()[0].depth == 0);
}

#[test]
fn branch_network_reports_metrics() {
    let network = grown_flow_network(1);

    assert!(network.max_depth() >= 1);
    assert!(total_flow(&network) > 0.0);
    assert!(!network.children_of(0).is_empty());
}

#[test]
fn branch_network_supports_graph_traversal_and_capacity_metrics() {
    let network = grown_flow_network(2);

    let root_children = network.children_of(0);
    assert!(!root_children.is_empty());
    assert_eq!(network.parent_of(root_children[0]), Some(0));
    assert!(network.node_depth(root_children[0]).is_some());
    assert!(network.node_payload(root_children[0]).map(|p| p.capacity).is_some());
    assert!(total_capacity(&network) >= total_flow(&network));
    assert!(network.traverse_from(0).contains(&0));
    assert!(network.traverse_from(0).len() > root_children.len());
}

#[test]
fn branch_network_exposes_flow_summary_metrics() {
    let network = grown_flow_network(2);

    let summary: Vec<(usize, usize, f64, f64, f64)> = network
        .nodes()
        .iter()
        .enumerate()
        .map(|(index, node)| {
            let p = node.payload;
            let utilization = if p.capacity > 0.0 { p.flow / p.capacity } else { 0.0 };
            (index, node.depth, p.flow, p.capacity, utilization)
        })
        .collect();
    assert!(!summary.is_empty());
    assert!(summary[0].4 >= 0.0);
    assert!(summary.iter().all(|entry| entry.3 >= entry.2));
}

#[test]
fn new_network_holds_only_the_root() {
    let network: BranchNetwork<u64, u64> = BranchNetwork::new(7);
    assert_eq!(network.len(), 1);
    assert!(network.is_empty());
    assert_eq!(network.root_index(), 0);
    assert_eq!(network.root().payload, 7);
    assert_eq!(network.root().parent, None);
    assert_eq!(network.max_depth(), 0);
    assert!(network.edges().is_empty());
    assert_eq!(network.traverse_from(0), vec![0]);
    assert!(network.children_of(0).is_empty());
}

#[test]
fn growth_with_limit_zero_adds_nothing() {
    let counter = Cell::new(0);
    let mut network: BranchNetwork<u64, u64> = BranchNetwork::new(0);
    numbered_growth(&mut network, 0, &counter);
    assert_eq!(network.len(), 1);
    assert_eq!(counter.get(), 0);
}

#[test]
fn growth_builds_a_full_binary_tree_in_breadth_first_order() {
    let counter = Cell::new(0);
    let mut network: BranchNetwork<u64, u64> = BranchNetwork::new(0);
    numbered_growth(&mut network, 2, &counter);

    // 2^(2+1) - 2 nodes are appended.
    assert_eq!(network.len(), 7);
    let parents: Vec<Option<usize>> = network.nodes().iter().map(|n| n.parent).collect();
    assert_eq!(parents, vec![None, Some(0), Some(0), Some(1), Some(1), Some(2), Some(2)]);
    let depths: Vec<usize> = network.nodes().iter().map(|n| n.depth).collect();
    assert_eq!(depths, vec![0, 1, 1, 2, 2, 2, 2]);
    let payloads: Vec<u64> = network.nodes().iter().map(|n| n.payload).collect();
    assert_eq!(payloads, vec![0, 1, 2, 3, 4, 5, 6]);
    let edges: Vec<(usize, usize, u64)> =
        network.edges().iter().map(|e| (e.from, e.to, e.payload)).collect();
    assert_eq!(
        edges,
        vec![(0, 1, 0), (0, 2, 0), (1, 3, 1), (1, 4, 1), (2, 5, 2), (2, 6, 2)]
    );
    assert_eq!(network.max_depth(), 2);
    assert!(!network.is_empty());
}

#[test]
fn second_growth_hangs_a_new_tree_from_the_root() {
    let counter = Cell::new(0);
    let mut network: BranchNetwork<u64, u64> = BranchNetwork::new(0);
    numbered_growth(&mut network, 2, &counter);
    numbered_growth(&mut network, 2, &counter);

    assert_eq!(network.len(), 13);
    assert_eq!(network.children_of(0), vec![1, 2, 7, 8]);
    assert_eq!(network.children_of(7), vec![9, 10]);
    assert_eq!(network.children_of(8), vec![11, 12]);
    assert_eq!(network.parent_of(9), Some(7));
    assert_eq!(
        network.traverse_from(0),
        vec![0, 1, 2, 7, 8, 3, 4, 5, 6, 9, 10, 11, 12]
    );
    assert_eq!(network.traverse_from(7), vec![7, 9, 10]);
    assert_eq!(network.traverse_from(3), vec![3]);
}

#[test]
fn every_edge_points_from_parent_to_child() {
    let counter = Cell::new(0);
    let mut network: BranchNetwork<u64, u64> = BranchNetwork::new(0);
    numbered_growth(&mut network, 3, &counter);
    assert_eq!(network.len(), 15);
    for (k, edge) in network.edges().iter().enumerate() {
        assert_eq!(edge.to, k + 1);
        assert!(edge.from < edge.to);
        assert_eq!(network.parent_of(edge.to), Some(edge.from));
        assert!(network.children_of(edge.from).contains(&edge.to));
        assert_eq!(
            network.node_depth(edge.to),
            network.node_depth(edge.from).map(|d| d + 1)
        );
    }
}

#[test]
fn traversal_from_the_root_visits_every_node_once() {
    let counter = Cell::new(0);
    let mut network: BranchNetwork<u64, u64> = BranchNetwork::new(0);
    numbered_growth(&mut network, 3, &counter);
    numbered_growth(&mut network, 1, &counter);
    let mut order = network.traverse_from(0);
    assert_eq!(order[0], 0);
    order.sort();
    let all: Vec<usize> = (0..network.len()).collect();
    assert_eq!(order, all);
}

#[test]
fn lookups_outside_the_network_give_nothing() {
    let network: BranchNetwork<u64, u64> = BranchNetwork::new(3);
    assert_eq!(network.parent_of(1), None);
    assert_eq!(network.node_depth(5), None);
    assert_eq!(network.node_payload(1), None);
    assert_eq!(network.node_payload(0), Some(&3));
    assert!(network.traverse_from(4).is_empty());
    assert!(network.children_of(9).is_empty());
}

#[test]
fn clone_keeps_the_shape_and_payloads() {
    let counter = Cell::new(0);
    let mut network: BranchNetwork<u64, u64> = BranchNetwork::new(0);
    numbered_growth(&mut network, 2, &counter);
    let copy = network.clone();
    assert_eq!(copy, network);
    assert_eq!(copy.traverse_from(0), network.traverse_from(0));
    assert_eq!(copy.root().depth, 0);
}
