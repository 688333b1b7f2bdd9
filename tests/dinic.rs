use rating_exchange::dinic::solve;
use rating_exchange::flow_network::{edge, Flow, FlowNetwork};

fn validate_network(network: &FlowNetwork, total_flow: Flow) {
    if let Err(err) = network.validate(Some(total_flow)) {
        panic!("{:?}", err);
    }
}

fn add_all(network: &mut FlowNetwork, edges: &[(u16, u16, u16)]) {
    for &(a, b, c) in edges {
        network.add_edge(edge(a, b), c, 0);
    }
}

#[test]
fn wikipedia_solve() {
    let mut network = FlowNetwork::empty(0, 5);
    network.add_edge(edge(0, 1), 10, 0);
    network.add_edge(edge(0, 2), 10, 0);
    network.add_edge(edge(1, 2), 2, 0);
    network.add_edge(edge(1, 4), 8, 0);
    network.add_edge(edge(1, 3), 4, 0);
    network.add_edge(edge(2, 4), 9, 0);
    network.add_edge(edge(3, 5), 10, 0);
    network.add_edge(edge(4, 3), 6, 0);
    network.add_edge(edge(4, 5), 10, 0);

    solve(&mut network);

    validate_network(&network, 19);
}

#[test]
fn assignment_too_big_flow_from_source_solve_small() {
    let mut network = FlowNetwork::empty(0, 5);
    network.add_edge(edge(0, 1), 1, 0);
    network.add_edge(edge(0, 2), 1, 0);

    network.add_edge(edge(1, 3), 1, 0);
    network.add_edge(edge(1, 4), 1, 0);

    network.add_edge(edge(2, 3), 1, 0);
    network.add_edge(edge(2, 4), 1, 0);

    network.add_edge(edge(3, 5), 1, 0);
    network.add_edge(edge(4, 5), 1, 0);

    solve(&mut network);

    validate_network(&network, 2);
}

fn bipartite(source_capacity: u16, sink_capacity: u16, skip_own: bool) -> FlowNetwork {
    let mut network = FlowNetwork::empty(0, 11);
    for u in 1..=5u16 {
        network.add_edge(edge(0, u), source_capacity, 0);
    }
    for u in 1..=5u16 {
        for v in 6..=10u16 {
            if skip_own && v == u + 5 {
                continue;
            }
            network.add_edge(edge(u, v), 1, 0);
        }
    }
    for v in 6..=10u16 {
        network.add_edge(edge(v, 11), sink_capacity, 0);
    }
    network
}

#[test]
fn assignment_too_big_flow_from_source_solve() {
    let mut network = bipartite(4, 4, false);
    solve(&mut network);
    validate_network(&network, 5 * 4);
}

#[test]
fn assignment_full_solve() {
    let mut network = bipartite(5, 5, false);
    solve(&mut network);
    validate_network(&network, 5 * 5);
}

#[test]
fn assignment_overflowing_solve() {
    let mut network = bipartite(5, 5, true);
    solve(&mut network);
    validate_network(&network, 5 * 4);
}

#[test]
fn assignment_with_forbidden_solve() {
    let mut network = FlowNetwork::empty(0, 11);
    add_all(
        &mut network,
        &[
            (0, 1, 5), (0, 2, 5), (0, 3, 5), (0, 4, 5), (0, 5, 5),
            (1, 7, 1), (1, 8, 1), (1, 9, 1), (1, 10, 1),
            (2, 6, 1), (2, 8, 1), (2, 9, 1), (2, 10, 1),
            (3, 6, 1), (3, 7, 1), (3, 9, 1), (3, 10, 1),
            (4, 6, 1), (4, 7, 1), (4, 8, 1), (4, 10, 1),
            (5, 6, 1), (5, 7, 1), (5, 8, 1), (5, 9, 1),
            (6, 11, 5), (7, 11, 5), (8, 11, 5), (9, 11, 5), (10, 11, 5),
        ],
    );
    solve(&mut network);
    validate_network(&network, 5 * 4);
}

#[test]
fn solve_empty_network() {
    let mut network = FlowNetwork::empty(0, 1);
    solve(&mut network);
    validate_network(&network, 0);
    assert!(network.edges().is_empty());
}

#[test]
fn solve_self_edge_only_network_gives_zero() {
    let mut network = FlowNetwork::empty(0, 1);
    network.add_edge(edge(0, 0), 5, 0);
    network.add_edge(edge(1, 1), 5, 0);
    network.add_edge(edge(2, 2), 5, 0);
    solve(&mut network);
    assert_eq!(network.flow(edge(0, 0)), 0);
    assert_eq!(network.flow(edge(1, 1)), 0);
    assert_eq!(network.flow(edge(2, 2)), 0);
    validate_network(&network, 0);
}

#[test]
fn solve_source_equal_to_sink_leaves_network() {
    let mut network = FlowNetwork::empty(3, 3);
    network.add_edge(edge(3, 4), 2, 0);
    network.add_edge(edge(4, 3), 2, 0);
    solve(&mut network);
    assert_eq!(network.flow(edge(3, 4)), 0);
    assert_eq!(network.flow(edge(4, 3)), 0);
}

#[test]
fn solve_reroutes_existing_flow() {
    // A feasible but not maximum flow that blocks the direct route: the solver has to push
    // flow back along 1 -> 2 to reach the maximum of 2.
    let mut network = FlowNetwork::empty(0, 3);
    network.add_edge(edge(0, 1), 1, 1);
    network.add_edge(edge(1, 2), 1, 1);
    network.add_edge(edge(2, 3), 1, 1);
    network.add_edge(edge(0, 2), 1, 0);
    network.add_edge(edge(1, 3), 1, 0);
    solve(&mut network);
    validate_network(&network, 2);
    assert_eq!(network.flow(edge(1, 2)), 0);
}
