use rating_exchange::flow_network::{edge, Edge, FlowError, FlowNetwork};

fn sorted(mut v: Vec<Edge>) -> Vec<(u16, u16)> {
    let mut r: Vec<(u16, u16)> = v.drain(..).map(|e| (e.start, e.end)).collect();
    r.sort();
    r
}

fn sample() -> FlowNetwork {
    let mut network = FlowNetwork::empty(0, 3);
    network.add_edge(edge(0, 1), 5, 0);
    network.add_edge(edge(1, 3), 19, 10);
    network.add_edge(edge(0, 2), 3, 3);
    network.add_edge(edge(2, 3), 0, 0);
    network.add_edge(edge(1, 2), 3, 0);
    network
}

#[test]
fn flow_network_empty() {
    let network = FlowNetwork::empty(0, 1);
    assert_eq!(network.source(), 0);
    assert_eq!(network.sink(), 1);
    assert!(network.edges().is_empty());
    assert!(network.capacities().is_empty());
    assert!(network.flows().is_empty());
    assert!(network.outgoing_edges(0).is_empty());
    assert!(network.incoming_edges(1).is_empty());
}

#[test]
fn adding_edges() {
    let network = sample();
    assert_eq!(network.source(), 0);
    assert_eq!(network.sink(), 3);
    assert_eq!(sorted(network.edges()), vec![(0, 1), (0, 2), (1, 2), (1, 3), (2, 3)]);
    let mut capacities: Vec<((u16, u16), u16)> =
        network.capacities().into_iter().map(|(e, c)| ((e.start, e.end), c)).collect();
    capacities.sort();
    assert_eq!(capacities, vec![((0, 1), 5), ((0, 2), 3), ((1, 2), 3), ((1, 3), 19), ((2, 3), 0)]);
    let mut flows: Vec<((u16, u16), u16)> =
        network.flows().into_iter().map(|(e, f)| ((e.start, e.end), f)).collect();
    flows.sort();
    assert_eq!(flows, vec![((0, 1), 0), ((0, 2), 3), ((1, 2), 0), ((1, 3), 10), ((2, 3), 0)]);
    assert_eq!(sorted(network.outgoing_edges(0)), vec![(0, 1), (0, 2)]);
    assert_eq!(sorted(network.outgoing_edges(1)), vec![(1, 2), (1, 3)]);
    assert_eq!(sorted(network.outgoing_edges(2)), vec![(2, 3)]);
    assert!(network.outgoing_edges(3).is_empty());
    assert_eq!(sorted(network.incoming_edges(1)), vec![(0, 1)]);
    assert_eq!(sorted(network.incoming_edges(2)), vec![(0, 2), (1, 2)]);
    assert_eq!(sorted(network.incoming_edges(3)), vec![(1, 3), (2, 3)]);
}

#[test]
fn removing_edges() {
    let mut network = sample();
    network.remove_edge(edge(0, 2));
    network.remove_edge(edge(1, 3));
    network.remove_edge(edge(2, 3));
    assert_eq!(network.source(), 0);
    assert_eq!(network.sink(), 3);
    assert_eq!(sorted(network.edges()), vec![(0, 1), (1, 2)]);
    assert_eq!(network.capacity(edge(0, 1)), 5);
    assert_eq!(network.capacity(edge(1, 2)), 3);
    assert_eq!(network.capacity(edge(1, 3)), 0);
    assert_eq!(network.flow(edge(0, 1)), 0);
    assert_eq!(network.flow(edge(1, 2)), 0);
    assert_eq!(sorted(network.outgoing_edges(0)), vec![(0, 1)]);
    assert_eq!(sorted(network.outgoing_edges(1)), vec![(1, 2)]);
    assert!(network.outgoing_edges(2).is_empty());
    assert_eq!(sorted(network.incoming_edges(1)), vec![(0, 1)]);
    assert_eq!(sorted(network.incoming_edges(2)), vec![(1, 2)]);
    assert!(network.incoming_edges(3).is_empty());
}

#[test]
fn add_edge_overwrites_existing() {
    let mut network = sample();
    network.add_edge(edge(1, 3), 7, 2);
    assert_eq!(network.edges().len(), 5);
    assert_eq!(network.capacity(edge(1, 3)), 7);
    assert_eq!(network.flow(edge(1, 3)), 2);
}

#[test]
fn remove_absent_edge_is_noop() {
    let mut network = sample();
    network.remove_edge(edge(3, 0));
    assert_eq!(network.edges().len(), 5);
}

#[test]
fn clear_keeps_terminals() {
    let mut network = sample();
    network.clear();
    assert!(network.edges().is_empty());
    assert_eq!(network.source(), 0);
    assert_eq!(network.sink(), 3);
}

#[test]
fn available_capacity_values() {
    let network = sample();
    assert_eq!(network.available_capacity(edge(0, 1)), 5);
    assert_eq!(network.available_capacity(edge(0, 2)), 0);
    assert_eq!(network.available_capacity(edge(1, 3)), 9);
    assert_eq!(network.available_capacity(edge(3, 1)), 0);
}

#[test]
fn set_flow_changes_one_edge() {
    let mut network = sample();
    network.set_flow(edge(0, 1), 4);
    assert_eq!(network.flow(edge(0, 1)), 4);
    assert_eq!(network.flow(edge(1, 3)), 10);
}

#[test]
fn opposite_edge() {
    let e = edge(4, 9).opposite();
    assert_eq!((e.start, e.end), (9, 4));
}

#[test]
fn validate_reports_each_error() {
    let mut over = FlowNetwork::empty(0, 2);
    over.add_edge(edge(0, 1), 1, 2);
    assert!(matches!(over.validate(None), Err(FlowError::ExceedsCapacity { .. })));

    let mut unbalanced = FlowNetwork::empty(0, 2);
    unbalanced.add_edge(edge(0, 1), 3, 2);
    unbalanced.add_edge(edge(1, 2), 3, 1);
    assert!(matches!(unbalanced.validate(None), Err(FlowError::Unbalanced { vertex: 1, .. })));

    let mut good = FlowNetwork::empty(0, 2);
    good.add_edge(edge(0, 1), 3, 2);
    good.add_edge(edge(1, 2), 3, 2);
    assert!(good.validate(None).is_ok());
    assert!(good.validate(Some(2)).is_ok());
    assert!(matches!(good.validate(Some(3)), Err(FlowError::SourceMismatch { .. })));

    let mut leaky = FlowNetwork::empty(0, 2);
    leaky.add_edge(edge(0, 1), 3, 2);
    leaky.add_edge(edge(1, 2), 3, 1);
    leaky.add_edge(edge(1, 3), 3, 1);
    assert!(matches!(leaky.validate(Some(2)), Err(FlowError::Unbalanced { vertex: 3, .. })));

    let mut sink_mismatch = FlowNetwork::empty(0, 2);
    sink_mismatch.add_edge(edge(0, 2), 3, 2);
    sink_mismatch.add_edge(edge(2, 2), 3, 1);
    assert!(matches!(sink_mismatch.validate(Some(2)), Err(FlowError::SinkMismatch { .. })));
}
