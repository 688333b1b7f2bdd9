use rating_exchange::dinic::{
    build_adjacency, construct_level_graph, construct_residual_graph, vertex_bound, Arc,
};
use rating_exchange::flow_network::{edge, FlowNetwork};

fn residual_of(network: &FlowNetwork, arcs: &[Arc]) -> Vec<((u16, u16), u16)> {
    let mut r: Vec<((u16, u16), u16)> = arcs
    .iter()
    .map(|a| {
        let d = network.edge_at(a.index);
        let room = if a.forward { d.capacity - d.flow } else { d.flow };
        ((a.from, a.to), room)
    })
    .collect();
    r.sort();
    r
}

fn levels_of(residual: &FlowNetwork) -> (Vec<((u16, u16), u16)>, Vec<(u16, u32)>) {
    let mut arcs = Vec::new();
    construct_residual_graph(residual, &mut arcs);
    let n = vertex_bound(residual);
    let adj = build_adjacency(&arcs, n);
    let (levels, _parent) = construct_level_graph(residual, &arcs, &adj, n);
    let level_arcs: Vec<Arc> = arcs
    .iter()
    .copied()
    .filter(|a| match (levels[a.from as usize], levels[a.to as usize]) {
        (Some(x), Some(y)) => y == x + 1,
        _ => false,
    })
    .collect();
    let mut reached: Vec<(u16, u32)> = levels
    .iter()
    .enumerate()
    .filter_map(|(v, l)| l.map(|l| (v as u16, l)))
    .collect();
    reached.sort();
    (residual_of(residual, &level_arcs), reached)
}

#[test]
fn wikipedia_residual_1() {
    // Taken from https://en.wikipedia.org/wiki/Dinic's_algorithm#Example
    let mut network = FlowNetwork::empty(0, 5);
    network.add_edge(edge(0, 1), 10, 0);
    network.add_edge(edge(0, 2), 10, 0);
    network.add_edge(edge(1, 2), 2, 0);
    network.add_edge(edge(1, 3), 4, 0);
    network.add_edge(edge(1, 4), 8, 0);
    network.add_edge(edge(2, 4), 9, 0);
    network.add_edge(edge(3, 5), 10, 0);
    network.add_edge(edge(4, 3), 6, 0);
    network.add_edge(edge(4, 5), 10, 0);

    let mut arcs = Vec::new();
    construct_residual_graph(&network, &mut arcs);
    assert_eq!(residual_of(&network, &arcs), vec![((0, 1), 10), ((0, 2), 10), ((1, 2), 2), ((1, 3), 4), ((1, 4), 8), ((2, 4), 9), ((3, 5), 10), ((4, 3), 6), ((4, 5), 10)]);
}

#[test]
fn wikipedia_residual_2() {
    // Taken from https://en.wikipedia.org/wiki/Dinic's_algorithm#Example
    let mut network = FlowNetwork::empty(0, 5);
    network.add_edge(edge(0, 1), 10, 10);
    network.add_edge(edge(0, 2), 10, 4);
    network.add_edge(edge(1, 2), 2, 0);
    network.add_edge(edge(1, 3), 4, 4);
    network.add_edge(edge(1, 4), 8, 6);
    network.add_edge(edge(2, 4), 9, 4);
    network.add_edge(edge(3, 5), 10, 4);
    network.add_edge(edge(4, 3), 6, 0);
    network.add_edge(edge(4, 5), 10, 10);

    let mut arcs = Vec::new();
    construct_residual_graph(&network, &mut arcs);
    assert_eq!(residual_of(&network, &arcs), vec![((0, 2), 6), ((1, 0), 10), ((1, 2), 2), ((1, 4), 2), ((2, 0), 4), ((2, 4), 5), ((3, 1), 4), ((3, 5), 6), ((4, 1), 6), ((4, 2), 4), ((4, 3), 6), ((5, 3), 4), ((5, 4), 10)]);
}

#[test]
fn wikipedia_residual_3() {
    // Taken from https://en.wikipedia.org/wiki/Dinic's_algorithm#Example
    let mut network = FlowNetwork::empty(0, 5);
    network.add_edge(edge(0, 1), 10, 10);
    network.add_edge(edge(0, 2), 10, 9);
    network.add_edge(edge(1, 2), 2, 0);
    network.add_edge(edge(1, 3), 4, 4);
    network.add_edge(edge(1, 4), 8, 6);
    network.add_edge(edge(2, 4), 9, 9);
    network.add_edge(edge(3, 5), 10, 9);
    network.add_edge(edge(4, 3), 6, 5);
    network.add_edge(edge(4, 5), 10, 10);

    let mut arcs = Vec::new();
    construct_residual_graph(&network, &mut arcs);
    assert_eq!(residual_of(&network, &arcs), vec![((0, 2), 1), ((1, 0), 10), ((1, 2), 2), ((1, 4), 2), ((2, 0), 9), ((3, 1), 4), ((3, 4), 5), ((3, 5), 1), ((4, 1), 6), ((4, 2), 9), ((4, 3), 1), ((5, 3), 9), ((5, 4), 10)]);
}

#[test]
fn wikipedia_levels_1() {
    // Taken from https://en.wikipedia.org/wiki/Dinic's_algorithm#Example
    let mut residual = FlowNetwork::empty(0, 5);
    residual.add_edge(edge(0, 1), 10, 0);
    residual.add_edge(edge(0, 2), 10, 0);
    residual.add_edge(edge(1, 2), 2, 0);
    residual.add_edge(edge(1, 3), 4, 0);
    residual.add_edge(edge(1, 4), 8, 0);
    residual.add_edge(edge(2, 4), 9, 0);
    residual.add_edge(edge(3, 5), 10, 0);
    residual.add_edge(edge(4, 3), 6, 0);
    residual.add_edge(edge(4, 5), 10, 0);

    let (level_graph, levels) = levels_of(&residual);
    assert_eq!(level_graph, vec![((0, 1), 10), ((0, 2), 10), ((1, 3), 4), ((1, 4), 8), ((2, 4), 9), ((3, 5), 10), ((4, 5), 10)]);
    assert_eq!(levels, vec![(0, 0), (1, 1), (2, 1), (3, 2), (4, 2), (5, 3)]);
}

#[test]
fn wikipedia_levels_2() {
    // Taken from https://en.wikipedia.org/wiki/Dinic's_algorithm#Example
    let mut residual = FlowNetwork::empty(0, 5);
    residual.add_edge(edge(0, 2), 6, 0);
    residual.add_edge(edge(1, 0), 10, 0);
    residual.add_edge(edge(1, 2), 2, 0);
    residual.add_edge(edge(1, 4), 2, 0);
    residual.add_edge(edge(2, 0), 4, 0);
    residual.add_edge(edge(2, 4), 5, 0);
    residual.add_edge(edge(3, 1), 4, 0);
    residual.add_edge(edge(3, 5), 6, 0);
    residual.add_edge(edge(4, 1), 6, 0);
    residual.add_edge(edge(4, 2), 4, 0);
    residual.add_edge(edge(4, 3), 6, 0);
    residual.add_edge(edge(5, 3), 4, 0);
    residual.add_edge(edge(5, 4), 10, 0);

    let (level_graph, levels) = levels_of(&residual);
    assert_eq!(level_graph, vec![((0, 2), 6), ((2, 4), 5), ((3, 5), 6), ((4, 1), 6), ((4, 3), 6)]);
    assert_eq!(levels, vec![(0, 0), (1, 3), (2, 1), (3, 3), (4, 2), (5, 4)]);
}

#[test]
fn wikipedia_levels_3() {
    // Taken from https://en.wikipedia.org/wiki/Dinic's_algorithm#Example
    let mut residual = FlowNetwork::empty(0, 5);
    residual.add_edge(edge(0, 2), 1, 0);
    residual.add_edge(edge(1, 0), 10, 0);
    residual.add_edge(edge(1, 2), 2, 0);
    residual.add_edge(edge(1, 4), 2, 0);
    residual.add_edge(edge(2, 0), 9, 0);
    residual.add_edge(edge(3, 1), 4, 0);
    residual.add_edge(edge(3, 4), 5, 0);
    residual.add_edge(edge(3, 5), 1, 0);
    residual.add_edge(edge(4, 1), 6, 0);
    residual.add_edge(edge(4, 2), 9, 0);
    residual.add_edge(edge(4, 3), 1, 0);
    residual.add_edge(edge(5, 3), 9, 0);
    residual.add_edge(edge(5, 4), 10, 0);

    let (level_graph, levels) = levels_of(&residual);
    assert_eq!(level_graph, vec![((0, 2), 1)]);
    assert_eq!(levels, vec![(0, 0), (2, 1)]);
}
