use petri::model::Transition;
use petri::network::{PetriGraph, PetriNetwork};

fn net(initial: Vec<u8>, arcs: Vec<(Vec<usize>, Vec<usize>)>) -> PetriNetwork {
    let mut transitions = Vec::new();
    for (inputs, outputs) in arcs {
        transitions.push(Transition::new(inputs, outputs));
    }
    PetriNetwork::new(initial, transitions)
}

fn successors(graph: &PetriGraph, m: &[u8]) -> Vec<Vec<u8>> {
    let at = graph.nodes.iter().position(|n| n.as_slice() == m).expect("a node of the graph");
    let mut out: Vec<Vec<u8>> = graph.edges[at].iter().map(|&j| graph.nodes[j].clone()).collect();
    out.sort();
    out
}

fn as_pairs(graph: &PetriGraph) -> Vec<(Vec<u8>, Vec<Vec<u8>>)> {
    let mut out: Vec<(Vec<u8>, Vec<Vec<u8>>)> =
        graph.nodes.iter().map(|n| (n.clone(), successors(graph, n))).collect();
    out.sort();
    out
}

fn fork_and_join() -> PetriNetwork {
    net(
        vec![1, 0, 0, 0, 0],
        vec![
            (vec![0], vec![1, 2]),
            (vec![1], vec![3]),
            (vec![2, 3], vec![4]),
            (vec![4], vec![]),
        ],
    )
}

fn two_ways() -> PetriNetwork {
    net(
        vec![1, 0, 0, 0, 0],
        vec![
            (vec![0], vec![1]),
            (vec![0], vec![2]),
            (vec![1], vec![3]),
            (vec![2], vec![4]),
            (vec![3], vec![4]),
            (vec![4], vec![]),
        ],
    )
}

#[test]
fn fork_and_join_graph() {
    let graph = fork_and_join().generate_graph();
    assert_eq!(graph.nodes.len(), 5);
    assert_eq!(graph.len(), 5);
    assert_eq!(successors(&graph, &[1, 0, 0, 0, 0]), vec![vec![0, 1, 1, 0, 0]]);
    assert_eq!(successors(&graph, &[0, 1, 1, 0, 0]), vec![vec![0, 0, 1, 1, 0]]);
    assert_eq!(successors(&graph, &[0, 0, 1, 1, 0]), vec![vec![0, 0, 0, 0, 1]]);
    assert_eq!(successors(&graph, &[0, 0, 0, 0, 1]), vec![vec![0, 0, 0, 0, 0]]);
    assert_eq!(successors(&graph, &[0, 0, 0, 0, 0]), vec![vec![0, 0, 0, 0, 0]]);
}

#[test]
fn two_ways_graph() {
    let graph = two_ways().generate_graph();
    assert_eq!(graph.len(), 6);
    assert_eq!(
        successors(&graph, &[1, 0, 0, 0, 0]),
        vec![vec![0, 0, 1, 0, 0], vec![0, 1, 0, 0, 0]]
    );
    assert_eq!(successors(&graph, &[0, 1, 0, 0, 0]), vec![vec![0, 0, 0, 1, 0]]);
    assert_eq!(successors(&graph, &[0, 0, 1, 0, 0]), vec![vec![0, 0, 0, 0, 1]]);
    assert_eq!(successors(&graph, &[0, 0, 0, 1, 0]), vec![vec![0, 0, 0, 0, 1]]);
    assert_eq!(successors(&graph, &[0, 0, 0, 0, 1]), vec![vec![0, 0, 0, 0, 0]]);
    assert_eq!(successors(&graph, &[0, 0, 0, 0, 0]), vec![vec![0, 0, 0, 0, 0]]);
}

#[test]
fn graph_starts_at_the_initial_marking() {
    let n = two_ways();
    let graph = n.generate_graph();
    assert_eq!(graph.nodes[0], vec![1, 0, 0, 0, 0]);
    assert_eq!(n.initial_marking(), &vec![1, 0, 0, 0, 0]);
}

#[test]
fn graph_is_the_same_every_time() {
    let first = two_ways().generate_graph();
    let second = two_ways().generate_graph();
    assert_eq!(first.nodes, second.nodes);
    assert_eq!(first.edges, second.edges);
}

#[test]
fn graph_does_not_depend_on_the_order_of_transitions() {
    let forward = two_ways().generate_graph();
    let backward = net(
        vec![1, 0, 0, 0, 0],
        vec![
            (vec![4], vec![]),
            (vec![3], vec![4]),
            (vec![2], vec![4]),
            (vec![1], vec![3]),
            (vec![0], vec![2]),
            (vec![0], vec![1]),
        ],
    )
    .generate_graph();
    assert_eq!(as_pairs(&forward), as_pairs(&backward));
}

#[test]
fn every_node_has_a_successor() {
    for graph in [fork_and_join().generate_graph(), two_ways().generate_graph()] {
        assert_eq!(graph.nodes.len(), graph.edges.len());
        for list in &graph.edges {
            assert!(!list.is_empty());
            for &j in list {
                assert!(j < graph.nodes.len());
            }
        }
    }
}

#[test]
fn net_without_transitions_is_one_self_loop() {
    let graph = net(vec![2, 1], vec![]).generate_graph();
    assert_eq!(graph.nodes, vec![vec![2, 1]]);
    assert_eq!(graph.edges, vec![vec![0]]);
}

#[test]
fn equal_results_of_two_transitions_count_once() {
    let graph = net(vec![1, 0], vec![(vec![0], vec![1]), (vec![0], vec![1])]).generate_graph();
    assert_eq!(graph.len(), 2);
    assert_eq!(successors(&graph, &[1, 0]), vec![vec![0, 1]]);
    assert_eq!(graph.edges[0].len(), 1);
}

#[test]
fn no_marking_is_held_twice() {
    let graph = net(vec![1, 0, 0], vec![(vec![0], vec![1]), (vec![1], vec![2]), (vec![2], vec![0])])
        .generate_graph();
    assert_eq!(graph.len(), 3);
    assert_eq!(successors(&graph, &[0, 0, 1]), vec![vec![1, 0, 0]]);
}

#[test]
fn enabled_needs_every_input_token() {
    let t = Transition::new(vec![0, 2], vec![1]);
    assert!(t.is_enabled(&vec![1, 0, 1]));
    assert!(!t.is_enabled(&vec![1, 0, 0]));
    assert!(!t.is_enabled(&vec![0, 5, 1]));
}

#[test]
fn enabled_counts_repeated_inputs() {
    let t = Transition::new(vec![0, 0], vec![1]);
    assert!(!t.is_enabled(&vec![1, 0]));
    assert!(t.is_enabled(&vec![2, 0]));
    assert!(t.is_enabled(&vec![3, 0]));
}

#[test]
fn transition_without_inputs_is_always_enabled() {
    let t = Transition::new(vec![], vec![0]);
    assert!(t.is_enabled(&vec![0]));
    assert_eq!(t.fire_at(&vec![0]), vec![1]);
    assert_eq!(t.try_fire(&vec![7]), Some(vec![8]));
}

#[test]
fn firing_takes_inputs_and_puts_outputs() {
    let t = Transition::new(vec![0, 0], vec![1, 1, 2]);
    assert_eq!(t.fire_at(&vec![2, 0, 1]), vec![0, 2, 2]);
    assert_eq!(t.try_fire(&vec![3, 1, 0]), Some(vec![1, 3, 1]));
}

#[test]
fn firing_leaves_the_old_marking_alone() {
    let t = Transition::new(vec![0], vec![1]);
    let m = vec![1, 0];
    let next = t.fire_at(&m);
    assert_eq!(m, vec![1, 0]);
    assert_eq!(next, vec![0, 1]);
}

#[test]
fn place_that_is_input_and_output_keeps_its_count() {
    let t = Transition::new(vec![0], vec![0]);
    assert_eq!(t.fire_at(&vec![1]), vec![1]);
    assert!(!t.is_enabled(&vec![0]));
    let full = Transition::new(vec![0], vec![0, 1]);
    assert_eq!(full.fire_at(&vec![255, 0]), vec![255, 1]);
}

#[test]
fn try_fire_of_a_disabled_transition_is_none() {
    let t = Transition::new(vec![1], vec![0]);
    assert_eq!(t.try_fire(&vec![4, 0]), None);
}

#[test]
fn find_and_successors_of() {
    let graph = two_ways().generate_graph();
    assert_eq!(graph.find(&vec![1, 0, 0, 0, 0]), Some(0));
    assert_eq!(graph.find(&vec![1, 1, 1, 1, 1]), None);
    assert!(graph.successors_of(&vec![9, 0, 0, 0, 0]).is_none());
    let next = graph.successors_of(&vec![1, 0, 0, 0, 0]).unwrap();
    assert_eq!(next.len(), 2);
    assert!(next.contains(&vec![0, 1, 0, 0, 0]));
    assert!(next.contains(&vec![0, 0, 1, 0, 0]));
    assert!(!next.contains(&vec![1, 0, 0, 0, 0]));
    let end = graph.successors_of(&vec![0, 0, 0, 0, 0]).unwrap();
    assert_eq!(end.items, vec![vec![0, 0, 0, 0, 0]]);
}

#[test]
fn successors_by_position() {
    let graph = two_ways().generate_graph();
    assert_eq!(graph.successors_at(0).len(), 2);
    for i in 0..graph.nodes.len() {
        let mut items = graph.successors_at(i).items;
        items.sort();
        assert_eq!(items, successors(&graph, &graph.nodes[i]));
    }
}
