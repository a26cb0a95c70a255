use petri::builder::{Label, Modifier, PetriBuilder};
use petri::model::Transition;
use petri::network::PetriNetwork;
use petri::scenarios::{boat_network, clock, semaphore_ring, truck_network};
use petri::builder::structures::Semaphore;

fn arcs(builder: &PetriBuilder) -> Vec<(Vec<usize>, Vec<usize>)> {
    builder.transitions.iter().map(|t| (t.inputs.clone(), t.outputs.clone())).collect()
}

#[test]
fn label_that_was_never_registered_is_absent() {
    let mut builder = PetriBuilder::new();
    assert_eq!(builder.get_label("nowhere"), None);
    builder.node_with_label(1, "somewhere");
    assert_eq!(builder.get_label("nowhere"), None);
    assert_eq!(builder.get_label(""), None);
    assert_eq!(builder.get_label("somewhere"), Some(Label::Node(0)));
}

#[test]
fn label_of_another_kind_is_no_node() {
    let mut builder = PetriBuilder::new();
    let a = builder.node(1);
    let t = builder.transition(vec![a], vec![a]);
    builder.label(Label::Transition(t), "turn");
    builder.label(Label::Node(a), "place");
    assert_eq!(builder.get_label("turn").unwrap().as_node(), None);
    assert_eq!(builder.get_label("turn").unwrap().as_transition(), Some(0));
    assert_eq!(builder.get_label("place").unwrap().as_node(), Some(0));
    assert_eq!(builder.get_label("place").unwrap().as_transition(), None);
}

#[test]
fn label_registered_again_refers_to_the_new_target() {
    let mut builder = PetriBuilder::new();
    let a = builder.node(0);
    let b = builder.node(0);
    builder.label(Label::Node(a), "x");
    builder.label(Label::Node(b), "x");
    assert_eq!(builder.get_label("x"), Some(Label::Node(1)));
}

#[test]
fn nodes_and_transitions_become_the_net() {
    let mut builder = PetriBuilder::new();
    assert_eq!(builder.node(1), 0);
    assert_eq!(builder.node(0), 1);
    assert_eq!(builder.node_with_label(3, "third"), 2);
    assert_eq!(builder.transition(vec![0, 2], vec![1, 1]), 0);
    assert_eq!(builder.transition(vec![], vec![2]), 1);
    let net = builder.build();
    assert_eq!(net.nodes, vec![1, 0, 3]);
    assert_eq!(net.transitions.len(), 2);
    assert_eq!(net.transitions[0].inputs, vec![0, 2]);
    assert_eq!(net.transitions[0].outputs, vec![1, 1]);
    assert_eq!(net.transitions[1].inputs, Vec::<usize>::new());
    assert_eq!(net.transitions[1].outputs, vec![2]);
}

#[test]
fn chain_of_steps() {
    let mut builder = PetriBuilder::new();
    let start = builder.node(1);
    let sem = Semaphore::new(&mut builder, 1);
    let end = builder
        .begin_branch(start)
        .step()
        .label("first")
        .step_with_mod(sem.p())
        .label("inside")
        .step_with_mod(sem.v())
        .label("last")
        .current;
    assert_eq!(end, 4);
    assert_eq!(builder.nodes, vec![1, 1, 0, 0, 0]);
    assert_eq!(
        arcs(&builder),
        vec![(vec![0], vec![2]), (vec![2, 1], vec![3]), (vec![3], vec![4, 1])]
    );
    assert_eq!(builder.get_label("first"), Some(Label::Node(2)));
    assert_eq!(builder.get_label("inside"), Some(Label::Node(3)));
    assert_eq!(builder.get_label("last"), Some(Label::Node(4)));
}

#[test]
fn semaphore_is_one_place_and_two_arcs() {
    let mut builder = PetriBuilder::new();
    builder.node(0);
    let sem = Semaphore::new(&mut builder, 4);
    assert_eq!(sem.index(), 1);
    assert_eq!(builder.nodes, vec![0, 4]);
    assert_eq!(sem.p(), Modifier::Take(1));
    assert_eq!(sem.v(), Modifier::Give(1));
    let mut inputs = vec![0];
    let mut outputs = vec![7];
    sem.p().apply(&mut inputs, &mut outputs);
    assert_eq!((inputs.clone(), outputs.clone()), (vec![0, 1], vec![7]));
    sem.v().apply(&mut inputs, &mut outputs);
    assert_eq!((inputs, outputs), (vec![0, 1], vec![7, 1]));
}

#[test]
fn ring_of_semaphores_starts_with_one_permit() {
    let mut builder = PetriBuilder::new();
    builder.node(0);
    let ring = semaphore_ring(&mut builder, 3);
    assert_eq!(ring.iter().map(|s| s.index()).collect::<Vec<usize>>(), vec![1, 2, 3]);
    assert_eq!(builder.nodes, vec![0, 1, 0, 0]);
    assert_eq!(semaphore_ring(&mut builder, 0).len(), 0);
    assert_eq!(builder.nodes, vec![0, 1, 0, 0]);
}

#[test]
fn clocks() {
    let mut builder = PetriBuilder::new();
    assert_eq!(clock(&mut builder, 3, true), (0, 2));
    assert_eq!(builder.nodes, vec![1, 0, 0]);
    assert_eq!(arcs(&builder), vec![(vec![0], vec![1]), (vec![1], vec![2]), (vec![2], vec![0])]);

    let mut single = PetriBuilder::new();
    assert_eq!(clock(&mut single, 1, false), (0, 0));
    assert_eq!(single.nodes, vec![0]);
    assert_eq!(arcs(&single), vec![]);

    let mut none = PetriBuilder::new();
    assert_eq!(clock(&mut none, 0, true), (0, 0));
    assert_eq!(none.nodes, vec![1]);
    assert_eq!(arcs(&none), vec![(vec![0], vec![0])]);
}

#[test]
fn semaphore_ring_never_grants_more_than_one_permit() {
    let mut builder = PetriBuilder::new();
    let ring = semaphore_ring(&mut builder, 3);
    for slot in 0..3 {
        let idle = builder.node(1);
        let next = ring[(slot + 1) % 3];
        builder
            .begin_branch(idle)
            .step_with_mod(ring[slot].p())
            .label("working")
            .step_with_mod(next.v())
            .label("done");
        let done = builder.get_label("done").unwrap().as_node().unwrap();
        builder.transition(vec![done], vec![idle]);
    }
    let graph = builder.build().generate_graph();
    let counters: Vec<usize> = ring.iter().map(|s| s.index()).collect();
    assert!(graph
        .assert_forall(|m: &Vec<u8>| counters.iter().map(|&p| m[p]).sum::<u8>() <= 1)
        .is_ok());
    assert_eq!(
        graph.assert_forall(|m: &Vec<u8>| m[counters[0]] == 1),
        Err(vec![0, 0, 0, 0, 1, 0, 1, 0, 0, 1, 0, 0])
    );
    assert!(graph.assert_always_reaches(|m: &Vec<u8>| m[counters[2]] == 1).is_ok());
}

#[test]
fn producer_and_consumer_always_come_back_to_idle() {
    let mut builder = PetriBuilder::new();
    let slots = Semaphore::new(&mut builder, 1);
    let items = Semaphore::new(&mut builder, 0);

    let (producer_in, producer_out) = clock(&mut builder, 2, true);
    builder
        .begin_branch(producer_out)
        .step_with_mod(slots.p())
        .label("producing")
        .step_with_mod(items.v())
        .label("produced");
    let produced = builder.get_label("produced").unwrap().as_node().unwrap();
    builder.transition(vec![produced], vec![producer_in]);

    let (consumer_in, consumer_out) = clock(&mut builder, 2, true);
    builder
        .begin_branch(consumer_out)
        .step_with_mod(items.p())
        .label("consuming")
        .step_with_mod(slots.v())
        .label("consumed");
    let consumed = builder.get_label("consumed").unwrap().as_node().unwrap();
    builder.transition(vec![consumed], vec![consumer_in]);

    let graph = builder.build().generate_graph();
    assert!(graph
        .assert_always_reaches(|m: &Vec<u8>| m[producer_in] == 1 && m[consumer_in] == 1)
        .is_ok());
    assert!(graph
        .assert_forall(|m: &Vec<u8>| m[slots.index()] + m[items.index()] <= 1)
        .is_ok());
    let producing = producer_out + 1;
    assert!(graph.assert_always_reaches(|m: &Vec<u8>| m[producing] == 1).is_ok());
}

#[test]
fn truck_network_records_its_places() {
    let net = truck_network(2, true, true);
    assert_eq!((net.initial, net.empty, net.full), (0, 1, 2));
    assert_eq!(net.semaphores, vec![3, 4, 5]);
    assert_eq!(net.alpha, Some((6, 7, 10)));
    assert_eq!(net.beta, Some((11, 12, 15)));
    assert_eq!(net.network.nodes, vec![1, 0, 0, 1, 0, 0, 1, 0, 0, 0, 0, 1, 0, 0, 0, 0]);
    assert_eq!(net.network.transitions.len(), 14);
    assert_eq!(net.network.transitions[6].inputs, vec![9, 0]);
    assert_eq!(net.network.transitions[6].outputs, vec![1, 10, 4]);

    let bare = truck_network(3, false, false);
    assert_eq!((bare.alpha, bare.beta), (None, None));
    assert_eq!(bare.network.nodes, vec![1, 0, 0, 1, 0, 0]);
    assert_eq!(bare.network.transitions.len(), 0);

    let only_load = truck_network(3, false, true);
    assert_eq!(only_load.alpha, None);
    assert_eq!(only_load.beta, Some((6, 8, 11)));
}

#[test]
fn boat_network_records_its_places() {
    let net = boat_network(2, 3, true, true);
    assert_eq!(
        (net.initial, net.empty_alpha, net.empty_beta, net.full, net.gone),
        (0, 1, 2, 3, 4)
    );
    assert_eq!(net.semaphores, vec![5, 6]);
    assert_eq!(net.gamma, (7, 9, 11, 12));
    assert_eq!(net.alpha, Some((13, 14, 17, 16)));
    assert_eq!(net.gamma_move_unload, Some(18));
    assert_eq!(net.beta, Some((19, 20, 23, 22)));
    assert_eq!(net.gamma_move_load, Some(24));
    assert_eq!(net.network.nodes.len(), 25);
    assert_eq!(net.network.nodes[..8], [1, 0, 0, 0, 0, 1, 1, 0]);
    assert_eq!(net.network.transitions.len(), 3 + 4 + 9 + 9);

    let bare = boat_network(2, 2, false, false);
    assert_eq!((bare.alpha, bare.beta), (None, None));
    assert_eq!((bare.gamma_move_unload, bare.gamma_move_load), (None, None));
    assert_eq!(bare.network.nodes.len(), 12);
    assert_eq!(bare.network.transitions.len(), 6);
}

#[test]
fn truck_network_with_one_machine() {
    let net = truck_network(2, true, false);
    assert_eq!(net.network.nodes, vec![1, 0, 0, 1, 0, 0, 1, 0, 0, 0, 0]);
    let arcs: Vec<(Vec<usize>, Vec<usize>)> =
        net.network.transitions.iter().map(|t| (t.inputs.clone(), t.outputs.clone())).collect();
    assert_eq!(
        arcs,
        vec![
            (vec![6], vec![7]),
            (vec![7], vec![6]),
            (vec![7], vec![8]),
            (vec![8, 3], vec![9]),
            (vec![9], vec![10, 3]),
            (vec![10], vec![6]),
            (vec![9, 0], vec![1, 10, 4]),
        ]
    );
    assert!(net.network.is_well_formed());
}

#[test]
fn boat_network_with_one_crane() {
    let net = boat_network(2, 2, true, false);
    assert_eq!(
        net.network.nodes,
        vec![1, 0, 0, 0, 0, 1, 1, 0, 0, 0, 0, 0, 1, 0, 0, 0, 0, 0]
    );
    let arcs: Vec<(Vec<usize>, Vec<usize>)> =
        net.network.transitions.iter().map(|t| (t.inputs.clone(), t.outputs.clone())).collect();
    assert_eq!(
        arcs,
        vec![
            (vec![7], vec![8]),
            (vec![8], vec![7]),
            (vec![8], vec![9]),
            (vec![9, 5, 6], vec![10]),
            (vec![10], vec![11, 7]),
            (vec![11], vec![5, 6]),
            (vec![12], vec![13]),
            (vec![13], vec![12]),
            (vec![13], vec![14]),
            (vec![14, 5], vec![15]),
            (vec![15], vec![16]),
            (vec![16], vec![12, 5]),
            (vec![15, 0], vec![16, 1, 7]),
            (vec![10, 1], vec![17]),
            (vec![17], vec![2, 11]),
        ]
    );
}

#[test]
fn net_with_an_arc_to_a_missing_place_is_not_well_formed() {
    let good = PetriNetwork { nodes: vec![1, 0], transitions: vec![Transition::new(vec![0], vec![1])] };
    assert!(good.is_well_formed());
    let bad_output =
        PetriNetwork { nodes: vec![1, 0], transitions: vec![Transition::new(vec![0], vec![2])] };
    assert!(!bad_output.is_well_formed());
    let bad_input =
        PetriNetwork { nodes: vec![1, 0], transitions: vec![Transition::new(vec![5], vec![])] };
    assert!(!bad_input.is_well_formed());
    assert!(Transition::new(vec![0, 1], vec![1]).fits_places(2));
    assert!(!Transition::new(vec![0, 1], vec![1]).fits_places(1));
}
