use petri::graph::MarkingSet;
use petri::model::Transition;
use petri::network::{PetriGraph, PetriNetwork};

fn graph_of(initial: Vec<u8>, arcs: Vec<(Vec<usize>, Vec<usize>)>) -> PetriGraph {
    let mut transitions = Vec::new();
    for (inputs, outputs) in arcs {
        transitions.push(Transition::new(inputs, outputs));
    }
    PetriNetwork::new(initial, transitions).generate_graph()
}

fn fork_and_join() -> PetriGraph {
    graph_of(
        vec![1, 0, 0, 0, 0],
        vec![
            (vec![0], vec![1, 2]),
            (vec![1], vec![3]),
            (vec![2, 3], vec![4]),
            (vec![4], vec![]),
        ],
    )
}

fn two_dead_ends() -> PetriGraph {
    graph_of(vec![1, 0, 0], vec![(vec![0], vec![1]), (vec![0], vec![2])])
}

fn ring() -> PetriGraph {
    graph_of(vec![1, 0, 0], vec![(vec![0], vec![1]), (vec![1], vec![2]), (vec![2], vec![0])])
}

fn sorted(set: &MarkingSet) -> Vec<Vec<u8>> {
    let mut items = set.items.clone();
    items.sort();
    items
}

#[test]
fn forall_holds() {
    let graph = fork_and_join();
    assert_eq!(graph.assert_forall(|m: &Vec<u8>| m.iter().map(|&c| c as u32).sum::<u32>() <= 2), Ok(()));
}

#[test]
fn forall_names_the_marking_that_fails() {
    let graph = fork_and_join();
    assert_eq!(graph.assert_forall(|m: &Vec<u8>| m[4] == 0), Err(vec![0, 0, 0, 0, 1]));
    assert_eq!(graph.assert_forall(|_m: &Vec<u8>| false), Err(vec![1, 0, 0, 0, 0]));
}

#[test]
fn reaches_is_the_forward_closure() {
    let graph = fork_and_join();
    let set = graph.reaches(|m: &Vec<u8>| m[3] == 1);
    assert_eq!(
        sorted(&set),
        vec![vec![0, 0, 0, 0, 0], vec![0, 0, 0, 0, 1], vec![0, 0, 1, 1, 0]]
    );
    assert_eq!(set.len(), 3);
    assert!(!set.is_empty());
}

#[test]
fn reaches_from_the_start_is_every_node() {
    let graph = fork_and_join();
    assert_eq!(graph.reaches(|m: &Vec<u8>| m[0] == 1).len(), graph.len());
}

#[test]
fn reaches_of_nothing_is_empty() {
    let graph = fork_and_join();
    let set = graph.reaches(|m: &Vec<u8>| m[0] == 7);
    assert_eq!(set.len(), 0);
    assert!(set.is_empty());
}

#[test]
fn reaches_holds_what_satisfies() {
    let graph = two_dead_ends();
    let set = graph.reaches(|m: &Vec<u8>| m[1] == 1 || m[2] == 1);
    assert!(set.contains(&vec![0, 1, 0]));
    assert!(set.contains(&vec![0, 0, 1]));
    assert!(!set.contains(&vec![1, 0, 0]));
    assert_eq!(set.len(), 2);
}

#[test]
fn reaches_applied_twice_changes_nothing() {
    for graph in [fork_and_join(), two_dead_ends(), ring()] {
        let once = graph.reaches(|m: &Vec<u8>| m[1] == 1);
        let twice = graph.reaches(|m: &Vec<u8>| once.contains(m));
        assert_eq!(sorted(&once), sorted(&twice));
        assert!(once.is_subset(&twice) && once.is_superset(&twice));
    }
}

#[test]
fn regions_on_one_cycle_have_equal_closures() {
    let graph = ring();
    let a = graph.reaches(|m: &Vec<u8>| m[1] == 1);
    let b = graph.reaches(|m: &Vec<u8>| m[2] == 1);
    assert!(a.is_subset(&b));
    assert!(a.is_superset(&b));
    assert_eq!(a.len(), 3);
}

#[test]
fn subset_and_superset() {
    let graph = fork_and_join();
    let late = graph.reaches(|m: &Vec<u8>| m[4] == 1);
    let early = graph.reaches(|m: &Vec<u8>| m[1] == 1);
    assert_eq!(late.len(), 2);
    assert_eq!(early.len(), 4);
    assert!(late.is_subset(&early));
    assert!(!early.is_subset(&late));
    assert!(early.is_superset(&late));
    assert!(!late.is_superset(&early));
    let none = graph.reaches(|_m: &Vec<u8>| false);
    assert!(none.is_subset(&late));
    assert!(!late.is_subset(&none));
}

#[test]
fn always_reaches_the_end() {
    let graph = fork_and_join();
    assert_eq!(graph.assert_always_reaches(|m: &Vec<u8>| m.iter().all(|&c| c == 0)), Ok(()));
    assert_eq!(ring().assert_always_reaches(|m: &Vec<u8>| m[2] == 1), Ok(()));
}

#[test]
fn always_reaches_names_the_marking_that_is_cut_off() {
    let graph = two_dead_ends();
    assert_eq!(graph.assert_always_reaches(|m: &Vec<u8>| m[1] == 1), Err(vec![0, 0, 1]));
    assert_eq!(graph.assert_always_reaches(|m: &Vec<u8>| m[2] == 1), Err(vec![0, 1, 0]));
    let cut_off = graph.assert_always_reaches(|m: &Vec<u8>| m[0] == 1).unwrap_err();
    assert!(cut_off == vec![0, 1, 0] || cut_off == vec![0, 0, 1]);
    let any = graph.assert_always_reaches(|_m: &Vec<u8>| false).unwrap_err();
    assert!(graph.find(&any).is_some());
}

#[test]
fn always_reaches_agrees_with_the_closures_of_single_nodes() {
    for graph in [fork_and_join(), two_dead_ends(), ring()] {
        for place in 0..3 {
            let goal = |m: &Vec<u8>| m[place] == 1;
            let mut every = true;
            for node in &graph.nodes {
                let from_node = graph.reaches(|m: &Vec<u8>| m == node);
                if !from_node.items.iter().any(|m| goal(m)) {
                    every = false;
                }
            }
            assert_eq!(graph.assert_always_reaches(goal).is_ok(), every);
        }
    }
}

#[test]
fn masks() {
    let graph = two_dead_ends();
    let seeds = graph.select(&|m: &Vec<u8>| m[1] == 1);
    assert_eq!(seeds.len(), 3);
    assert_eq!(seeds.iter().filter(|&&b| b).count(), 1);
    let from_start = graph.closure_of(&vec![true, false, false]);
    assert_eq!(from_start, vec![true, true, true]);
    let from_seeds = graph.closure_of(&seeds);
    assert_eq!(from_seeds, seeds);
    assert_eq!(graph.collect(&seeds).items, vec![vec![0, 1, 0]]);
    assert_eq!(graph.collect(&vec![false, false, false]).items.len(), 0);
    assert_eq!(graph.always_reaches_from(&vec![true, true, true]), None);
    assert_eq!(graph.always_reaches_from(&vec![false, true, true]), None);
    assert_eq!(graph.always_reaches_from(&vec![false, true, false]), Some(2));
    assert_eq!(graph.always_reaches_from(&vec![false, false, true]), Some(1));
    assert!(graph.always_reaches_from(&vec![true, false, false]).is_some());
    assert!(graph.always_reaches_from(&vec![false, false, false]).is_some());
}
