//! Petri nets: the firing rule, exhaustive exploration of a net into its
//! reachability graph, queries over that graph, and a builder for nets.
//!
//! A net is put together with [`builder::PetriBuilder`], explored with
//! [`PetriNetwork::generate_graph`], and questioned through the resulting
//! [`PetriGraph`]: whether something holds of every reachable marking, what
//! is reached from where, and whether a goal stays within reach for ever.

pub mod builder;
pub mod graph;
pub mod model;
pub mod network;
pub mod scenarios;

pub use crate::graph::MarkingSet;
pub use crate::model::Transition;
pub use crate::network::{PetriGraph, PetriNetwork};
