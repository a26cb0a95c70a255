//! Synchronisation patterns made of places and arcs.

use crate::builder::{Modifier, PetriBuilder};
use vstd::prelude::*;

verus! {

/// A counting semaphore: one place that holds a token for every free permit.
#[derive(Clone, Copy, Debug)]
pub struct Semaphore {
    pub place: usize,
}

impl Semaphore {
    /// Adds a semaphore with `permits` free permits to the net.
    pub fn new(builder: &mut PetriBuilder, permits: u8) -> (s: Semaphore)
        requires
            old(builder).wf(),
        ensures
            final(builder).wf(),
            s.place == old(builder).nodes@.len(),
            final(builder).nodes@ == old(builder).nodes@.push(permits),
            final(builder).transitions == old(builder).transitions,
            final(builder).labels == old(builder).labels,
    {
        let place: usize = builder.node(permits);
        Semaphore { place }
    }

    /// Acquire: the transition takes one token from the semaphore's place.
    pub fn p(&self) -> (m: Modifier)
        ensures
            m == Modifier::Take(self.place),
    {
        Modifier::Take(self.place)
    }

    /// Release: the transition puts one token into the semaphore's place.
    pub fn v(&self) -> (m: Modifier)
        ensures
            m == Modifier::Give(self.place),
    {
        Modifier::Give(self.place)
    }

    /// The semaphore's place.
    pub fn index(&self) -> (i: usize)
        ensures
            i == self.place,
    {
        self.place
    }
}

} // verus!
