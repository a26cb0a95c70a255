//! Building a net piece by piece: places, transitions, labels and chains.

pub mod structures;

use crate::model::{arcs_of, Transition};
use crate::network::PetriNetwork;
use vstd::prelude::*;
use vstd::string::StringExecFns;

verus! {

/// What a label refers to.
#[derive(Clone, Copy, Debug, PartialEq, Eq, Structural)]
pub enum Label {
    Node(usize),
    Transition(usize),
}

impl Label {
    /// The place that the label refers to, if it refers to a place.
    pub fn as_node(&self) -> (r: Option<usize>)
        ensures
            r == match *self {
                Label::Node(i) => Some(i),
                Label::Transition(_) => None::<usize>,
            },
    {
        match *self {
            Label::Node(i) => Some(i),
            Label::Transition(_) => None,
        }
    }

    /// The transition that the label refers to, if it refers to a
    /// transition.
    pub fn as_transition(&self) -> (r: Option<usize>)
        ensures
            r == match *self {
                Label::Node(_) => None::<usize>,
                Label::Transition(i) => Some(i),
            },
    {
        match *self {
            Label::Node(_) => None,
            Label::Transition(i) => Some(i),
        }
    }
}

/// An addition to a transition that is about to be made: one more arc from
/// a place, or one more arc into a place.
#[derive(Clone, Copy, Debug, PartialEq, Eq, Structural)]
pub enum Modifier {
    Take(usize),
    Give(usize),
}

impl Modifier {
    /// The place that the added arc is attached to.
    pub open spec fn place(&self) -> usize {
        match *self {
            Modifier::Take(p) => p,
            Modifier::Give(p) => p,
        }
    }

    /// The input arcs `inputs` with the modifier's addition.
    pub open spec fn inputs_after(&self, inputs: Seq<usize>) -> Seq<usize> {
        match *self {
            Modifier::Take(p) => inputs.push(p),
            Modifier::Give(_) => inputs,
        }
    }

    /// The output arcs `outputs` with the modifier's addition.
    pub open spec fn outputs_after(&self, outputs: Seq<usize>) -> Seq<usize> {
        match *self {
            Modifier::Take(_) => outputs,
            Modifier::Give(p) => outputs.push(p),
        }
    }

    /// Adds the modifier's arc to the arcs of a transition.
    pub fn apply(&self, inputs: &mut Vec<usize>, outputs: &mut Vec<usize>)
        ensures
            final(inputs)@ == self.inputs_after(old(inputs)@),
            final(outputs)@ == self.outputs_after(old(outputs)@),
    {
        match *self {
            Modifier::Take(p) => {
                inputs.push(p);
            },
            Modifier::Give(p) => {
                outputs.push(p);
            },
        }
    }
}

/// A name with what it refers to.
#[derive(Debug)]
pub struct Entry {
    pub name: String,
    pub target: Label,
}

/// What `name` refers to in `entries`: the target of the last entry of
/// that name.
pub open spec fn lookup_in(entries: Seq<Entry>, name: Seq<char>) -> Option<Label>
    decreases entries.len(),
{
    if entries.len() == 0 {
        None
    } else if entries.last().name@ == name {
        Some(entries.last().target)
    } else {
        lookup_in(entries.drop_last(), name)
    }
}

/// A name that no entry has refers to nothing.
pub proof fn lemma_lookup_absent(entries: Seq<Entry>, name: Seq<char>)
    requires
        forall|k: int| 0 <= k < entries.len() ==> (#[trigger] entries[k]).name@ != name,
    ensures
        lookup_in(entries, name) is None,
    decreases entries.len(),
{
    if entries.len() > 0 {
        assert(entries.last().name@ != name);
        lemma_lookup_absent(entries.drop_last(), name);
    }
}

/// A name that some entry has refers to something.
pub proof fn lemma_lookup_present(entries: Seq<Entry>, name: Seq<char>, k: int)
    requires
        0 <= k < entries.len(),
        entries[k].name@ == name,
    ensures
        lookup_in(entries, name) is Some,
    decreases entries.len(),
{
    if entries.last().name@ != name {
        lemma_lookup_present(entries.drop_last(), name, k);
    }
}

/// A net under construction.
#[derive(Debug)]
pub struct PetriBuilder {
    pub nodes: Vec<u8>,
    pub transitions: Vec<Transition>,
    pub labels: Vec<Entry>,
}

/// A chain under construction: it stands at one place of the net and grows
/// from there.
pub struct BranchBuilder<'a> {
    pub builder: &'a mut PetriBuilder,
    pub current: usize,
}

impl PetriBuilder {
    /// Every transition refers to places that exist.
    pub open spec fn wf(&self) -> bool {
        forall|i: int|
            0 <= i < self.transitions@.len() ==> (#[trigger] self.transitions@[i]).wf(
                self.nodes@.len(),
            )
    }

    /// The arcs of the transitions added so far.
    pub open spec fn arcs(&self) -> Seq<(Seq<usize>, Seq<usize>)> {
        arcs_of(self.transitions@)
    }

    /// What `name` refers to.
    pub open spec fn lookup(&self, name: Seq<char>) -> Option<Label> {
        lookup_in(self.labels@, name)
    }

    /// A builder with no places, transitions or labels.
    pub fn new() -> (b: PetriBuilder)
        ensures
            b.wf(),
            b.nodes@.len() == 0,
            b.transitions@.len() == 0,
            b.labels@.len() == 0,
    {
        PetriBuilder { nodes: Vec::new(), transitions: Vec::new(), labels: Vec::new() }
    }

    /// Adds a place with `initial` tokens.
    pub fn node(&mut self, initial: u8) -> (idx: usize)
        requires
            old(self).wf(),
        ensures
            final(self).wf(),
            idx == old(self).nodes@.len(),
            final(self).nodes@ == old(self).nodes@.push(initial),
            final(self).transitions == old(self).transitions,
            final(self).labels == old(self).labels,
    {
        self.nodes.push(initial);
        self.nodes.len() - 1
    }

    /// Adds a place with `initial` tokens and registers it under `name`.
    pub fn node_with_label(&mut self, initial: u8, name: &str) -> (idx: usize)
        requires
            old(self).wf(),
        ensures
            final(self).wf(),
            idx == old(self).nodes@.len(),
            final(self).nodes@ == old(self).nodes@.push(initial),
            final(self).transitions == old(self).transitions,
            forall|n: Seq<char>|
                final(self).lookup(n) == if n == name@ {
                    Some(Label::Node(idx))
                } else {
                    old(self).lookup(n)
                },
    {
        let idx: usize = self.node(initial);
        self.label(Label::Node(idx), name);
        idx
    }

    /// Adds a transition that takes a token along each arc of `inputs` and
    /// puts one along each arc of `outputs`. The result is its position
    /// among the transitions.
    pub fn transition(&mut self, inputs: Vec<usize>, outputs: Vec<usize>) -> (idx: usize)
        requires
            old(self).wf(),
            forall|k: int| 0 <= k < inputs@.len() ==> inputs@[k] < old(self).nodes@.len(),
            forall|k: int| 0 <= k < outputs@.len() ==> outputs@[k] < old(self).nodes@.len(),
        ensures
            final(self).wf(),
            idx == old(self).transitions@.len(),
            final(self).nodes == old(self).nodes,
            final(self).labels == old(self).labels,
            final(self).transitions@ == old(self).transitions@.push((Transition { inputs, outputs })),
            final(self).arcs() == old(self).arcs().push((inputs@, outputs@)),
    {
        self.transitions.push(Transition::new(inputs, outputs));
        proof {
            assert(self.arcs() =~= old(self).arcs().push((inputs@, outputs@)));
        }
        self.transitions.len() - 1
    }

    /// Registers `target` under `name`. A name that was registered before
    /// refers to `target` from now on.
    pub fn label(&mut self, target: Label, name: &str)
        ensures
            final(self).nodes == old(self).nodes,
            final(self).transitions == old(self).transitions,
            final(self).labels@.len() == old(self).labels@.len() + 1,
            final(self).labels@.drop_last() == old(self).labels@,
            final(self).labels@.last().name@ == name@,
            final(self).labels@.last().target == target,
            forall|n: Seq<char>|
                final(self).lookup(n) == if n == name@ {
                    Some(target)
                } else {
                    old(self).lookup(n)
                },
    {
        let entry = Entry { name: String::from_str(name), target };
        self.labels.push(entry);
        proof {
            assert(self.labels@.drop_last() =~= old(self).labels@);
        }
    }

    /// What `name` was registered for, if it was registered.
    pub fn get_label(&self, name: &str) -> (r: Option<Label>)
        ensures
            r == self.lookup(name@),
    {
        let key: String = String::from_str(name);
        let mut k: usize = self.labels.len();
        proof {
            assert(self.labels@.take(k as int) =~= self.labels@);
        }
        while k > 0
            invariant
                k <= self.labels@.len(),
                key@ == name@,
                self.lookup(name@) == lookup_in(self.labels@.take(k as int), name@),
            decreases k,
        {
            proof {
                assert(self.labels@.take(k as int).drop_last() =~= self.labels@.take(k - 1));
            }
            if self.labels[k - 1].name == key {
                return Some(self.labels[k - 1].target);
            }
            k -= 1;
        }
        None
    }

    /// The finished net: the places with their initial tokens, and the
    /// transitions. The labels are dropped.
    pub fn build(self) -> (net: PetriNetwork)
        requires
            self.wf(),
        ensures
            net.wf(),
            net.nodes == self.nodes,
            net.transitions == self.transitions,
    {
        PetriNetwork::new(self.nodes, self.transitions)
    }

    /// Starts a chain at the place `start`.
    pub fn begin_branch(&mut self, start: usize) -> (branch: BranchBuilder<'_>)
        requires
            old(self).wf(),
            start < old(self).nodes@.len(),
        ensures
            branch.current == start,
            *branch.builder == *old(self),
            *final(branch.builder) == *final(self),
    {
        BranchBuilder { builder: self, current: start }
    }
}

impl<'a> BranchBuilder<'a> {
    /// Adds an empty place and a transition from the current place to it,
    /// and moves on to the new place.
    pub fn step(self) -> (next: BranchBuilder<'a>)
        requires
            old(self.builder).wf(),
            self.current < old(self.builder).nodes@.len(),
        ensures
            next.builder.wf(),
            next.current == old(self.builder).nodes@.len(),
            next.builder.nodes@ == old(self.builder).nodes@.push(0u8),
            next.builder.labels == old(self.builder).labels,
            next.builder.transitions@.len() == old(self.builder).transitions@.len() + 1,
            next.builder.transitions@.drop_last() == old(self.builder).transitions@,
            next.builder.arcs() == old(self.builder).arcs().push(
                (seq![self.current], seq![next.current]),
            ),
            *final(next.builder) == *final(self.builder),
    {
        let BranchBuilder { builder, current } = self;
        let idx: usize = builder.node(0);
        let mut inputs: Vec<usize> = Vec::new();
        inputs.push(current);
        let mut outputs: Vec<usize> = Vec::new();
        outputs.push(idx);
        proof {
            assert(inputs@ =~= seq![current]);
            assert(outputs@ =~= seq![idx]);
        }
        builder.transition(inputs, outputs);
        proof {
            assert(builder.transitions@.drop_last() =~= old(self.builder).transitions@);
        }
        BranchBuilder { builder, current: idx }
    }

    /// As `step`, with the arc of `modifier` added to the new transition.
    pub fn step_with_mod(self, modifier: Modifier) -> (next: BranchBuilder<'a>)
        requires
            old(self.builder).wf(),
            self.current < old(self.builder).nodes@.len(),
            modifier.place() <= old(self.builder).nodes@.len(),
        ensures
            next.builder.wf(),
            next.current == old(self.builder).nodes@.len(),
            next.builder.nodes@ == old(self.builder).nodes@.push(0u8),
            next.builder.labels == old(self.builder).labels,
            next.builder.transitions@.len() == old(self.builder).transitions@.len() + 1,
            next.builder.transitions@.drop_last() == old(self.builder).transitions@,
            next.builder.arcs() == old(self.builder).arcs().push(
                (
                    modifier.inputs_after(seq![self.current]),
                    modifier.outputs_after(seq![next.current]),
                ),
            ),
            *final(next.builder) == *final(self.builder),
    {
        let BranchBuilder { builder, current } = self;
        let idx: usize = builder.node(0);
        let mut inputs: Vec<usize> = Vec::new();
        inputs.push(current);
        let mut outputs: Vec<usize> = Vec::new();
        outputs.push(idx);
        proof {
            assert(inputs@ =~= seq![current]);
            assert(outputs@ =~= seq![idx]);
        }
        modifier.apply(&mut inputs, &mut outputs);
        builder.transition(inputs, outputs);
        proof {
            assert(builder.transitions@.drop_last() =~= old(self.builder).transitions@);
        }
        BranchBuilder { builder, current: idx }
    }

    /// Registers the current place under `name`, and stays there.
    pub fn label(self, name: &str) -> (next: BranchBuilder<'a>)
        ensures
            next.current == self.current,
            next.builder.nodes == old(self.builder).nodes,
            next.builder.transitions == old(self.builder).transitions,
            forall|n: Seq<char>|
                next.builder.lookup(n) == if n == name@ {
                    Some(Label::Node(self.current))
                } else {
                    old(self.builder).lookup(n)
                },
            *final(next.builder) == *final(self.builder),
    {
        let BranchBuilder { builder, current } = self;
        builder.label(Label::Node(current), name);
        BranchBuilder { builder, current }
    }
}

} // verus!
