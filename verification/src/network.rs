//! Nets and their exhaustive exploration into a reachability graph.

use crate::model::{arcs_of, lemma_tokens_injective, tokens, Transition};
use vstd::prelude::*;

verus! {

/// A net: the initial token count of every place, and the transitions.
#[derive(Debug)]
pub struct PetriNetwork {
    pub nodes: Vec<u8>,
    pub transitions: Vec<Transition>,
}

/// The reachability graph of a net. `nodes` holds every reachable marking
/// once; `edges[i]` lists the positions in `nodes` of the direct successors of
/// `nodes[i]`.
#[derive(Debug)]
pub struct PetriGraph {
    pub nodes: Vec<Vec<u8>>,
    pub edges: Vec<Vec<usize>>,
}

/// `m` is the marking of one of the nodes that `list` points to.
pub open spec fn listed(nodes: Seq<Vec<u8>>, list: Seq<usize>, m: Seq<nat>) -> bool {
    exists|k: int| 0 <= k < list.len() && tokens(nodes[(#[trigger] list[k]) as int]@) == m
}

/// The markings of the nodes that `list` points to.
pub open spec fn keys_of(nodes: Seq<Vec<u8>>, list: Seq<usize>) -> Set<Seq<nat>> {
    Set::new(|m: Seq<nat>| listed(nodes, list, m))
}

/// `longer` starts with the nodes of `shorter`.
pub open spec fn extends(shorter: Seq<Vec<u8>>, longer: Seq<Vec<u8>>) -> bool {
    &&& shorter.len() <= longer.len()
    &&& forall|i: int| 0 <= i < shorter.len() ==> #[trigger] longer[i] == shorter[i]
}

/// Every entry of `list` is a position below `bound`.
pub open spec fn all_below(list: Seq<usize>, bound: nat) -> bool {
    forall|k: int| 0 <= k < list.len() ==> #[trigger] list[k] < bound
}

/// What is listed stays listed when nodes and entries are added at the end.
proof fn lemma_listed_grows(
    nodes: Seq<Vec<u8>>,
    list: Seq<usize>,
    nodes2: Seq<Vec<u8>>,
    list2: Seq<usize>,
    m: Seq<nat>,
)
    requires
        extends(nodes, nodes2),
        all_below(list, nodes.len()),
        list.len() <= list2.len(),
        forall|k: int| 0 <= k < list.len() ==> #[trigger] list2[k] == list[k],
        listed(nodes, list, m),
    ensures
        listed(nodes2, list2, m),
{
    let k = choose|k: int| 0 <= k < list.len() && tokens(nodes[(#[trigger] list[k]) as int]@) == m;
    assert(list2[k] == list[k]);
    assert(nodes2[list[k] as int] == nodes[list[k] as int]);
}

/// A list points to the same markings after nodes were added at the end.
proof fn lemma_keys_of_extends(nodes: Seq<Vec<u8>>, nodes2: Seq<Vec<u8>>, list: Seq<usize>)
    requires
        extends(nodes, nodes2),
        all_below(list, nodes.len()),
    ensures
        keys_of(nodes, list) == keys_of(nodes2, list),
{
    assert forall|m: Seq<nat>| listed(nodes, list, m) <==> listed(nodes2, list, m) by {
        if listed(nodes, list, m) {
            lemma_listed_grows(nodes, list, nodes2, list, m);
        }
        if listed(nodes2, list, m) {
            let k = choose|k: int|
                0 <= k < list.len() && tokens(nodes2[(#[trigger] list[k]) as int]@) == m;
            assert(nodes2[list[k] as int] == nodes[list[k] as int]);
        }
    }
    assert(keys_of(nodes, list) =~= keys_of(nodes2, list));
}

/// Number of buckets by which exploration files the markings it has found.
pub const BUCKETS: usize = 4096;

/// The bucket in which a marking is filed.
pub open spec fn bucket_of(m: Seq<u8>) -> int
    decreases m.len(),
{
    if m.len() == 0 {
        0
    } else {
        (bucket_of(m.drop_last()) * 31 + m.last()) % (BUCKETS as int)
    }
}

/// `list` holds the position `i`.
pub open spec fn holds_position(list: Seq<usize>, i: int) -> bool {
    exists|k: int| 0 <= k < list.len() && #[trigger] list[k] == i
}

/// Every node is filed in the bucket of its marking, and the buckets hold
/// positions of nodes only.
pub open spec fn filed(nodes: Seq<Vec<u8>>, buckets: Seq<Vec<usize>>) -> bool {
    &&& buckets.len() == BUCKETS
    &&& forall|b: int| 0 <= b < buckets.len() ==> all_below((#[trigger] buckets[b])@, nodes.len())
    &&& forall|i: int|
        0 <= i < nodes.len() ==> holds_position(buckets[bucket_of((#[trigger] nodes[i])@)]@, i)
}

/// Every marking is filed in one of the buckets.
proof fn lemma_bucket_in_range(m: Seq<u8>)
    ensures
        0 <= bucket_of(m) < BUCKETS,
    decreases m.len(),
{
    if m.len() > 0 {
        lemma_bucket_in_range(m.drop_last());
    }
}

/// The bucket in which `m` is filed.
fn bucket(m: &Vec<u8>) -> (h: usize)
    ensures
        h == bucket_of(m@),
        h < BUCKETS,
{
    let mut h: usize = 0;
    let mut i: usize = 0;
    proof {
        assert(m@.take(0) =~= Seq::<u8>::empty());
    }
    while i < m.len()
        invariant
            i <= m@.len(),
            h < BUCKETS,
            h == bucket_of(m@.take(i as int)),
        decreases m@.len() - i,
    {
        proof {
            assert(m@.take(i + 1).drop_last() =~= m@.take(i as int));
        }
        let count: u8 = m[i];
        h = (h * 31 + count as usize) % BUCKETS;
        i += 1;
    }
    proof {
        assert(m@.take(m@.len() as int) =~= m@);
    }
    h
}

/// `list` with `idx` added at its end.
fn with_index(list: &Vec<usize>, idx: usize) -> (r: Vec<usize>)
    ensures
        r@ == list@.push(idx),
{
    let mut r: Vec<usize> = Vec::new();
    let mut k: usize = 0;
    while k < list.len()
        invariant
            k <= list@.len(),
            r@ == list@.take(k as int),
        decreases list@.len() - k,
    {
        r.push(list[k]);
        proof {
            assert(r@ =~= list@.take(k + 1));
        }
        k += 1;
    }
    proof {
        assert(list@.take(list@.len() as int) =~= list@);
    }
    r.push(idx);
    r
}

/// As many empty buckets as exploration uses.
fn empty_buckets() -> (buckets: Vec<Vec<usize>>)
    ensures
        buckets@.len() == BUCKETS,
        forall|b: int| 0 <= b < buckets@.len() ==> (#[trigger] buckets@[b])@.len() == 0,
{
    let mut buckets: Vec<Vec<usize>> = Vec::new();
    let mut b: usize = 0;
    while b < BUCKETS
        invariant
            b <= BUCKETS,
            buckets@.len() == b,
            forall|k: int| 0 <= k < buckets@.len() ==> (#[trigger] buckets@[k])@.len() == 0,
        decreases BUCKETS - b,
    {
        buckets.push(Vec::new());
        b += 1;
    }
    buckets
}

/// Whether two count vectors hold the same counts.
pub fn same_marking(a: &Vec<u8>, b: &Vec<u8>) -> (r: bool)
    ensures
        r == (a@ == b@),
{
    let r = a == b;
    proof {
        if r {
            assert(a@ =~= b@);
        }
    }
    r
}

/// Whether `list` holds `idx`.
pub fn holds_index(list: &Vec<usize>, idx: usize) -> (r: bool)
    ensures
        r == list@.contains(idx),
{
    let mut k: usize = 0;
    while k < list.len()
        invariant
            k <= list@.len(),
            forall|j: int| 0 <= j < k ==> list@[j] != idx,
        decreases list@.len() - k,
    {
        if list[k] == idx {
            return true;
        }
        k += 1;
    }
    false
}

impl PetriGraph {
    /// The marking of node `i`.
    pub open spec fn key(&self, i: int) -> Seq<nat> {
        tokens(self.nodes@[i]@)
    }

    /// `m` is the marking of one of the nodes.
    pub open spec fn has_key(&self, m: Seq<nat>) -> bool {
        exists|i: int| 0 <= i < self.nodes@.len() && #[trigger] self.key(i) == m
    }

    /// The position of a node whose marking is `m`.
    pub open spec fn index_of(&self, m: Seq<nat>) -> int {
        choose|i: int| 0 <= i < self.nodes@.len() && #[trigger] self.key(i) == m
    }

    /// The markings that node `i` has an edge to.
    pub open spec fn targets(&self, i: int) -> Set<Seq<nat>> {
        keys_of(self.nodes@, self.edges@[i]@)
    }

    /// No marking occurs twice among the nodes, every node has at least one
    /// edge, no edge occurs twice, and every edge leads to a node.
    pub open spec fn wf(&self) -> bool {
        &&& self.nodes@.len() == self.edges@.len()
        &&& forall|i: int, j: int|
            0 <= i < j < self.nodes@.len() ==> (#[trigger] self.nodes@[i])@ != (
            #[trigger] self.nodes@[j])@
        &&& forall|i: int|
            0 <= i < self.edges@.len() ==> (#[trigger] self.edges@[i])@.len() > 0
                && self.edges@[i]@.no_duplicates() && all_below(self.edges@[i]@, self.nodes@.len())
    }
}

impl View for PetriGraph {
    type V = Map<Seq<nat>, Set<Seq<nat>>>;

    /// The graph as a map from each marking to the set of its direct
    /// successors.
    open spec fn view(&self) -> Map<Seq<nat>, Set<Seq<nat>>> {
        Map::new(|m: Seq<nat>| self.has_key(m), |m: Seq<nat>| self.targets(self.index_of(m)))
    }
}

impl PetriNetwork {
    /// Every transition refers to places of the net only.
    pub open spec fn wf(&self) -> bool {
        forall|i: int|
            0 <= i < self.transitions@.len() ==> (#[trigger] self.transitions@[i]).wf(
                self.nodes@.len(),
            )
    }

    /// The initial marking.
    pub open spec fn initial(&self) -> Seq<nat> {
        tokens(self.nodes@)
    }

    /// One firing of one enabled transition leads from `a` to `b`.
    pub open spec fn step(&self, a: Seq<nat>, b: Seq<nat>) -> bool {
        exists|i: int|
            0 <= i < self.transitions@.len() && (#[trigger] self.transitions@[i]).enabled(a) && b
                == self.transitions@[i].fire(a)
    }

    /// `m` is reached from the initial marking by exactly `n` firings.
    pub open spec fn reachable_in(&self, m: Seq<nat>, n: nat) -> bool
        decreases n,
    {
        if n == 0 {
            m == self.initial()
        } else {
            exists|a: Seq<nat>| self.reachable_in(a, (n - 1) as nat) && #[trigger] self.step(a, m)
        }
    }

    /// `m` is reached from the initial marking by some number of firings.
    pub open spec fn reachable(&self, m: Seq<nat>) -> bool {
        exists|n: nat| self.reachable_in(m, n)
    }

    /// All reachable markings.
    pub open spec fn reachable_set(&self) -> Set<Seq<nat>> {
        Set::new(|m: Seq<nat>| self.reachable(m))
    }

    /// No transition is enabled at `m`.
    pub open spec fn deadlocked(&self, m: Seq<nat>) -> bool {
        forall|i: int|
            0 <= i < self.transitions@.len() ==> !(#[trigger] self.transitions@[i]).enabled(m)
    }

    /// The direct successors of `m` in the reachability graph: the markings
    /// that one firing leads to, or `m` itself where nothing can fire.
    pub open spec fn successors(&self, m: Seq<nat>) -> Set<Seq<nat>> {
        if self.deadlocked(m) {
            set![m]
        } else {
            Set::new(|b: Seq<nat>| self.step(m, b))
        }
    }

    /// The reachability graph: every reachable marking, with its direct
    /// successors.
    pub open spec fn graph(&self) -> Map<Seq<nat>, Set<Seq<nat>>> {
        Map::new(|m: Seq<nat>| self.reachable(m), |m: Seq<nat>| self.successors(m))
    }

    /// The net has finitely many reachable markings, and no place ever holds
    /// more tokens than a `u8` can count.
    pub open spec fn bounded(&self) -> bool {
        &&& self.reachable_set().finite()
        &&& forall|m: Seq<nat>, p: int|
            self.reachable(m) && 0 <= p < m.len() ==> #[trigger] m[p] <= u8::MAX
    }

    /// The nodes found so far: all reachable, all of the net's size, no
    /// marking twice.
    pub open spec fn explored(&self, nodes: Seq<Vec<u8>>) -> bool {
        &&& forall|i: int|
            0 <= i < nodes.len() ==> self.reachable(tokens((#[trigger] nodes[i])@)) && nodes[i]@.len()
                == self.nodes@.len()
        &&& forall|i: int, j: int|
            0 <= i < j < nodes.len() ==> (#[trigger] nodes[i])@ != (#[trigger] nodes[j])@
    }

    /// A net with the given initial marking and transitions.
    pub fn new(nodes: Vec<u8>, transitions: Vec<Transition>) -> (net: PetriNetwork)
        requires
            forall|i: int|
                0 <= i < transitions@.len() ==> (#[trigger] transitions@[i]).wf(nodes@.len()),
        ensures
            net.wf(),
            net.nodes == nodes,
            net.transitions == transitions,
    {
        PetriNetwork { nodes, transitions }
    }

    /// Whether every transition refers to places of the net only.
    pub fn is_well_formed(&self) -> (r: bool)
        ensures
            r == self.wf(),
    {
        let mut i: usize = 0;
        while i < self.transitions.len()
            invariant
                i <= self.transitions@.len(),
                forall|k: int|
                    0 <= k < i ==> (#[trigger] self.transitions@[k]).wf(self.nodes@.len()),
            decreases self.transitions@.len() - i,
        {
            if !self.transitions[i].fits_places(self.nodes.len()) {
                return false;
            }
            i += 1;
        }
        true
    }

    /// The initial token count of every place.
    pub fn initial_marking(&self) -> (m: &Vec<u8>)
        ensures
            tokens(m@) == self.initial(),
    {
        &self.nodes
    }

    /// What one firing leads to from a reachable marking is reachable.
    pub proof fn lemma_reachable_step(&self, a: Seq<nat>, b: Seq<nat>)
        requires
            self.reachable(a),
            self.step(a, b),
        ensures
            self.reachable(b),
    {
        let n = choose|n: nat| self.reachable_in(a, n);
        assert(self.reachable_in(b, n + 1));
    }

    /// The arcs of the net's transitions.
    pub open spec fn arcs(&self) -> Seq<(Seq<usize>, Seq<usize>)> {
        arcs_of(self.transitions@)
    }

    /// In nets with the same arcs, transitions at the same position have
    /// the same inputs and outputs.
    proof fn lemma_arcs_agree(&self, other: PetriNetwork, i: int)
        requires
            self.arcs() == other.arcs(),
            0 <= i < self.transitions@.len(),
        ensures
            i < other.transitions@.len(),
            self.transitions@[i].inputs@ == other.transitions@[i].inputs@,
            self.transitions@[i].outputs@ == other.transitions@[i].outputs@,
    {
        assert(self.arcs().len() == self.transitions@.len());
        assert(other.arcs().len() == other.transitions@.len());
        assert(self.arcs()[i] == (self.transitions@[i].inputs@, self.transitions@[i].outputs@));
        assert(other.arcs()[i] == (other.transitions@[i].inputs@, other.transitions@[i].outputs@));
    }

    /// Nets with the same arcs take the same steps.
    proof fn lemma_same_step(&self, other: PetriNetwork, a: Seq<nat>, b: Seq<nat>)
        requires
            self.arcs() == other.arcs(),
            self.step(a, b),
        ensures
            other.step(a, b),
    {
        let i = choose|i: int|
            0 <= i < self.transitions@.len() && (#[trigger] self.transitions@[i]).enabled(a) && b
                == self.transitions@[i].fire(a);
        let mine = self.transitions@[i];
        self.lemma_arcs_agree(other, i);
        let theirs = other.transitions@[i];
        assert(theirs.enabled(a));
        assert forall|p: int| 0 <= p < a.len() implies mine.fire(a)[p] == theirs.fire(a)[p] by {
            assert(mine.fired_count(a, p) == theirs.fired_count(a, p));
        }
        assert(mine.fire(a) =~= theirs.fire(a));
    }

    /// Nets with the same initial marking and the same arcs reach the same
    /// markings.
    proof fn lemma_same_reach(&self, other: PetriNetwork, m: Seq<nat>, n: nat)
        requires
            self.initial() == other.initial(),
            self.arcs() == other.arcs(),
            self.reachable_in(m, n),
        ensures
            other.reachable_in(m, n),
        decreases n,
    {
        if n > 0 {
            let a = choose|a: Seq<nat>|
                self.reachable_in(a, (n - 1) as nat) && #[trigger] self.step(a, m);
            self.lemma_same_reach(other, a, (n - 1) as nat);
            self.lemma_same_step(other, a, m);
        }
    }

    /// The reachability graph is a function of the initial marking and of
    /// the arcs alone: two nets that agree on both have the same graph.
    pub proof fn lemma_graph_of_same_net(&self, other: PetriNetwork)
        requires
            self.initial() == other.initial(),
            self.arcs() == other.arcs(),
        ensures
            self.graph() == other.graph(),
    {
        assert forall|m: Seq<nat>| self.reachable(m) <==> other.reachable(m) by {
            if self.reachable(m) {
                let n = choose|n: nat| self.reachable_in(m, n);
                self.lemma_same_reach(other, m, n);
            }
            if other.reachable(m) {
                let n = choose|n: nat| other.reachable_in(m, n);
                other.lemma_same_reach(*self, m, n);
            }
        }
        assert forall|m: Seq<nat>, b: Seq<nat>| self.step(m, b) <==> other.step(m, b) by {
            if self.step(m, b) {
                self.lemma_same_step(other, m, b);
            }
            if other.step(m, b) {
                other.lemma_same_step(*self, m, b);
            }
        }
        assert forall|m: Seq<nat>| self.successors(m) == other.successors(m) by {
            assert(self.arcs().len() == self.transitions@.len());
            assert(other.arcs().len() == other.transitions@.len());
            if self.deadlocked(m) {
                assert forall|i: int| 0 <= i < other.transitions@.len() implies !(
                #[trigger] other.transitions@[i]).enabled(m) by {
                    self.lemma_arcs_agree(other, i);
                    assert(!self.transitions@[i].enabled(m));
                }
            }
            if other.deadlocked(m) {
                assert forall|i: int| 0 <= i < self.transitions@.len() implies !(
                #[trigger] self.transitions@[i]).enabled(m) by {
                    self.lemma_arcs_agree(other, i);
                    assert(!other.transitions@[i].enabled(m));
                }
            }
            assert(self.successors(m) =~= other.successors(m));
        }
        assert(self.graph() =~= other.graph());
    }

    /// The nodes of the explored graph are the reachable markings: what
    /// holds of every node holds of every marking that the net can reach.
    pub proof fn lemma_nodes_are_reachable(&self, g: PetriGraph)
        requires
            g@ == self.graph(),
        ensures
            forall|i: int| 0 <= i < g.nodes@.len() ==> self.reachable(#[trigger] g.key(i)),
            forall|m: Seq<nat>| self.reachable(m) ==> #[trigger] g.has_key(m),
    {
        assert forall|i: int| 0 <= i < g.nodes@.len() implies self.reachable(
            #[trigger] g.key(i),
        ) by {
            assert(g.has_key(g.key(i)));
            assert(g@.dom().contains(g.key(i)));
        }
        assert forall|m: Seq<nat>| self.reachable(m) implies #[trigger] g.has_key(m) by {
            assert(self.graph().dom().contains(m));
            assert(g@.dom().contains(m));
        }
    }

    /// Every marking of the reachability graph has a successor: where
    /// nothing can fire, the marking itself.
    pub proof fn lemma_graph_total(&self, m: Seq<nat>)
        requires
            self.graph().dom().contains(m),
        ensures
            exists|b: Seq<nat>| #[trigger] self.graph()[m].contains(b),
            self.deadlocked(m) ==> self.graph()[m] == set![m],
    {
        if self.deadlocked(m) {
            assert(self.graph()[m].contains(m));
        } else {
            let i = choose|i: int|
                0 <= i < self.transitions@.len() && (#[trigger] self.transitions@[i]).enabled(m);
            let b = self.transitions@[i].fire(m);
            assert(self.step(m, b));
            assert(self.graph()[m].contains(b));
        }
    }

    /// Every edge of the reachability graph leads to a reachable marking,
    /// and is either the self-edge of a marking at which nothing can fire or
    /// one firing of an enabled transition: each place then holds what it
    /// held, less what the transition takes from it, plus what the
    /// transition puts into it, and that is never negative.
    pub proof fn lemma_graph_edges(&self, m: Seq<nat>, b: Seq<nat>)
        requires
            self.graph().dom().contains(m),
            self.graph()[m].contains(b),
        ensures
            self.graph().dom().contains(b),
            (self.deadlocked(m) && b == m) || exists|i: int|
                0 <= i < self.transitions@.len() && (#[trigger] self.transitions@[i]).enabled(m)
                    && b.len() == m.len() && forall|p: int|
                    0 <= p < m.len() ==> 0 <= #[trigger] self.transitions@[i].fired_count(m, p)
                        == b[p],
    {
        if !self.deadlocked(m) {
            assert(self.step(m, b));
            self.lemma_reachable_step(m, b);
            let i = choose|i: int|
                0 <= i < self.transitions@.len() && (#[trigger] self.transitions@[i]).enabled(m)
                    && b == self.transitions@[i].fire(m);
            let t = self.transitions@[i];
            assert forall|p: int| 0 <= p < m.len() implies 0 <= #[trigger] t.fired_count(m, p)
                == b[p] by {
                t.lemma_fire_conserves(m, p);
            }
        }
    }

    /// In a bounded net, firing an enabled transition at a reachable marking
    /// gives counts that fit.
    proof fn lemma_fits(&self, m: Seq<nat>, t: int)
        requires
            self.bounded(),
            self.reachable(m),
            0 <= t < self.transitions@.len(),
            self.transitions@[t].enabled(m),
        ensures
            self.transitions@[t].fits(m),
            self.reachable(self.transitions@[t].fire(m)),
    {
        let tr = self.transitions@[t];
        let next = tr.fire(m);
        assert(self.step(m, next));
        self.lemma_reachable_step(m, next);
        assert forall|p: int| 0 <= p < m.len() implies #[trigger] tr.fired_count(m, p)
            <= u8::MAX by {
            assert(m[p] >= crate::model::multiplicity(tr.inputs@, p));
            assert(next[p] == tr.fired_count(m, p) as nat);
            assert(next[p] <= u8::MAX);
        }
    }

    /// There are no more explored nodes than reachable markings.
    proof fn lemma_explored_bound(&self, nodes: Seq<Vec<u8>>)
        requires
            self.explored(nodes),
            self.reachable_set().finite(),
        ensures
            nodes.len() <= self.reachable_set().len(),
    {
        let ks = Seq::new(nodes.len(), |i: int| tokens(nodes[i]@));
        assert forall|i: int, j: int| 0 <= i < ks.len() && 0 <= j < ks.len() && i != j implies ks[i]
            != ks[j] by {
            if ks[i] == ks[j] {
                lemma_tokens_injective(nodes[i]@, nodes[j]@);
            }
        }
        ks.unique_seq_to_set();
        assert forall|m: Seq<nat>| ks.to_set().contains(m) implies self.reachable_set().contains(
            m,
        ) by {
            let i = choose|i: int| 0 <= i < ks.len() && ks[i] == m;
            assert(self.reachable(tokens(nodes[i]@)));
        }
        vstd::set_lib::lemma_len_subset(ks.to_set(), self.reachable_set());
    }

    /// A graph that holds the initial marking and gives every node its
    /// successors holds every marking reached by `n` firings.
    proof fn lemma_closed(&self, g: PetriGraph, m: Seq<nat>, n: nat)
        requires
            g.wf(),
            g.has_key(self.initial()),
            forall|i: int|
                0 <= i < g.nodes@.len() ==> #[trigger] g.targets(i) == self.successors(g.key(i)),
            self.reachable_in(m, n),
        ensures
            g.has_key(m),
        decreases n,
    {
        if n > 0 {
            let a = choose|a: Seq<nat>|
                self.reachable_in(a, (n - 1) as nat) && #[trigger] self.step(a, m);
            self.lemma_closed(g, a, (n - 1) as nat);
            let i = g.index_of(a);
            assert(g.key(i) == a);
            assert(!self.deadlocked(a));
            assert(self.successors(a).contains(m));
            assert(g.targets(i).contains(m));
            let k = choose|k: int|
                0 <= k < g.edges@[i]@.len() && tokens(
                    g.nodes@[(#[trigger] g.edges@[i]@[k]) as int]@,
                ) == m;
            assert(g.key(g.edges@[i]@[k] as int) == m);
        }
    }

    /// The reachability graph does not depend on how it was explored: a
    /// graph that holds the initial marking, holds reachable markings only
    /// and gives every node its successors is the reachability graph, in
    /// whatever order its nodes and edges stand.
    pub proof fn lemma_graph_determined(&self, g: PetriGraph)
        requires
            g.wf(),
            g.has_key(self.initial()),
            forall|i: int| 0 <= i < g.nodes@.len() ==> self.reachable(#[trigger] g.key(i)),
            forall|i: int|
                0 <= i < g.nodes@.len() ==> #[trigger] g.targets(i) == self.successors(g.key(i)),
        ensures
            g@ == self.graph(),
    {
        assert forall|m: Seq<nat>| self.reachable(m) implies g.has_key(m) by {
            let n = choose|n: nat| self.reachable_in(m, n);
            self.lemma_closed(g, m, n);
        }
        assert forall|m: Seq<nat>| g.has_key(m) implies self.reachable(m) && g@[m]
            == self.successors(m) by {
            let i = g.index_of(m);
            assert(g.key(i) == m);
            assert(g.targets(i) == self.successors(g.key(i)));
        }
        assert(g@.dom() =~= self.graph().dom());
        assert(g@ =~= self.graph());
    }

    /// The position of `m` among `nodes`, after adding it there if it is new.
    fn intern(&self, nodes: &mut Vec<Vec<u8>>, buckets: &mut Vec<Vec<usize>>, m: Vec<u8>) -> (idx:
        usize)
        requires
            self.explored(old(nodes)@),
            filed(old(nodes)@, old(buckets)@),
            self.reachable(tokens(m@)),
            m@.len() == self.nodes@.len(),
        ensures
            self.explored(final(nodes)@),
            filed(final(nodes)@, final(buckets)@),
            extends(old(nodes)@, final(nodes)@),
            idx < final(nodes)@.len(),
            final(nodes)@[idx as int]@ == m@,
    {
        let h: usize = bucket(&m);
        let mut k: usize = 0;
        while k < buckets[h].len()
            invariant
                h < BUCKETS,
                h == bucket_of(m@),
                k <= buckets@[h as int]@.len(),
                nodes@ == old(nodes)@,
                buckets@ == old(buckets)@,
                filed(nodes@, buckets@),
                self.explored(nodes@),
                forall|j: int|
                    0 <= j < k ==> nodes@[(#[trigger] buckets@[h as int]@[j]) as int]@ != m@,
            decreases buckets@[h as int]@.len() - k,
        {
            let at: usize = buckets[h][k];
            assert(all_below(buckets@[h as int]@, nodes@.len()));
            if same_marking(&nodes[at], &m) {
                return at;
            }
            k += 1;
        }
        proof {
            assert forall|i: int| 0 <= i < nodes@.len() implies (#[trigger] nodes@[i])@ != m@ by {
                if nodes@[i]@ == m@ {
                    assert(holds_position(buckets@[bucket_of(nodes@[i]@)]@, i));
                    let j = choose|j: int|
                        0 <= j < buckets@[h as int]@.len() && #[trigger] buckets@[h as int]@[j] == i;
                    assert(nodes@[buckets@[h as int]@[j] as int]@ != m@);
                }
            }
        }
        let idx: usize = nodes.len();
        let longer: Vec<usize> = with_index(&buckets[h], idx);
        nodes.push(m);
        buckets.set(h, longer);
        proof {
            let before = old(buckets)@;
            assert forall|b: int| 0 <= b < buckets@.len() implies all_below(
                (#[trigger] buckets@[b])@,
                nodes@.len(),
            ) by {
                assert(all_below(before[b]@, old(nodes)@.len()));
                if b == h {
                    assert forall|j: int| 0 <= j < buckets@[b]@.len() implies #[trigger] buckets@[b]@[j]
                        < nodes@.len() by {
                        if j < before[b]@.len() {
                            assert(buckets@[b]@[j] == before[b]@[j]);
                        }
                    }
                }
            }
            assert forall|i: int| 0 <= i < nodes@.len() implies holds_position(
                buckets@[bucket_of((#[trigger] nodes@[i])@)]@,
                i,
            ) by {
                lemma_bucket_in_range(nodes@[i]@);
                let b = bucket_of(nodes@[i]@);
                if i < old(nodes)@.len() {
                    assert(nodes@[i] == old(nodes)@[i]);
                    assert(holds_position(before[b]@, i));
                    let j = choose|j: int| 0 <= j < before[b]@.len() && #[trigger] before[b]@[j] == i;
                    if b == h {
                        assert(buckets@[b]@[j] == i);
                    } else {
                        assert(buckets@[b] == before[b]);
                    }
                } else {
                    assert(buckets@[b]@[buckets@[b]@.len() - 1] == i);
                }
            }
        }
        idx
    }

    /// The positions of the direct successors of node `cur`, after adding to
    /// `nodes` those that are new.
    fn expand(&self, nodes: &mut Vec<Vec<u8>>, buckets: &mut Vec<Vec<usize>>, cur: usize) -> (succ:
        Vec<usize>)
        requires
            self.wf(),
            self.bounded(),
            self.explored(old(nodes)@),
            filed(old(nodes)@, old(buckets)@),
            cur < old(nodes)@.len(),
        ensures
            self.explored(final(nodes)@),
            filed(final(nodes)@, final(buckets)@),
            extends(old(nodes)@, final(nodes)@),
            succ@.len() > 0,
            succ@.no_duplicates(),
            all_below(succ@, final(nodes)@.len()),
            keys_of(final(nodes)@, succ@) == self.successors(tokens(old(nodes)@[cur as int]@)),
    {
        let m: Vec<u8> = nodes[cur].clone();
        let ghost gm = tokens(m@);
        assert(m@ =~= nodes@[cur as int]@);
        let mut succ: Vec<usize> = Vec::new();
        let mut t: usize = 0;
        while t < self.transitions.len()
            invariant
                t <= self.transitions@.len(),
                self.wf(),
                self.bounded(),
                self.explored(nodes@),
                filed(nodes@, buckets@),
                extends(old(nodes)@, nodes@),
                gm == tokens(m@),
                self.reachable(gm),
                m@.len() == self.nodes@.len(),
                all_below(succ@, nodes@.len()),
                succ@.no_duplicates(),
                forall|k: int|
                    0 <= k < succ@.len() ==> self.step(
                        gm,
                        tokens(nodes@[(#[trigger] succ@[k]) as int]@),
                    ),
                forall|ti: int|
                    0 <= ti < t && (#[trigger] self.transitions@[ti]).enabled(gm) ==> listed(
                        nodes@,
                        succ@,
                        self.transitions@[ti].fire(gm),
                    ),
            decreases self.transitions@.len() - t,
        {
            proof {
                if self.transitions@[t as int].enabled(gm) {
                    self.lemma_fits(gm, t as int);
                }
            }
            match self.transitions[t].try_fire(&m) {
                Some(next) => {
                    let ghost before = nodes@;
                    let ghost list = succ@;
                    proof {
                        assert(next@.len() == tokens(next@).len());
                        assert(m@.len() == tokens(m@).len());
                    }
                    let idx: usize = self.intern(nodes, buckets, next);
                    let held: bool = holds_index(&succ, idx);
                    if !held {
                        succ.push(idx);
                    }
                    proof {
                        assert(succ@.contains(idx)) by {
                            if !held {
                                assert(succ@[succ@.len() - 1] == idx);
                            }
                        }
                        let found = choose|k: int| 0 <= k < succ@.len() && succ@[k] == idx;
                        assert(succ@[found] == idx);
                        assert(listed(nodes@, succ@, self.transitions@[t as int].fire(gm)));
                        assert forall|ti: int|
                            0 <= ti < t && (#[trigger] self.transitions@[ti]).enabled(
                                gm,
                            ) implies listed(nodes@, succ@, self.transitions@[ti].fire(gm)) by {
                            lemma_listed_grows(
                                before,
                                list,
                                nodes@,
                                succ@,
                                self.transitions@[ti].fire(gm),
                            );
                        }
                        assert forall|k: int| 0 <= k < succ@.len() implies self.step(
                            gm,
                            tokens(nodes@[(#[trigger] succ@[k]) as int]@),
                        ) by {
                            if k < list.len() {
                                assert(succ@[k] == list[k]);
                                assert(nodes@[list[k] as int] == before[list[k] as int]);
                            } else {
                                assert(succ@[k] == idx);
                            }
                        }
                    }
                },
                None => {},
            }
            t += 1;
        }
        let ghost list = succ@;
        if succ.len() == 0 {
            succ.push(cur);
            proof {
                assert(self.deadlocked(gm));
                assert(succ@[0] == cur);
                assert(nodes@[cur as int] == old(nodes)@[cur as int]);
                assert forall|b: Seq<nat>| listed(nodes@, succ@, b) <==> b == gm by {
                    if b == gm {
                        assert(tokens(nodes@[succ@[0] as int]@) == gm);
                    }
                }
                assert(keys_of(nodes@, succ@) =~= self.successors(gm));
            }
        } else {
            proof {
                let first = succ@[0];
                assert(self.step(gm, tokens(nodes@[first as int]@)));
                assert(!self.deadlocked(gm));
                assert forall|b: Seq<nat>| listed(nodes@, succ@, b) <==> self.step(gm, b) by {
                    if self.step(gm, b) {
                        let ti = choose|ti: int|
                            0 <= ti < self.transitions@.len() && (
                            #[trigger] self.transitions@[ti]).enabled(gm) && b
                                == self.transitions@[ti].fire(gm);
                        assert(listed(nodes@, succ@, self.transitions@[ti].fire(gm)));
                    }
                }
                assert(keys_of(nodes@, succ@) =~= self.successors(gm));
            }
        }
        succ
    }

    /// Explores the net exhaustively: the result holds every marking that can
    /// be reached from the initial one, each with the markings that one
    /// firing leads to from it, and a marking at which nothing can fire with
    /// itself as its only successor.
    pub fn generate_graph(&self) -> (g: PetriGraph)
        requires
            self.wf(),
            self.bounded(),
        ensures
            g.wf(),
            g@ == self.graph(),
            g.nodes@.len() > 0,
            g.key(0) == self.initial(),
    {
        let mut nodes: Vec<Vec<u8>> = Vec::new();
        let start: Vec<u8> = self.nodes.clone();
        assert(start@ =~= self.nodes@);
        let mut buckets: Vec<Vec<usize>> = empty_buckets();
        let h: usize = bucket(&start);
        let filled: Vec<usize> = with_index(&buckets[h], 0);
        buckets.set(h, filled);
        nodes.push(start);
        let mut edges: Vec<Vec<usize>> = Vec::new();
        proof {
            assert(self.reachable_in(self.initial(), 0));
            assert(buckets@[h as int]@[0] == 0);
            assert(filed(nodes@, buckets@));
        }
        while edges.len() < nodes.len()
            invariant
                self.wf(),
                self.bounded(),
                self.explored(nodes@),
                filed(nodes@, buckets@),
                nodes@.len() >= 1,
                tokens(nodes@[0]@) == self.initial(),
                edges@.len() <= nodes@.len(),
                forall|i: int|
                    0 <= i < edges@.len() ==> (#[trigger] edges@[i])@.len() > 0
                        && edges@[i]@.no_duplicates() && all_below(edges@[i]@, nodes@.len())
                        && keys_of(nodes@, edges@[i]@) == self.successors(tokens(nodes@[i]@)),
            decreases self.reachable_set().len() - edges@.len(),
        {
            let cur: usize = edges.len();
            let ghost before = nodes@;
            proof {
                self.lemma_explored_bound(nodes@);
            }
            let succ = self.expand(&mut nodes, &mut buckets, cur);
            proof {
                self.lemma_explored_bound(nodes@);
                assert forall|i: int| 0 <= i < edges@.len() implies all_below(
                    (#[trigger] edges@[i])@,
                    nodes@.len(),
                ) && keys_of(nodes@, edges@[i]@) == self.successors(tokens(nodes@[i]@)) by {
                    lemma_keys_of_extends(before, nodes@, edges@[i]@);
                    assert(nodes@[i] == before[i]);
                }
                assert(nodes@[cur as int] == before[cur as int]);
                assert(nodes@[0] == before[0]);
            }
            edges.push(succ);
        }
        let g = PetriGraph { nodes, edges };
        proof {
            assert forall|i: int| 0 <= i < g.nodes@.len() implies #[trigger] g.targets(i)
                == self.successors(g.key(i)) by {
                assert(g.edges@[i]@.len() > 0);
            }
            assert forall|i: int| 0 <= i < g.nodes@.len() implies self.reachable(
                #[trigger] g.key(i),
            ) by {
                assert(self.reachable(tokens(g.nodes@[i]@)));
            }
            assert(g.key(0) == self.initial());
            self.lemma_graph_determined(g);
        }
        g
    }
}

} // verus!
