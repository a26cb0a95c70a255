//! Queries over a reachability graph: invariants, forward closures and
//! liveness.

use crate::model::{lemma_tokens_injective, tokens};
use crate::network::{all_below, holds_index, listed, same_marking, PetriGraph};
use vstd::prelude::*;

verus! {

/// `g` has an edge from `a` to `b`.
pub open spec fn edge(g: Map<Seq<nat>, Set<Seq<nat>>>, a: Seq<nat>, b: Seq<nat>) -> bool {
    g.dom().contains(a) && g[a].contains(b)
}

/// `b` is reached from the node `a` by following exactly `n` edges of `g`.
pub open spec fn walk(g: Map<Seq<nat>, Set<Seq<nat>>>, a: Seq<nat>, b: Seq<nat>, n: nat) -> bool
    decreases n,
{
    if n == 0 {
        a == b && g.dom().contains(a)
    } else {
        exists|c: Seq<nat>| walk(g, a, c, (n - 1) as nat) && #[trigger] edge(g, c, b)
    }
}

/// `b` is the node `a` itself or is reached from it by following edges of `g`.
pub open spec fn connected(g: Map<Seq<nat>, Set<Seq<nat>>>, a: Seq<nat>, b: Seq<nat>) -> bool {
    exists|n: nat| walk(g, a, b, n)
}

/// The forward closure of `seeds` in `g`: the seeds that are nodes of `g`,
/// and everything reached from them.
pub open spec fn closure(g: Map<Seq<nat>, Set<Seq<nat>>>, seeds: Set<Seq<nat>>) -> Set<Seq<nat>> {
    Set::new(|m: Seq<nat>| exists|s: Seq<nat>| seeds.contains(s) && #[trigger] connected(g, s, m))
}

/// From every node of `g`, some marking of `goal` is reached.
pub open spec fn always_reaches(g: Map<Seq<nat>, Set<Seq<nat>>>, goal: Set<Seq<nat>>) -> bool {
    forall|m: Seq<nat>|
        g.dom().contains(m) ==> exists|t: Seq<nat>| goal.contains(t) && #[trigger] connected(g, m, t)
}

/// Number of entries of `mask` that are not set.
pub open spec fn unmarked(mask: Seq<bool>) -> nat
    decreases mask.len(),
{
    if mask.len() == 0 {
        0
    } else {
        unmarked(mask.drop_last()) + if mask.last() { 0nat } else { 1nat }
    }
}

/// Setting an entry that was not set leaves one entry fewer that is not.
proof fn lemma_unmarked_set(mask: Seq<bool>, j: int)
    requires
        0 <= j < mask.len(),
        !mask[j],
    ensures
        unmarked(mask.update(j, true)) + 1 == unmarked(mask),
    decreases mask.len(),
{
    let after = mask.update(j, true);
    if j == mask.len() - 1 {
        assert(after.drop_last() =~= mask.drop_last());
    } else {
        lemma_unmarked_set(mask.drop_last(), j);
        assert(after.drop_last() =~= mask.drop_last().update(j, true));
    }
}

/// A walk followed by an edge is a walk.
pub proof fn lemma_connected_edge(
    g: Map<Seq<nat>, Set<Seq<nat>>>,
    a: Seq<nat>,
    c: Seq<nat>,
    b: Seq<nat>,
)
    requires
        connected(g, a, c),
        edge(g, c, b),
    ensures
        connected(g, a, b),
{
    let n = choose|n: nat| walk(g, a, c, n);
    assert(walk(g, a, b, n + 1));
}

/// Two walks, one after the other, are a walk.
pub proof fn lemma_walk_join(
    g: Map<Seq<nat>, Set<Seq<nat>>>,
    a: Seq<nat>,
    b: Seq<nat>,
    c: Seq<nat>,
    n: nat,
    k: nat,
)
    requires
        walk(g, a, b, n),
        walk(g, b, c, k),
    ensures
        walk(g, a, c, n + k),
    decreases k,
{
    if k > 0 {
        let d = choose|d: Seq<nat>| walk(g, b, d, (k - 1) as nat) && #[trigger] edge(g, d, c);
        lemma_walk_join(g, a, b, d, n, (k - 1) as nat);
        assert(walk(g, a, c, n + k));
    }
}

/// Being connected is transitive.
pub proof fn lemma_connected_transitive(
    g: Map<Seq<nat>, Set<Seq<nat>>>,
    a: Seq<nat>,
    b: Seq<nat>,
    c: Seq<nat>,
)
    requires
        connected(g, a, b),
        connected(g, b, c),
    ensures
        connected(g, a, c),
{
    let n = choose|n: nat| walk(g, a, b, n);
    let k = choose|k: nat| walk(g, b, c, k);
    lemma_walk_join(g, a, b, c, n, k);
}

/// Every edge of `g` leads to a node of `g`.
pub open spec fn closed(g: Map<Seq<nat>, Set<Seq<nat>>>) -> bool {
    forall|a: Seq<nat>, b: Seq<nat>| #[trigger] edge(g, a, b) ==> g.dom().contains(b)
}

/// A walk starts at a node of the graph.
pub proof fn lemma_walk_starts_inside(
    g: Map<Seq<nat>, Set<Seq<nat>>>,
    a: Seq<nat>,
    b: Seq<nat>,
    n: nat,
)
    requires
        walk(g, a, b, n),
    ensures
        g.dom().contains(a),
    decreases n,
{
    if n > 0 {
        let c = choose|c: Seq<nat>| walk(g, a, c, (n - 1) as nat) && #[trigger] edge(g, c, b);
        lemma_walk_starts_inside(g, a, c, (n - 1) as nat);
    }
}

/// In a graph whose edges lead to its own nodes, a walk ends at a node of
/// the graph.
pub proof fn lemma_walk_ends_inside(
    g: Map<Seq<nat>, Set<Seq<nat>>>,
    a: Seq<nat>,
    b: Seq<nat>,
    n: nat,
)
    requires
        closed(g),
        walk(g, a, b, n),
    ensures
        g.dom().contains(b),
{
    if n > 0 {
        let c = choose|c: Seq<nat>| walk(g, a, c, (n - 1) as nat) && #[trigger] edge(g, c, b);
        assert(edge(g, c, b));
    }
}

/// In a graph whose edges lead to its own nodes, the closure holds nodes of
/// the graph only.
pub proof fn lemma_closure_inside(g: Map<Seq<nat>, Set<Seq<nat>>>, seeds: Set<Seq<nat>>)
    requires
        closed(g),
    ensures
        closure(g, seeds).subset_of(g.dom()),
{
    assert forall|m: Seq<nat>| closure(g, seeds).contains(m) implies g.dom().contains(m) by {
        let s = choose|s: Seq<nat>| seeds.contains(s) && #[trigger] connected(g, s, m);
        let n = choose|n: nat| walk(g, s, m, n);
        lemma_walk_ends_inside(g, s, m, n);
    }
}

/// Every seed that is a node of the graph is in the closure of the seeds.
pub proof fn lemma_closure_holds_seeds(
    g: Map<Seq<nat>, Set<Seq<nat>>>,
    seeds: Set<Seq<nat>>,
    m: Seq<nat>,
)
    requires
        seeds.contains(m),
        g.dom().contains(m),
    ensures
        closure(g, seeds).contains(m),
{
    assert(walk(g, m, m, 0));
    assert(connected(g, m, m));
}

/// The closure holds nothing exactly when no seed is a node of the graph.
pub proof fn lemma_closure_empty(g: Map<Seq<nat>, Set<Seq<nat>>>, seeds: Set<Seq<nat>>)
    ensures
        closure(g, seeds) == Set::<Seq<nat>>::empty() <==> seeds.intersect(g.dom()) == Set::<
            Seq<nat>,
        >::empty(),
{
    if seeds.intersect(g.dom()) == Set::<Seq<nat>>::empty() {
        assert forall|m: Seq<nat>| !closure(g, seeds).contains(m) by {
            if closure(g, seeds).contains(m) {
                let s = choose|s: Seq<nat>| seeds.contains(s) && #[trigger] connected(g, s, m);
                let n = choose|n: nat| walk(g, s, m, n);
                lemma_walk_starts_inside(g, s, m, n);
                assert(seeds.intersect(g.dom()).contains(s));
            }
        }
        assert(closure(g, seeds) =~= Set::<Seq<nat>>::empty());
    }
    if closure(g, seeds) == Set::<Seq<nat>>::empty() {
        assert forall|m: Seq<nat>| !seeds.intersect(g.dom()).contains(m) by {
            if seeds.intersect(g.dom()).contains(m) {
                lemma_closure_holds_seeds(g, seeds, m);
            }
        }
        assert(seeds.intersect(g.dom()) =~= Set::<Seq<nat>>::empty());
    }
}

/// Taking the closure twice gives what taking it once gives.
pub proof fn lemma_closure_idempotent(g: Map<Seq<nat>, Set<Seq<nat>>>, seeds: Set<Seq<nat>>)
    ensures
        closure(g, closure(g, seeds)) == closure(g, seeds),
{
    let once = closure(g, seeds);
    assert forall|m: Seq<nat>| closure(g, once).contains(m) implies once.contains(m) by {
        let mid = choose|mid: Seq<nat>| once.contains(mid) && #[trigger] connected(g, mid, m);
        let s = choose|s: Seq<nat>| seeds.contains(s) && #[trigger] connected(g, s, mid);
        lemma_connected_transitive(g, s, mid, m);
    }
    assert forall|m: Seq<nat>| once.contains(m) implies closure(g, once).contains(m) by {
        let s = choose|s: Seq<nat>| seeds.contains(s) && #[trigger] connected(g, s, m);
        let n = choose|n: nat| walk(g, s, m, n);
        lemma_walk_starts_inside(g, s, m, n);
        lemma_closure_holds_seeds(g, seeds, s);
    }
    assert(closure(g, once) =~= once);
}

/// Where two sets of seeds have the same closure, every seed of the one
/// that is a node of the graph is reached from a seed of the other.
pub proof fn lemma_equal_closures_meet(
    g: Map<Seq<nat>, Set<Seq<nat>>>,
    one: Set<Seq<nat>>,
    other: Set<Seq<nat>>,
    m: Seq<nat>,
)
    requires
        closure(g, one) == closure(g, other),
        one.contains(m),
        g.dom().contains(m),
    ensures
        exists|s: Seq<nat>| other.contains(s) && #[trigger] connected(g, s, m),
{
    lemma_closure_holds_seeds(g, one, m);
    assert(closure(g, other).contains(m));
}

/// A goal is always reached exactly when, for every node, the closure of
/// that node alone holds a marking of the goal.
pub proof fn lemma_always_reaches_by_closures(
    g: Map<Seq<nat>, Set<Seq<nat>>>,
    goal: Set<Seq<nat>>,
)
    ensures
        always_reaches(g, goal) <==> forall|m: Seq<nat>|
            g.dom().contains(m) ==> !(#[trigger] closure(g, set![m])).disjoint(goal),
{
    if always_reaches(g, goal) {
        assert forall|m: Seq<nat>| g.dom().contains(m) implies !(#[trigger] closure(
            g,
            set![m],
        )).disjoint(goal) by {
            let t = choose|t: Seq<nat>| goal.contains(t) && #[trigger] connected(g, m, t);
            assert(set![m].contains(m));
            assert(closure(g, set![m]).contains(t));
        }
    }
    if forall|m: Seq<nat>| g.dom().contains(m) ==> !(#[trigger] closure(g, set![m])).disjoint(goal) {
        assert forall|m: Seq<nat>| g.dom().contains(m) implies exists|t: Seq<nat>|
            goal.contains(t) && #[trigger] connected(g, m, t) by {
            assert(!closure(g, set![m]).disjoint(goal));
            let t = choose|t: Seq<nat>| closure(g, set![m]).contains(t) && goal.contains(t);
            let s = choose|s: Seq<nat>| set![m].contains(s) && #[trigger] connected(g, s, t);
            assert(s == m);
        }
    }
}

impl PetriGraph {
    /// The markings of the nodes whose entry in `mask` is set.
    pub open spec fn selected(&self, mask: Seq<bool>) -> Set<Seq<nat>> {
        Set::new(
            |m: Seq<nat>|
                exists|i: int|
                    0 <= i < self.nodes@.len() && i < mask.len() && mask[i] && #[trigger] self.key(
                        i,
                    ) == m,
        )
    }

    /// The nodes of a well-formed graph have distinct markings.
    pub proof fn lemma_key_unique(&self, i: int, j: int)
        requires
            self.wf(),
            0 <= i < self.nodes@.len(),
            0 <= j < self.nodes@.len(),
            self.key(i) == self.key(j),
        ensures
            i == j,
    {
        lemma_tokens_injective(self.nodes@[i]@, self.nodes@[j]@);
    }

    /// In the view, node `i` is a key, and maps to the markings that its
    /// edges lead to.
    pub proof fn lemma_view_at(&self, i: int)
        requires
            self.wf(),
            0 <= i < self.nodes@.len(),
        ensures
            self@.dom().contains(self.key(i)),
            self@[self.key(i)] == self.targets(i),
    {
        assert(self.has_key(self.key(i)));
        self.lemma_key_unique(i, self.index_of(self.key(i)));
    }

    /// Node `i` has an edge, in the view, to each node that `edges[i]` lists.
    pub proof fn lemma_edge_at(&self, i: int, e: int)
        requires
            self.wf(),
            0 <= i < self.nodes@.len(),
            0 <= e < self.edges@[i]@.len(),
        ensures
            edge(self@, self.key(i), self.key(self.edges@[i]@[e] as int)),
    {
        self.lemma_view_at(i);
        assert(listed(self.nodes@, self.edges@[i]@, self.key(self.edges@[i]@[e] as int)));
    }

    /// Every edge of a well-formed graph leads to one of its nodes, and
    /// every node has an edge.
    pub proof fn lemma_view_closed(&self)
        requires
            self.wf(),
        ensures
            closed(self@),
            forall|m: Seq<nat>|
                self@.dom().contains(m) ==> exists|b: Seq<nat>| #[trigger] edge(self@, m, b),
    {
        assert forall|a: Seq<nat>, b: Seq<nat>| #[trigger] edge(self@, a, b) implies self@.dom().contains(
            b,
        ) by {
            assert(self.has_key(a));
            let i = self.index_of(a);
            assert(listed(self.nodes@, self.edges@[i]@, b));
            let e = choose|e: int|
                0 <= e < self.edges@[i]@.len() && tokens(
                    self.nodes@[(#[trigger] self.edges@[i]@[e]) as int]@,
                ) == b;
            assert(all_below(self.edges@[i]@, self.nodes@.len()));
            assert(self.key(self.edges@[i]@[e] as int) == b);
        }
        assert forall|m: Seq<nat>| self@.dom().contains(m) implies exists|b: Seq<nat>| #[trigger]
            edge(self@, m, b) by {
            assert(self.has_key(m));
            let i = self.index_of(m);
            assert(self.key(i) == m);
            self.lemma_edge_at(i, 0);
        }
    }

    /// A mask that holds the seeds and, with each node, the nodes its edges
    /// lead to holds every node reached from a seed.
    proof fn lemma_closed_mask(&self, seeds: Seq<bool>, mask: Seq<bool>, s: int, m: Seq<nat>, n: nat)
        requires
            self.wf(),
            seeds.len() == self.nodes@.len(),
            mask.len() == self.nodes@.len(),
            forall|i: int| 0 <= i < seeds.len() && seeds[i] ==> mask[i],
            forall|i: int, e: int|
                0 <= i < mask.len() && mask[i] && 0 <= e < self.edges@[i]@.len() ==> mask[(
                #[trigger] self.edges@[i]@[e]) as int],
            0 <= s < seeds.len(),
            seeds[s],
            walk(self@, self.key(s), m, n),
        ensures
            exists|j: int| 0 <= j < mask.len() && mask[j] && #[trigger] self.key(j) == m,
        decreases n,
    {
        if n == 0 {
            assert(mask[s] && self.key(s) == m);
        } else {
            let c = choose|c: Seq<nat>|
                walk(self@, self.key(s), c, (n - 1) as nat) && #[trigger] edge(self@, c, m);
            self.lemma_closed_mask(seeds, mask, s, c, (n - 1) as nat);
            let i = choose|i: int| 0 <= i < mask.len() && mask[i] && #[trigger] self.key(i) == c;
            self.lemma_view_at(i);
            assert(listed(self.nodes@, self.edges@[i]@, m));
            let e = choose|e: int|
                0 <= e < self.edges@[i]@.len() && tokens(
                    self.nodes@[(#[trigger] self.edges@[i]@[e]) as int]@,
                ) == m;
            let j = self.edges@[i]@[e] as int;
            assert(mask[j] && self.key(j) == m);
        }
    }

    /// Evaluates `pred` on every node.
    pub fn select<F: Fn(&Vec<u8>) -> bool>(&self, pred: &F) -> (mask: Vec<bool>)
        requires
            self.accepts(*pred),
        ensures
            self.answers(*pred, mask@),
    {
        let mut mask: Vec<bool> = Vec::new();
        let mut i: usize = 0;
        while i < self.nodes.len()
            invariant
                i <= self.nodes@.len(),
                mask@.len() == i,
                forall|k: int|
                    0 <= k < self.nodes@.len() ==> call_requires(*pred, (&self.nodes@[k],)),
                forall|k: int| 0 <= k < i ==> call_ensures(*pred, (&self.nodes@[k],), mask@[k]),
            decreases self.nodes@.len() - i,
        {
            let hit: bool = (*pred)(&self.nodes[i]);
            mask.push(hit);
            i += 1;
        }
        mask
    }

    /// Follows edges forward from the nodes that `seeds` selects until a node
    /// that `stop` selects is found, or to the end: the result is the nodes
    /// found, and the node at which the search stopped, if it did.
    fn search(&self, seeds: &Vec<bool>, stop: &Vec<bool>) -> (r: (Vec<bool>, Option<usize>))
        requires
            self.wf(),
            seeds@.len() == self.nodes@.len(),
            stop@.len() == self.nodes@.len(),
        ensures
            r.1 matches Some(j) ==> j < self.nodes@.len() && stop@[j as int] && closure(
                self@,
                self.selected(seeds@),
            ).contains(self.key(j as int)),
            r.1 is None ==> r.0@.len() == self.nodes@.len() && self.selected(r.0@) == closure(
                self@,
                self.selected(seeds@),
            ) && forall|i: int|
                0 <= i < self.nodes@.len() ==> !(r.0@[i] && stop@[i]) && (r.0@[i] <==> closure(
                    self@,
                    self.selected(seeds@),
                ).contains(#[trigger] self.key(i))),
    {
        let n: usize = self.nodes.len();
        let ghost goal = closure(self@, self.selected(seeds@));
        let mut vis: Vec<bool> = Vec::new();
        let mut stack: Vec<usize> = Vec::new();
        let mut i: usize = 0;
        while i < n
            invariant
                self.wf(),
                n == self.nodes@.len(),
                seeds@.len() == n,
                i <= n,
                vis@ == seeds@.take(i as int),
                forall|k: int| 0 <= k < stack@.len() ==> stack@[k] < i && seeds@[stack@[k] as int],
                forall|j: int| 0 <= j < i && seeds@[j] ==> stack@.contains(j as usize),
            decreases n - i,
        {
            vis.push(seeds[i]);
            if seeds[i] {
                let ghost before = stack@;
                stack.push(i);
                proof {
                    assert(stack@[stack@.len() - 1] == i);
                    assert forall|j: int| 0 <= j < i + 1 && seeds@[j] implies stack@.contains(
                        j as usize,
                    ) by {
                        if j < i {
                            let k = choose|k: int| 0 <= k < before.len() && before[k] == j as usize;
                            assert(stack@[k] == j as usize);
                        }
                    }
                }
            }
            i += 1;
            proof {
                assert(vis@ =~= seeds@.take(i as int));
            }
        }
        proof {
            assert(vis@ =~= seeds@);
            assert forall|j: int| 0 <= j < n && vis@[j] implies goal.contains(
                #[trigger] self.key(j),
            ) by {
                self.lemma_view_at(j);
                assert(walk(self@, self.key(j), self.key(j), 0));
                assert(self.selected(seeds@).contains(self.key(j)));
                assert(connected(self@, self.key(j), self.key(j)));
            }
        }
        match first_common(&vis, stop) {
            Some(j) => {
                return (vis, Some(j));
            },
            None => {},
        }
        while stack.len() > 0
            invariant
                self.wf(),
                n == self.nodes@.len(),
                seeds@.len() == n,
                stop@.len() == n,
                forall|j: int| 0 <= j < n ==> !(vis@[j] && stop@[j]),
                vis@.len() == n,
                goal == closure(self@, self.selected(seeds@)),
                forall|j: int| 0 <= j < n && seeds@[j] ==> vis@[j],
                forall|j: int| 0 <= j < n && vis@[j] ==> goal.contains(#[trigger] self.key(j)),
                forall|k: int| 0 <= k < stack@.len() ==> stack@[k] < n && vis@[stack@[k] as int],
                forall|j: int, e: int|
                    0 <= j < n && vis@[j] && !stack@.contains(j as usize) && 0 <= e
                        < self.edges@[j]@.len() ==> vis@[(#[trigger] self.edges@[j]@[e]) as int],
            decreases 2 * unmarked(vis@) + stack@.len(),
        {
            let ghost measure = 2 * unmarked(vis@) + stack@.len();
            let ghost popped_from = stack@;
            let cur: usize = stack.pop().unwrap();
            proof {
                assert(cur == popped_from[popped_from.len() - 1]);
                assert forall|y: usize| popped_from.contains(y) && y != cur implies #[trigger] stack@.contains(
                    y,
                ) by {
                    let k = choose|k: int| 0 <= k < popped_from.len() && popped_from[k] == y;
                    assert(stack@[k] == y);
                }
            }
            let mut e: usize = 0;
            while e < self.edges[cur].len()
                invariant
                    self.wf(),
                    n == self.nodes@.len(),
                    seeds@.len() == n,
                    stop@.len() == n,
                    forall|j: int| 0 <= j < n ==> !(vis@[j] && stop@[j]),
                    vis@.len() == n,
                    cur < n,
                    vis@[cur as int],
                    e <= self.edges@[cur as int]@.len(),
                    goal == closure(self@, self.selected(seeds@)),
                    2 * unmarked(vis@) + stack@.len() < measure,
                    forall|j: int| 0 <= j < n && seeds@[j] ==> vis@[j],
                    forall|j: int| 0 <= j < n && vis@[j] ==> goal.contains(#[trigger] self.key(j)),
                    forall|k: int|
                        0 <= k < stack@.len() ==> stack@[k] < n && vis@[stack@[k] as int],
                    forall|x: int|
                        0 <= x < e ==> vis@[(#[trigger] self.edges@[cur as int]@[x]) as int],
                    forall|j: int, x: int|
                        0 <= j < n && j != cur && vis@[j] && !stack@.contains(j as usize) && 0 <= x
                            < self.edges@[j]@.len() ==> vis@[(
                        #[trigger] self.edges@[j]@[x]) as int],
                decreases self.edges@[cur as int]@.len() - e,
            {
                let j: usize = self.edges[cur][e];
                assert(all_below(self.edges@[cur as int]@, self.nodes@.len()));
                if !vis[j] {
                    proof {
                        assert(goal.contains(self.key(cur as int)));
                        let s = choose|s: Seq<nat>|
                            self.selected(seeds@).contains(s) && #[trigger] connected(
                                self@,
                                s,
                                self.key(cur as int),
                            );
                        self.lemma_edge_at(cur as int, e as int);
                        lemma_connected_edge(self@, s, self.key(cur as int), self.key(j as int));
                        assert(goal.contains(self.key(j as int)));
                    }
                    if stop[j] {
                        return (vis, Some(j));
                    }
                    let ghost vis0 = vis@;
                    let ghost stack0 = stack@;
                    vis.set(j, true);
                    stack.push(j);
                    proof {
                        lemma_unmarked_set(vis0, j as int);
                        assert(stack@[stack@.len() - 1] == j);
                        assert forall|y: usize| stack0.contains(y) implies #[trigger] stack@.contains(
                            y,
                        ) by {
                            let k = choose|k: int| 0 <= k < stack0.len() && stack0[k] == y;
                            assert(stack@[k] == y);
                        }
                    }
                }
                e += 1;
            }
            proof {
                assert forall|y: int, x: int|
                    0 <= y < n && vis@[y] && !stack@.contains(y as usize) && 0 <= x
                        < self.edges@[y]@.len() implies vis@[(
                #[trigger] self.edges@[y]@[x]) as int] by {}
            }
        }
        proof {
            assert forall|i: int| 0 <= i < n && goal.contains(#[trigger] self.key(i)) implies vis@[i] by {
                let s = choose|s: Seq<nat>|
                    self.selected(seeds@).contains(s) && #[trigger] connected(
                        self@,
                        s,
                        self.key(i),
                    );
                let si = choose|si: int|
                    0 <= si < self.nodes@.len() && si < seeds@.len() && seeds@[si]
                        && #[trigger] self.key(si) == s;
                let steps = choose|steps: nat| walk(self@, s, self.key(i), steps);
                self.lemma_closed_mask(seeds@, vis@, si, self.key(i), steps);
                let j = choose|j: int|
                    0 <= j < vis@.len() && vis@[j] && #[trigger] self.key(j) == self.key(i);
                self.lemma_key_unique(i, j);
            }
            assert forall|m: Seq<nat>| goal.contains(m) implies self.selected(vis@).contains(m) by {
                let s = choose|s: Seq<nat>|
                    self.selected(seeds@).contains(s) && #[trigger] connected(self@, s, m);
                let si = choose|si: int|
                    0 <= si < self.nodes@.len() && si < seeds@.len() && seeds@[si]
                        && #[trigger] self.key(si) == s;
                let steps = choose|steps: nat| walk(self@, s, m, steps);
                self.lemma_closed_mask(seeds@, vis@, si, m, steps);
            }
            assert(self.selected(vis@) =~= goal);
        }
        (vis, None)
    }

    /// The forward closure of the nodes that `seeds` selects, as a mask over
    /// the nodes.
    pub fn closure_of(&self, seeds: &Vec<bool>) -> (vis: Vec<bool>)
        requires
            self.wf(),
            seeds@.len() == self.nodes@.len(),
        ensures
            vis@.len() == self.nodes@.len(),
            forall|i: int|
                0 <= i < self.nodes@.len() ==> (vis@[i] <==> closure(
                    self@,
                    self.selected(seeds@),
                ).contains(#[trigger] self.key(i))),
            self.selected(vis@) == closure(self@, self.selected(seeds@)),
    {
        let stop: Vec<bool> = blank(self.nodes.len());
        let found = self.search(seeds, &stop);
        found.0
    }

    /// The markings of the nodes that `pred` holds of.
    pub open spec fn satisfying<F: Fn(&Vec<u8>) -> bool>(&self, pred: F) -> Set<Seq<nat>> {
        Set::new(
            |m: Seq<nat>|
                exists|i: int|
                    0 <= i < self.nodes@.len() && #[trigger] self.key(i) == m && call_ensures(
                        pred,
                        (&self.nodes@[i],),
                        true,
                    ),
        )
    }

    /// `pred` may be called on every node.
    pub open spec fn accepts<F: Fn(&Vec<u8>) -> bool>(&self, pred: F) -> bool {
        forall|i: int| 0 <= i < self.nodes@.len() ==> call_requires(pred, (&self.nodes@[i],))
    }

    /// `mask` holds, for every node, an answer that `pred` may give on it.
    pub open spec fn answers<F: Fn(&Vec<u8>) -> bool>(&self, pred: F, mask: Seq<bool>) -> bool {
        &&& mask.len() == self.nodes@.len()
        &&& forall|i: int|
            0 <= i < self.nodes@.len() ==> call_ensures(pred, (&self.nodes@[i],), #[trigger] mask[i])
    }

    /// `pred` gives one answer on every node.
    pub open spec fn decided_by<F: Fn(&Vec<u8>) -> bool>(&self, pred: F) -> bool {
        forall|i: int|
            0 <= i < self.nodes@.len() ==> !(call_ensures(pred, (&self.nodes@[i],), true)
                && call_ensures(pred, (&self.nodes@[i],), false))
    }

    /// A mask that holds the answers of a predicate selects the markings
    /// that the predicate holds of.
    pub proof fn lemma_selected_satisfying<F: Fn(&Vec<u8>) -> bool>(&self, pred: F, mask: Seq<bool>)
        requires
            self.decided_by(pred),
            self.answers(pred, mask),
        ensures
            self.selected(mask) == self.satisfying(pred),
    {
        assert forall|m: Seq<nat>| self.selected(mask).contains(m) implies self.satisfying(
            pred,
        ).contains(m) by {
            let i = choose|i: int|
                0 <= i < self.nodes@.len() && i < mask.len() && mask[i] && #[trigger] self.key(i)
                    == m;
            assert(call_ensures(pred, (&self.nodes@[i],), mask[i]));
        }
        assert forall|m: Seq<nat>| self.satisfying(pred).contains(m) implies self.selected(
            mask,
        ).contains(m) by {
            let i = choose|i: int|
                0 <= i < self.nodes@.len() && #[trigger] self.key(i) == m && call_ensures(
                    pred,
                    (&self.nodes@[i],),
                    true,
                );
            assert(call_ensures(pred, (&self.nodes@[i],), mask[i]));
            assert(mask[i]);
        }
        assert(self.selected(mask) =~= self.satisfying(pred));
    }

    /// The nodes that `mask` selects, as a set of markings.
    pub fn collect(&self, mask: &Vec<bool>) -> (set: MarkingSet)
        requires
            self.wf(),
            mask@.len() == self.nodes@.len(),
        ensures
            set.wf(),
            set@ == self.selected(mask@),
    {
        let mut items: Vec<Vec<u8>> = Vec::new();
        let ghost mut from: Seq<int> = Seq::empty();
        let mut i: usize = 0;
        while i < self.nodes.len()
            invariant
                self.wf(),
                mask@.len() == self.nodes@.len(),
                i <= self.nodes@.len(),
                from.len() == items@.len(),
                forall|k: int|
                    0 <= k < from.len() ==> 0 <= #[trigger] from[k] < i && mask@[from[k]]
                        && items@[k]@ == self.nodes@[from[k]]@,
                forall|k: int, l: int| 0 <= k < l < from.len() ==> from[k] < from[l],
                forall|j: int| 0 <= j < i && #[trigger] mask@[j] ==> from.contains(j),
            decreases self.nodes@.len() - i,
        {
            if mask[i] {
                let copy: Vec<u8> = self.nodes[i].clone();
                assert(copy@ =~= self.nodes@[i as int]@);
                let ghost before = from;
                items.push(copy);
                proof {
                    from = from.push(i as int);
                    assert(from[from.len() - 1] == i);
                    assert forall|j: int| 0 <= j < i + 1 && mask@[j] implies from.contains(j) by {
                        if j < i {
                            assert(before.contains(j));
                            let k = choose|k: int| 0 <= k < before.len() && before[k] == j;
                            assert(from[k] == j);
                        }
                    }
                }
            }
            i += 1;
        }
        let set = MarkingSet { items };
        proof {
            assert forall|k: int, l: int| 0 <= k < l < set.items@.len() implies (
            #[trigger] set.items@[k])@ != (#[trigger] set.items@[l])@ by {
                assert(from[k] < from[l]);
            }
            assert forall|m: Seq<nat>| set@.contains(m) implies self.selected(mask@).contains(m) by {
                let k = choose|k: int| 0 <= k < set.items@.len() && #[trigger] set.item(k) == m;
                assert(self.key(from[k]) == m);
            }
            assert forall|m: Seq<nat>| self.selected(mask@).contains(m) implies set@.contains(m) by {
                let j = choose|j: int|
                    0 <= j < self.nodes@.len() && j < mask@.len() && mask@[j] && #[trigger] self.key(
                        j,
                    ) == m;
                assert(from.contains(j));
                let k = choose|k: int| 0 <= k < from.len() && from[k] == j;
                assert(set.item(k) == m);
            }
            assert(set@ =~= self.selected(mask@));
        }
        set
    }

    /// Number of markings in the graph.
    pub fn len(&self) -> (n: usize)
        requires
            self.wf(),
        ensures
            self@.dom().finite(),
            n == self@.dom().len(),
    {
        proof {
            let ks = Seq::new(self.nodes@.len(), |i: int| self.key(i));
            assert forall|i: int, j: int| 0 <= i < ks.len() && 0 <= j < ks.len() && i != j implies ks[i]
                != ks[j] by {
                if ks[i] == ks[j] {
                    self.lemma_key_unique(i, j);
                }
            }
            ks.unique_seq_to_set();
            assert forall|m: Seq<nat>| ks.to_set().contains(m) <==> self@.dom().contains(m) by {
                if ks.to_set().contains(m) {
                    let i = choose|i: int| 0 <= i < ks.len() && ks[i] == m;
                    assert(self.key(i) == m);
                }
                if self@.dom().contains(m) {
                    let i = choose|i: int| 0 <= i < self.nodes@.len() && #[trigger] self.key(i) == m;
                    assert(ks[i] == m);
                }
            }
            assert(ks.to_set() =~= self@.dom());
        }
        self.nodes.len()
    }

    /// The position of the node whose marking is `m`, if the graph holds it.
    pub fn find(&self, m: &Vec<u8>) -> (r: Option<usize>)
        ensures
            r is Some <==> self@.dom().contains(tokens(m@)),
            r matches Some(i) ==> i < self.nodes@.len() && self.nodes@[i as int]@ == m@,
    {
        let mut i: usize = 0;
        while i < self.nodes.len()
            invariant
                i <= self.nodes@.len(),
                forall|k: int| 0 <= k < i ==> self.nodes@[k]@ != m@,
            decreases self.nodes@.len() - i,
        {
            if same_marking(&self.nodes[i], m) {
                proof {
                    assert(self.key(i as int) == tokens(m@));
                }
                return Some(i);
            }
            i += 1;
        }
        proof {
            if self@.dom().contains(tokens(m@)) {
                let k = choose|k: int|
                    0 <= k < self.nodes@.len() && #[trigger] self.key(k) == tokens(m@);
                lemma_tokens_injective(self.nodes@[k]@, m@);
            }
        }
        None
    }

    /// The direct successors of node `i`.
    pub fn successors_at(&self, i: usize) -> (set: MarkingSet)
        requires
            self.wf(),
            i < self.nodes@.len(),
        ensures
            set.wf(),
            set@ == self@[self.key(i as int)],
    {
        let n: usize = self.nodes.len();
        let mut mask: Vec<bool> = Vec::new();
        let mut j: usize = 0;
        while j < n
            invariant
                self.wf(),
                j <= n,
                n == self.nodes@.len(),
                mask@.len() == j,
                i < n,
                forall|k: int| 0 <= k < j ==> mask@[k] == self.edges@[i as int]@.contains(k as usize),
            decreases n - j,
        {
            let hit: bool = holds_index(&self.edges[i], j);
            mask.push(hit);
            j += 1;
        }
        let set = self.collect(&mask);
        proof {
            self.lemma_view_at(i as int);
            let list = self.edges@[i as int]@;
            assert(all_below(list, self.nodes@.len()));
            assert forall|b: Seq<nat>| self.selected(mask@).contains(b) implies self.targets(
                i as int,
            ).contains(b) by {
                let k = choose|k: int|
                    0 <= k < self.nodes@.len() && k < mask@.len() && mask@[k] && #[trigger] self.key(
                        k,
                    ) == b;
                assert(list.contains(k as usize));
                let e = choose|e: int| 0 <= e < list.len() && list[e] == k as usize;
                assert(tokens(self.nodes@[list[e] as int]@) == b);
            }
            assert forall|b: Seq<nat>| self.targets(i as int).contains(b) implies self.selected(
                mask@,
            ).contains(b) by {
                let e = choose|e: int|
                    0 <= e < list.len() && tokens(self.nodes@[(#[trigger] list[e]) as int]@) == b;
                let k = list[e] as int;
                assert(list.contains(k as usize));
                assert(mask@[k]);
                assert(self.key(k) == b);
            }
            assert(self.selected(mask@) =~= self.targets(i as int));
        }
        set
    }

    /// The direct successors of the marking `m`, if the graph holds it.
    pub fn successors_of(&self, m: &Vec<u8>) -> (r: Option<MarkingSet>)
        requires
            self.wf(),
        ensures
            r is Some <==> self@.dom().contains(tokens(m@)),
            r matches Some(set) ==> set.wf() && set@ == self@[tokens(m@)],
    {
        match self.find(m) {
            None => None,
            Some(i) => {
                proof {
                    assert(self.key(i as int) == tokens(m@));
                }
                Some(self.successors_at(i))
            },
        }
    }

    /// Whether `pred` holds of every node; where it does not, the result
    /// is a node of which it fails.
    pub fn assert_forall<F: Fn(&Vec<u8>) -> bool>(&self, pred: F) -> (r: Result<(), Vec<u8>>)
        requires
            self.accepts(pred),
        ensures
            r is Ok ==> forall|i: int|
                0 <= i < self.nodes@.len() ==> call_ensures(pred, (&self.nodes@[i],), true),
            r matches Err(m) ==> exists|i: int|
                0 <= i < self.nodes@.len() && (#[trigger] self.nodes@[i])@ == m@ && call_ensures(
                    pred,
                    (&self.nodes@[i],),
                    false,
                ),
    {
        let mut i: usize = 0;
        while i < self.nodes.len()
            invariant
                i <= self.nodes@.len(),
                self.accepts(pred),
                forall|k: int| 0 <= k < i ==> call_ensures(pred, (&self.nodes@[k],), true),
            decreases self.nodes@.len() - i,
        {
            if !pred(&self.nodes[i]) {
                let found: Vec<u8> = self.nodes[i].clone();
                assert(found@ =~= self.nodes@[i as int]@);
                return Err(found);
            }
            i += 1;
        }
        Ok(())
    }

    /// The markings that `pred` holds of, and every marking reached from one
    /// of them.
    pub fn reaches<F: Fn(&Vec<u8>) -> bool>(&self, pred: F) -> (set: MarkingSet)
        requires
            self.wf(),
            self.accepts(pred),
        ensures
            set.wf(),
            exists|mask: Seq<bool>|
                #[trigger] self.answers(pred, mask) && set@ == closure(self@, self.selected(mask)),
            self.decided_by(pred) ==> set@ == closure(self@, self.satisfying(pred)),
            forall|m: Seq<nat>| set@.contains(m) ==> self@.dom().contains(m),
    {
        let seeds: Vec<bool> = self.select(&pred);
        let vis: Vec<bool> = self.closure_of(&seeds);
        let set = self.collect(&vis);
        proof {
            assert(self.answers(pred, seeds@));
            if self.decided_by(pred) {
                self.lemma_selected_satisfying(pred, seeds@);
            }
            assert forall|m: Seq<nat>| set@.contains(m) implies self@.dom().contains(m) by {
                let i = choose|i: int|
                    0 <= i < self.nodes@.len() && i < vis@.len() && vis@[i] && #[trigger] self.key(i)
                        == m;
                self.lemma_view_at(i);
            }
        }
        set
    }

    /// From node `j`, some node that `goal` selects is reached.
    pub open spec fn leads_to(&self, goal: Seq<bool>, j: int) -> bool {
        exists|t: Seq<nat>|
            self.selected(goal).contains(t) && #[trigger] connected(self@, self.key(j), t)
    }

    /// A node from which no node that `goal` selects is reached, if there is
    /// one.
    pub fn always_reaches_from(&self, goal: &Vec<bool>) -> (r: Option<usize>)
        requires
            self.wf(),
            goal@.len() == self.nodes@.len(),
        ensures
            r is None <==> always_reaches(self@, self.selected(goal@)),
            r matches Some(i) ==> i < self.nodes@.len() && forall|t: Seq<nat>|
                self.selected(goal@).contains(t) ==> !connected(self@, self.key(i as int), t),
    {
        let n: usize = self.nodes.len();
        let mut good: Vec<bool> = goal.clone();
        proof {
            assert(good@ =~= goal@);
            assert forall|j: int| 0 <= j < n && #[trigger] good@[j] implies self.leads_to(
                goal@,
                j,
            ) by {
                self.lemma_view_at(j);
                assert(walk(self@, self.key(j), self.key(j), 0));
                assert(self.selected(goal@).contains(self.key(j)));
                assert(connected(self@, self.key(j), self.key(j)));
            }
        }
        let mut k: usize = n;
        while k > 0
            invariant
                self.wf(),
                n == self.nodes@.len(),
                goal@.len() == n,
                good@.len() == n,
                k <= n,
                forall|j: int| 0 <= j < n && goal@[j] ==> good@[j],
                forall|j: int| k <= j < n ==> good@[j],
                forall|j: int| 0 <= j < n && #[trigger] good@[j] ==> self.leads_to(goal@, j),
            decreases k,
        {
            let i: usize = k - 1;
            if !good[i] {
                let start: Vec<bool> = single(n, i);
                let found = self.search(&start, &good);
                proof {
                    assert(self.selected(start@).contains(self.key(i as int)));
                    assert forall|s: Seq<nat>| self.selected(start@).contains(s) implies s
                        == self.key(i as int) by {}
                }
                match found.1 {
                    Some(j) => {
                        proof {
                            assert(closure(self@, self.selected(start@)).contains(self.key(j as int)));
                            assert(connected(self@, self.key(i as int), self.key(j as int)));
                            assert(good@[j as int]);
                            assert(self.leads_to(goal@, j as int));
                            let t = choose|t: Seq<nat>|
                                self.selected(goal@).contains(t) && #[trigger] connected(
                                    self@,
                                    self.key(j as int),
                                    t,
                                );
                            lemma_connected_transitive(
                                self@,
                                self.key(i as int),
                                self.key(j as int),
                                t,
                            );
                            assert(self.leads_to(goal@, i as int));
                        }
                        good.set(i, true);
                    },
                    None => {
                        proof {
                            assert forall|t: Seq<nat>|
                                self.selected(goal@).contains(t) implies !connected(
                                self@,
                                self.key(i as int),
                                t,
                            ) by {
                                if connected(self@, self.key(i as int), t) {
                                    let j = choose|j: int|
                                        0 <= j < self.nodes@.len() && j < goal@.len() && goal@[j]
                                            && #[trigger] self.key(j) == t;
                                    assert(closure(self@, self.selected(start@)).contains(
                                        self.key(j),
                                    ));
                                    assert(found.0@[j]);
                                }
                            }
                            self.lemma_view_at(i as int);
                        }
                        return Some(i);
                    },
                }
            }
            k -= 1;
        }
        proof {
            assert forall|m: Seq<nat>| self@.dom().contains(m) implies exists|t: Seq<nat>|
                self.selected(goal@).contains(t) && #[trigger] connected(self@, m, t) by {
                let j = self.index_of(m);
                assert(self.has_key(m));
                assert(self.key(j) == m);
                assert(good@[j]);
                assert(self.leads_to(goal@, j));
            }
        }
        None
    }

    /// Whether from every node some node that `pred` holds of is reached;
    /// where that fails, the result is a node from which none is.
    pub fn assert_always_reaches<F: Fn(&Vec<u8>) -> bool>(&self, pred: F) -> (r: Result<
        (),
        Vec<u8>,
    >)
        requires
            self.wf(),
            self.accepts(pred),
        ensures
            exists|mask: Seq<bool>|
                #[trigger] self.answers(pred, mask) && (r is Ok <==> always_reaches(
                    self@,
                    self.selected(mask),
                )) && (r matches Err(m) ==> forall|t: Seq<nat>|
                    self.selected(mask).contains(t) ==> !connected(self@, tokens(m@), t)),
            self.decided_by(pred) ==> (r is Ok <==> always_reaches(self@, self.satisfying(pred))),
            r matches Err(m) ==> self@.dom().contains(tokens(m@)) && (self.decided_by(pred)
                ==> forall|t: Seq<nat>|
                self.satisfying(pred).contains(t) ==> !connected(self@, tokens(m@), t)),
    {
        let goal: Vec<bool> = self.select(&pred);
        proof {
            assert(self.answers(pred, goal@));
            if self.decided_by(pred) {
                self.lemma_selected_satisfying(pred, goal@);
            }
        }
        match self.always_reaches_from(&goal) {
            None => Ok(()),
            Some(i) => {
                let found: Vec<u8> = self.nodes[i].clone();
                proof {
                    assert(found@ =~= self.nodes@[i as int]@);
                    self.lemma_view_at(i as int);
                }
                Err(found)
            },
        }
    }
}

/// A mask of `n` entries of which none is set.
fn blank(n: usize) -> (mask: Vec<bool>)
    ensures
        mask@.len() == n,
        forall|k: int| 0 <= k < n ==> !mask@[k],
{
    let mut mask: Vec<bool> = Vec::new();
    let mut k: usize = 0;
    while k < n
        invariant
            k <= n,
            mask@.len() == k,
            forall|j: int| 0 <= j < k ==> !mask@[j],
        decreases n - k,
    {
        mask.push(false);
        k += 1;
    }
    mask
}

/// A mask of `n` entries of which only entry `i` is set.
fn single(n: usize, i: usize) -> (mask: Vec<bool>)
    requires
        i < n,
    ensures
        mask@.len() == n,
        forall|k: int| 0 <= k < n ==> mask@[k] == (k == i),
{
    let mut mask: Vec<bool> = Vec::new();
    let mut k: usize = 0;
    while k < n
        invariant
            k <= n,
            mask@.len() == k,
            forall|j: int| 0 <= j < k ==> mask@[j] == (j == i),
        decreases n - k,
    {
        mask.push(k == i);
        k += 1;
    }
    mask
}

/// The first position at which both masks are set.
fn first_common(a: &Vec<bool>, b: &Vec<bool>) -> (r: Option<usize>)
    requires
        a@.len() == b@.len(),
    ensures
        r matches Some(j) ==> j < a@.len() && a@[j as int] && b@[j as int],
        r is None ==> forall|j: int| 0 <= j < a@.len() ==> !(a@[j] && b@[j]),
{
    let mut k: usize = 0;
    while k < a.len()
        invariant
            k <= a@.len(),
            a@.len() == b@.len(),
            forall|j: int| 0 <= j < k ==> !(a@[j] && b@[j]),
        decreases a@.len() - k,
    {
        if a[k] && b[k] {
            return Some(k);
        }
        k += 1;
    }
    None
}

/// A finite set of markings, each held once.
#[derive(Debug)]
pub struct MarkingSet {
    pub items: Vec<Vec<u8>>,
}

impl View for MarkingSet {
    type V = Set<Seq<nat>>;

    open spec fn view(&self) -> Set<Seq<nat>> {
        Set::new(
            |m: Seq<nat>| exists|k: int| 0 <= k < self.items@.len() && #[trigger] self.item(k) == m,
        )
    }
}

impl MarkingSet {
    /// The marking held at position `k`.
    pub open spec fn item(&self, k: int) -> Seq<nat> {
        tokens(self.items@[k]@)
    }

    /// No marking is held twice.
    pub open spec fn wf(&self) -> bool {
        forall|k: int, l: int|
            0 <= k < l < self.items@.len() ==> (#[trigger] self.items@[k])@ != (
            #[trigger] self.items@[l])@
    }

    /// The position of `m`, looked for from position `hint` onwards first.
    fn position(&self, m: &Vec<u8>, hint: usize) -> (r: Option<usize>)
        ensures
            r matches Some(k) ==> k < self.items@.len() && self.items@[k as int]@ == m@,
            r is None ==> forall|k: int| 0 <= k < self.items@.len() ==> self.items@[k]@ != m@,
    {
        let n: usize = self.items.len();
        let from: usize = if hint < n { hint } else { 0 };
        let mut k: usize = from;
        while k < n
            invariant
                from <= k <= n,
                n == self.items@.len(),
                forall|j: int| from <= j < k ==> self.items@[j]@ != m@,
            decreases n - k,
        {
            if same_marking(&self.items[k], m) {
                return Some(k);
            }
            k += 1;
        }
        let mut l: usize = 0;
        while l < from
            invariant
                l <= from <= n,
                n == self.items@.len(),
                forall|j: int| from <= j < n ==> self.items@[j]@ != m@,
                forall|j: int| 0 <= j < l ==> self.items@[j]@ != m@,
            decreases from - l,
        {
            if same_marking(&self.items[l], m) {
                return Some(l);
            }
            l += 1;
        }
        None
    }

    /// Whether the set holds `m`.
    pub fn contains(&self, m: &Vec<u8>) -> (r: bool)
        ensures
            r == self@.contains(tokens(m@)),
    {
        let found: Option<usize> = self.position(m, 0);
        proof {
            match found {
                Some(k) => {
                    assert(self.item(k as int) == tokens(m@));
                },
                None => {
                    if self@.contains(tokens(m@)) {
                        let k = choose|k: int|
                            0 <= k < self.items@.len() && #[trigger] self.item(k) == tokens(m@);
                        lemma_tokens_injective(self.items@[k]@, m@);
                    }
                },
            }
        }
        found.is_some()
    }

    /// Number of markings in the set.
    pub fn len(&self) -> (n: usize)
        requires
            self.wf(),
        ensures
            self@.finite(),
            n == self@.len(),
    {
        proof {
            let ks = Seq::new(self.items@.len(), |k: int| self.item(k));
            assert forall|k: int, l: int| 0 <= k < ks.len() && 0 <= l < ks.len() && k != l implies ks[k]
                != ks[l] by {
                if ks[k] == ks[l] {
                    lemma_tokens_injective(self.items@[k]@, self.items@[l]@);
                }
            }
            ks.unique_seq_to_set();
            assert forall|m: Seq<nat>| ks.to_set().contains(m) <==> self@.contains(m) by {
                if ks.to_set().contains(m) {
                    let k = choose|k: int| 0 <= k < ks.len() && ks[k] == m;
                    assert(self.item(k) == m);
                }
                if self@.contains(m) {
                    let k = choose|k: int|
                        0 <= k < self.items@.len() && #[trigger] self.item(k) == m;
                    assert(ks[k] == m);
                }
            }
            assert(ks.to_set() =~= self@);
        }
        self.items.len()
    }

    /// Whether the set holds nothing.
    pub fn is_empty(&self) -> (r: bool)
        ensures
            r == (self@ == Set::<Seq<nat>>::empty()),
    {
        proof {
            if self.items@.len() > 0 {
                assert(self@.contains(self.item(0)));
            } else {
                assert(self@ =~= Set::<Seq<nat>>::empty());
            }
        }
        self.items.len() == 0
    }

    /// Whether every marking of the set is in `other`.
    pub fn is_subset(&self, other: &MarkingSet) -> (r: bool)
        ensures
            r == self@.subset_of(other@),
    {
        let mut hint: usize = 0;
        let mut i: usize = 0;
        while i < self.items.len()
            invariant
                i <= self.items@.len(),
                forall|k: int| 0 <= k < i ==> other@.contains(#[trigger] self.item(k)),
            decreases self.items@.len() - i,
        {
            match other.position(&self.items[i], hint) {
                Some(k) => {
                    proof {
                        assert(other.item(k as int) == self.item(i as int));
                    }
                    hint = if k < usize::MAX { k + 1 } else { 0 };
                },
                None => {
                    proof {
                        assert(self@.contains(self.item(i as int)));
                        if other@.contains(self.item(i as int)) {
                            let k = choose|k: int|
                                0 <= k < other.items@.len() && #[trigger] other.item(k)
                                    == self.item(i as int);
                            lemma_tokens_injective(other.items@[k]@, self.items@[i as int]@);
                        }
                    }
                    return false;
                },
            }
            i += 1;
        }
        proof {
            assert forall|m: Seq<nat>| self@.contains(m) implies other@.contains(m) by {
                let k = choose|k: int| 0 <= k < self.items@.len() && #[trigger] self.item(k) == m;
            }
        }
        true
    }

    /// Whether every marking of `other` is in the set.
    pub fn is_superset(&self, other: &MarkingSet) -> (r: bool)
        ensures
            r == other@.subset_of(self@),
    {
        other.is_subset(self)
    }
}

} // verus!
