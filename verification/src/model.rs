//! Markings, transitions and the firing rule.
//!
//! A marking is modelled as a `Seq<nat>`: one token count per place. The
//! executable representation is a `Vec<u8>`, related to the model by
//! [`tokens`].

use vstd::prelude::*;

verus! {

/// The marking that a vector of token counts stands for.
pub open spec fn tokens(counts: Seq<u8>) -> Seq<nat> {
    Seq::new(counts.len(), |i: int| counts[i] as nat)
}

/// Number of times place `p` occurs in the arc list `arcs`.
pub open spec fn multiplicity(arcs: Seq<usize>, p: int) -> nat
    decreases arcs.len(),
{
    if arcs.len() == 0 {
        0
    } else {
        multiplicity(arcs.drop_last(), p) + if arcs.last() == p { 1nat } else { 0nat }
    }
}

/// Extending a prefix of an arc list by one arc adds one to the multiplicity
/// of that arc's place and leaves the others unchanged.
pub proof fn lemma_multiplicity_step(arcs: Seq<usize>, k: int, p: int)
    requires
        0 <= k < arcs.len(),
    ensures
        multiplicity(arcs.take(k + 1), p) == multiplicity(arcs.take(k), p) + if arcs[k] == p {
            1nat
        } else {
            0nat
        },
{
    assert(arcs.take(k + 1).drop_last() =~= arcs.take(k));
}

/// A prefix of an arc list never has a larger multiplicity than the list.
pub proof fn lemma_multiplicity_prefix(arcs: Seq<usize>, k: int, p: int)
    requires
        0 <= k <= arcs.len(),
    ensures
        multiplicity(arcs.take(k), p) <= multiplicity(arcs, p),
    decreases arcs.len() - k,
{
    if k < arcs.len() {
        lemma_multiplicity_prefix(arcs, k + 1, p);
        lemma_multiplicity_step(arcs, k, p);
    } else {
        assert(arcs.take(k) =~= arcs);
    }
}

/// Two count vectors that stand for the same marking are equal.
pub proof fn lemma_tokens_injective(a: Seq<u8>, b: Seq<u8>)
    requires
        tokens(a) == tokens(b),
    ensures
        a == b,
{
    assert(a.len() == tokens(a).len());
    assert(b.len() == tokens(b).len());
    assert forall|i: int| 0 <= i < a.len() implies a[i] == b[i] by {
        assert(tokens(a)[i] == a[i] as nat);
        assert(tokens(b)[i] == b[i] as nat);
    }
    assert(a =~= b);
}

/// Whether every entry of `arcs` is below `places`.
fn all_under(arcs: &Vec<usize>, places: usize) -> (r: bool)
    ensures
        r == forall|k: int| 0 <= k < arcs@.len() ==> (#[trigger] arcs@[k]) < places,
{
    let mut k: usize = 0;
    while k < arcs.len()
        invariant
            k <= arcs@.len(),
            forall|j: int| 0 <= j < k ==> (#[trigger] arcs@[j]) < places,
        decreases arcs@.len() - k,
    {
        if arcs[k] >= places {
            return false;
        }
        k += 1;
    }
    true
}

/// A transition: the places it takes a token from and the places it puts a
/// token into. A place that occurs several times is taken from, or put into,
/// that many times.
#[derive(Debug)]
pub struct Transition {
    pub inputs: Vec<usize>,
    pub outputs: Vec<usize>,
}

/// The arcs of the transitions: for each, its input places and its output
/// places.
pub open spec fn arcs_of(transitions: Seq<Transition>) -> Seq<(Seq<usize>, Seq<usize>)> {
    Seq::new(transitions.len(), |i: int| (transitions[i].inputs@, transitions[i].outputs@))
}

impl Transition {
    /// Every arc refers to one of the first `places` places.
    pub open spec fn wf(&self, places: nat) -> bool {
        &&& forall|k: int| 0 <= k < self.inputs@.len() ==> (#[trigger] self.inputs@[k]) < places
        &&& forall|k: int| 0 <= k < self.outputs@.len() ==> (#[trigger] self.outputs@[k]) < places
    }

    /// The transition may fire at `m`: every place holds at least as many
    /// tokens as the transition takes from it.
    pub open spec fn enabled(&self, m: Seq<nat>) -> bool {
        forall|p: int| 0 <= p < m.len() ==> multiplicity(self.inputs@, p) <= #[trigger] m[p]
    }

    /// Token count of place `p` after the transition has fired at `m`.
    pub open spec fn fired_count(&self, m: Seq<nat>, p: int) -> int {
        m[p] - multiplicity(self.inputs@, p) + multiplicity(self.outputs@, p)
    }

    /// The marking after the transition has fired at `m`.
    pub open spec fn fire(&self, m: Seq<nat>) -> Seq<nat> {
        Seq::new(m.len(), |p: int| self.fired_count(m, p) as nat)
    }

    /// Every count of the marking after firing at `m` fits in a `u8`.
    pub open spec fn fits(&self, m: Seq<nat>) -> bool {
        forall|p: int| 0 <= p < m.len() ==> #[trigger] self.fired_count(m, p) <= u8::MAX
    }

    /// Firing an enabled transition leaves in every place what it held,
    /// less what the transition takes from it, plus what the transition
    /// puts into it; no count goes below zero on the way.
    pub proof fn lemma_fire_conserves(&self, m: Seq<nat>, p: int)
        requires
            self.enabled(m),
            0 <= p < m.len(),
        ensures
            self.fire(m).len() == m.len(),
            m[p] - multiplicity(self.inputs@, p) >= 0,
            self.fire(m)[p] == m[p] - multiplicity(self.inputs@, p) + multiplicity(
                self.outputs@,
                p,
            ),
    {
        assert(multiplicity(self.inputs@, p) <= m[p]);
        assert(self.fire(m)[p] == self.fired_count(m, p) as nat);
    }

    /// A transition with the given input and output arcs.
    pub fn new(inputs: Vec<usize>, outputs: Vec<usize>) -> (t: Transition)
        ensures
            t.inputs == inputs,
            t.outputs == outputs,
    {
        Transition { inputs, outputs }
    }

    /// Whether every arc refers to one of the first `places` places.
    pub fn fits_places(&self, places: usize) -> (r: bool)
        ensures
            r == self.wf(places as nat),
    {
        all_under(&self.inputs, places) && all_under(&self.outputs, places)
    }

    /// Takes the input tokens from `m`, if `m` holds them all.
    fn consume(&self, m: &Vec<u8>) -> (r: Option<Vec<u8>>)
        requires
            self.wf(m@.len()),
        ensures
            r is Some <==> self.enabled(tokens(m@)),
            r matches Some(w) ==> w@.len() == m@.len() && forall|p: int|
                0 <= p < m@.len() ==> #[trigger] w@[p] == m@[p] - multiplicity(self.inputs@, p),
    {
        let mut work: Vec<u8> = m.clone();
        let mut i: usize = 0;
        while i < self.inputs.len()
            invariant
                i <= self.inputs@.len(),
                self.wf(m@.len()),
                work@.len() == m@.len(),
                forall|p: int|
                    0 <= p < m@.len() ==> #[trigger] work@[p] + multiplicity(
                        self.inputs@.take(i as int),
                        p,
                    ) == m@[p],
            decreases self.inputs@.len() - i,
        {
            let idx: usize = self.inputs[i];
            let have: u8 = work[idx];
            proof {
                assert forall|p: int| 0 <= p < m@.len() implies multiplicity(
                    self.inputs@.take(i + 1),
                    p,
                ) == multiplicity(self.inputs@.take(i as int), p) + if idx == p {
                    1nat
                } else {
                    0nat
                } by {
                    lemma_multiplicity_step(self.inputs@, i as int, p);
                }
            }
            if have == 0 {
                proof {
                    lemma_multiplicity_prefix(self.inputs@, i + 1, idx as int);
                    assert(work@[idx as int] == 0);
                    assert(tokens(m@)[idx as int] == m@[idx as int]);
                }
                return None;
            }
            work.set(idx, have - 1);
            i += 1;
        }
        proof {
            assert(self.inputs@.take(i as int) =~= self.inputs@);
            assert forall|p: int| 0 <= p < tokens(m@).len() implies multiplicity(
                self.inputs@,
                p,
            ) <= #[trigger] tokens(m@)[p] by {
                assert(work@[p] >= 0);
            }
        }
        Some(work)
    }

    /// Whether the transition may fire at `m`.
    pub fn is_enabled(&self, m: &Vec<u8>) -> (r: bool)
        requires
            self.wf(m@.len()),
        ensures
            r == self.enabled(tokens(m@)),
    {
        self.consume(m).is_some()
    }

    /// Fires the transition at `m` if it is enabled there: the result holds,
    /// for every place, the old count less what the transition takes plus
    /// what it puts.
    pub fn try_fire(&self, m: &Vec<u8>) -> (r: Option<Vec<u8>>)
        requires
            self.wf(m@.len()),
            self.enabled(tokens(m@)) ==> self.fits(tokens(m@)),
        ensures
            r is Some <==> self.enabled(tokens(m@)),
            r matches Some(next) ==> tokens(next@) == self.fire(tokens(m@)),
    {
        match self.consume(m) {
            None => None,
            Some(taken) => {
                let mut work: Vec<u8> = taken;
                let mut j: usize = 0;
                while j < self.outputs.len()
                    invariant
                        j <= self.outputs@.len(),
                        self.wf(m@.len()),
                        self.fits(tokens(m@)),
                        work@.len() == m@.len(),
                        forall|p: int|
                            0 <= p < m@.len() ==> #[trigger] work@[p] == m@[p] - multiplicity(
                                self.inputs@,
                                p,
                            ) + multiplicity(self.outputs@.take(j as int), p),
                    decreases self.outputs@.len() - j,
                {
                    let idx: usize = self.outputs[j];
                    let have: u8 = work[idx];
                    proof {
                        assert forall|p: int| 0 <= p < m@.len() implies multiplicity(
                            self.outputs@.take(j + 1),
                            p,
                        ) == multiplicity(self.outputs@.take(j as int), p) + if idx == p {
                            1nat
                        } else {
                            0nat
                        } by {
                            lemma_multiplicity_step(self.outputs@, j as int, p);
                        }
                        lemma_multiplicity_prefix(self.outputs@, j + 1, idx as int);
                        assert(tokens(m@)[idx as int] == m@[idx as int]);
                        assert(self.fired_count(tokens(m@), idx as int) <= u8::MAX);
                    }
                    work.set(idx, have + 1);
                    j += 1;
                }
                proof {
                    assert(self.outputs@.take(j as int) =~= self.outputs@);
                    assert forall|p: int| 0 <= p < m@.len() implies tokens(work@)[p] == self.fire(
                        tokens(m@),
                    )[p] by {
                        assert(tokens(m@)[p] == m@[p]);
                        assert(work@[p] == self.fired_count(tokens(m@), p));
                    }
                    assert(tokens(work@) =~= self.fire(tokens(m@)));
                }
                Some(work)
            },
        }
    }

    /// Fires the transition at `m`, where it is enabled.
    pub fn fire_at(&self, m: &Vec<u8>) -> (next: Vec<u8>)
        requires
            self.wf(m@.len()),
            self.enabled(tokens(m@)),
            self.fits(tokens(m@)),
        ensures
            tokens(next@) == self.fire(tokens(m@)),
            next@.len() == m@.len(),
            forall|p: int|
                0 <= p < m@.len() ==> #[trigger] next@[p] == m@[p] - multiplicity(self.inputs@, p)
                    + multiplicity(self.outputs@, p),
    {
        let r = self.try_fire(m);
        let next: Vec<u8> = r.unwrap();
        proof {
            assert(next@.len() == tokens(next@).len());
            assert forall|p: int| 0 <= p < m@.len() implies #[trigger] next@[p] == m@[p]
                - multiplicity(self.inputs@, p) + multiplicity(self.outputs@, p) by {
                assert(tokens(next@)[p] == next@[p]);
                assert(tokens(m@)[p] == m@[p]);
                assert(self.fire(tokens(m@))[p] == self.fired_count(tokens(m@), p) as nat);
                assert(self.fired_count(tokens(m@), p) >= 0);
            }
        }
        next
    }
}

} // verus!
