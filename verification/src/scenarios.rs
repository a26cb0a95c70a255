//! Nets of cooperating machines, put together with the builder: clocks,
//! rings of semaphores, and two transport lines.

use crate::builder::{Label, Modifier, PetriBuilder};
use crate::model::arcs_of;
use crate::network::PetriNetwork;
use crate::builder::structures::Semaphore;
use vstd::prelude::*;

verus! {

/// Number of places of a clock of the given cycle length.
pub open spec fn ring_len(cycle_length: usize) -> int {
    if cycle_length == 0 {
        1
    } else {
        cycle_length as int
    }
}

/// Number of transitions of a clock of the given cycle length.
pub open spec fn ring_arcs(cycle_length: usize) -> int {
    if cycle_length == 1 {
        0
    } else {
        ring_len(cycle_length)
    }
}

/// Initial tokens of the places of a clock.
pub open spec fn ring_tokens(cycle_length: usize, active: bool) -> Seq<u8> {
    Seq::new(
        ring_len(cycle_length) as nat,
        |k: int|
            if k == 0 && active {
                1u8
            } else {
                0u8
            },
    )
}

/// The arcs of a clock whose first place is `first`: from each place to the
/// next, and from the last back to the first.
pub open spec fn ring(first: usize, cycle_length: usize) -> Seq<(Seq<usize>, Seq<usize>)> {
    Seq::new(
        ring_arcs(cycle_length) as nat,
        |k: int|
            (
                seq![(first + k) as usize],
                seq![
                    if k == ring_len(cycle_length) - 1 {
                        first
                    } else {
                        (first + k + 1) as usize
                    },
                ],
            ),
    )
}

/// A chain of `count` arcs, from each place to the next, from `first` on.
pub open spec fn chain(first: usize, count: int) -> Seq<(Seq<usize>, Seq<usize>)> {
    Seq::new(count as nat, |k: int| (seq![(first + k) as usize], seq![(first + k + 1) as usize]))
}

/// `count` empty places.
pub open spec fn empty_places(count: int) -> Seq<u8> {
    Seq::new(count as nat, |k: int| 0u8)
}

/// Initial tokens of the places of a ring of semaphores: the first one is
/// free, the others are taken.
pub open spec fn permits(count: usize) -> Seq<u8> {
    Seq::new(
        count as nat,
        |k: int|
            if k == 0 {
                1u8
            } else {
                0u8
            },
    )
}

/// An arc list of one place.
pub fn arcs1(a: usize) -> (v: Vec<usize>)
    ensures
        v@ == seq![a],
{
    let mut v: Vec<usize> = Vec::new();
    v.push(a);
    proof {
        assert(v@ =~= seq![a]);
    }
    v
}

/// An arc list of two places.
pub fn arcs2(a: usize, b: usize) -> (v: Vec<usize>)
    ensures
        v@ == seq![a, b],
{
    let mut v: Vec<usize> = Vec::new();
    v.push(a);
    v.push(b);
    proof {
        assert(v@ =~= seq![a, b]);
    }
    v
}

/// An arc list of three places.
pub fn arcs3(a: usize, b: usize, c: usize) -> (v: Vec<usize>)
    ensures
        v@ == seq![a, b, c],
{
    let mut v: Vec<usize> = Vec::new();
    v.push(a);
    v.push(b);
    v.push(c);
    proof {
        assert(v@ =~= seq![a, b, c]);
    }
    v
}

/// Adds `nodes` semaphores of one permit each, of which only the first is
/// free at the start.
pub fn semaphore_ring(builder: &mut PetriBuilder, nodes: usize) -> (res: Vec<Semaphore>)
    requires
        old(builder).wf(),
    ensures
        final(builder).wf(),
        res@.len() == nodes,
        forall|k: int| 0 <= k < nodes ==> (#[trigger] res@[k]).place == old(builder).nodes@.len() + k,
        final(builder).nodes@ == old(builder).nodes@ + permits(nodes),
        final(builder).transitions == old(builder).transitions,
        final(builder).labels == old(builder).labels,
{
    let mut res: Vec<Semaphore> = Vec::new();
    let mut n: usize = 0;
    proof {
        assert(builder.nodes@ =~= old(builder).nodes@ + permits(nodes).take(0));
    }
    while n < nodes
        invariant
            n <= nodes,
            builder.wf(),
            res@.len() == n,
            forall|k: int| 0 <= k < n ==> (#[trigger] res@[k]).place == old(builder).nodes@.len() + k,
            builder.nodes@ == old(builder).nodes@ + permits(nodes).take(n as int),
            builder.transitions == old(builder).transitions,
            builder.labels == old(builder).labels,
        decreases nodes - n,
    {
        let first: u8 = if n == 0 { 1 } else { 0 };
        let s = Semaphore::new(builder, first);
        res.push(s);
        proof {
            assert(permits(nodes).take(n + 1) =~= permits(nodes).take(n as int).push(first));
            assert(builder.nodes@ =~= old(builder).nodes@ + permits(nodes).take(n + 1));
        }
        n += 1;
    }
    proof {
        assert(permits(nodes).take(nodes as int) =~= permits(nodes));
    }
    res
}

/// Adds a clock: a ring of `cycle_length` places round which one token
/// goes, if `active`. The result is the ring's first and last place.
pub fn clock(builder: &mut PetriBuilder, cycle_length: usize, active: bool) -> (ends: (usize, usize))
    requires
        old(builder).wf(),
    ensures
        final(builder).wf(),
        ends.0 == old(builder).nodes@.len(),
        ends.1 == old(builder).nodes@.len() + ring_len(cycle_length) - 1,
        final(builder).nodes@ == old(builder).nodes@ + ring_tokens(cycle_length, active),
        final(builder).labels == old(builder).labels,
        final(builder).arcs() == old(builder).arcs() + ring(ends.0, cycle_length),
{
    let first: usize = builder.node(if active { 1 } else { 0 });
    proof {
        assert(builder.nodes@ =~= old(builder).nodes@ + ring_tokens(cycle_length, active).take(1));
    }
    if cycle_length == 1 {
        proof {
            assert(ring_tokens(cycle_length, active).take(1) =~= ring_tokens(cycle_length, active));
            assert(builder.arcs() =~= old(builder).arcs() + ring(first, cycle_length));
        }
        return (first, first);
    }
    let mut last: usize = first;
    let mut n: usize = 1;
    proof {
        assert(builder.arcs() =~= old(builder).arcs() + chain(first, 0));
    }
    while n < cycle_length
        invariant
            1 <= n,
            n <= cycle_length || cycle_length == 0,
            cycle_length == 0 ==> n == 1,
            builder.nodes@.len() == old(builder).nodes@.len() + n,
            cycle_length != 1,
            builder.wf(),
            first == old(builder).nodes@.len(),
            last == first + n - 1,
            builder.nodes@ == old(builder).nodes@ + ring_tokens(cycle_length, active).take(n as int),
            builder.labels == old(builder).labels,
            builder.arcs() == old(builder).arcs() + chain(first, n - 1),
        decreases cycle_length - n,
    {
        let next: usize = builder.node(0);
        builder.transition(arcs1(last), arcs1(next));
        proof {
            assert(ring_tokens(cycle_length, active).take(n + 1) =~= ring_tokens(
                cycle_length,
                active,
            ).take(n as int).push(0u8));
            assert(builder.nodes@ =~= old(builder).nodes@ + ring_tokens(cycle_length, active).take(
                n + 1,
            ));
            assert(chain(first, n as int) =~= chain(first, n - 1).push((seq![last], seq![next])));
            assert(builder.arcs() =~= old(builder).arcs() + chain(first, n as int));
        }
        last = next;
        n += 1;
    }
    builder.transition(arcs1(last), arcs1(first));
    proof {
        assert(ring_tokens(cycle_length, active).take(ring_len(cycle_length)) =~= ring_tokens(
            cycle_length,
            active,
        ));
        assert(ring(first, cycle_length) =~= chain(first, n - 1).push((seq![last], seq![first])));
        assert(builder.arcs() =~= old(builder).arcs() + ring(first, cycle_length));
    }
    (first, last)
}

/// The places of the semaphores, in order.
pub fn places_of(semaphores: &Vec<Semaphore>) -> (res: Vec<usize>)
    ensures
        res@.len() == semaphores@.len(),
        forall|k: int| 0 <= k < res@.len() ==> #[trigger] res@[k] == semaphores@[k].place,
{
    let mut res: Vec<usize> = Vec::new();
    let mut k: usize = 0;
    while k < semaphores.len()
        invariant
            k <= semaphores@.len(),
            res@.len() == k,
            forall|j: int| 0 <= j < k ==> #[trigger] res@[j] == semaphores@[j].place,
        decreases semaphores@.len() - k,
    {
        res.push(semaphores[k].index());
        k += 1;
    }
    res
}

/// A line on which a truck is unloaded and loaded again.
#[derive(Debug)]
pub struct TruckNetwork {
    pub initial: usize,
    pub empty: usize,
    pub full: usize,
    pub semaphores: Vec<usize>,
    pub alpha: Option<(usize, usize, usize)>,
    pub beta: Option<(usize, usize, usize)>,
    pub network: PetriNetwork,
}

impl TruckNetwork {
    /// The net is well-formed and every recorded place is a place of it.
    pub open spec fn wf(&self) -> bool {
        let places = self.network.nodes@.len();
        &&& self.network.wf()
        &&& self.initial < places
        &&& self.empty < places
        &&& self.full < places
        &&& forall|k: int| 0 <= k < self.semaphores@.len() ==> #[trigger] self.semaphores@[k] < places
        &&& self.alpha matches Some(t) ==> t.0 < places && t.1 < places && t.2 < places
        &&& self.beta matches Some(t) ==> t.0 < places && t.1 < places && t.2 < places
    }
}

/// The arcs of one machine of the truck line, whose clock starts at the
/// place `first`.
pub open spec fn truck_arcs(
    first: usize,
    clock_period: usize,
    sem: usize,
    source: usize,
    sink: usize,
    next_sem: usize,
) -> Seq<(Seq<usize>, Seq<usize>)> {
    let last = (first + ring_len(clock_period) - 1) as usize;
    let ready = (last + 1) as usize;
    let work = (last + 2) as usize;
    let back = (last + 3) as usize;
    ring(first, clock_period) + seq![
        (seq![last], seq![ready]),
        (seq![ready, sem], seq![work]),
        (seq![work], seq![back, sem]),
        (seq![back], seq![first]),
        (seq![work, source], seq![sink, back, next_sem]),
    ]
}

/// Adds a machine that, once per turn of its own clock and while it holds
/// `sem`, moves the load from `source` to `sink` and then frees `next_sem`.
/// The result is the clock's first and last place and the place where the
/// machine waits for its clock.
fn truck_line(
    builder: &mut PetriBuilder,
    clock_period: usize,
    sem: Semaphore,
    source: usize,
    sink: usize,
    next_sem: usize,
    in_name: &str,
    out_name: &str,
    work_name: &str,
    loop_name: &str,
) -> (r: (usize, usize, usize))
    requires
        old(builder).wf(),
        sem.place < old(builder).nodes@.len(),
        source < old(builder).nodes@.len(),
        sink < old(builder).nodes@.len(),
        next_sem < old(builder).nodes@.len(),
        work_name@ != loop_name@,
    ensures
        final(builder).wf(),
        r.0 == old(builder).nodes@.len(),
        r.1 == old(builder).nodes@.len() + ring_len(clock_period) - 1,
        r.2 == old(builder).nodes@.len() + ring_len(clock_period) + 2,
        final(builder).nodes@ == old(builder).nodes@ + ring_tokens(clock_period, true)
            + empty_places(3),
        final(builder).arcs() == old(builder).arcs() + truck_arcs(
            r.0,
            clock_period,
            sem.place,
            source,
            sink,
            next_sem,
        ),
{
    let (first, last) = clock(builder, clock_period, true);
    builder.label(Label::Node(first), in_name);
    builder.label(Label::Node(last), out_name);
    let held = builder.begin_branch(last).step().step_with_mod(sem.p()).label(work_name);
    assert(held.builder.lookup(work_name@) == Some(Label::Node(held.current)));
    let done = held.step_with_mod(sem.v()).label(loop_name);
    assert(done.builder.lookup(loop_name@) == Some(Label::Node(done.current)));
    assert(done.builder.lookup(work_name@) == Some(Label::Node((done.current - 1) as usize)));
    let work: usize = builder.get_label(work_name).unwrap().as_node().unwrap();
    let back: usize = builder.get_label(loop_name).unwrap().as_node().unwrap();
    builder.transition(arcs1(back), arcs1(first));
    builder.transition(arcs2(work, source), arcs3(sink, back, next_sem));
    proof {
        let ready = (last + 1) as usize;
        assert(Modifier::Take(sem.place).inputs_after(seq![ready]) =~= seq![ready, sem.place]);
        assert(Modifier::Take(sem.place).outputs_after(seq![work]) =~= seq![work]);
        assert(Modifier::Give(sem.place).inputs_after(seq![work]) =~= seq![work]);
        assert(Modifier::Give(sem.place).outputs_after(seq![back]) =~= seq![back, sem.place]);
        assert(builder.nodes@ =~= old(builder).nodes@ + ring_tokens(clock_period, true)
            + empty_places(3));
        assert(builder.arcs() =~= old(builder).arcs() + truck_arcs(
            first,
            clock_period,
            sem.place,
            source,
            sink,
            next_sem,
        ));
    }
    (first, last, back)
}

/// Initial tokens of the truck line.
pub open spec fn truck_tokens(clock_period: usize, unload: bool, load: bool) -> Seq<u8> {
    seq![1u8, 0u8, 0u8, 1u8, 0u8, 0u8] + (if unload {
        ring_tokens(clock_period, true) + empty_places(3)
    } else {
        Seq::<u8>::empty()
    }) + (if load {
        ring_tokens(clock_period, true) + empty_places(3)
    } else {
        Seq::<u8>::empty()
    })
}

/// The place at which the second machine of the truck line starts.
pub open spec fn truck_second(clock_period: usize, unload: bool) -> usize {
    if unload {
        (9 + ring_len(clock_period)) as usize
    } else {
        6
    }
}

/// The arcs of the truck line.
pub open spec fn truck_line_arcs(clock_period: usize, unload: bool, load: bool) -> Seq<
    (Seq<usize>, Seq<usize>),
> {
    (if unload {
        truck_arcs(6, clock_period, 3, 0, 1, 4)
    } else {
        Seq::<(Seq<usize>, Seq<usize>)>::empty()
    }) + (if load {
        truck_arcs(truck_second(clock_period, unload), clock_period, 4, 1, 2, 5)
    } else {
        Seq::<(Seq<usize>, Seq<usize>)>::empty()
    })
}

/// The truck line: a load goes from `initial` to `empty` if `unload`, and
/// on to `full` if `load`, each move made by a machine with a clock of
/// `clock_period` places, the machines taking turns through a ring of three
/// semaphores.
pub fn truck_network(clock_period: usize, unload: bool, load: bool) -> (net: TruckNetwork)
    ensures
        net.wf(),
        net.initial == 0,
        net.empty == 1,
        net.full == 2,
        net.semaphores@ == seq![3usize, 4usize, 5usize],
        net.alpha is Some <==> unload,
        net.beta is Some <==> load,
        net.alpha matches Some(t) ==> t.0 == 6 && t.1 == 5 + ring_len(clock_period) && t.2 == 8
            + ring_len(clock_period),
        net.beta matches Some(t) ==> t.1 == t.0 + ring_len(clock_period) - 1 && t.2 == t.0
            + ring_len(clock_period) + 2 && t.0 == if unload {
            9 + ring_len(clock_period)
        } else {
            6
        },
        net.network.nodes@ == truck_tokens(clock_period, unload, load),
        arcs_of(net.network.transitions@) == truck_line_arcs(clock_period, unload, load),
{
    let mut builder = PetriBuilder::new();
    let initial: usize = builder.node(1);
    let empty: usize = builder.node(0);
    let full: usize = builder.node(0);
    let semaphores = semaphore_ring(&mut builder, 3);
    let places = places_of(&semaphores);
    proof {
        assert(places@ =~= seq![3usize, 4usize, 5usize]);
        assert(builder.nodes@ =~= seq![1u8, 0u8, 0u8, 1u8, 0u8, 0u8]);
    }
    let mut alpha: Option<(usize, usize, usize)> = None;
    let mut beta: Option<(usize, usize, usize)> = None;
    proof {
        assert(builder.arcs() =~= Seq::<(Seq<usize>, Seq<usize>)>::empty());
    }
    if unload {
        proof {
            reveal_strlit("unload");
            reveal_strlit("alpha_loop");
            assert("unload"@.len() != "alpha_loop"@.len());
        }
        let line = truck_line(
            &mut builder,
            clock_period,
            semaphores[0],
            initial,
            empty,
            semaphores[1].index(),
            "alpha_in",
            "alpha_out",
            "unload",
            "alpha_loop",
        );
        alpha = Some(line);
    }
    if load {
        proof {
            reveal_strlit("load");
            reveal_strlit("beta_loop");
            assert("load"@.len() != "beta_loop"@.len());
        }
        let line = truck_line(
            &mut builder,
            clock_period,
            semaphores[1],
            empty,
            full,
            semaphores[2].index(),
            "beta_in",
            "beta_out",
            "load",
            "beta_loop",
        );
        beta = Some(line);
    }
    proof {
        assert(builder.nodes@ =~= truck_tokens(clock_period, unload, load));
        assert(builder.arcs() =~= truck_line_arcs(clock_period, unload, load));
    }
    TruckNetwork {
        initial,
        empty,
        full,
        alpha,
        beta,
        semaphores: places,
        network: builder.build(),
    }
}

/// A quay on which a crane unloads a boat, a second crane loads it again,
/// and a controller moves the load between them.
#[derive(Debug)]
pub struct BoatNetwork {
    pub initial: usize,
    pub empty_alpha: usize,
    pub empty_beta: usize,
    pub full: usize,
    pub gone: usize,
    pub gamma: (usize, usize, usize, usize),
    pub gamma_move_unload: Option<usize>,
    pub gamma_move_load: Option<usize>,
    pub semaphores: Vec<usize>,
    pub alpha: Option<(usize, usize, usize, usize)>,
    pub beta: Option<(usize, usize, usize, usize)>,
    pub network: PetriNetwork,
}

impl BoatNetwork {
    /// The net is well-formed and every recorded place is a place of it.
    pub open spec fn wf(&self) -> bool {
        let places = self.network.nodes@.len();
        &&& self.network.wf()
        &&& self.initial < places
        &&& self.empty_alpha < places
        &&& self.empty_beta < places
        &&& self.full < places
        &&& self.gone < places
        &&& self.gamma.0 < places && self.gamma.1 < places && self.gamma.2 < places && self.gamma.3
            < places
        &&& forall|k: int| 0 <= k < self.semaphores@.len() ==> #[trigger] self.semaphores@[k] < places
        &&& self.gamma_move_unload matches Some(p) ==> p < places
        &&& self.gamma_move_load matches Some(p) ==> p < places
        &&& self.alpha matches Some(t) ==> t.0 < places && t.1 < places && t.2 < places && t.3
            < places
        &&& self.beta matches Some(t) ==> t.0 < places && t.1 < places && t.2 < places && t.3
            < places
    }
}

/// The arcs of one crane of the quay, whose clock starts at the place
/// `first`, and of the controller's move that follows it.
pub open spec fn boat_arcs(
    first: usize,
    clock_period: usize,
    sem: usize,
    source: usize,
    sink: usize,
    next_sink: usize,
    gamma: (usize, usize, usize, usize),
) -> Seq<(Seq<usize>, Seq<usize>)> {
    let last = (first + ring_len(clock_period) - 1) as usize;
    let ready = (last + 1) as usize;
    let work = (last + 2) as usize;
    let back = (last + 3) as usize;
    let moving = (last + 4) as usize;
    ring(first, clock_period) + seq![
        (seq![last], seq![ready]),
        (seq![ready, sem], seq![work]),
        (seq![work], seq![back]),
        (seq![back], seq![first, sem]),
        (seq![work, source], seq![back, sink, gamma.0]),
        (seq![gamma.2, sink], seq![moving]),
        (seq![moving], seq![next_sink, gamma.3]),
    ]
}

/// Adds a crane that, once per turn of its own clock and while it holds
/// `sem`, moves the load from `source` to `sink` and wakes the controller,
/// and the controller's move of the load from `sink` to `next_sink`. The
/// result is the clock's first and last place, the place where the crane
/// waits for its clock, the place where it works, and the place where the
/// controller moves the load.
fn boat_line(
    builder: &mut PetriBuilder,
    clock_period: usize,
    sem: Semaphore,
    source: usize,
    sink: usize,
    next_sink: usize,
    gamma: (usize, usize, usize, usize),
    in_name: &str,
    out_name: &str,
    ready_name: &str,
    work_name: &str,
    loop_name: &str,
    move_name: &str,
) -> (r: ((usize, usize, usize, usize), usize))
    requires
        old(builder).wf(),
        sem.place < old(builder).nodes@.len(),
        source < old(builder).nodes@.len(),
        sink < old(builder).nodes@.len(),
        next_sink < old(builder).nodes@.len(),
        gamma.0 < old(builder).nodes@.len(),
        gamma.2 < old(builder).nodes@.len(),
        gamma.3 < old(builder).nodes@.len(),
        work_name@ != loop_name@,
    ensures
        final(builder).wf(),
        r.0.0 == old(builder).nodes@.len(),
        r.0.1 == old(builder).nodes@.len() + ring_len(clock_period) - 1,
        r.0.2 == old(builder).nodes@.len() + ring_len(clock_period) + 2,
        r.0.3 == old(builder).nodes@.len() + ring_len(clock_period) + 1,
        r.1 == old(builder).nodes@.len() + ring_len(clock_period) + 3,
        final(builder).nodes@ == old(builder).nodes@ + ring_tokens(clock_period, true)
            + empty_places(4),
        final(builder).arcs() == old(builder).arcs() + boat_arcs(
            r.0.0,
            clock_period,
            sem.place,
            source,
            sink,
            next_sink,
            gamma,
        ),
{
    let (first, last) = clock(builder, clock_period, true);
    builder.label(Label::Node(first), in_name);
    builder.label(Label::Node(last), out_name);
    let held = builder.begin_branch(last).step().label(ready_name).step_with_mod(sem.p()).label(
        work_name,
    );
    assert(held.builder.lookup(work_name@) == Some(Label::Node(held.current)));
    let done = held.step().label(loop_name);
    assert(done.builder.lookup(loop_name@) == Some(Label::Node(done.current)));
    assert(done.builder.lookup(work_name@) == Some(Label::Node((done.current - 1) as usize)));
    let work: usize = builder.get_label(work_name).unwrap().as_node().unwrap();
    let back: usize = builder.get_label(loop_name).unwrap().as_node().unwrap();
    builder.transition(arcs1(back), arcs2(first, sem.index()));
    builder.transition(arcs2(work, source), arcs3(back, sink, gamma.0));
    let gamma_move: usize = builder.node_with_label(0, move_name);
    builder.transition(arcs2(gamma.2, sink), arcs1(gamma_move));
    builder.transition(arcs1(gamma_move), arcs2(next_sink, gamma.3));
    proof {
        let ready = (last + 1) as usize;
        assert(Modifier::Take(sem.place).inputs_after(seq![ready]) =~= seq![ready, sem.place]);
        assert(Modifier::Take(sem.place).outputs_after(seq![work]) =~= seq![work]);
        assert(builder.nodes@ =~= old(builder).nodes@ + ring_tokens(clock_period, true)
            + empty_places(4));
        assert(builder.arcs() =~= old(builder).arcs() + boat_arcs(
            first,
            clock_period,
            sem.place,
            source,
            sink,
            next_sink,
            gamma,
        ));
    }
    ((first, last, back, work), gamma_move)
}

/// The controller's places on the quay: the first and last place of its
/// clock, the place from which it moves the load, and the place where it
/// gives the quay back.
pub open spec fn boat_gamma(gamma_period: usize) -> (usize, usize, usize, usize) {
    (
        7,
        (6 + ring_len(gamma_period)) as usize,
        (8 + ring_len(gamma_period)) as usize,
        (9 + ring_len(gamma_period)) as usize,
    )
}

/// The place at which the first crane of the quay starts.
pub open spec fn boat_first(gamma_period: usize) -> usize {
    (10 + ring_len(gamma_period)) as usize
}

/// The place at which the second crane of the quay starts.
pub open spec fn boat_second(clock_period: usize, gamma_period: usize, unload: bool) -> usize {
    if unload {
        (14 + ring_len(gamma_period) + ring_len(clock_period)) as usize
    } else {
        boat_first(gamma_period)
    }
}

/// Initial tokens of the quay.
pub open spec fn boat_tokens(
    clock_period: usize,
    gamma_period: usize,
    unload: bool,
    load: bool,
) -> Seq<u8> {
    seq![1u8, 0u8, 0u8, 0u8, 0u8, 1u8, 1u8] + ring_tokens(gamma_period, false) + empty_places(3)
        + (if unload {
        ring_tokens(clock_period, true) + empty_places(4)
    } else {
        Seq::<u8>::empty()
    }) + (if load {
        ring_tokens(clock_period, true) + empty_places(4)
    } else {
        Seq::<u8>::empty()
    })
}

/// The arcs of a controller whose clock starts at the place `first` and
/// which needs the semaphores at `s0` and `s1` to move.
pub open spec fn controller_arcs(first: usize, gamma_period: usize, s0: usize, s1: usize) -> Seq<
    (Seq<usize>, Seq<usize>),
> {
    let last = (first + ring_len(gamma_period) - 1) as usize;
    let ready = (last + 1) as usize;
    let premove = (last + 2) as usize;
    let release = (last + 3) as usize;
    ring(first, gamma_period) + seq![
        (seq![last], seq![ready]),
        (seq![ready, s0, s1], seq![premove]),
        (seq![premove], seq![release, first]),
        (seq![release], seq![s0, s1]),
    ]
}

/// Adds the controller: a clock that stands still until it is given a
/// token, and then, once it holds both semaphores, either gives them back
/// at once or moves the load first. The result is the first and last place
/// of its clock, the place from which it moves the load, and the place
/// where it gives the semaphores back.
fn boat_controller(builder: &mut PetriBuilder, gamma_period: usize, s0: usize, s1: usize) -> (gamma:
    (usize, usize, usize, usize))
    requires
        old(builder).wf(),
        s0 < old(builder).nodes@.len(),
        s1 < old(builder).nodes@.len(),
    ensures
        final(builder).wf(),
        gamma.0 == old(builder).nodes@.len(),
        gamma.1 == old(builder).nodes@.len() + ring_len(gamma_period) - 1,
        gamma.2 == old(builder).nodes@.len() + ring_len(gamma_period) + 1,
        gamma.3 == old(builder).nodes@.len() + ring_len(gamma_period) + 2,
        final(builder).nodes@ == old(builder).nodes@ + ring_tokens(gamma_period, false)
            + empty_places(3),
        final(builder).arcs() == old(builder).arcs() + controller_arcs(
            gamma.0,
            gamma_period,
            s0,
            s1,
        ),
{
    let (gamma_in, gamma_out) = clock(builder, gamma_period, false);
    builder.label(Label::Node(gamma_in), "gamma_in");
    builder.label(Label::Node(gamma_out), "gamma_out");
    let gamma_ready: usize = builder.node_with_label(0, "gamma_ready");
    let gamma_premove: usize = builder.node_with_label(0, "gamma_premove");
    let gamma_release: usize = builder.node_with_label(0, "gamma_release");
    builder.transition(arcs1(gamma_out), arcs1(gamma_ready));
    builder.transition(arcs3(gamma_ready, s0, s1), arcs1(gamma_premove));
    builder.transition(arcs1(gamma_premove), arcs2(gamma_release, gamma_in));
    builder.transition(arcs1(gamma_release), arcs2(s0, s1));
    proof {
        assert(builder.nodes@ =~= old(builder).nodes@ + ring_tokens(gamma_period, false)
            + empty_places(3));
        assert(builder.arcs() =~= old(builder).arcs() + controller_arcs(
            gamma_in,
            gamma_period,
            s0,
            s1,
        ));
    }
    (gamma_in, gamma_out, gamma_premove, gamma_release)
}

/// The arcs of the quay.
pub open spec fn boat_quay_arcs(
    clock_period: usize,
    gamma_period: usize,
    unload: bool,
    load: bool,
) -> Seq<(Seq<usize>, Seq<usize>)> {
    controller_arcs(7, gamma_period, 5, 6) + (if unload {
        boat_arcs(boat_first(gamma_period), clock_period, 5, 0, 1, 2, boat_gamma(gamma_period))
    } else {
        Seq::<(Seq<usize>, Seq<usize>)>::empty()
    }) + (if load {
        boat_arcs(
            boat_second(clock_period, gamma_period, unload),
            clock_period,
            6,
            2,
            3,
            4,
            boat_gamma(gamma_period),
        )
    } else {
        Seq::<(Seq<usize>, Seq<usize>)>::empty()
    })
}

/// The quay: a load goes from `initial` to `empty_alpha` and, by the
/// controller, on to `empty_beta` if `unload`; from there to `full` and, by
/// the controller, on to `gone` if `load`. The cranes have clocks of
/// `clock_period` places and the controller one of `gamma_period` places,
/// which stands still until a crane wakes it.
#[verifier::rlimit(50)]
pub fn boat_network(clock_period: usize, gamma_period: usize, unload: bool, load: bool) -> (net:
    BoatNetwork)
    ensures
        net.wf(),
        net.initial == 0,
        net.empty_alpha == 1,
        net.empty_beta == 2,
        net.full == 3,
        net.gone == 4,
        net.semaphores@ == seq![5usize, 6usize],
        net.gamma.0 == 7,
        net.gamma.1 == 6 + ring_len(gamma_period),
        net.gamma.2 == 8 + ring_len(gamma_period),
        net.gamma.3 == 9 + ring_len(gamma_period),
        net.alpha is Some <==> unload,
        net.gamma_move_unload is Some <==> unload,
        net.beta is Some <==> load,
        net.gamma_move_load is Some <==> load,
        net.alpha matches Some(t) ==> t.0 == 10 + ring_len(gamma_period) && t.1 == t.0 + ring_len(
            clock_period,
        ) - 1 && t.2 == t.0 + ring_len(clock_period) + 2 && t.3 == t.0 + ring_len(clock_period)
            + 1 && net.gamma_move_unload == Some((t.2 + 1) as usize),
        net.beta matches Some(t) ==> t.1 == t.0 + ring_len(clock_period) - 1 && t.2 == t.0
            + ring_len(clock_period) + 2 && t.3 == t.0 + ring_len(clock_period) + 1
            && net.gamma_move_load == Some((t.2 + 1) as usize) && t.0 == 10 + ring_len(
            gamma_period,
        ) + if unload {
            ring_len(clock_period) + 4
        } else {
            0
        },
        net.network.nodes@ == boat_tokens(clock_period, gamma_period, unload, load),
        arcs_of(net.network.transitions@) == boat_quay_arcs(
            clock_period,
            gamma_period,
            unload,
            load,
        ),
{
    let mut builder = PetriBuilder::new();
    let initial: usize = builder.node(1);
    let empty_alpha: usize = builder.node(0);
    let empty_beta: usize = builder.node(0);
    let full: usize = builder.node(0);
    let gone: usize = builder.node(0);
    let mut semaphores: Vec<Semaphore> = Vec::new();
    semaphores.push(Semaphore::new(&mut builder, 1));
    semaphores.push(Semaphore::new(&mut builder, 1));
    let places = places_of(&semaphores);
    proof {
        assert(places@ =~= seq![5usize, 6usize]);
        assert(builder.nodes@ =~= seq![1u8, 0u8, 0u8, 0u8, 0u8, 1u8, 1u8]);
    }
    proof {
        assert(builder.arcs() =~= Seq::<(Seq<usize>, Seq<usize>)>::empty());
    }
    let mut alpha: Option<(usize, usize, usize, usize)> = None;
    let mut beta: Option<(usize, usize, usize, usize)> = None;
    let mut gamma_move_unload: Option<usize> = None;
    let mut gamma_move_load: Option<usize> = None;

    let gamma = boat_controller(
        &mut builder,
        gamma_period,
        semaphores[0].index(),
        semaphores[1].index(),
    );
    proof {
        assert(gamma == boat_gamma(gamma_period));
        assert(builder.nodes@ =~= boat_tokens(clock_period, gamma_period, false, false));
        assert(builder.arcs() =~= controller_arcs(7, gamma_period, 5, 6));
    }

    if unload {
        proof {
            reveal_strlit("unload");
            reveal_strlit("alpha_loop");
            assert("unload"@.len() != "alpha_loop"@.len());
        }
        let line = boat_line(
            &mut builder,
            clock_period,
            semaphores[0],
            initial,
            empty_alpha,
            empty_beta,
            gamma,
            "alpha_in",
            "alpha_out",
            "alpha_ready",
            "unload",
            "alpha_loop",
            "gamma_move_unload",
        );
        alpha = Some(line.0);
        gamma_move_unload = Some(line.1);
        proof {
            assert(builder.nodes@ =~= boat_tokens(clock_period, gamma_period, true, false));
            assert(builder.arcs() =~= boat_quay_arcs(clock_period, gamma_period, true, false));
        }
    }
    if load {
        proof {
            reveal_strlit("load");
            reveal_strlit("beta_loop");
            assert("load"@.len() != "beta_loop"@.len());
        }
        let line = boat_line(
            &mut builder,
            clock_period,
            semaphores[1],
            empty_beta,
            full,
            gone,
            gamma,
            "beta_in",
            "beta_out",
            "beta_ready",
            "load",
            "beta_loop",
            "gamma_move_load",
        );
        beta = Some(line.0);
        gamma_move_load = Some(line.1);
        proof {
            assert(builder.nodes@ =~= boat_tokens(clock_period, gamma_period, unload, true));
            assert(builder.arcs() =~= boat_quay_arcs(clock_period, gamma_period, unload, true));
        }
    }
    proof {
        if !unload && !load {
            assert(builder.arcs() =~= boat_quay_arcs(clock_period, gamma_period, false, false));
        }
        if unload && !load {
            assert(builder.arcs() =~= boat_quay_arcs(clock_period, gamma_period, true, false));
        }
    }
    BoatNetwork {
        initial,
        empty_alpha,
        empty_beta,
        full,
        gone,
        gamma,
        gamma_move_unload,
        gamma_move_load,
        semaphores: places,
        alpha,
        beta,
        network: builder.build(),
    }
}

} // verus!
