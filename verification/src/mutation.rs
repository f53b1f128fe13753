//! The mutation operator of a brain: every neuron mutates, the growth that
//! the neurons asked for is carried out, and what became useless is
//! collected.

use vstd::prelude::*;

use crate::neuron::{
    at_rest, fresh_conn, is_idle, is_mutation, kin, lemma_bounded_conns, lemma_mutation_is_kin,
    linked, newborn, renumbered, retargeted, targets_below, Mutated,
};
use crate::structs::{neuron_views, Brain, BrainView, Neuron, NeuronView, OutwardConn, INPS, OUTS};

verus! {

/// Whether `neuron` has a connection, and all its connections lead below
/// `limit`.
pub open spec fn wired(neuron: NeuronView, limit: int) -> bool {
    !is_idle(neuron) && targets_below(neuron.next_conn, limit)
}

impl BrainView {
    /// The number of possible destinations: the output and hidden neurons.
    pub open spec fn recv_count(self) -> int {
        OUTS + self.hid.len()
    }

    /// The number of possible sources: all neurons.
    pub open spec fn size(self) -> int {
        INPS + self.hid.len() + OUTS
    }

    /// Whether every connection leads to a neuron that exists.
    pub open spec fn connected(self) -> bool {
        &&& forall|i: int|
            0 <= i < self.inp.len() ==> targets_below(
                (#[trigger] self.inp[i]).next_conn,
                self.recv_count(),
            )
        &&& forall|i: int|
            0 <= i < self.hid.len() ==> targets_below(
                (#[trigger] self.hid[i]).next_conn,
                self.recv_count(),
            )
        &&& forall|i: int|
            0 <= i < self.out.len() ==> targets_below(
                (#[trigger] self.out[i]).next_conn,
                self.recv_count(),
            )
    }

    /// Whether every input and every output neuron has a connection.
    pub open spec fn ends_wired(self) -> bool {
        &&& forall|i: int| 0 <= i < self.inp.len() ==> !is_idle(#[trigger] self.inp[i])
        &&& forall|i: int| 0 <= i < self.out.len() ==> !is_idle(#[trigger] self.out[i])
    }

    /// Whether some hidden neuron has no connection.
    pub open spec fn has_idle(self) -> bool {
        exists|i: int| 0 <= i < self.hid.len() && is_idle(#[trigger] self.hid[i])
    }

    /// Whether every neuron is at rest.
    pub open spec fn rested(self) -> bool {
        &&& forall|i: int| 0 <= i < self.inp.len() ==> at_rest(#[trigger] self.inp[i])
        &&& forall|i: int| 0 <= i < self.hid.len() ==> at_rest(#[trigger] self.hid[i])
        &&& forall|i: int| 0 <= i < self.out.len() ==> at_rest(#[trigger] self.out[i])
    }

    /// The invariant of a brain: three input and two output neurons, each
    /// with at least one connection; every connection leads to an output or
    /// hidden neuron that exists; and the neurons can be counted.
    pub open spec fn wf(self) -> bool {
        &&& self.inp.len() == INPS
        &&& self.out.len() == OUTS
        &&& self.size() <= usize::MAX
        &&& self.connected()
        &&& self.ends_wired()
    }
}

impl Brain {
    /// The invariant of a brain; see [`BrainView::wf`].
    pub open spec fn wf(&self) -> bool {
        self@.wf()
    }
}

/// Whether `after` is `before` with other connections: excitation, drain,
/// threshold, reachability and mutation rate are the same.
pub open spec fn rewired(before: NeuronView, after: NeuronView) -> bool {
    after == (NeuronView { next_conn: after.next_conn, ..before })
}

/// Whether each neuron of `after` is the neuron of `before` at its place,
/// with other connections.
pub open spec fn all_rewired(before: Seq<NeuronView>, after: Seq<NeuronView>) -> bool {
    &&& after.len() == before.len()
    &&& forall|i: int| 0 <= i < before.len() ==> rewired(before[i], #[trigger] after[i])
}

/// `neurons`, each without the connections that lead to `limit` or beyond.
pub open spec fn all_retargeted(neurons: Seq<NeuronView>, limit: int) -> Seq<NeuronView> {
    Seq::new(neurons.len(), |i: int| retargeted(neurons[i], limit))
}

/// `brain` without the connections that lead to no neuron.
pub open spec fn without_dangling(brain: BrainView) -> BrainView {
    BrainView {
        inp: all_retargeted(brain.inp, brain.recv_count()),
        hid: all_retargeted(brain.hid, brain.recv_count()),
        out: all_retargeted(brain.out, brain.recv_count()),
        ..brain
    }
}

/// The neurons of `neurons` that have a connection, in order.
pub open spec fn active_neurons(neurons: Seq<NeuronView>) -> Seq<NeuronView> {
    neurons.filter(|neuron: NeuronView| !is_idle(neuron))
}

/// How many of the first `count` neurons have a connection.
pub open spec fn active_before(neurons: Seq<NeuronView>, count: nat) -> nat
    decreases count,
{
    if count == 0 {
        0
    } else if is_idle(neurons[count - 1]) {
        active_before(neurons, (count - 1) as nat)
    } else {
        active_before(neurons, (count - 1) as nat) + 1
    }
}

/// Where each hidden neuron is found once those without connections have
/// gone: the destination that names it then, or `None` if it has gone.
pub open spec fn places_of(hidden: Seq<NeuronView>) -> Seq<Option<usize>> {
    Seq::new(
        hidden.len(),
        |h: int|
            if is_idle(hidden[h]) {
                None
            } else {
                Some((OUTS + active_before(hidden, h as nat)) as usize)
            },
    )
}

/// `neurons`, each with its connections renumbered.
pub open spec fn all_renumbered(neurons: Seq<NeuronView>, places: Seq<Option<usize>>) -> Seq<
    NeuronView,
> {
    Seq::new(neurons.len(), |i: int| renumbered(neurons[i], places))
}

/// `brain` without the hidden neurons that have no connection.  The hidden
/// neurons behind a removed one move up; every connection is renumbered so
/// that it leads to the neuron it led to, and a connection to a removed
/// neuron is dropped.
pub open spec fn without_idle(brain: BrainView) -> BrainView {
    let places = places_of(brain.hid);
    BrainView {
        inp: all_renumbered(brain.inp, places),
        hid: all_renumbered(active_neurons(brain.hid), places),
        out: all_renumbered(brain.out, places),
        ..brain
    }
}

/// `brain` after garbage collection: connections that lead to no neuron are
/// dropped, then hidden neurons without connections are removed with the
/// connections that led to them, and so on until nothing of either kind is
/// left.
pub open spec fn collected(brain: BrainView) -> BrainView
    decreases brain.hid.len(),
{
    let trimmed = without_dangling(brain);
    if trimmed.has_idle() {
        proof {
            lemma_active_neurons(trimmed.hid);
        }
        collected(without_idle(trimmed))
    } else {
        trimmed
    }
}

/// `brain` with one more hidden neuron behind the others, if the neurons can
/// still be counted then.
pub open spec fn with_neuron(brain: BrainView, neuron: NeuronView) -> BrainView {
    if brain.size() < usize::MAX {
        BrainView { hid: brain.hid.push(neuron), ..brain }
    } else {
        brain
    }
}

/// `brain` with `conn` added to neuron `source`, where the input neurons are
/// counted first, then the hidden neurons, then the output neurons.  A
/// source beyond them adds nothing.
pub open spec fn with_conn(brain: BrainView, source: int, conn: OutwardConn) -> BrainView {
    let inps = brain.inp.len();
    let hids = brain.hid.len();
    if 0 <= source < inps {
        BrainView { inp: brain.inp.update(source, linked(brain.inp[source], conn)), ..brain }
    } else if inps <= source < inps + hids {
        BrainView {
            hid: brain.hid.update(source - inps, linked(brain.hid[source - inps], conn)),
            ..brain
        }
    } else if inps + hids <= source < inps + hids + brain.out.len() {
        BrainView {
            out: brain.out.update(
                source - inps - hids,
                linked(brain.out[source - inps - hids], conn),
            ),
            ..brain
        }
    } else {
        brain
    }
}

/// Whether `after` is `before` with fresh connections added behind its
/// own, each to a destination below `limit`.
pub open spec fn extended(before: NeuronView, after: NeuronView, limit: int) -> bool {
    &&& rewired(before, after)
    &&& before.next_conn.len() <= after.next_conn.len()
    &&& forall|k: int|
        0 <= k < before.next_conn.len() ==> #[trigger] after.next_conn[k] == before.next_conn[k]
    &&& forall|k: int|
        before.next_conn.len() <= k < after.next_conn.len() ==> fresh_conn(
            #[trigger] after.next_conn[k],
            limit,
        )
}

/// Whether each neuron of `after` is the neuron of `before` at its place,
/// extended.
pub open spec fn all_extended(before: Seq<NeuronView>, after: Seq<NeuronView>, limit: int)
    -> bool {
    &&& after.len() == before.len()
    &&& forall|i: int| 0 <= i < before.len() ==> extended(before[i], #[trigger] after[i], limit)
}

/// Whether each neuron of `after` is kin of the neuron of `before` at its
/// place.
pub open spec fn all_kin(before: Seq<NeuronView>, after: Seq<NeuronView>) -> bool {
    &&& after.len() == before.len()
    &&& forall|i: int| 0 <= i < before.len() ==> kin(before[i], #[trigger] after[i])
}

/// How many new hidden neurons and new connections the neurons asked for.
pub struct Tally {
    pub neurons: nat,
    pub conns: nat,
}

/// Whether `after` is what the first stage of a brain's mutation can make
/// of `before` when the tally stands at `asked` before and at `asks` after:
/// the neuron mutated, and, if it is an input or output neuron that was
/// left without connections, it got one fresh connection at once.
pub open spec fn stirred(
    before: NeuronView,
    after: NeuronView,
    recv_neuron_count: int,
    is_end: bool,
    asked: Tally,
    asks: Tally,
) -> bool {
    ||| is_mutation(
        before,
        asked.neurons,
        asked.conns,
        recv_neuron_count,
        Mutated { neuron: after, new_neurons: asks.neurons, new_conns: asks.conns },
    )
    ||| {
        &&& is_end
        &&& after.next_conn.len() == 1
        &&& fresh_conn(after.next_conn[0], recv_neuron_count)
        &&& is_mutation(
            before,
            asked.neurons,
            asked.conns,
            recv_neuron_count,
            Mutated {
                neuron: NeuronView { next_conn: Seq::empty(), ..after },
                new_neurons: asks.neurons,
                new_conns: asks.conns,
            },
        )
    }
}

/// Whether the neurons of `after` are what the first stage can make of
/// those of `before`, one after the other, while the tally stands at
/// `tallies[i]` before neuron `i` and at `tallies[i + 1]` after it.
pub open spec fn stirred_in_turn(
    before: Seq<NeuronView>,
    after: Seq<NeuronView>,
    recv_neuron_count: int,
    ends: bool,
    tallies: Seq<Tally>,
) -> bool {
    &&& after.len() == before.len()
    &&& tallies.len() == before.len() + 1
    &&& forall|i: int|
        0 <= i < before.len() ==> stirred(
            before[i],
            #[trigger] after[i],
            recv_neuron_count,
            ends,
            tallies[i],
            tallies[i + 1],
        )
}

/// Whether `after` is what the first stage of a mutation can make of
/// `before`, with `asks` as the growth asked for: every neuron mutated, the
/// input neurons first, then the hidden neurons, then the output neurons,
/// and the tally went from nothing to `asks`.
pub open spec fn has_stirred(before: BrainView, after: BrainView, asks: Tally) -> bool {
    let recv = before.recv_count();
    &&& after.generation == before.generation
    &&& exists|first: Seq<Tally>, second: Seq<Tally>, third: Seq<Tally>|
        #![trigger stirred_in_turn(before.inp, after.inp, recv, true, first), stirred_in_turn(before.hid, after.hid, recv, false, second), stirred_in_turn(before.out, after.out, recv, true, third)]
        {
            &&& stirred_in_turn(before.inp, after.inp, recv, true, first)
            &&& stirred_in_turn(before.hid, after.hid, recv, false, second)
            &&& stirred_in_turn(before.out, after.out, recv, true, third)
            &&& first.first() == Tally { neurons: 0, conns: 0 }
            &&& second.first() == first.last()
            &&& third.first() == second.last()
            &&& third.last() == asks
        }
}

/// How many of `count` new hidden neurons `brain` has room for.
pub open spec fn room_for(brain: BrainView, count: nat) -> int {
    if brain.size() + count > usize::MAX {
        usize::MAX - brain.size()
    } else {
        count as int
    }
}

/// Whether `after` is what the second stage can make of `before`: as many
/// of the `count` new hidden neurons as there is room for stand behind the
/// others, each newborn with one fresh connection into the destinations
/// that existed when it was added.
pub open spec fn has_grown(before: BrainView, after: BrainView, count: nat) -> bool {
    &&& after.inp == before.inp
    &&& after.out == before.out
    &&& after.generation == before.generation
    &&& after.hid.len() == before.hid.len() + room_for(before, count)
    &&& forall|i: int| 0 <= i < before.hid.len() ==> #[trigger] after.hid[i] == before.hid[i]
    &&& forall|i: int|
        before.hid.len() <= i < after.hid.len() ==> newborn(#[trigger] after.hid[i], OUTS + i)
}

/// Whether `after` is what the third stage can make of `before`: `count`
/// times, a fresh connection was added to some neuron.
pub open spec fn has_joined(before: BrainView, after: BrainView, count: nat) -> bool
    decreases count,
{
    if count == 0 {
        after == before
    } else {
        exists|mid: BrainView, source: int, conn: OutwardConn|
            has_joined(before, mid, (count - 1) as nat) && 0 <= source < mid.size() && fresh_conn(
                conn,
                before.recv_count(),
            ) && after == #[trigger] with_conn(mid, source, conn)
    }
}

/// Whether `after` is `before`, re-seeded if need be: with one fresh
/// connection if `before` has none.
pub open spec fn reseeded(before: NeuronView, after: NeuronView, recv_neuron_count: int) -> bool {
    if is_idle(before) {
        rewired(before, after) && after.next_conn.len() == 1 && fresh_conn(
            after.next_conn[0],
            recv_neuron_count,
        )
    } else {
        after == before
    }
}

/// Whether `after` is what the last stage can make of `before`: every
/// input and output neuron without connections got one fresh connection.
pub open spec fn has_reseeded(before: BrainView, after: BrainView) -> bool {
    &&& after.hid == before.hid
    &&& after.generation == before.generation
    &&& after.inp.len() == before.inp.len()
    &&& after.out.len() == before.out.len()
    &&& forall|i: int|
        0 <= i < before.inp.len() ==> reseeded(
            before.inp[i],
            #[trigger] after.inp[i],
            before.recv_count(),
        )
    &&& forall|i: int|
        0 <= i < before.out.len() ==> reseeded(
            before.out[i],
            #[trigger] after.out[i],
            before.recv_count(),
        )
}

/// Whether `after` is a mutation of `before`: what the five stages make of
/// it, one after the other, for some outcome of the draws.  Every neuron
/// mutates; the hidden neurons asked for are added; the connections asked
/// for are added; garbage is collected; bare input and output neurons are
/// re-seeded.
pub open spec fn evolved(before: BrainView, after: BrainView) -> bool {
    exists|mixed: BrainView, asks: Tally, grown: BrainView, joined: BrainView|
        #![trigger has_stirred(before, mixed, asks), has_grown(mixed, grown, asks.neurons), has_joined(grown, joined, asks.conns)]
        has_stirred(before, mixed, asks) && has_grown(mixed, grown, asks.neurons) && has_joined(
            grown,
            joined,
            asks.conns,
        ) && has_reseeded(collected(joined), after)
}

/// Removing idle neurons leaves none, keeps the others as they are, and
/// shortens the list if there was one.
pub proof fn lemma_active_neurons(neurons: Seq<NeuronView>)
    ensures
        active_neurons(neurons).len() <= neurons.len(),
        forall|i: int|
            0 <= i < active_neurons(neurons).len() ==> !is_idle(
                #[trigger] active_neurons(neurons)[i],
            ) && neurons.contains(active_neurons(neurons)[i]),
        (exists|i: int| 0 <= i < neurons.len() && is_idle(#[trigger] neurons[i]))
            ==> active_neurons(neurons).len() < neurons.len(),
        (forall|i: int| 0 <= i < neurons.len() ==> !is_idle(#[trigger] neurons[i]))
            ==> active_neurons(neurons) == neurons,
    decreases neurons.len(),
{
    reveal(Seq::filter);
    if neurons.len() > 0 {
        let front = neurons.drop_last();
        lemma_active_neurons(front);
        assert forall|i: int| 0 <= i < active_neurons(neurons).len() implies !is_idle(
            #[trigger] active_neurons(neurons)[i],
        ) && neurons.contains(active_neurons(neurons)[i]) by {
            if i < active_neurons(front).len() {
                let j = choose|j: int| 0 <= j < front.len() && front[j] == active_neurons(front)[i];
                assert(neurons[j] == active_neurons(neurons)[i]);
            } else {
                assert(neurons[neurons.len() - 1] == active_neurons(neurons)[i]);
            }
        }
        if exists|i: int| 0 <= i < neurons.len() && is_idle(#[trigger] neurons[i]) {
            let i = choose|i: int| 0 <= i < neurons.len() && is_idle(#[trigger] neurons[i]);
            if i < front.len() {
                assert(is_idle(front[i]));
            }
        }
        if forall|i: int| 0 <= i < neurons.len() ==> !is_idle(#[trigger] neurons[i]) {
            assert forall|i: int| 0 <= i < front.len() implies !is_idle(#[trigger] front[i]) by {
                assert(front[i] == neurons[i]);
            }
            assert(!is_idle(neurons[neurons.len() - 1]));
            assert(front.push(neurons.last()) =~= neurons);
        }
    }
}

/// How many of the first neurons have a connection depends on those
/// neurons alone.
pub proof fn lemma_active_before_prefix(
    first: Seq<NeuronView>,
    second: Seq<NeuronView>,
    count: nat,
)
    requires
        count <= first.len(),
        count <= second.len(),
        forall|i: int| 0 <= i < count ==> #[trigger] first[i] == second[i],
    ensures
        active_before(first, count) == active_before(second, count),
    decreases count,
{
    if count > 0 {
        lemma_active_before_prefix(first, second, (count - 1) as nat);
    }
}

/// As many neurons stay as have a connection.
pub proof fn lemma_active_count(neurons: Seq<NeuronView>)
    ensures
        active_neurons(neurons).len() == active_before(neurons, neurons.len()),
    decreases neurons.len(),
{
    reveal(Seq::filter);
    if neurons.len() > 0 {
        let front = neurons.drop_last();
        lemma_active_count(front);
        lemma_active_before_prefix(front, neurons, front.len());
    }
}

/// Renumbering keeps every connection on its neuron: a hidden neuron that
/// stays is found, among those that stay, at the place that `places_of`
/// gives it.
pub proof fn lemma_places_keep_targets(hidden: Seq<NeuronView>, place: int)
    requires
        0 <= place < hidden.len(),
        !is_idle(hidden[place]),
    ensures
        active_before(hidden, place as nat) < active_neurons(hidden).len(),
        active_neurons(hidden)[active_before(hidden, place as nat) as int] == hidden[place],
    decreases hidden.len(),
{
    reveal(Seq::filter);
    let front = hidden.drop_last();
    lemma_active_before_prefix(front, hidden, front.len());
    if place < front.len() {
        lemma_places_keep_targets(front, place);
        lemma_active_before_prefix(front, hidden, place as nat);
    } else {
        lemma_active_count(front);
    }
}

/// Removing idle neurons from a list that grew by one neuron.
pub proof fn lemma_active_neurons_push(neurons: Seq<NeuronView>, neuron: NeuronView)
    ensures
        active_neurons(neurons.push(neuron)) == if is_idle(neuron) {
            active_neurons(neurons)
        } else {
            active_neurons(neurons).push(neuron)
        },
{
    reveal(Seq::filter);
    assert(neurons.push(neuron).drop_last() =~= neurons);
}

/// Dropping dangling connections leaves every connection with a
/// destination, and changes nothing else.
pub proof fn lemma_without_dangling(brain: BrainView)
    ensures
        without_dangling(brain).connected(),
        all_rewired(brain.inp, without_dangling(brain).inp),
        all_rewired(brain.hid, without_dangling(brain).hid),
        all_rewired(brain.out, without_dangling(brain).out),
        brain.connected() ==> without_dangling(brain) == brain,
{
    let limit = brain.recv_count();
    let trimmed = without_dangling(brain);
    assert forall|i: int| 0 <= i < trimmed.inp.len() implies targets_below(
        (#[trigger] trimmed.inp[i]).next_conn,
        limit,
    ) by {
        lemma_bounded_conns(brain.inp[i].next_conn, limit);
    }
    assert forall|i: int| 0 <= i < trimmed.hid.len() implies targets_below(
        (#[trigger] trimmed.hid[i]).next_conn,
        limit,
    ) by {
        lemma_bounded_conns(brain.hid[i].next_conn, limit);
    }
    assert forall|i: int| 0 <= i < trimmed.out.len() implies targets_below(
        (#[trigger] trimmed.out[i]).next_conn,
        limit,
    ) by {
        lemma_bounded_conns(brain.out[i].next_conn, limit);
    }
    if brain.connected() {
        assert forall|i: int| 0 <= i < brain.inp.len() implies trimmed.inp[i] == brain.inp[i] by {
            lemma_bounded_conns(brain.inp[i].next_conn, limit);
        }
        assert forall|i: int| 0 <= i < brain.hid.len() implies trimmed.hid[i] == brain.hid[i] by {
            lemma_bounded_conns(brain.hid[i].next_conn, limit);
        }
        assert forall|i: int| 0 <= i < brain.out.len() implies trimmed.out[i] == brain.out[i] by {
            lemma_bounded_conns(brain.out[i].next_conn, limit);
        }
        assert(trimmed.inp =~= brain.inp);
        assert(trimmed.hid =~= brain.hid);
        assert(trimmed.out =~= brain.out);
    }
}

/// After garbage collection every connection has a destination and every
/// hidden neuron has a connection.  Input and output neurons keep all but
/// their connections; hidden neurons are not created, only removed, and
/// nothing but connections is taken from those that stay.
pub proof fn lemma_collected(brain: BrainView)
    ensures
        collected(brain).connected(),
        !collected(brain).has_idle(),
        all_rewired(brain.inp, collected(brain).inp),
        all_rewired(brain.out, collected(brain).out),
        collected(brain).hid.len() <= brain.hid.len(),
        collected(brain).generation == brain.generation,
        (forall|i: int| 0 <= i < brain.hid.len() ==> at_rest(#[trigger] brain.hid[i])) ==> (
        forall|i: int|
            0 <= i < collected(brain).hid.len() ==> at_rest(#[trigger] collected(brain).hid[i])),
        brain.connected() && !brain.has_idle() ==> collected(brain) == brain,
    decreases brain.hid.len(),
{
    let trimmed = without_dangling(brain);
    lemma_without_dangling(brain);
    if trimmed.has_idle() {
        lemma_active_neurons(trimmed.hid);
        let next = without_idle(trimmed);
        lemma_collected(next);
        if forall|i: int| 0 <= i < brain.hid.len() ==> at_rest(#[trigger] brain.hid[i]) {
            assert forall|i: int| 0 <= i < next.hid.len() implies at_rest(
                #[trigger] next.hid[i],
            ) by {
                let active = active_neurons(trimmed.hid);
                let j = choose|j: int| 0 <= j < trimmed.hid.len() && trimmed.hid[j] == active[i];
                assert(rewired(brain.hid[j], trimmed.hid[j]));
                assert(next.hid[i] == renumbered(active[i], places_of(trimmed.hid)));
            }
        }
        assert(all_rewired(brain.inp, collected(brain).inp)) by {
            assert forall|i: int| 0 <= i < brain.inp.len() implies rewired(
                brain.inp[i],
                #[trigger] collected(brain).inp[i],
            ) by {
                assert(rewired(brain.inp[i], trimmed.inp[i]));
                assert(rewired(next.inp[i], collected(next).inp[i]));
            }
        }
        assert(all_rewired(brain.out, collected(brain).out)) by {
            assert forall|i: int| 0 <= i < brain.out.len() implies rewired(
                brain.out[i],
                #[trigger] collected(brain).out[i],
            ) by {
                assert(rewired(brain.out[i], trimmed.out[i]));
                assert(rewired(next.out[i], collected(next).out[i]));
            }
        }
        if brain.connected() && !brain.has_idle() {
            assert(trimmed == brain);
        }
    } else {
        if forall|i: int| 0 <= i < brain.hid.len() ==> at_rest(#[trigger] brain.hid[i]) {
            assert forall|i: int| 0 <= i < trimmed.hid.len() implies at_rest(
                #[trigger] trimmed.hid[i],
            ) by {
                assert(rewired(brain.hid[i], trimmed.hid[i]));
            }
        }
    }
}

impl Brain {
    /// Removes every connection that leads to no neuron.
    pub fn drop_dangling(&mut self)
        requires
            old(self)@.size() <= usize::MAX,
        ensures
            final(self)@ == without_dangling(old(self)@),
    {
        let limit: usize = self.neurons_hid.len() + OUTS;
        let ghost before = self@;
        self.neurons_inp[0].retarget(limit);
        self.neurons_inp[1].retarget(limit);
        self.neurons_inp[2].retarget(limit);
        self.neurons_out[0].retarget(limit);
        self.neurons_out[1].retarget(limit);
        let count: usize = self.neurons_hid.len();
        let ghost inp = self.neurons_inp;
        let ghost out = self.neurons_out;
        let mut i: usize = 0;
        while i < count
            invariant
                i <= count,
                count == self.neurons_hid.len(),
                count == before.hid.len(),
                forall|j: int|
                    0 <= j < i ==> #[trigger] self@.hid[j] == retargeted(
                        before.hid[j],
                        limit as int,
                    ),
                forall|j: int| i <= j < count ==> #[trigger] self@.hid[j] == before.hid[j],
                self.neurons_inp == inp,
                self.neurons_out == out,
                self.generation == before.generation,
            decreases count - i,
        {
            let ghost current = self@.hid;
            assert(current[i as int] == before.hid[i as int]);
            self.neurons_hid[i].retarget(limit);
            assert forall|j: int| 0 <= j < i + 1 implies #[trigger] self@.hid[j] == retargeted(
                before.hid[j],
                limit as int,
            ) by {
                if j < i {
                    assert(self@.hid[j] == current[j]);
                }
            }
            assert forall|j: int| i + 1 <= j < count implies #[trigger] self@.hid[j]
                == before.hid[j] by {
                assert(self@.hid[j] == current[j]);
            }
            i += 1;
        }
        assert(self@.inp =~= without_dangling(before).inp);
        assert(self@.out =~= without_dangling(before).out);
        assert(self@.hid =~= without_dangling(before).hid);
    }

    /// Whether some hidden neuron has no connection.
    pub fn has_idle(&self) -> (idle: bool)
        ensures
            idle == self@.has_idle(),
    {
        let mut i: usize = 0;
        while i < self.neurons_hid.len()
            invariant
                i <= self.neurons_hid.len(),
                forall|j: int| 0 <= j < i ==> !is_idle(#[trigger] self@.hid[j]),
            decreases self.neurons_hid.len() - i,
        {
            if self.neurons_hid[i].next_conn.len() == 0 {
                assert(is_idle(self@.hid[i as int]));
                return true;
            }
            i += 1;
        }
        false
    }

    /// Removes the hidden neurons that have no connection, renumbers the
    /// connections to the neurons that move up, and drops the connections
    /// that led to a removed neuron.
    pub fn drop_idle(&mut self)
        requires
            old(self)@.size() <= usize::MAX,
        ensures
            final(self)@ == without_idle(old(self)@),
    {
        let ghost before = self@.hid;
        let mut places: Vec<Option<usize>> = Vec::new();
        let mut active: usize = 0;
        let mut h: usize = 0;
        while h < self.neurons_hid.len()
            invariant
                h <= self.neurons_hid.len(),
                self@ == old(self)@,
                before == self@.hid,
                self@.size() <= usize::MAX,
                places@.len() == h,
                active == active_before(before, h as nat),
                active <= h,
                forall|k: int| 0 <= k < h ==> #[trigger] places@[k] == places_of(before)[k],
            decreases self.neurons_hid.len() - h,
        {
            let ghost table = places@;
            if self.neurons_hid[h].next_conn.len() == 0 {
                places.push(None);
            } else {
                places.push(Some(OUTS + active));
                active += 1;
            }
            assert forall|k: int| 0 <= k < h + 1 implies #[trigger] places@[k] == places_of(
                before,
            )[k] by {
                if k < h {
                    assert(places@[k] == table[k]);
                }
            }
            h += 1;
        }
        assert(places@ =~= places_of(before));

        let ghost mut seen: int = 0;
        let mut i: usize = 0;
        assert(self@.hid.take(0) =~= active_neurons(before.take(0))) by {
            reveal(Seq::filter);
        }
        assert(self@.hid.skip(0) =~= before.skip(0));
        while i < self.neurons_hid.len()
            invariant
                i <= self.neurons_hid.len(),
                0 <= seen <= before.len(),
                self.neurons_hid.len() - i == before.len() - seen,
                self@.hid.take(i as int) == active_neurons(before.take(seen)),
                self@.hid.skip(i as int) == before.skip(seen),
                self.neurons_inp == old(self).neurons_inp,
                self.neurons_out == old(self).neurons_out,
                self.generation == old(self).generation,
            decreases self.neurons_hid.len() - i,
        {
            let ghost current = self@.hid;
            assert(current[i as int] == current.skip(i as int)[0]);
            assert(before[seen] == before.skip(seen)[0]);
            proof {
                lemma_active_neurons_push(before.take(seen), before[seen]);
                assert(before.take(seen + 1) =~= before.take(seen).push(before[seen]));
            }
            if self.neurons_hid[i].next_conn.len() == 0 {
                self.neurons_hid.remove(i);
                assert(self@.hid.take(i as int) =~= current.take(i as int));
                assert(self@.hid.skip(i as int) =~= current.skip(i as int).skip(1));
                assert(before.skip(seen + 1) =~= before.skip(seen).skip(1));
            } else {
                assert(current.take(i + 1) =~= current.take(i as int).push(current[i as int]));
                assert(current.skip(i + 1) =~= current.skip(i as int).skip(1));
                assert(before.skip(seen + 1) =~= before.skip(seen).skip(1));
                i += 1;
            }
            proof {
                seen = seen + 1;
            }
        }
        assert(self@.hid.take(i as int) =~= self@.hid);
        assert(before.take(seen) =~= before);

        let ghost left = self@;
        assert(left.hid == active_neurons(before));
        self.neurons_inp[0].renumber(&places);
        self.neurons_inp[1].renumber(&places);
        self.neurons_inp[2].renumber(&places);
        self.neurons_out[0].renumber(&places);
        self.neurons_out[1].renumber(&places);
        let count: usize = self.neurons_hid.len();
        let ghost inp = self.neurons_inp;
        let ghost out = self.neurons_out;
        let mut i: usize = 0;
        while i < count
            invariant
                i <= count,
                count == self.neurons_hid.len(),
                count == left.hid.len(),
                forall|j: int|
                    0 <= j < i ==> #[trigger] self@.hid[j] == renumbered(left.hid[j], places@),
                forall|j: int| i <= j < count ==> #[trigger] self@.hid[j] == left.hid[j],
                self.neurons_inp == inp,
                self.neurons_out == out,
                self.generation == left.generation,
            decreases count - i,
        {
            let ghost current = self@.hid;
            assert(current[i as int] == left.hid[i as int]);
            self.neurons_hid[i].renumber(&places);
            assert forall|j: int| 0 <= j < i + 1 implies #[trigger] self@.hid[j] == renumbered(
                left.hid[j],
                places@,
            ) by {
                if j < i {
                    assert(self@.hid[j] == current[j]);
                }
            }
            assert forall|j: int| i + 1 <= j < count implies #[trigger] self@.hid[j]
                == left.hid[j] by {
                assert(self@.hid[j] == current[j]);
            }
            i += 1;
        }
        assert(self@.inp =~= without_idle(old(self)@).inp);
        assert(self@.out =~= without_idle(old(self)@).out);
        assert(self@.hid =~= without_idle(old(self)@).hid);
    }

    /// Collects garbage: drops the connections that lead to no neuron and
    /// the hidden neurons without connections, until none of either is left.
    pub fn collect_garbage(&mut self)
        requires
            old(self)@.size() <= usize::MAX,
        ensures
            final(self)@ == collected(old(self)@),
    {
        let ghost mut start = self@;
        self.drop_dangling();
        while self.has_idle()
            invariant
                start.size() <= usize::MAX,
                self@ == without_dangling(start),
                collected(start) == collected(old(self)@),
            decreases self.neurons_hid.len(),
        {
            let ghost before = self@;
            proof {
                lemma_active_neurons(before.hid);
                start = without_idle(before);
            }
            self.drop_idle();
            assert(self@.hid.len() < before.hid.len());
            self.drop_dangling();
            assert(self@.hid.len() == start.hid.len());
        }
    }

    /// Mutates every neuron in turn: the input neurons, then the hidden
    /// neurons, then the output neurons.  An input or output neuron that is
    /// left without connections is re-seeded at once.  Returns how many new
    /// neurons and how many new connections the neurons asked for.
    fn mutate_neurons(&mut self) -> (tallies: (usize, usize))
        requires
            old(self)@.size() <= usize::MAX,
        ensures
            has_stirred(
                old(self)@,
                final(self)@,
                Tally { neurons: tallies.0 as nat, conns: tallies.1 as nat },
            ),
            all_kin(old(self)@.inp, final(self)@.inp),
            all_kin(old(self)@.hid, final(self)@.hid),
            all_kin(old(self)@.out, final(self)@.out),
    {
        let recv_neurons: usize = self.neurons_hid.len() + OUTS;
        let mut new_neurons: usize = 0;
        let mut new_conns: usize = 0;

        let ghost mut first: Seq<Tally> = seq![Tally { neurons: 0, conns: 0 }];
        let mut i: usize = 0;
        while i < INPS
            invariant
                i <= INPS,
                recv_neurons == old(self)@.recv_count(),
                self@.hid == old(self)@.hid,
                self@.out == old(self)@.out,
                self@.generation == old(self)@.generation,
                first.len() == i + 1,
                first[0] == (Tally { neurons: 0, conns: 0 }),
                first[i as int] == (Tally { neurons: new_neurons as nat, conns: new_conns as nat }),
                forall|j: int|
                    0 <= j < i ==> stirred(
                        old(self)@.inp[j],
                        #[trigger] self@.inp[j],
                        recv_neurons as int,
                        true,
                        first[j],
                        first[j + 1],
                    ) && kin(old(self)@.inp[j], self@.inp[j]),
                forall|j: int| i <= j < INPS ==> #[trigger] self@.inp[j] == old(self)@.inp[j],
            decreases INPS - i,
        {
            let ghost before = self@;
            let ghost tallies = first;
            self.neurons_inp[i].stir(&mut new_neurons, &mut new_conns, recv_neurons, true);
            proof {
                first = tallies.push(Tally { neurons: new_neurons as nat, conns: new_conns as nat });
                assert(before.inp[i as int] == old(self)@.inp[i as int]);
                assert forall|j: int| 0 <= j < i + 1 implies stirred(
                    old(self)@.inp[j],
                    #[trigger] self@.inp[j],
                    recv_neurons as int,
                    true,
                    first[j],
                    first[j + 1],
                ) && kin(old(self)@.inp[j], self@.inp[j]) by {
                    if j < i {
                        assert(self@.inp[j] == before.inp[j]);
                        assert(first[j] == tallies[j] && first[j + 1] == tallies[j + 1]);
                    }
                }
                assert forall|j: int| i + 1 <= j < INPS implies #[trigger] self@.inp[j] == old(
                    self,
                )@.inp[j] by {
                    assert(self@.inp[j] == before.inp[j]);
                }
            }
            i += 1;
        }

        let hids: usize = self.neurons_hid.len();
        let ghost inp = self@.inp;
        let ghost mut second: Seq<Tally> = seq![
            Tally { neurons: new_neurons as nat, conns: new_conns as nat },
        ];
        let mut i: usize = 0;
        while i < hids
            invariant
                i <= hids,
                hids == self.neurons_hid.len(),
                hids == old(self)@.hid.len(),
                recv_neurons == old(self)@.recv_count(),
                self@.inp == inp,
                self@.out == old(self)@.out,
                self@.generation == old(self)@.generation,
                second.len() == i + 1,
                second[0] == first.last(),
                second[i as int] == (Tally { neurons: new_neurons as nat, conns: new_conns as nat }),
                forall|j: int|
                    0 <= j < i ==> stirred(
                        old(self)@.hid[j],
                        #[trigger] self@.hid[j],
                        recv_neurons as int,
                        false,
                        second[j],
                        second[j + 1],
                    ) && kin(old(self)@.hid[j], self@.hid[j]),
                forall|j: int| i <= j < hids ==> #[trigger] self@.hid[j] == old(self)@.hid[j],
            decreases hids - i,
        {
            let ghost before = self@;
            let ghost tallies = second;
            self.neurons_hid[i].stir(&mut new_neurons, &mut new_conns, recv_neurons, false);
            proof {
                second = tallies.push(Tally { neurons: new_neurons as nat, conns: new_conns as nat });
                assert(before.hid[i as int] == old(self)@.hid[i as int]);
                assert forall|j: int| 0 <= j < i + 1 implies stirred(
                    old(self)@.hid[j],
                    #[trigger] self@.hid[j],
                    recv_neurons as int,
                    false,
                    second[j],
                    second[j + 1],
                ) && kin(old(self)@.hid[j], self@.hid[j]) by {
                    if j < i {
                        assert(self@.hid[j] == before.hid[j]);
                        assert(second[j] == tallies[j] && second[j + 1] == tallies[j + 1]);
                    }
                }
                assert forall|j: int| i + 1 <= j < hids implies #[trigger] self@.hid[j] == old(
                    self,
                )@.hid[j] by {
                    assert(self@.hid[j] == before.hid[j]);
                }
            }
            i += 1;
        }

        let ghost hid = self@.hid;
        let ghost mut third: Seq<Tally> = seq![
            Tally { neurons: new_neurons as nat, conns: new_conns as nat },
        ];
        let mut i: usize = 0;
        while i < OUTS
            invariant
                i <= OUTS,
                recv_neurons == old(self)@.recv_count(),
                self@.inp == inp,
                self@.hid == hid,
                self@.generation == old(self)@.generation,
                third.len() == i + 1,
                third[0] == second.last(),
                third[i as int] == (Tally { neurons: new_neurons as nat, conns: new_conns as nat }),
                forall|j: int|
                    0 <= j < i ==> stirred(
                        old(self)@.out[j],
                        #[trigger] self@.out[j],
                        recv_neurons as int,
                        true,
                        third[j],
                        third[j + 1],
                    ) && kin(old(self)@.out[j], self@.out[j]),
                forall|j: int| i <= j < OUTS ==> #[trigger] self@.out[j] == old(self)@.out[j],
            decreases OUTS - i,
        {
            let ghost before = self@;
            let ghost tallies = third;
            self.neurons_out[i].stir(&mut new_neurons, &mut new_conns, recv_neurons, true);
            proof {
                third = tallies.push(Tally { neurons: new_neurons as nat, conns: new_conns as nat });
                assert(before.out[i as int] == old(self)@.out[i as int]);
                assert forall|j: int| 0 <= j < i + 1 implies stirred(
                    old(self)@.out[j],
                    #[trigger] self@.out[j],
                    recv_neurons as int,
                    true,
                    third[j],
                    third[j + 1],
                ) && kin(old(self)@.out[j], self@.out[j]) by {
                    if j < i {
                        assert(self@.out[j] == before.out[j]);
                        assert(third[j] == tallies[j] && third[j + 1] == tallies[j + 1]);
                    }
                }
                assert forall|j: int| i + 1 <= j < OUTS implies #[trigger] self@.out[j] == old(
                    self,
                )@.out[j] by {
                    assert(self@.out[j] == before.out[j]);
                }
            }
            i += 1;
        }
        proof {
            let recv = old(self)@.recv_count();
            assert(stirred_in_turn(old(self)@.inp, self@.inp, recv, true, first));
            assert(stirred_in_turn(old(self)@.hid, self@.hid, recv, false, second));
            assert(stirred_in_turn(old(self)@.out, self@.out, recv, true, third));
        }
        (new_neurons, new_conns)
    }

    /// Mutates the brain at random.
    ///
    /// Every neuron mutates.  The new hidden neurons that the neurons asked
    /// for are added, each with one fresh connection; the new connections
    /// are added to sources drawn from all neurons.  Then garbage is
    /// collected, and an input or output neuron that lost all connections is
    /// re-seeded.
    ///
    /// The brain afterwards is what these five stages make of it for some
    /// outcome of the draws (see [`evolved`]).  Whatever was drawn, it is
    /// well formed: in particular every input and output neuron has a
    /// connection.  Every neuron is at rest, no hidden neuron is without
    /// connections, and the parameters of each input and output neuron moved
    /// by one step at most.
    pub fn mutate(&mut self)
        requires
            old(self)@.size() <= usize::MAX,
        ensures
            evolved(old(self)@, final(self)@),
            final(self).wf(),
            final(self)@.ends_wired(),
            final(self)@.rested(),
            !final(self)@.has_idle(),
            final(self)@.generation == old(self)@.generation,
            all_kin(old(self)@.inp, final(self)@.inp),
            all_kin(old(self)@.out, final(self)@.out),
    {
        let (new_neurons, new_conns) = self.mutate_neurons();
        let ghost mutated = self@;
        self.grow(new_neurons);
        let ghost grown = self@;
        self.connect(new_conns);
        let ghost joined = self@;
        self.collect_garbage();
        let ghost tidy = self@;
        proof {
            lemma_collected(joined);
        }
        self.reseed();
        proof {
            let asks = Tally { neurons: new_neurons as nat, conns: new_conns as nat };
            assert(has_stirred(old(self)@, mutated, asks));
            assert(has_grown(mutated, grown, asks.neurons));
            assert(has_joined(grown, joined, asks.conns));
            assert(has_reseeded(collected(joined), self@));
            let limit = tidy.recv_count();
            assert forall|i: int| 0 <= i < joined.hid.len() implies at_rest(
                #[trigger] joined.hid[i],
            ) by {
                assert(extended(grown.hid[i], joined.hid[i], grown.recv_count()));
                if i < mutated.hid.len() {
                    assert(grown.hid[i] == mutated.hid[i]);
                    assert(kin(old(self)@.hid[i], mutated.hid[i]));
                } else {
                    assert(newborn(grown.hid[i], OUTS + i));
                }
            }
            assert forall|i: int| 0 <= i < INPS implies kin(
                old(self)@.inp[i],
                #[trigger] self@.inp[i],
            ) && targets_below(self@.inp[i].next_conn, limit) by {
                assert(kin(old(self)@.inp[i], mutated.inp[i]));
                assert(extended(grown.inp[i], joined.inp[i], grown.recv_count()));
                assert(rewired(joined.inp[i], tidy.inp[i]));
                assert(extended(tidy.inp[i], self@.inp[i], limit));
                assert(targets_below(tidy.inp[i].next_conn, limit));
            }
            assert forall|i: int| 0 <= i < OUTS implies kin(
                old(self)@.out[i],
                #[trigger] self@.out[i],
            ) && targets_below(self@.out[i].next_conn, limit) by {
                assert(kin(old(self)@.out[i], mutated.out[i]));
                assert(extended(grown.out[i], joined.out[i], grown.recv_count()));
                assert(rewired(joined.out[i], tidy.out[i]));
                assert(extended(tidy.out[i], self@.out[i], limit));
                assert(targets_below(tidy.out[i].next_conn, limit));
            }
        }
    }

    /// Adds a hidden neuron behind the others, unless the neurons could not
    /// be counted any more.
    pub fn add_neuron(&mut self, neuron: Neuron)
        requires
            old(self)@.size() <= usize::MAX,
        ensures
            final(self)@ == with_neuron(old(self)@, neuron@),
    {
        if self.neurons_hid.len() < usize::MAX - INPS - OUTS {
            self.neurons_hid.push(neuron);
            assert(self@.hid =~= old(self)@.hid.push(neuron@));
        }
    }

    /// Adds a connection to neuron `source`, counting input neurons first,
    /// then hidden neurons, then output neurons.
    pub fn add_conn(&mut self, source: usize, conn: OutwardConn)
        requires
            old(self)@.size() <= usize::MAX,
        ensures
            final(self)@ == with_conn(old(self)@, source as int, conn),
    {
        let hids: usize = self.neurons_hid.len();
        if source < INPS {
            self.neurons_inp[source].link(conn);
            assert(self@.inp =~= old(self)@.inp.update(
                source as int,
                linked(old(self)@.inp[source as int], conn),
            ));
        } else if source < INPS + hids {
            self.neurons_hid[source - INPS].link(conn);
            assert(self@.hid =~= old(self)@.hid.update(
                source - INPS,
                linked(old(self)@.hid[source - INPS], conn),
            ));
        } else if source < INPS + hids + OUTS {
            self.neurons_out[source - INPS - hids].link(conn);
            assert(self@.out =~= old(self)@.out.update(
                source - INPS - hids,
                linked(old(self)@.out[source - INPS - hids], conn),
            ));
        }
    }

    /// Adds up to `count` new hidden neurons, each with one fresh connection
    /// into the destinations that exist when it is added.
    fn grow(&mut self, count: usize)
        requires
            old(self)@.size() <= usize::MAX,
        ensures
            final(self)@.inp == old(self)@.inp,
            final(self)@.out == old(self)@.out,
            final(self)@.generation == old(self)@.generation,
            final(self)@.size() <= usize::MAX,
            has_grown(old(self)@, final(self)@, count as nat),
    {
        let mut done: usize = 0;
        while done < count
            invariant
                done <= count,
                self@.inp == old(self)@.inp,
                self@.out == old(self)@.out,
                self@.generation == old(self)@.generation,
                self@.size() <= usize::MAX,
                old(self)@.size() <= usize::MAX,
                self@.hid.len() == old(self)@.hid.len() + room_for(old(self)@, done as nat),
                forall|i: int|
                    0 <= i < old(self)@.hid.len() ==> #[trigger] self@.hid[i] == old(self)@.hid[i],
                forall|i: int|
                    old(self)@.hid.len() <= i < self@.hid.len() ==> newborn(
                        #[trigger] self@.hid[i],
                        OUTS + i,
                    ),
            decreases count - done,
        {
            let recv_neurons: usize = self.neurons_hid.len() + OUTS;
            let ghost before = self@;
            self.add_neuron(Neuron::new(recv_neurons));
            assert forall|i: int| 0 <= i < old(self)@.hid.len() implies #[trigger] self@.hid[i]
                == old(self)@.hid[i] by {
                assert(self@.hid[i] == before.hid[i]);
            }
            assert forall|i: int| old(self)@.hid.len() <= i < self@.hid.len() implies newborn(
                #[trigger] self@.hid[i],
                OUTS + i,
            ) by {
                if i < before.hid.len() {
                    assert(self@.hid[i] == before.hid[i]);
                }
            }
            done += 1;
        }
    }

    /// Adds `count` fresh connections, each to a source drawn from all
    /// neurons.
    fn connect(&mut self, count: usize)
        requires
            old(self)@.size() <= usize::MAX,
        ensures
            all_extended(old(self)@.inp, final(self)@.inp, old(self)@.recv_count()),
            all_extended(old(self)@.hid, final(self)@.hid, old(self)@.recv_count()),
            all_extended(old(self)@.out, final(self)@.out, old(self)@.recv_count()),
            final(self)@.generation == old(self)@.generation,
            has_joined(old(self)@, final(self)@, count as nat),
    {
        let recv_neurons: usize = self.neurons_hid.len() + OUTS;
        let sources: usize = INPS + self.neurons_hid.len() + OUTS;
        let mut done: usize = 0;
        while done < count
            invariant
                done <= count,
                recv_neurons == old(self)@.recv_count(),
                sources == old(self)@.size(),
                sources <= usize::MAX,
                all_extended(old(self)@.inp, self@.inp, recv_neurons as int),
                all_extended(old(self)@.hid, self@.hid, recv_neurons as int),
                all_extended(old(self)@.out, self@.out, recv_neurons as int),
                self@.generation == old(self)@.generation,
                has_joined(old(self)@, self@, done as nat),
            decreases count - done,
        {
            let source: usize = crate::helpers::rand_range(0..sources);
            let ghost before = self@;
            self.add_conn(source, OutwardConn::new(recv_neurons));
            proof {
                lemma_with_conn_extends(old(self)@, before, source as int, self@);
            }
            done += 1;
        }
    }

    /// Gives every input and output neuron without connections one fresh
    /// connection.
    fn reseed(&mut self)
        requires
            old(self)@.size() <= usize::MAX,
        ensures
            has_reseeded(old(self)@, final(self)@),
            final(self)@.ends_wired(),
    {
        let recv_neurons: usize = self.neurons_hid.len() + OUTS;
        let mut source: usize = 0;
        while source < INPS
            invariant
                source <= INPS,
                recv_neurons == old(self)@.recv_count(),
                old(self)@.size() <= usize::MAX,
                self@.out == old(self)@.out,
                self@.hid == old(self)@.hid,
                self@.generation == old(self)@.generation,
                forall|i: int|
                    0 <= i < source ==> reseeded(
                        old(self)@.inp[i],
                        #[trigger] self@.inp[i],
                        recv_neurons as int,
                    ) && !is_idle(self@.inp[i]),
                forall|i: int| source <= i < INPS ==> #[trigger] self@.inp[i] == old(self)@.inp[i],
            decreases INPS - source,
        {
            let ghost before = self@;
            if self.neurons_inp[source].next_conn.len() < 1 {
                self.add_conn(source, OutwardConn::new(recv_neurons));
            }
            proof {
                assert forall|i: int| 0 <= i < source + 1 implies reseeded(
                    old(self)@.inp[i],
                    #[trigger] self@.inp[i],
                    recv_neurons as int,
                ) && !is_idle(self@.inp[i]) by {
                    if i < source {
                        assert(self@.inp[i] == before.inp[i]);
                    } else {
                        assert(before.inp[i] == old(self)@.inp[i]);
                    }
                }
                assert forall|i: int| source + 1 <= i < INPS implies #[trigger] self@.inp[i]
                    == old(self)@.inp[i] by {
                    assert(self@.inp[i] == before.inp[i]);
                }
            }
            source += 1;
        }
        let hids: usize = self.neurons_hid.len();
        let ghost inp = self@.inp;
        let mut k: usize = 0;
        while k < OUTS
            invariant
                k <= OUTS,
                hids == self@.hid.len(),
                recv_neurons == old(self)@.recv_count(),
                old(self)@.size() <= usize::MAX,
                self@.inp == inp,
                self@.hid == old(self)@.hid,
                self@.generation == old(self)@.generation,
                forall|i: int|
                    0 <= i < k ==> reseeded(
                        old(self)@.out[i],
                        #[trigger] self@.out[i],
                        recv_neurons as int,
                    ) && !is_idle(self@.out[i]),
                forall|i: int| k <= i < OUTS ==> #[trigger] self@.out[i] == old(self)@.out[i],
            decreases OUTS - k,
        {
            let ghost before = self@;
            if self.neurons_out[k].next_conn.len() < 1 {
                self.add_conn(INPS + hids + k, OutwardConn::new(recv_neurons));
            }
            proof {
                assert forall|i: int| 0 <= i < k + 1 implies reseeded(
                    old(self)@.out[i],
                    #[trigger] self@.out[i],
                    recv_neurons as int,
                ) && !is_idle(self@.out[i]) by {
                    if i < k {
                        assert(self@.out[i] == before.out[i]);
                    } else {
                        assert(before.out[i] == old(self)@.out[i]);
                    }
                }
                assert forall|i: int| k + 1 <= i < OUTS implies #[trigger] self@.out[i] == old(
                    self,
                )@.out[i] by {
                    assert(self@.out[i] == before.out[i]);
                }
            }
            k += 1;
        }
    }
}

/// Adding a fresh connection to a brain whose neurons are extensions leaves
/// them extensions.
proof fn lemma_with_conn_extends(start: BrainView, before: BrainView, source: int, after: BrainView)
    requires
        all_extended(start.inp, before.inp, start.recv_count()),
        all_extended(start.hid, before.hid, start.recv_count()),
        all_extended(start.out, before.out, start.recv_count()),
        exists|conn: OutwardConn|
            fresh_conn(conn, start.recv_count()) && after == #[trigger] with_conn(
                before,
                source,
                conn,
            ),
    ensures
        all_extended(start.inp, after.inp, start.recv_count()),
        all_extended(start.hid, after.hid, start.recv_count()),
        all_extended(start.out, after.out, start.recv_count()),
{
    let limit = start.recv_count();
    assert forall|i: int| 0 <= i < start.inp.len() implies extended(
        start.inp[i],
        #[trigger] after.inp[i],
        limit,
    ) by {
        assert(extended(start.inp[i], before.inp[i], limit));
    }
    assert forall|i: int| 0 <= i < start.hid.len() implies extended(
        start.hid[i],
        #[trigger] after.hid[i],
        limit,
    ) by {
        assert(extended(start.hid[i], before.hid[i], limit));
    }
    assert forall|i: int| 0 <= i < start.out.len() implies extended(
        start.out[i],
        #[trigger] after.out[i],
        limit,
    ) by {
        assert(extended(start.out[i], before.out[i], limit));
    }
}

/// A brain that keeps its neurons and their connections stays well formed.
pub proof fn lemma_same_wiring_wf(before: BrainView, after: BrainView)
    requires
        before.wf(),
        crate::brain::same_wiring(before, after),
    ensures
        after.wf(),
{
    assert forall|i: int| 0 <= i < after.inp.len() implies targets_below(
        (#[trigger] after.inp[i]).next_conn,
        after.recv_count(),
    ) && !is_idle(after.inp[i]) by {
        assert(!is_idle(before.inp[i]));
        assert(targets_below(before.inp[i].next_conn, before.recv_count()));
    }
    assert forall|i: int| 0 <= i < after.hid.len() implies targets_below(
        (#[trigger] after.hid[i]).next_conn,
        after.recv_count(),
    ) by {
        assert(targets_below(before.hid[i].next_conn, before.recv_count()));
    }
    assert forall|i: int| 0 <= i < after.out.len() implies targets_below(
        (#[trigger] after.out[i]).next_conn,
        after.recv_count(),
    ) && !is_idle(after.out[i]) by {
        assert(!is_idle(before.out[i]));
        assert(targets_below(before.out[i].next_conn, before.recv_count()));
    }
}

impl Neuron {
    /// Mutates the neuron as the first stage of a brain's mutation does:
    /// the neuron mutates, and an input or output neuron that is left
    /// without connections gets one fresh connection at once.
    pub fn stir(
        &mut self,
        new_neuron_count: &mut usize,
        new_conn_count: &mut usize,
        recv_neuron_count: usize,
        is_end: bool,
    )
        requires
            recv_neuron_count > 0,
        ensures
            stirred(
                old(self)@,
                final(self)@,
                recv_neuron_count as int,
                is_end,
                Tally {
                    neurons: *old(new_neuron_count) as nat,
                    conns: *old(new_conn_count) as nat,
                },
                Tally {
                    neurons: *final(new_neuron_count) as nat,
                    conns: *final(new_conn_count) as nat,
                },
            ),
            kin(old(self)@, final(self)@),
            is_end ==> !is_idle(final(self)@),
    {
        self.mutate(new_neuron_count, new_conn_count, recv_neuron_count);
        let ghost mutant = self@;
        proof {
            lemma_mutation_is_kin(
                old(self)@,
                *old(new_neuron_count) as nat,
                *old(new_conn_count) as nat,
                recv_neuron_count as int,
                Mutated {
                    neuron: mutant,
                    new_neurons: *new_neuron_count as nat,
                    new_conns: *new_conn_count as nat,
                },
            );
        }
        if is_end && self.next_conn.len() < 1 {
            self.link(OutwardConn::new(recv_neuron_count));
            assert((NeuronView { next_conn: Seq::empty(), ..self@ }) == mutant) by {
                assert(mutant.next_conn =~= Seq::<OutwardConn>::empty());
            }
        }
    }

    /// Whether every connection leads to a destination below `limit`.
    pub fn targets_below(&self, limit: usize) -> (ok: bool)
        ensures
            ok == targets_below(self@.next_conn, limit as int),
    {
        let mut k: usize = 0;
        while k < self.next_conn.len()
            invariant
                k <= self.next_conn.len(),
                forall|m: int| 0 <= m < k ==> (#[trigger] self@.next_conn[m]).dest_index < limit,
            decreases self.next_conn.len() - k,
        {
            if self.next_conn[k].dest_index >= limit {
                return false;
            }
            k += 1;
        }
        true
    }
}

impl Brain {
    /// Whether the brain is well formed.
    pub fn check(&self) -> (ok: bool)
        ensures
            ok == self.wf(),
    {
        if self.neurons_hid.len() > usize::MAX - INPS - OUTS {
            return false;
        }
        let limit: usize = self.neurons_hid.len() + OUTS;
        let mut i: usize = 0;
        while i < INPS
            invariant
                i <= INPS,
                limit == self@.recv_count(),
                forall|m: int| 0 <= m < i ==> wired(#[trigger] self@.inp[m], limit as int),
            decreases INPS - i,
        {
            if self.neurons_inp[i].next_conn.len() < 1 || !self.neurons_inp[i].targets_below(limit) {
                assert(!wired(self@.inp[i as int], limit as int));
                return false;
            }
            i += 1;
        }
        let mut i: usize = 0;
        while i < OUTS
            invariant
                i <= OUTS,
                limit == self@.recv_count(),
                forall|m: int| 0 <= m < INPS ==> wired(#[trigger] self@.inp[m], limit as int),
                forall|m: int| 0 <= m < i ==> wired(#[trigger] self@.out[m], limit as int),
            decreases OUTS - i,
        {
            if self.neurons_out[i].next_conn.len() < 1 || !self.neurons_out[i].targets_below(limit) {
                assert(!wired(self@.out[i as int], limit as int));
                return false;
            }
            i += 1;
        }
        let mut i: usize = 0;
        while i < self.neurons_hid.len()
            invariant
                i <= self.neurons_hid.len(),
                limit == self@.recv_count(),
                self@.size() <= usize::MAX,
                forall|m: int| 0 <= m < INPS ==> wired(#[trigger] self@.inp[m], limit as int),
                forall|m: int| 0 <= m < OUTS ==> wired(#[trigger] self@.out[m], limit as int),
                forall|m: int|
                    0 <= m < i ==> targets_below((#[trigger] self@.hid[m]).next_conn, limit as int),
            decreases self.neurons_hid.len() - i,
        {
            if !self.neurons_hid[i].targets_below(limit) {
                assert(!targets_below(self@.hid[i as int].next_conn, limit as int));
                return false;
            }
            i += 1;
        }
        true
    }
}

} // verus!
