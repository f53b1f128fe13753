//! The brain: forward propagation of excitation, and the mutation of the
//! network's topology and parameters.

use vstd::prelude::*;

use crate::neuron::{drained, excited, fires, impulse};
use crate::structs::{Brain, BrainView, Neuron, NeuronView, OutwardConn, INPS, OUTS};

verus! {

/// `brain` after a firing neuron with excitation `excitation` delivered over
/// `conn`: the destination takes in the impulse and becomes reachable.  A
/// connection whose destination does not exist delivers nothing.
pub open spec fn delivered(brain: BrainView, conn: OutwardConn, excitation: int) -> BrainView {
    let dest = conn.dest_index as int;
    let amount = impulse(conn, excitation);
    if dest < OUTS {
        if dest < brain.out.len() {
            BrainView { out: brain.out.update(dest, excited(brain.out[dest], amount)), ..brain }
        } else {
            brain
        }
    } else if dest - OUTS < brain.hid.len() {
        BrainView {
            hid: brain.hid.update(dest - OUTS, excited(brain.hid[dest - OUTS], amount)),
            ..brain
        }
    } else {
        brain
    }
}

/// `brain` after the first `count` connections of `conns` delivered, in
/// order.
pub open spec fn delivered_all(
    brain: BrainView,
    conns: Seq<OutwardConn>,
    excitation: int,
    count: nat,
) -> BrainView
    decreases count,
{
    if count == 0 {
        brain
    } else {
        delivered(
            delivered_all(brain, conns, excitation, (count - 1) as nat),
            conns[count - 1],
            excitation,
        )
    }
}

/// The neuron that `update_neuron` is asked to process.
pub open spec fn source(brain: BrainView, i: int, is_input: bool) -> NeuronView {
    if is_input {
        brain.inp[i]
    } else {
        brain.hid[i]
    }
}

/// `brain` after neuron `i` had its turn to fire: if its excitation has
/// reached its threshold, all its connections deliver, each scaled by the
/// excitation it had when its turn began.
pub open spec fn fired(brain: BrainView, i: int, is_input: bool) -> BrainView {
    let neuron = source(brain, i, is_input);
    if fires(neuron) {
        delivered_all(brain, neuron.next_conn, neuron.excitation, neuron.next_conn.len())
    } else {
        brain
    }
}

/// `neuron` marked reachable or not.
pub open spec fn flagged(neuron: NeuronView, reachable: bool) -> NeuronView {
    NeuronView { reachable, ..neuron }
}

/// `brain` at the start of a pass: the output neurons have decayed, and no
/// hidden or output neuron is reachable yet.
pub open spec fn pass_begun(brain: BrainView) -> BrainView {
    BrainView {
        hid: Seq::new(brain.hid.len(), |i: int| flagged(brain.hid[i], false)),
        out: Seq::new(brain.out.len(), |i: int| flagged(drained(brain.out[i]), false)),
        ..brain
    }
}

/// `brain` after input neuron `i` was processed: it is reachable
/// unconditionally, and had its turn to fire.
pub open spec fn input_done(brain: BrainView, i: int) -> BrainView {
    fired(
        BrainView { inp: brain.inp.update(i, flagged(brain.inp[i], true)), ..brain },
        i,
        true,
    )
}

/// `brain` after the first `count` input neurons were processed.
pub open spec fn inputs_done(brain: BrainView, count: nat) -> BrainView
    decreases count,
{
    if count == 0 {
        brain
    } else {
        input_done(inputs_done(brain, (count - 1) as nat), count - 1)
    }
}

/// `brain` after hidden neuron `i` was processed: only if something reached
/// it earlier in this pass does it get its turn to fire, after which it
/// decays.
pub open spec fn hidden_done(brain: BrainView, i: int) -> BrainView {
    if brain.hid[i].reachable {
        let sent = fired(brain, i, false);
        BrainView { hid: sent.hid.update(i, drained(sent.hid[i])), ..sent }
    } else {
        brain
    }
}

/// `brain` after the first `count` hidden neurons were processed, in stored
/// order.
pub open spec fn hiddens_done(brain: BrainView, count: nat) -> BrainView
    decreases count,
{
    if count == 0 {
        brain
    } else {
        hidden_done(hiddens_done(brain, (count - 1) as nat), count - 1)
    }
}

/// `brain` after one full propagation pass.
pub open spec fn propagated(brain: BrainView) -> BrainView {
    hiddens_done(inputs_done(pass_begun(brain), brain.inp.len()), brain.hid.len())
}

/// Delivering changes no connection list, threshold or drain, and adds or
/// removes no neuron.
pub proof fn lemma_delivered_keeps_shape(brain: BrainView, conn: OutwardConn, excitation: int)
    ensures
        same_shape(brain, delivered(brain, conn, excitation)),
{
}

/// Whether `after` has the neurons of `before` with the same connections.
pub open spec fn same_shape(before: BrainView, after: BrainView) -> bool {
    &&& after.inp == before.inp
    &&& after.generation == before.generation
    &&& after.hid.len() == before.hid.len()
    &&& after.out.len() == before.out.len()
    &&& forall|i: int|
        0 <= i < before.hid.len() ==> (#[trigger] after.hid[i]).next_conn
            == before.hid[i].next_conn
    &&& forall|i: int|
        0 <= i < before.out.len() ==> (#[trigger] after.out[i]).next_conn
            == before.out[i].next_conn
}

impl Brain {
    /// The input neurons, for sensing to write to.
    pub fn input(&mut self) -> (inputs: &mut [Neuron; 3])
        ensures
            *inputs == old(self).neurons_inp,
            final(self).neurons_inp == *final(inputs),
            final(self).neurons_hid == old(self).neurons_hid,
            final(self).neurons_out == old(self).neurons_out,
            final(self).generation == old(self).generation,
    {
        &mut self.neurons_inp
    }

    /// Delivers the impulse of a firing neuron over one connection.
    fn deliver(&mut self, conn: OutwardConn, excitation: i64)
        ensures
            final(self)@ == delivered(old(self)@, conn, excitation as int),
    {
        let amount: i64 = if conn.relu {
            crate::fixed::fx_mul(conn.weight, excitation)
        } else {
            conn.weight
        };
        if conn.dest_index < OUTS {
            self.neurons_out[conn.dest_index].excite(amount);
            assert(self@.out =~= old(self)@.out.update(
                conn.dest_index as int,
                excited(old(self)@.out[conn.dest_index as int], amount as int),
            ));
        } else if conn.dest_index - OUTS < self.neurons_hid.len() {
            self.neurons_hid[conn.dest_index - OUTS].excite(amount);
            assert(self@.hid =~= old(self)@.hid.update(
                conn.dest_index - OUTS,
                excited(old(self)@.hid[conn.dest_index - OUTS], amount as int),
            ));
        }
    }

    /// Gives one input or hidden neuron its turn to fire.
    fn update_neuron(&mut self, i: usize, is_input: bool)
        requires
            is_input ==> i < INPS,
            !is_input ==> i < old(self).neurons_hid.len(),
        ensures
            final(self)@ == fired(old(self)@, i as int, is_input),
    {
        let firing: bool = if is_input {
            self.neurons_inp[i].fires()
        } else {
            self.neurons_hid[i].fires()
        };
        if firing {
            let excitation: i64 = if is_input {
                self.neurons_inp[i].excitation
            } else {
                self.neurons_hid[i].excitation
            };
            let count: usize = if is_input {
                self.neurons_inp[i].next_conn.len()
            } else {
                self.neurons_hid[i].next_conn.len()
            };
            let ghost conns = source(old(self)@, i as int, is_input).next_conn;
            let mut k: usize = 0;
            while k < count
                invariant
                    k <= count,
                    count == conns.len(),
                    is_input ==> i < INPS,
                    !is_input ==> i < self.neurons_hid.len(),
                    source(self@, i as int, is_input).next_conn == conns,
                    self@ == delivered_all(old(self)@, conns, excitation as int, k as nat),
                decreases count - k,
            {
                let conn: OutwardConn = if is_input {
                    self.neurons_inp[i].next_conn[k]
                } else {
                    self.neurons_hid[i].next_conn[k]
                };
                proof {
                    lemma_delivered_keeps_shape(self@, conn, excitation as int);
                }
                self.deliver(conn, excitation);
                k += 1;
            }
        }
    }

    /// Runs one propagation pass and returns the output neurons.
    ///
    /// The output neurons decay.  Each input neuron is reachable and gets
    /// its turn to fire.  Then each hidden neuron, in stored order, gets its
    /// turn only if something was delivered to it earlier in the pass, and
    /// decays after its turn.
    pub fn update_neurons(&mut self) -> (outputs: &[Neuron; 2])
        ensures
            final(self)@ == propagated(old(self)@),
            *outputs == final(self).neurons_out,
    {
        let ghost begun = pass_begun(self@);
        self.neurons_out[0].drain();
        self.neurons_out[0].reachable = false;
        self.neurons_out[1].drain();
        self.neurons_out[1].reachable = false;
        let hids: usize = self.neurons_hid.len();
        let mut i: usize = 0;
        while i < hids
            invariant
                i <= hids,
                hids == self.neurons_hid.len(),
                hids == old(self)@.hid.len(),
                begun == pass_begun(old(self)@),
                self@.inp == begun.inp,
                self@.out =~= begun.out,
                self@.generation == begun.generation,
                forall|j: int| 0 <= j < i ==> self@.hid[j] == begun.hid[j],
                forall|j: int| i <= j < hids ==> self@.hid[j] == old(self)@.hid[j],
            decreases hids - i,
        {
            self.neurons_hid[i].reachable = false;
            i += 1;
        }
        assert(self@.hid =~= begun.hid);

        let mut i: usize = 0;
        while i < INPS
            invariant
                i <= INPS,
                self@ == inputs_done(begun, i as nat),
            decreases INPS - i,
        {
            let ghost before = self@;
            self.neurons_inp[i].reachable = true;
            assert(self@.inp =~= before.inp.update(i as int, flagged(before.inp[i as int], true)));
            self.update_neuron(i, true);
            i += 1;
        }

        let ghost sensed = self@;
        proof {
            lemma_inputs_keep_shape(begun, INPS as nat);
        }
        let mut i: usize = 0;
        while i < self.neurons_hid.len()
            invariant
                i <= self.neurons_hid.len(),
                self@.hid.len() == old(self)@.hid.len(),
                self@ == hiddens_done(sensed, i as nat),
            decreases self.neurons_hid.len() - i,
        {
            if self.neurons_hid[i].reachable {
                let ghost before = self@;
                proof {
                    lemma_fired_keeps_shape(before, i as int, false);
                }
                self.update_neuron(i, false);
                let ghost sent = self@;
                self.neurons_hid[i].drain();
                assert(self@.hid =~= sent.hid.update(i as int, drained(sent.hid[i as int])));
            }
            i += 1;
        }
        &self.neurons_out
    }
}

/// A neuron's turn to fire changes no connection list and adds or removes no
/// neuron.
pub proof fn lemma_delivered_all_keeps_shape(
    brain: BrainView,
    conns: Seq<OutwardConn>,
    excitation: int,
    count: nat,
)
    ensures
        same_shape(brain, delivered_all(brain, conns, excitation, count)),
    decreases count,
{
    if count > 0 {
        lemma_delivered_all_keeps_shape(brain, conns, excitation, (count - 1) as nat);
    }
}

/// A neuron's turn to fire changes no connection list and adds or removes no
/// neuron.
pub proof fn lemma_fired_keeps_shape(brain: BrainView, i: int, is_input: bool)
    ensures
        same_shape(brain, fired(brain, i, is_input)),
{
    let neuron = source(brain, i, is_input);
    lemma_delivered_all_keeps_shape(
        brain,
        neuron.next_conn,
        neuron.excitation,
        neuron.next_conn.len(),
    );
}

/// Processing input neurons adds or removes no hidden neuron.
pub proof fn lemma_inputs_keep_shape(brain: BrainView, count: nat)
    requires
        count <= brain.inp.len(),
    ensures
        inputs_done(brain, count).hid.len() == brain.hid.len(),
        inputs_done(brain, count).inp.len() == brain.inp.len(),
    decreases count,
{
    if count > 0 {
        lemma_inputs_keep_shape(brain, (count - 1) as nat);
        let before = inputs_done(brain, (count - 1) as nat);
        let marked = BrainView {
            inp: before.inp.update(count - 1, flagged(before.inp[count - 1], true)),
            ..before
        };
        lemma_fired_keeps_shape(marked, count - 1, true);
    }
}

/// The state in which hidden neuron `k` meets its turn in the pass that
/// starts from `brain`.
pub open spec fn at_turn(brain: BrainView, k: int) -> BrainView {
    hiddens_done(inputs_done(pass_begun(brain), brain.inp.len()), k as nat)
}

/// Whether hidden neuron `k` delivers over its connections in the pass that
/// starts from `brain`.
pub open spec fn traversed(brain: BrainView, k: int) -> bool {
    at_turn(brain, k).hid[k].reachable && fires(at_turn(brain, k).hid[k])
}

/// Whether `after` has as many hidden neurons as `before`, and each one that
/// is reachable in `before` is reachable in `after`.
pub open spec fn keeps_reached(before: BrainView, after: BrainView) -> bool {
    &&& after.hid.len() == before.hid.len()
    &&& forall|m: int|
        0 <= m < before.hid.len() && before.hid[m].reachable ==> (#[trigger] after.hid[m]).reachable
}

proof fn lemma_delivered_all_keeps_reached(
    brain: BrainView,
    conns: Seq<OutwardConn>,
    excitation: int,
    count: nat,
)
    ensures
        keeps_reached(brain, delivered_all(brain, conns, excitation, count)),
    decreases count,
{
    if count > 0 {
        let before = delivered_all(brain, conns, excitation, (count - 1) as nat);
        lemma_delivered_all_keeps_reached(brain, conns, excitation, (count - 1) as nat);
        let after = delivered(before, conns[count - 1], excitation);
        assert forall|m: int| 0 <= m < brain.hid.len() && brain.hid[m].reachable implies (
        #[trigger] after.hid[m]).reachable by {
            assert(before.hid[m].reachable);
        }
    }
}

proof fn lemma_hidden_done_keeps_reached(brain: BrainView, i: int)
    requires
        0 <= i < brain.hid.len(),
    ensures
        keeps_reached(brain, hidden_done(brain, i)),
{
    let neuron = brain.hid[i];
    lemma_delivered_all_keeps_reached(
        brain,
        neuron.next_conn,
        neuron.excitation,
        neuron.next_conn.len(),
    );
    let sent = fired(brain, i, false);
    assert forall|m: int| 0 <= m < brain.hid.len() && brain.hid[m].reachable implies (
    #[trigger] hidden_done(brain, i).hid[m]).reachable by {
        assert(sent.hid[m].reachable);
    }
}

proof fn lemma_hiddens_done_keeps_reached(brain: BrainView, from: nat, to: nat)
    requires
        from <= to <= brain.hid.len(),
    ensures
        keeps_reached(hiddens_done(brain, from), hiddens_done(brain, to)),
        hiddens_done(brain, to).hid.len() == brain.hid.len(),
    decreases to,
{
    if to == 0 {
    } else if from == to {
        lemma_hiddens_done_keeps_reached(brain, 0, (to - 1) as nat);
        lemma_hidden_done_keeps_reached(hiddens_done(brain, (to - 1) as nat), to - 1);
    } else {
        lemma_hiddens_done_keeps_reached(brain, from, (to - 1) as nat);
        let before = hiddens_done(brain, (to - 1) as nat);
        lemma_hidden_done_keeps_reached(before, to - 1);
        assert forall|m: int|
            0 <= m < brain.hid.len() && hiddens_done(brain, from).hid[m].reachable implies (
        #[trigger] hiddens_done(brain, to).hid[m]).reachable by {
            assert(before.hid[m].reachable);
        }
    }
}

/// Propagation is a function of the brain's state alone: two brains in the
/// same state are in the same state after a pass, and show the same
/// outputs.  Nothing outside the brain, and no chance, enters a pass.
pub proof fn lemma_propagation_is_deterministic(first: Brain, second: Brain)
    requires
        first@ == second@,
    ensures
        propagated(first@) == propagated(second@),
        propagated(first@).out == propagated(second@).out,
{
}

/// Reachability is sound: a hidden neuron that is not reachable when a pass
/// ends did not deliver over any of its connections during that pass.
pub proof fn lemma_unreachable_not_traversed(brain: BrainView, k: int)
    requires
        0 <= k < brain.hid.len(),
        !propagated(brain).hid[k].reachable,
    ensures
        !traversed(brain, k),
{
    let sensed = inputs_done(pass_begun(brain), brain.inp.len());
    lemma_inputs_keep_shape(pass_begun(brain), brain.inp.len());
    lemma_hiddens_done_keeps_reached(sensed, k as nat, brain.hid.len());
    if at_turn(brain, k).hid[k].reachable {
        assert(hiddens_done(sensed, brain.hid.len()).hid[k].reachable);
    }
}

/// Whether `after` has the neurons of `before`, each with the connections
/// it had.
pub open spec fn same_wiring(before: BrainView, after: BrainView) -> bool {
    &&& after.inp.len() == before.inp.len()
    &&& after.hid.len() == before.hid.len()
    &&& after.out.len() == before.out.len()
    &&& forall|i: int|
        0 <= i < before.inp.len() ==> (#[trigger] after.inp[i]).next_conn
            == before.inp[i].next_conn
    &&& forall|i: int|
        0 <= i < before.hid.len() ==> (#[trigger] after.hid[i]).next_conn
            == before.hid[i].next_conn
    &&& forall|i: int|
        0 <= i < before.out.len() ==> (#[trigger] after.out[i]).next_conn
            == before.out[i].next_conn
}

proof fn lemma_inputs_keep_wiring(brain: BrainView, count: nat)
    requires
        count <= brain.inp.len(),
    ensures
        same_wiring(brain, inputs_done(brain, count)),
        inputs_done(brain, count).generation == brain.generation,
    decreases count,
{
    if count > 0 {
        lemma_inputs_keep_wiring(brain, (count - 1) as nat);
        let before = inputs_done(brain, (count - 1) as nat);
        let marked = BrainView {
            inp: before.inp.update(count - 1, flagged(before.inp[count - 1], true)),
            ..before
        };
        lemma_fired_keeps_shape(marked, count - 1, true);
        let after = input_done(before, count - 1);
        assert forall|i: int| 0 <= i < brain.inp.len() implies (#[trigger] after.inp[i]).next_conn
            == brain.inp[i].next_conn by {
            assert(before.inp[i].next_conn == brain.inp[i].next_conn);
        }
        assert forall|i: int| 0 <= i < brain.hid.len() implies (#[trigger] after.hid[i]).next_conn
            == brain.hid[i].next_conn by {
            assert(before.hid[i].next_conn == brain.hid[i].next_conn);
        }
        assert forall|i: int| 0 <= i < brain.out.len() implies (#[trigger] after.out[i]).next_conn
            == brain.out[i].next_conn by {
            assert(before.out[i].next_conn == brain.out[i].next_conn);
        }
    }
}

proof fn lemma_hiddens_keep_wiring(brain: BrainView, count: nat)
    requires
        count <= brain.hid.len(),
    ensures
        same_wiring(brain, hiddens_done(brain, count)),
        hiddens_done(brain, count).generation == brain.generation,
    decreases count,
{
    if count > 0 {
        lemma_hiddens_keep_wiring(brain, (count - 1) as nat);
        let before = hiddens_done(brain, (count - 1) as nat);
        lemma_fired_keeps_shape(before, count - 1, false);
        let sent = fired(before, count - 1, false);
        let after = hidden_done(before, count - 1);
        assert forall|i: int| 0 <= i < brain.inp.len() implies (#[trigger] after.inp[i]).next_conn
            == brain.inp[i].next_conn by {
            assert(before.inp[i].next_conn == brain.inp[i].next_conn);
        }
        assert forall|i: int| 0 <= i < brain.hid.len() implies (#[trigger] after.hid[i]).next_conn
            == brain.hid[i].next_conn by {
            assert(before.hid[i].next_conn == brain.hid[i].next_conn);
            assert(sent.hid[i].next_conn == before.hid[i].next_conn);
        }
        assert forall|i: int| 0 <= i < brain.out.len() implies (#[trigger] after.out[i]).next_conn
            == brain.out[i].next_conn by {
            assert(before.out[i].next_conn == brain.out[i].next_conn);
            assert(sent.out[i].next_conn == before.out[i].next_conn);
        }
    }
}

/// A propagation pass changes no connection, adds or removes no neuron, and
/// keeps the generation.
pub proof fn lemma_propagated_keeps_wiring(brain: BrainView)
    ensures
        same_wiring(brain, propagated(brain)),
        propagated(brain).generation == brain.generation,
{
    let begun = pass_begun(brain);
    let sensed = inputs_done(begun, brain.inp.len());
    lemma_inputs_keep_wiring(begun, brain.inp.len());
    lemma_hiddens_keep_wiring(sensed, brain.hid.len());
    let after = propagated(brain);
    assert forall|i: int| 0 <= i < brain.inp.len() implies (#[trigger] after.inp[i]).next_conn
        == brain.inp[i].next_conn by {
        assert(sensed.inp[i].next_conn == begun.inp[i].next_conn);
    }
    assert forall|i: int| 0 <= i < brain.hid.len() implies (#[trigger] after.hid[i]).next_conn
        == brain.hid[i].next_conn by {
        assert(sensed.hid[i].next_conn == begun.hid[i].next_conn);
    }
    assert forall|i: int| 0 <= i < brain.out.len() implies (#[trigger] after.out[i]).next_conn
        == brain.out[i].next_conn by {
        assert(sensed.out[i].next_conn == begun.out[i].next_conn);
    }
}

/// Whether two brains have the same neurons but for what they remember of
/// reachability, and of their generation.
pub open spec fn same_but_flags(first: BrainView, second: BrainView) -> bool {
    &&& first.inp.len() == second.inp.len()
    &&& first.hid.len() == second.hid.len()
    &&& first.out.len() == second.out.len()
    &&& forall|i: int|
        0 <= i < first.inp.len() ==> flagged(#[trigger] first.inp[i], false) == flagged(
            second.inp[i],
            false,
        )
    &&& forall|i: int|
        0 <= i < first.hid.len() ==> flagged(#[trigger] first.hid[i], false) == flagged(
            second.hid[i],
            false,
        )
    &&& forall|i: int|
        0 <= i < first.out.len() ==> flagged(#[trigger] first.out[i], false) == flagged(
            second.out[i],
            false,
        )
}

proof fn lemma_delivered_all_alike(
    first: BrainView,
    second: BrainView,
    conns: Seq<OutwardConn>,
    excitation: int,
    count: nat,
)
    requires
        first.hid == second.hid,
        first.out == second.out,
    ensures
        delivered_all(first, conns, excitation, count).hid == delivered_all(
            second,
            conns,
            excitation,
            count,
        ).hid,
        delivered_all(first, conns, excitation, count).out == delivered_all(
            second,
            conns,
            excitation,
            count,
        ).out,
        delivered_all(first, conns, excitation, count).inp == first.inp,
        delivered_all(second, conns, excitation, count).inp == second.inp,
    decreases count,
{
    if count > 0 {
        lemma_delivered_all_alike(first, second, conns, excitation, (count - 1) as nat);
    }
}

proof fn lemma_inputs_done_alike(first: BrainView, second: BrainView, count: nat)
    requires
        count <= first.inp.len(),
        first.inp.len() == second.inp.len(),
        first.hid == second.hid,
        first.out == second.out,
        forall|i: int|
            0 <= i < first.inp.len() ==> flagged(#[trigger] first.inp[i], false) == flagged(
                second.inp[i],
                false,
            ),
    ensures
        inputs_done(first, count).hid == inputs_done(second, count).hid,
        inputs_done(first, count).out == inputs_done(second, count).out,
        inputs_done(first, count).inp.len() == first.inp.len(),
        inputs_done(second, count).inp.len() == first.inp.len(),
        forall|i: int|
            0 <= i < count ==> #[trigger] inputs_done(first, count).inp[i] == inputs_done(
                second,
                count,
            ).inp[i],
        forall|i: int|
            count <= i < first.inp.len() ==> #[trigger] inputs_done(first, count).inp[i]
                == first.inp[i] && inputs_done(second, count).inp[i] == second.inp[i],
    decreases count,
{
    if count > 0 {
        let k = count - 1;
        lemma_inputs_done_alike(first, second, k as nat);
        let x = inputs_done(first, k as nat);
        let y = inputs_done(second, k as nat);
        assert(x.inp[k] == first.inp[k] && y.inp[k] == second.inp[k]);
        assert(flagged(first.inp[k], false) == flagged(second.inp[k], false));
        let marked_x = BrainView { inp: x.inp.update(k, flagged(x.inp[k], true)), ..x };
        let marked_y = BrainView { inp: y.inp.update(k, flagged(y.inp[k], true)), ..y };
        assert(marked_x.inp[k] == marked_y.inp[k]);
        let neuron = marked_x.inp[k];
        lemma_delivered_all_alike(
            marked_x,
            marked_y,
            neuron.next_conn,
            neuron.excitation,
            neuron.next_conn.len(),
        );
        assert forall|i: int| 0 <= i < count implies #[trigger] inputs_done(first, count).inp[i]
            == inputs_done(second, count).inp[i] by {
            if i < k {
                assert(x.inp[i] == y.inp[i]);
            }
        }
    }
}

proof fn lemma_hiddens_done_alike(first: BrainView, second: BrainView, count: nat)
    requires
        count <= first.hid.len(),
        first.inp == second.inp,
        first.hid == second.hid,
        first.out == second.out,
    ensures
        hiddens_done(first, count).inp == hiddens_done(second, count).inp,
        hiddens_done(first, count).hid == hiddens_done(second, count).hid,
        hiddens_done(first, count).out == hiddens_done(second, count).out,
    decreases count,
{
    if count > 0 {
        let k = count - 1;
        lemma_hiddens_done_alike(first, second, k as nat);
        let x = hiddens_done(first, k as nat);
        let y = hiddens_done(second, k as nat);
        let neuron = x.hid[k];
        lemma_delivered_all_alike(
            x,
            y,
            neuron.next_conn,
            neuron.excitation,
            neuron.next_conn.len(),
        );
    }
}

/// Reachability is recomputed from scratch in every pass: what a brain
/// remembers of reachability from earlier passes, and its generation, have
/// no part in what a pass leaves in the neurons.
pub proof fn lemma_propagation_forgets_flags(first: BrainView, second: BrainView)
    requires
        same_but_flags(first, second),
    ensures
        propagated(first).inp == propagated(second).inp,
        propagated(first).hid == propagated(second).hid,
        propagated(first).out == propagated(second).out,
{
    let x = pass_begun(first);
    let y = pass_begun(second);
    assert(x.hid =~= y.hid) by {
        assert forall|i: int| 0 <= i < x.hid.len() implies x.hid[i] == y.hid[i] by {
            assert(flagged(first.hid[i], false) == flagged(second.hid[i], false));
        }
    }
    assert(x.out =~= y.out) by {
        assert forall|i: int| 0 <= i < x.out.len() implies x.out[i] == y.out[i] by {
            assert(flagged(first.out[i], false) == flagged(second.out[i], false));
        }
    }
    lemma_inputs_done_alike(x, y, first.inp.len());
    let sensed_x = inputs_done(x, first.inp.len());
    let sensed_y = inputs_done(y, first.inp.len());
    assert(sensed_x.inp =~= sensed_y.inp);
    lemma_inputs_keep_shape(x, first.inp.len());
    lemma_hiddens_done_alike(sensed_x, sensed_y, first.hid.len());
}

} // verus!
