//! What a diagnostic dump of a brain reports: the state of each neuron, and
//! how many hidden neurons took no part in the last pass.

use vstd::prelude::*;

use crate::fixed::{fx_add, sat};
use crate::neuron::{fires, is_idle};
use crate::structs::{Brain, Neuron, NeuronView, OutwardConn};

verus! {

/// The state of a neuron after a propagation pass.
#[derive(Clone, Copy, Debug, PartialEq, Eq, Structural)]
pub enum Status {
    /// Nothing was delivered to the neuron; it has this many connections.
    Unreachable(usize),
    /// The neuron was reached, but has no connection.
    Inactive,
    /// The neuron fires, and its weights sum to less than zero.
    Inhibiting,
    /// The neuron fires, and its weights sum to zero or more.
    Exciting,
    /// The neuron was reached and has connections, but does not fire.
    Silent,
}

/// The sum of the first `count` weights of `conns`, added up in order.
pub open spec fn weight_sum(conns: Seq<OutwardConn>, count: nat) -> int
    decreases count,
{
    if count == 0 {
        0
    } else {
        sat(weight_sum(conns, (count - 1) as nat) + conns[count - 1].weight)
    }
}

/// The state of `neuron`.
pub open spec fn status_of(neuron: NeuronView) -> Status {
    if !neuron.reachable {
        Status::Unreachable(neuron.next_conn.len() as usize)
    } else if is_idle(neuron) {
        Status::Inactive
    } else if !fires(neuron) {
        Status::Silent
    } else if weight_sum(neuron.next_conn, neuron.next_conn.len()) < 0 {
        Status::Inhibiting
    } else {
        Status::Exciting
    }
}

/// How many of the first `count` neurons are unreachable.
pub open spec fn unreachables(neurons: Seq<NeuronView>, count: nat) -> nat
    decreases count,
{
    if count == 0 {
        0
    } else {
        let rest = unreachables(neurons, (count - 1) as nat);
        if !neurons[count - 1].reachable {
            rest + 1
        } else {
            rest
        }
    }
}

/// How many of the first `count` neurons are unreachable and without
/// connections.
pub open spec fn inactives(neurons: Seq<NeuronView>, count: nat) -> nat
    decreases count,
{
    if count == 0 {
        0
    } else {
        let rest = inactives(neurons, (count - 1) as nat);
        if !neurons[count - 1].reachable && is_idle(neurons[count - 1]) {
            rest + 1
        } else {
            rest
        }
    }
}

proof fn lemma_counts_bounded(neurons: Seq<NeuronView>, count: nat)
    ensures
        inactives(neurons, count) <= unreachables(neurons, count) <= count,
    decreases count,
{
    if count > 0 {
        lemma_counts_bounded(neurons, (count - 1) as nat);
    }
}

impl Neuron {
    /// The state of the neuron; see [`status_of`].
    pub fn status(&self) -> (status: Status)
        ensures
            status == status_of(self@),
    {
        if !self.reachable {
            Status::Unreachable(self.next_conn.len())
        } else if self.next_conn.len() < 1 {
            Status::Inactive
        } else if !self.fires() {
            Status::Silent
        } else {
            let mut total: i64 = 0;
            let mut k: usize = 0;
            while k < self.next_conn.len()
                invariant
                    k <= self.next_conn.len(),
                    total == weight_sum(self@.next_conn, k as nat),
                decreases self.next_conn.len() - k,
            {
                total = fx_add(total, self.next_conn[k].weight);
                k += 1;
            }
            if total < 0 {
                Status::Inhibiting
            } else {
                Status::Exciting
            }
        }
    }
}

impl Brain {
    /// How many hidden neurons are unreachable, and how many of those have
    /// no connection.
    pub fn census(&self) -> (counts: (usize, usize))
        ensures
            counts.0 == unreachables(self@.hid, self@.hid.len()),
            counts.1 == inactives(self@.hid, self@.hid.len()),
    {
        let mut unreachable: usize = 0;
        let mut inactive: usize = 0;
        let mut i: usize = 0;
        while i < self.neurons_hid.len()
            invariant
                i <= self.neurons_hid.len(),
                unreachable == unreachables(self@.hid, i as nat),
                inactive == inactives(self@.hid, i as nat),
            decreases self.neurons_hid.len() - i,
        {
            proof {
                lemma_counts_bounded(self@.hid, i as nat);
            }
            if !self.neurons_hid[i].reachable {
                unreachable += 1;
                if self.neurons_hid[i].next_conn.len() < 1 {
                    inactive += 1;
                }
            }
            i += 1;
        }
        (unreachable, inactive)
    }
}

} // verus!
