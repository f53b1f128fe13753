//! Reading a drive off an output neuron.

use vstd::prelude::*;

use crate::fixed::{fx_add, fx_mul, sat};
use crate::neuron::{fires, impulse};
use crate::structs::{Neuron, NeuronView, OutwardConn};

verus! {

/// The sum of what a neuron with excitation `excitation` sends over the
/// first `count` connections of `conns`, added up in order.
pub open spec fn total_impulse(conns: Seq<OutwardConn>, excitation: int, count: nat) -> int
    decreases count,
{
    if count == 0 {
        0
    } else {
        sat(
            total_impulse(conns, excitation, (count - 1) as nat) + impulse(
                conns[count - 1],
                excitation,
            ),
        )
    }
}

/// The drive that an output neuron in state `neuron` gives: if it fires, the
/// sum of what it sends over its connections, wherever they lead; else 0.
pub open spec fn drive(neuron: NeuronView) -> int {
    if fires(neuron) {
        total_impulse(neuron.next_conn, neuron.excitation, neuron.next_conn.len())
    } else {
        0
    }
}

/// Sets `out` to the drive that `neuron` gives.
pub fn assign(out: &mut i64, neuron: &Neuron)
    ensures
        *final(out) == drive(neuron@),
{
    *out = 0;
    if neuron.excitation >= neuron.act_threshold {
        let mut k: usize = 0;
        while k < neuron.next_conn.len()
            invariant
                k <= neuron.next_conn.len(),
                *out == total_impulse(neuron@.next_conn, neuron@.excitation, k as nat),
            decreases neuron.next_conn.len() - k,
        {
            let conn: OutwardConn = neuron.next_conn[k];
            let amount: i64 = if conn.relu {
                fx_mul(conn.weight, neuron.excitation)
            } else {
                conn.weight
            };
            *out = fx_add(*out, amount);
            k += 1;
        }
    }
}

} // verus!
