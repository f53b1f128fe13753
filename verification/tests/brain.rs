use alife::fixed::UNIT;
use alife::structs::{Brain, Neuron, OutwardConn};

fn conn(dest_index: usize, weight: i64, relu: bool) -> OutwardConn {
    OutwardConn { dest_index, speed: 0, weight, relu }
}

fn neuron(excitation: i64, threshold: i64, drain: i64, conns: Vec<OutwardConn>) -> Neuron {
    Neuron {
        excitation,
        tick_drain: drain,
        act_threshold: threshold,
        next_conn: conns,
        reachable: false,
        inv_mut: 2,
    }
}

/// Inputs 0 and 1 feed hidden 0 (destination 2); input 2 feeds output 1;
/// hidden 0 feeds output 0; hidden 1 feeds output 1 but nothing feeds it.
fn small_brain() -> Brain {
    Brain {
        neurons_inp: [
            neuron(UNIT, 500_000, UNIT, vec![conn(2, UNIT, false)]),
            neuron(400_000, 0, UNIT, vec![conn(2, 2 * UNIT, true)]),
            neuron(-UNIT, 0, UNIT, vec![conn(1, UNIT, false)]),
        ],
        neurons_hid: vec![
            neuron(0, UNIT, 500_000, vec![conn(0, 3 * UNIT, false)]),
            neuron(5 * UNIT, 0, UNIT, vec![conn(1, 7 * UNIT, false)]),
        ],
        neurons_out: [
            neuron(0, 0, UNIT, vec![conn(0, UNIT, false)]),
            neuron(0, 0, UNIT, vec![conn(0, UNIT, false)]),
        ],
        generation: 0,
    }
}

#[test]
fn propagation_follows_the_connections() {
    let mut brain = small_brain();
    let outputs = brain.update_neurons();
    // hidden 0 took 1 from input 0 and 2 * 0.4 from input 1: 1.8 >= 1, so it
    // fired 3 into output 0
    assert_eq!(outputs[0].excitation, 3 * UNIT);
    assert!(outputs[0].reachable);
    // input 2 is below its threshold, hidden 1 was never reached
    assert_eq!(outputs[1].excitation, 0);
    assert!(!outputs[1].reachable);
    // hidden 0 decayed by its drain after its turn
    assert_eq!(brain.neurons_hid[0].excitation, 1_300_000);
    assert!(brain.neurons_hid[0].reachable);
    // inputs are reachable unconditionally and keep their excitation
    for input in &brain.neurons_inp {
        assert!(input.reachable);
    }
    assert_eq!(brain.neurons_inp[0].excitation, UNIT);
}

#[test]
fn unreachable_hidden_neurons_take_no_turn() {
    let mut brain = small_brain();
    brain.update_neurons();
    // hidden 1 is above its threshold but nothing reached it: it neither
    // delivered nor decayed
    assert!(!brain.neurons_hid[1].reachable);
    assert_eq!(brain.neurons_hid[1].excitation, 5 * UNIT);
    assert_eq!(brain.neurons_out[1].excitation, 0);
}

#[test]
fn reachability_is_recomputed_in_every_pass() {
    let mut brain = small_brain();
    brain.neurons_hid[1].reachable = true;
    brain.neurons_out[1].reachable = true;
    brain.update_neurons();
    assert!(!brain.neurons_hid[1].reachable);
    assert_eq!(brain.neurons_hid[1].excitation, 5 * UNIT);
    assert!(!brain.neurons_out[1].reachable);
    assert_eq!(brain.neurons_out[1].excitation, 0);
}

#[test]
fn firing_is_at_or_above_the_threshold() {
    let mut brain = small_brain();
    brain.neurons_inp[0].excitation = 500_000;
    brain.neurons_inp[1].act_threshold = 400_001;
    brain.update_neurons();
    // input 0 fires exactly at its threshold, input 1 just misses its own:
    // hidden 0 holds 1, which is its threshold, and fires
    assert_eq!(brain.neurons_out[0].excitation, 3 * UNIT);
    assert_eq!(brain.neurons_hid[0].excitation, 500_000);
}

#[test]
fn a_silent_input_delivers_nothing() {
    let mut brain = small_brain();
    brain.neurons_inp[0].excitation = 499_999;
    brain.update_neurons();
    // hidden 0 holds only 0.8 from input 1: reached, below threshold, decays
    assert_eq!(brain.neurons_out[0].excitation, 0);
    assert!(!brain.neurons_out[0].reachable);
    assert!(brain.neurons_hid[0].reachable);
    assert_eq!(brain.neurons_hid[0].excitation, 300_000);
}

#[test]
fn outputs_decay_at_the_start_of_a_pass() {
    let mut brain = small_brain();
    brain.neurons_out[0].excitation = 2_500_000;
    brain.neurons_out[1].excitation = -400_000;
    brain.neurons_inp[0].excitation = 0;
    brain.neurons_inp[1].act_threshold = UNIT;
    brain.update_neurons();
    assert_eq!(brain.neurons_out[0].excitation, 1_500_000);
    assert_eq!(brain.neurons_out[1].excitation, 0);
}

#[test]
fn scaled_connections_deliver_weight_times_excitation() {
    let mut brain = small_brain();
    brain.neurons_inp[2] = neuron(-500_000, -UNIT, UNIT, vec![conn(1, 3 * UNIT, true)]);
    brain.update_neurons();
    assert_eq!(brain.neurons_out[1].excitation, -1_500_000);
    assert!(brain.neurons_out[1].reachable);
}

#[test]
fn later_hidden_neurons_reach_earlier_ones_too_late() {
    // hidden 1 is reached by input 2 and feeds hidden 0 (destination 2);
    // hidden 0 had its turn before, so it keeps what it got for the next
    // pass
    let mut brain = Brain {
        neurons_inp: [
            neuron(0, UNIT, UNIT, vec![conn(0, UNIT, false)]),
            neuron(0, UNIT, UNIT, vec![conn(0, UNIT, false)]),
            neuron(UNIT, 0, UNIT, vec![conn(3, UNIT, false)]),
        ],
        neurons_hid: vec![
            neuron(0, 0, 0, vec![conn(0, 5 * UNIT, false)]),
            neuron(0, 0, 0, vec![conn(2, 2 * UNIT, false)]),
        ],
        neurons_out: [
            neuron(0, 0, 0, vec![conn(0, UNIT, false)]),
            neuron(0, 0, 0, vec![conn(0, UNIT, false)]),
        ],
        generation: 0,
    };
    brain.update_neurons();
    assert_eq!(brain.neurons_out[0].excitation, 0);
    assert_eq!(brain.neurons_hid[0].excitation, 2 * UNIT);
    assert!(brain.neurons_hid[0].reachable);
    assert!(brain.neurons_hid[1].reachable);
    // next pass: the flag is cleared, and hidden 0 is reached again only
    // after its turn
    brain.update_neurons();
    assert_eq!(brain.neurons_out[0].excitation, 0);
    assert_eq!(brain.neurons_hid[0].excitation, 4 * UNIT);
}

#[test]
fn a_neuron_feeding_itself_uses_the_excitation_it_began_with() {
    let mut brain = Brain {
        neurons_inp: [
            neuron(UNIT, 0, UNIT, vec![conn(2, 2 * UNIT, false)]),
            neuron(0, UNIT, UNIT, vec![conn(0, UNIT, false)]),
            neuron(0, UNIT, UNIT, vec![conn(0, UNIT, false)]),
        ],
        neurons_hid: vec![neuron(
            0,
            0,
            500_000,
            vec![conn(2, UNIT, true), conn(0, UNIT, true)],
        )],
        neurons_out: [
            neuron(0, 0, 0, vec![conn(0, UNIT, false)]),
            neuron(0, 0, 0, vec![conn(0, UNIT, false)]),
        ],
        generation: 0,
    };
    brain.update_neurons();
    // hidden 0 began its turn at 2: it sent 2 to itself, then 2 (not 4) to
    // output 0, then decayed from 4 to 3.5
    assert_eq!(brain.neurons_out[0].excitation, 2 * UNIT);
    assert_eq!(brain.neurons_hid[0].excitation, 3_500_000);
}

#[test]
fn connections_to_no_neuron_deliver_nothing() {
    let mut brain = small_brain();
    brain.neurons_inp[0].next_conn = vec![conn(4, UNIT, false), conn(99, UNIT, false)];
    brain.update_neurons();
    assert_eq!(brain.neurons_hid[0].excitation, 300_000);
    assert_eq!(brain.neurons_hid[1].excitation, 5 * UNIT);
    assert_eq!(brain.neurons_out[0].excitation, 0);
}

#[test]
fn propagation_is_deterministic() {
    let mut first = small_brain();
    let mut second = first.clone();
    for _ in 0..5 {
        first.update_neurons();
        second.update_neurons();
        for k in 0..2 {
            assert_eq!(first.neurons_out[k].excitation, second.neurons_out[k].excitation);
            assert_eq!(first.neurons_out[k].reachable, second.neurons_out[k].reachable);
        }
        for k in 0..2 {
            assert_eq!(first.neurons_hid[k].excitation, second.neurons_hid[k].excitation);
        }
    }
}

#[test]
fn stale_flags_and_generation_do_not_change_a_pass() {
    let mut first = small_brain();
    let mut second = small_brain();
    second.generation = 9;
    second.neurons_hid[1].reachable = true;
    second.neurons_inp[0].reachable = true;
    second.neurons_out[0].reachable = true;
    first.update_neurons();
    second.update_neurons();
    for k in 0..2 {
        assert_eq!(first.neurons_out[k].excitation, second.neurons_out[k].excitation);
        assert_eq!(first.neurons_out[k].reachable, second.neurons_out[k].reachable);
        assert_eq!(first.neurons_hid[k].excitation, second.neurons_hid[k].excitation);
        assert_eq!(first.neurons_hid[k].reachable, second.neurons_hid[k].reachable);
    }
}

#[test]
fn propagation_changes_no_connection() {
    let mut brain = small_brain();
    brain.update_neurons();
    let reference = small_brain();
    assert_eq!(brain.neurons_hid.len(), 2);
    for k in 0..3 {
        assert_eq!(brain.neurons_inp[k].next_conn.len(), reference.neurons_inp[k].next_conn.len());
    }
    assert_eq!(brain.neurons_hid[0].next_conn[0].weight, 3 * UNIT);
    assert_eq!(brain.generation, 0);
    assert!(brain.check());
}

#[test]
fn input_hands_out_the_input_neurons() {
    let mut brain = small_brain();
    {
        let input = brain.input();
        input[0].excitation = 7;
        input[2].excitation = -7;
    }
    assert_eq!(brain.neurons_inp[0].excitation, 7);
    assert_eq!(brain.neurons_inp[1].excitation, 400_000);
    assert_eq!(brain.neurons_inp[2].excitation, -7);
}

#[test]
fn excitation_saturates() {
    let mut brain = small_brain();
    brain.neurons_inp[0] = neuron(i64::MAX, 0, UNIT, vec![conn(0, i64::MAX, true), conn(0, i64::MAX, true)]);
    brain.update_neurons();
    assert_eq!(brain.neurons_out[0].excitation, i64::MAX);
}
