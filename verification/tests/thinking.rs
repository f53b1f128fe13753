use alife::ai::{clamp_unit, update_ai};
use alife::fixed::UNIT;
use alife::structs::{Agent, Body, Brain, Colour, Neuron, OutwardConn, Pos};

fn conn(dest_index: usize, weight: i64, relu: bool) -> OutwardConn {
    OutwardConn { dest_index, speed: 0, weight, relu }
}

fn neuron(threshold: i64, conns: Vec<OutwardConn>) -> Neuron {
    Neuron {
        excitation: 0,
        tick_drain: UNIT,
        act_threshold: threshold,
        next_conn: conns,
        reachable: false,
        inv_mut: 2,
    }
}

/// The size signal goes nowhere useful; the distance signal sends 2 to
/// output 0; the angle signal sends half of itself, negated, to output 1.
fn brain() -> Brain {
    Brain {
        neurons_inp: [
            neuron(0, vec![conn(0, UNIT, false)]),
            neuron(0, vec![conn(0, 2 * UNIT, false)]),
            neuron(0, vec![conn(1, -UNIT / 2, true)]),
        ],
        neurons_hid: vec![],
        neurons_out: [
            neuron(UNIT, vec![conn(0, 3 * UNIT, true)]),
            neuron(-UNIT, vec![conn(0, UNIT, true), conn(1, UNIT / 10, false)]),
        ],
        generation: 0,
    }
}

fn agent(x: i64, y: i64, size: i64, angle: i64) -> Agent {
    Agent {
        brain: brain(),
        body: Body {
            colour: Colour { r: 0, g: 0, b: 0 },
            pos: Pos { x, y },
            size,
            angle,
            mov: 5,
            rot: 5,
        },
        alive: true,
        inv_split_freq: 255,
    }
}

#[test]
fn clamp_unit_keeps_drives_between_minus_one_and_one() {
    assert_eq!(clamp_unit(0), 0);
    assert_eq!(clamp_unit(UNIT), UNIT);
    assert_eq!(clamp_unit(UNIT + 1), UNIT);
    assert_eq!(clamp_unit(-UNIT - 1), -UNIT);
    assert_eq!(clamp_unit(-3), -3);
    assert_eq!(clamp_unit(i64::MIN), -UNIT);
}

#[test]
fn an_agent_in_the_corner_senses_thinks_and_drives() {
    let mut agents = vec![agent(0, 0, 48 * UNIT, 0)];
    update_ai(&mut agents, &vec![0]);
    let a = &agents[0];
    // it sensed the left border: smaller than it, as near as can be, a half
    // turn off its heading
    assert_eq!(a.brain.neurons_inp[0].excitation, -UNIT);
    assert_eq!(a.brain.neurons_inp[1].excitation, UNIT);
    assert_eq!(a.brain.neurons_inp[2].excitation, UNIT);
    // the size signal is below its threshold; the others fired
    assert_eq!(a.brain.neurons_out[0].excitation, 2 * UNIT);
    assert_eq!(a.brain.neurons_out[1].excitation, -UNIT / 2);
    // output 0 fires 3 * 2, kept to 1; output 1 fires -0.5 + 0.1
    assert_eq!(a.body.mov, UNIT);
    assert_eq!(a.body.rot, -400_000);
    // the body is otherwise as it was
    assert_eq!(a.body.pos.x, 0);
    assert_eq!(a.body.size, 48 * UNIT);
    assert_eq!(a.body.angle, 0);
    assert!(a.alive);
}

#[test]
fn every_agent_senses_the_population_as_it_was() {
    let mut agents = vec![
        agent(100 * UNIT, 100 * UNIT, 48 * UNIT, 0),
        agent(110 * UNIT, 100 * UNIT, 60 * UNIT, 500_000),
        agent(500 * UNIT, 300 * UNIT, 20 * UNIT, 0),
    ];
    update_ai(&mut agents, &vec![0, UNIT, 0]);
    // agent 0 sees agent 1, more than a tenth larger, straight ahead
    assert_eq!(agents[0].brain.neurons_inp[0].excitation, -UNIT);
    assert_eq!(agents[0].brain.neurons_inp[1].excitation, 967_490);
    assert_eq!(agents[0].brain.neurons_inp[2].excitation, 0);
    // agent 1 sees agent 0, more than a tenth smaller, a half turn behind
    // the x axis while it heads along the y axis
    assert_eq!(agents[1].brain.neurons_inp[0].excitation, UNIT);
    assert_eq!(agents[1].brain.neurons_inp[1].excitation, 967_490);
    assert_eq!(agents[1].brain.neurons_inp[2].excitation, -500_000);
    // agent 2 sees the right border, whatever direction was handed in
    assert_eq!(agents[2].brain.neurons_inp[0].excitation, -UNIT);
    assert_eq!(agents[2].brain.neurons_inp[2].excitation, 0);
    // agent 0: distance fires 2 into output 0, which fires 6, kept to 1;
    // angle 0 fires 0 into output 1, which fires 0 + 0.1
    assert_eq!(agents[0].body.mov, UNIT);
    assert_eq!(agents[0].body.rot, 100_000);
    // agent 1: size 1 and distance 2 reach output 0: 3, fires 9;
    // angle -0.5 is below its threshold, so output 1 fires 0 + 0.1
    assert_eq!(agents[1].brain.neurons_out[0].excitation, 3 * UNIT);
    assert_eq!(agents[1].body.mov, UNIT);
    assert_eq!(agents[1].brain.neurons_out[1].excitation, 0);
    assert_eq!(agents[1].body.rot, 100_000);
}

#[test]
fn outputs_decay_between_passes() {
    let mut agents = vec![agent(0, 0, 48 * UNIT, 0)];
    update_ai(&mut agents, &vec![0]);
    update_ai(&mut agents, &vec![0]);
    // output 0 held 2, decayed to 1, and took in 2 again
    assert_eq!(agents[0].brain.neurons_out[0].excitation, 3 * UNIT);
    // output 1 held -0.5, decayed to 0, and took in -0.5 again
    assert_eq!(agents[0].brain.neurons_out[1].excitation, -UNIT / 2);
    assert_eq!(agents[0].body.rot, -400_000);
}

#[test]
fn nobody_thinks_in_an_empty_world() {
    let mut agents: Vec<Agent> = vec![];
    update_ai(&mut agents, &vec![]);
    assert!(agents.is_empty());
}
