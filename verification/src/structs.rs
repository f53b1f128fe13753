//! The data model: connections, neurons, brains, bodies and agents, each
//! with the mathematical view that the contracts of this crate speak of.

use vstd::prelude::*;

use crate::helpers::rand_range;

verus! {

/// Number of input neurons: relative size, inverse distance, bearing.
pub const INPS: usize = 3;

/// Number of output neurons: forward drive, turn drive.
pub const OUTS: usize = 2;

/// A weighted edge from the neuron that owns it to another neuron.
///
/// Destinations `0 .. OUTS` name output neurons; destination `OUTS + k` names
/// hidden neuron `k`.  Input neurons are never a destination.
#[derive(Clone, Copy, Debug)]
pub struct OutwardConn {
    pub dest_index: usize,
    /// Reserved; always zero.
    pub speed: usize,
    /// Fixed-point weight.
    pub weight: i64,
    /// Whether a firing delivers `weight` scaled by the firing neuron's
    /// excitation rather than `weight` itself.
    pub relu: bool,
}

/// An excitable unit.
#[derive(Debug)]
pub struct Neuron {
    /// Fixed-point excitation.
    pub excitation: i64,
    /// Fixed-point amount by which the excitation moves toward zero per tick.
    pub tick_drain: i64,
    /// Fixed-point excitation at or above which the neuron fires.
    pub act_threshold: i64,
    pub next_conn: Vec<OutwardConn>,
    /// Whether anything was delivered to this neuron in the current pass.
    pub reachable: bool,
    /// Inverse mutation rate: the larger, the less often the neuron mutates.
    pub inv_mut: usize,
}

/// What a [`Neuron`] is, as a mathematical value.
pub struct NeuronView {
    pub excitation: int,
    pub tick_drain: int,
    pub act_threshold: int,
    pub next_conn: Seq<OutwardConn>,
    pub reachable: bool,
    pub inv_mut: nat,
}

impl View for Neuron {
    type V = NeuronView;

    open spec fn view(&self) -> NeuronView {
        NeuronView {
            excitation: self.excitation as int,
            tick_drain: self.tick_drain as int,
            act_threshold: self.act_threshold as int,
            next_conn: self.next_conn@,
            reachable: self.reachable,
            inv_mut: self.inv_mut as nat,
        }
    }
}

impl Clone for Neuron {
    fn clone(&self) -> (copy: Self)
        ensures
            copy@ == self@,
    {
        Neuron {
            excitation: self.excitation,
            tick_drain: self.tick_drain,
            act_threshold: self.act_threshold,
            next_conn: self.next_conn.clone(),
            reachable: self.reachable,
            inv_mut: self.inv_mut,
        }
    }
}

/// The neural network of one agent.
#[derive(Debug)]
pub struct Brain {
    pub neurons_inp: [Neuron; 3],
    pub neurons_hid: Vec<Neuron>,
    pub neurons_out: [Neuron; 2],
    /// Number of mutated reproductions that led to this brain.
    pub generation: usize,
}

/// What a [`Brain`] is, as a mathematical value.
pub struct BrainView {
    pub inp: Seq<NeuronView>,
    pub hid: Seq<NeuronView>,
    pub out: Seq<NeuronView>,
    pub generation: nat,
}

/// The views of a sequence of neurons.
pub open spec fn neuron_views(neurons: Seq<Neuron>) -> Seq<NeuronView> {
    Seq::new(neurons.len(), |i: int| neurons[i]@)
}

impl View for Brain {
    type V = BrainView;

    open spec fn view(&self) -> BrainView {
        BrainView {
            inp: neuron_views(self.neurons_inp@),
            hid: neuron_views(self.neurons_hid@),
            out: neuron_views(self.neurons_out@),
            generation: self.generation as nat,
        }
    }
}

impl Clone for Brain {
    fn clone(&self) -> (copy: Self)
        ensures
            copy@ == self@,
    {
        let copy = Brain {
            neurons_inp: [
                self.neurons_inp[0].clone(),
                self.neurons_inp[1].clone(),
                self.neurons_inp[2].clone(),
            ],
            neurons_hid: self.neurons_hid.clone(),
            neurons_out: [self.neurons_out[0].clone(), self.neurons_out[1].clone()],
            generation: self.generation,
        };
        proof {
            assert(copy@.inp =~= self@.inp);
            assert(copy@.hid =~= self@.hid);
            assert(copy@.out =~= self@.out);
        }
        copy
    }
}

/// A colour of three channels, each 0 to 255.
#[derive(Clone, Copy, Debug)]
pub struct Colour {
    pub r: usize,
    pub g: usize,
    pub b: usize,
}

impl Colour {
    /// Whether each channel is at most 255.
    pub open spec fn wf(&self) -> bool {
        self.r <= 255 && self.g <= 255 && self.b <= 255
    }

    /// A colour with each channel drawn at random.
    pub fn new() -> (colour: Colour)
        ensures
            colour.wf(),
    {
        Colour { r: rand_range(0..256), g: rand_range(0..256), b: rand_range(0..256) }
    }
}

/// A point of the arena, in fixed-point arena units.
#[derive(Clone, Copy, Debug)]
pub struct Pos {
    pub x: i64,
    pub y: i64,
}

/// Where an organism is and how it looks.
///
/// The organism occupies the square with upper left corner `pos` and side
/// `size`.  The heading `angle` is measured in half turns: `UNIT` is the
/// angle pi.
#[derive(Clone, Copy, Debug)]
pub struct Body {
    pub colour: Colour,
    pub pos: Pos,
    pub size: i64,
    pub angle: i64,
    /// The forward drive last computed by the brain.
    pub mov: i64,
    /// The turn drive last computed by the brain.
    pub rot: i64,
}

/// One organism.
#[derive(Debug)]
pub struct Agent {
    pub brain: Brain,
    pub body: Body,
    pub alive: bool,
    /// Inverse split frequency, at least 1: the smaller, the more often the
    /// agent reproduces.
    pub inv_split_freq: usize,
}

/// What an [`Agent`] is, as a mathematical value.
pub struct AgentView {
    pub brain: BrainView,
    pub body: Body,
    pub alive: bool,
    pub inv_split_freq: nat,
}

impl View for Agent {
    type V = AgentView;

    open spec fn view(&self) -> AgentView {
        AgentView {
            brain: self.brain@,
            body: self.body,
            alive: self.alive,
            inv_split_freq: self.inv_split_freq as nat,
        }
    }
}

/// The views of a population.
pub open spec fn agent_views(agents: Seq<Agent>) -> Seq<AgentView> {
    Seq::new(agents.len(), |i: int| agents[i]@)
}

} // verus!
