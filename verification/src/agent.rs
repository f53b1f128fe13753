//! The life cycle of an agent: appearing, splitting, and mutating from
//! parent to child.

use vstd::prelude::*;

use crate::body::{reduced, tinted, SPAWN_SPAN};
use crate::fixed::UNIT;
use crate::helpers::{bounded_sum, hit, rand_range, rand_upto, BoundedSignedAdd};
use crate::mutation::{all_kin, evolved};
use crate::neuron::newborn;
use crate::structs::{Agent, AgentView, Body, Brain, BrainView, Colour, Neuron, Pos, OUTS};

verus! {

/// An agent larger than this may split.
pub const SPLIT_SIZE: i64 = 80_000_000;

/// For each step of this length above [`SPLIT_SIZE`], an agent splits one
/// time more often.
pub const SPLIT_STEP: i64 = 16_000_000;

/// The size of an agent with a new genome.
pub const FRESH_SIZE: i64 = 48_000_000;

/// A child of an established line is smaller than this.
pub const HEIR_SIZE: i64 = 64_000_000;

/// An agent larger than this, of a line older than [`HEIR_AGE`], may have an
/// heir appear without splitting.
pub const HEIR_PARENT_SIZE: i64 = 32_000_000;

/// See [`HEIR_PARENT_SIZE`].
pub const HEIR_AGE: usize = 4;

/// The inverse split frequency of a new genome.
pub const FRESH_SPLIT_FREQ: usize = 255;

/// The number of hidden neurons of a new genome.
pub const FRESH_HIDDEN: usize = 6;

impl AgentView {
    /// The invariant of an agent: a well-formed brain and body, and an
    /// inverse split frequency of at least 1.
    pub open spec fn wf(self) -> bool {
        &&& self.brain.wf()
        &&& self.body.wf()
        &&& 1 <= self.inv_split_freq <= usize::MAX
    }
}

impl Agent {
    /// The invariant of an agent; see [`AgentView::wf`].
    pub open spec fn wf(&self) -> bool {
        self@.wf()
    }
}

/// Whether every agent of `agents` is well formed.
pub open spec fn all_wf(agents: Seq<Agent>) -> bool {
    forall|i: int| 0 <= i < agents.len() ==> (#[trigger] agents[i]).wf()
}

/// Whether `body` is as a body is when an agent appears: at a point of the
/// spawn square, with any heading, and without drive.
pub open spec fn spawned(body: Body) -> bool {
    &&& 0 <= body.pos.x < SPAWN_SPAN
    &&& 0 <= body.pos.y < SPAWN_SPAN
    &&& -UNIT <= body.angle < UNIT
    &&& body.mov == 0
    &&& body.rot == 0
}

/// `freq` doubled, stopping at the largest `usize`.
pub open spec fn doubled(freq: int) -> int {
    if 2 * freq > usize::MAX {
        usize::MAX as int
    } else {
        2 * freq
    }
}

/// `freq`, but at least 1.
pub open spec fn at_least_one(freq: int) -> int {
    if freq < 1 {
        1
    } else {
        freq
    }
}

/// The inverse split frequency `freq` after a mutation on three draws.  If
/// `change` is 0 the gene doubles or halves: it doubles if `coin` is 0 or
/// the gene is 1 or less, else it halves.  Otherwise it moves by `step`
/// less one, and does not fall below 1.
pub open spec fn gene_after(freq: int, change: int, coin: int, step: int) -> int {
    if change == 0 {
        if coin == 0 || freq <= 1 {
            doubled(freq)
        } else {
            freq / 2
        }
    } else {
        at_least_one(bounded_sum(freq, step - 1))
    }
}

/// Whether `after` is an inverse split frequency that a mutation can make
/// of `before`: what [`gene_after`] gives on a draw from `0 ..= before`, a
/// draw from `0 ..= 1` and a draw below 3.
pub open spec fn split_gene_step(before: int, after: int) -> bool {
    exists|change: int, coin: int, step: int|
        0 <= change <= before && 0 <= coin <= 1 && 0 <= step < 3 && after == #[trigger] gene_after(
            before,
            change,
            coin,
            step,
        )
}

/// Whether `after` is a mutant of `before`: a well-formed agent whose brain
/// is a mutation of that of `before` (so it is at rest and without idle
/// hidden neurons, of the same generation, with input and output neurons
/// that are kin of those of `before`); whose colour drifted; whose split
/// gene made one step; and that is otherwise the same.
pub open spec fn is_mutant(before: AgentView, after: AgentView) -> bool {
    &&& after.wf()
    &&& evolved(before.brain, after.brain)
    &&& after.brain.rested()
    &&& !after.brain.has_idle()
    &&& after.brain.generation == before.brain.generation
    &&& all_kin(before.brain.inp, after.brain.inp)
    &&& all_kin(before.brain.out, after.brain.out)
    &&& tinted(before.body.colour.r, after.body.colour.r)
    &&& tinted(before.body.colour.g, after.body.colour.g)
    &&& tinted(before.body.colour.b, after.body.colour.b)
    &&& after.body == (Body { colour: after.body.colour, ..before.body })
    &&& after.alive == before.alive
    &&& split_gene_step(before.inv_split_freq as int, after.inv_split_freq as int)
}

/// The generation after `generation`.
pub open spec fn next_generation(generation: nat) -> nat {
    if generation >= usize::MAX {
        usize::MAX as nat
    } else {
        generation + 1
    }
}

/// Whether `child` is a child of `parent` of size `size`: alive, newly
/// placed, of that size, and either an exact copy of the parent's brain,
/// colour and split gene, or a mutant of such a copy that counts one
/// generation more.
pub open spec fn is_offspring(parent: AgentView, child: AgentView, size: int) -> bool {
    &&& child.wf()
    &&& child.alive
    &&& child.body.size == size
    &&& spawned(child.body)
    &&& {
        ||| {
            &&& child.brain == parent.brain
            &&& child.body.colour == parent.body.colour
            &&& child.inv_split_freq == parent.inv_split_freq
        }
        ||| {
            &&& evolved(
                BrainView {
                    generation: next_generation(parent.brain.generation),
                    ..parent.brain
                },
                child.brain,
            )
            &&& child.brain.generation == next_generation(parent.brain.generation)
            &&& child.brain.rested()
            &&& !child.brain.has_idle()
            &&& all_kin(parent.brain.inp, child.brain.inp)
            &&& all_kin(parent.brain.out, child.brain.out)
            &&& tinted(parent.body.colour.r, child.body.colour.r)
            &&& tinted(parent.body.colour.g, child.body.colour.g)
            &&& tinted(parent.body.colour.b, child.body.colour.b)
            &&& split_gene_step(parent.inv_split_freq as int, child.inv_split_freq as int)
        }
    }
}

/// Whether `agent` is one that appears with a new genome: alive, newly
/// placed, of the fresh size, of generation 0, with a brain at rest.
pub open spec fn is_newcomer(agent: AgentView) -> bool {
    &&& agent.wf()
    &&& agent.alive
    &&& agent.body.size == FRESH_SIZE
    &&& spawned(agent.body)
    &&& agent.brain.generation == 0
    &&& agent.brain.rested()
}

/// Whether `agent` is one that may appear in the population `agents`: a
/// newcomer, or an heir of an established agent, of a size from
/// [`FRESH_SIZE`] up to [`HEIR_SIZE`].
pub open spec fn is_arrival(agents: Seq<Agent>, agent: AgentView) -> bool {
    is_newcomer(agent) || exists|p: int|
        0 <= p < agents.len() && is_established(agents[p]@) && FRESH_SIZE <= agent.body.size
            < HEIR_SIZE && #[trigger] is_offspring(agents[p]@, agent, agent.body.size as int)
}

/// Whether `parent` may have an heir appear.
pub open spec fn is_established(parent: AgentView) -> bool {
    parent.brain.generation > HEIR_AGE && parent.body.size > HEIR_PARENT_SIZE
}

/// The size of the child that an agent of size `size` splits off: seven
/// tenths of its own.
pub open spec fn child_size(size: int) -> int {
    size * 7 / 10
}

/// How rarely an agent of size `size` above [`SPLIT_SIZE`] with inverse
/// split frequency `freq` splits: it splits with one chance in this number
/// plus one.
pub open spec fn split_odds(size: int, freq: int) -> int {
    freq / (1 + (size - SPLIT_SIZE) / (SPLIT_STEP as int))
}

/// `parent` after it split off a child: only the body changed, which lost
/// the child's area and kept its centre.
pub open spec fn split(parent: AgentView) -> AgentView {
    AgentView { body: reduced(parent.body, child_size(parent.body.size as int)), ..parent }
}

impl Agent {
    /// An agent with the given brain, colour, size and inverse split
    /// frequency, alive, without drive, at a position and with a heading
    /// that are drawn at random.
    pub fn with(brain: Brain, colour: Colour, size: i64, freq: usize) -> (agent: Agent)
        ensures
            agent@.brain == brain@,
            agent.body.colour == colour,
            agent.body.size == size,
            agent.inv_split_freq == freq,
            agent.alive,
            spawned(agent.body),
    {
        Agent {
            brain,
            body: Body {
                colour,
                pos: Pos::new(),
                size,
                angle: rand_range(0..2_000_000) as i64 - UNIT,
                mov: 0,
                rot: 0,
            },
            alive: true,
            inv_split_freq: freq,
        }
    }

    /// Makes a child of size `child_size`: by an even chance an exact copy
    /// of this agent's brain, colour and split gene, or else a mutant of
    /// such a copy that counts one generation more.
    pub fn spawn_child(&self, child_size: i64) -> (child: Agent)
        requires
            self.wf(),
            0 <= child_size,
        ensures
            is_offspring(self@, child@, child_size as int),
    {
        let freq: usize = self.inv_split_freq;
        let colour: Colour = self.body.colour;
        let mut brain: Brain = self.brain.clone();
        if rand_range(0..2) == 0 {
            Agent::with(brain, colour, child_size, freq)
        } else {
            brain.generation = brain.generation.saturating_add(1);
            assert(brain@.inp == self@.brain.inp);
            assert(brain@.hid == self@.brain.hid);
            assert(brain@.out == self@.brain.out);
            Agent::with(brain, colour, child_size, freq).mutate()
        }
    }

    /// Mutates the agent at random: its brain, its colour and its split
    /// gene.
    ///
    /// With one chance in the inverse split frequency plus one the gene
    /// doubles or, by an even chance if it is above 1, halves; otherwise it
    /// moves by -1, 0 or 1.  It does not fall below 1.
    pub fn mutate(self) -> (mutant: Agent)
        requires
            self.wf(),
        ensures
            is_mutant(self@, mutant@),
    {
        let mut agent = self;
        agent.brain.mutate();
        agent.body.mutate();
        let change: usize = rand_upto(agent.inv_split_freq);
        let coin: usize = if change == 0 {
            rand_upto(1)
        } else {
            0
        };
        let step: usize = if change == 0 {
            0
        } else {
            rand_range(0..3)
        };
        agent.inv_split_freq = Agent::step_gene(agent.inv_split_freq, change, coin, step);
        agent
    }

    /// The inverse split frequency `freq` after a mutation on the draws
    /// `change`, `coin` and `step`; see [`gene_after`].
    pub fn step_gene(freq: usize, change: usize, coin: usize, step: usize) -> (gene: usize)
        requires
            step < 3,
        ensures
            gene == gene_after(freq as int, change as int, coin as int, step as int),
    {
        if change == 0 {
            if coin == 0 || freq <= 1 {
                match freq.checked_mul(2) {
                    Some(twice) => twice,
                    None => usize::MAX,
                }
            } else {
                freq / 2
            }
        } else {
            let mut gene: usize = freq;
            gene.add_bounded(step as isize - 1);
            if gene < 1 {
                1
            } else {
                gene
            }
        }
    }

    /// Whether the agent is well formed.
    pub fn check(&self) -> (ok: bool)
        ensures
            ok == self.wf(),
    {
        self.inv_split_freq >= 1 && self.body.check() && self.brain.check()
    }

    /// Whether every agent of `agents` is well formed.
    pub fn check_all(agents: &Vec<Agent>) -> (ok: bool)
        ensures
            ok == all_wf(agents@),
    {
        let mut i: usize = 0;
        while i < agents.len()
            invariant
                i <= agents.len(),
                forall|k: int| 0 <= k < i ==> (#[trigger] agents@[k]).wf(),
            decreases agents.len() - i,
        {
            if !agents[i].check() {
                return false;
            }
            i += 1;
        }
        true
    }

    /// How rarely this agent splits; see [`split_odds`].
    pub fn split_odds(&self) -> (odds: usize)
        requires
            self.body.size > SPLIT_SIZE,
        ensures
            odds == split_odds(self.body.size as int, self.inv_split_freq as int),
    {
        let steps: i64 = 1 + (self.body.size - SPLIT_SIZE) / SPLIT_STEP;
        if steps as u64 > usize::MAX as u64 {
            assert(self.inv_split_freq as int / steps as int == 0) by (nonlinear_arith)
                requires
                    0 <= self.inv_split_freq < steps,
            ;
            0
        } else {
            self.inv_split_freq / (steps as usize)
        }
    }

    /// Shrinks the agent by the area of the child it splits off, and
    /// returns the child's size.
    pub fn shed(&mut self) -> (size: i64)
        requires
            old(self).wf(),
        ensures
            size == child_size(old(self).body.size as int),
            0 <= size <= old(self).body.size,
            final(self)@ == split(old(self)@),
            final(self).wf(),
    {
        let size: i64 = ((self.body.size as i128 * 7) / 10) as i64;
        self.body.remove(size);
        size
    }

    /// An agent to add to the population `agents`.
    ///
    /// Each agent of `agents` whose line is older than [`HEIR_AGE`]
    /// generations and whose size is above [`HEIR_PARENT_SIZE`] has, in
    /// turn, one chance in 32 to give the new agent as its child, of a size
    /// drawn from [`FRESH_SIZE`] up to [`HEIR_SIZE`].  If none does, the new
    /// agent has a new genome: [`FRESH_HIDDEN`] hidden neurons, every neuron
    /// with one fresh connection, mutated up to seven times.  It counts as
    /// generation 0 however often it was mutated.
    pub fn new(agents: &Vec<Agent>) -> (agent: Agent)
        requires
            all_wf(agents@),
        ensures
            is_arrival(agents@, agent@),
    {
        let mut p: usize = 0;
        while p < agents.len()
            invariant
                p <= agents.len(),
                all_wf(agents@),
            decreases agents.len() - p,
        {
            let parent: &Agent = &agents[p];
            if parent.brain.generation > HEIR_AGE && parent.body.size > HEIR_PARENT_SIZE
                && rand_range(0..32) == 0 {
                let size: i64 = FRESH_SIZE + rand_range(0..16_000_000) as i64;
                let child = parent.spawn_child(size);
                assert(is_offspring(agents@[p as int]@, child@, child.body.size as int));
                assert(is_arrival(agents@, child@));
                return child;
            }
            p += 1;
        }

        let recv_neurons: usize = FRESH_HIDDEN + OUTS;
        let mut neurons_hid: Vec<Neuron> = Vec::new();
        let mut k: usize = 0;
        while k < FRESH_HIDDEN
            invariant
                k <= FRESH_HIDDEN,
                recv_neurons == FRESH_HIDDEN + OUTS,
                neurons_hid@.len() == k,
                forall|i: int| 0 <= i < k ==> newborn(#[trigger] neurons_hid@[i]@, recv_neurons as int),
            decreases FRESH_HIDDEN - k,
        {
            neurons_hid.push(Neuron::new(recv_neurons));
            k += 1;
        }
        let brain = Brain {
            neurons_inp: [
                Neuron::new(recv_neurons),
                Neuron::new(recv_neurons),
                Neuron::new(recv_neurons),
            ],
            neurons_hid,
            neurons_out: [Neuron::new(recv_neurons), Neuron::new(recv_neurons)],
            generation: 0,
        };
        assert(brain.wf() && brain@.rested()) by {
            assert forall|i: int| 0 <= i < brain@.inp.len() implies newborn(
                #[trigger] brain@.inp[i],
                recv_neurons as int,
            ) by {}
            assert forall|i: int| 0 <= i < brain@.hid.len() implies newborn(
                #[trigger] brain@.hid[i],
                recv_neurons as int,
            ) by {}
            assert forall|i: int| 0 <= i < brain@.out.len() implies newborn(
                #[trigger] brain@.out[i],
                recv_neurons as int,
            ) by {}
        }
        let mut new_agent = Agent::with(brain, Colour::new(), FRESH_SIZE, FRESH_SPLIT_FREQ);
        let rounds: usize = rand_range(0..8);
        let mut round: usize = 0;
        while round < rounds
            invariant
                is_newcomer(new_agent@),
            decreases rounds - round,
        {
            new_agent = new_agent.mutate();
            round += 1;
        }
        new_agent
    }

    /// Lets at most one agent of the population split, and returns it with
    /// the child.
    ///
    /// The agents are asked in order.  One larger than [`SPLIT_SIZE`]
    /// splits with one chance in its [`split_odds`] plus one; then it
    /// shrinks by the area of the child, which has seven tenths of its
    /// size, and no further agent is asked.  An agent with split odds of 0
    /// is certain to split if it is asked.
    pub fn split_first(agents: &mut Vec<Agent>) -> (born: Option<(usize, Agent)>)
        requires
            all_wf(old(agents)@),
        ensures
            all_wf(final(agents)@),
            final(agents)@.len() == old(agents)@.len(),
            match born {
                None => final(agents)@ == old(agents)@,
                Some((p, child)) => splits_at(old(agents)@, final(agents)@, p as int, child@),
            },
            exists|draws: Seq<int>| #[trigger]
                first_to_split(old(agents)@, draws, parent_of(born)),
    {
        let ghost mut draws: Seq<int> = Seq::empty();
        let mut p: usize = 0;
        while p < agents.len()
            invariant
                p <= agents.len(),
                agents@ == old(agents)@,
                all_wf(agents@),
                split_draws(agents@, draws, p as int),
                forall|i: int| 0 <= i < p ==> !splits_on(agents@[i], #[trigger] draws[i]),
            decreases agents.len() - p,
        {
            let ghost asked = draws;
            if agents[p].body.size > SPLIT_SIZE {
                let inv_chance: usize = agents[p].split_odds();
                let draw: usize = rand_upto(inv_chance);
                proof {
                    draws = asked.push(draw as int);
                    assert forall|i: int|
                        0 <= i < p + 1 && agents@[i].body.size > SPLIT_SIZE implies 0
                        <= #[trigger] draws[i] <= split_odds(
                        agents@[i].body.size as int,
                        agents@[i].inv_split_freq as int,
                    ) by {
                        if i < p {
                            assert(draws[i] == asked[i]);
                        }
                    }
                    assert forall|i: int| 0 <= i < p implies !splits_on(
                        agents@[i],
                        #[trigger] draws[i],
                    ) by {
                        assert(draws[i] == asked[i]);
                    }
                }
                if draw == 0 {
                    let size: i64 = agents[p].shed();
                    let born = Some((p, agents[p].spawn_child(size)));
                    assert(first_to_split(old(agents)@, draws, parent_of(born)));
                    return born;
                }
            } else {
                proof {
                    draws = asked.push(0);
                    assert forall|i: int|
                        0 <= i < p + 1 && agents@[i].body.size > SPLIT_SIZE implies 0
                        <= #[trigger] draws[i] <= split_odds(
                        agents@[i].body.size as int,
                        agents@[i].inv_split_freq as int,
                    ) by {
                        if i < p {
                            assert(draws[i] == asked[i]);
                        }
                    }
                    assert forall|i: int| 0 <= i < p implies !splits_on(
                        agents@[i],
                        #[trigger] draws[i],
                    ) by {
                        assert(draws[i] == asked[i]);
                    }
                }
            }
            p += 1;
        }
        assert(first_to_split(old(agents)@, draws, parent_of(None::<(usize, Agent)>)));
        None
    }

    /// Lets at most one agent of the population split, and returns the
    /// child; see [`Agent::split_first`].
    pub fn maybe_split(agents: &mut Vec<Agent>) -> (born: Option<Agent>)
        requires
            all_wf(old(agents)@),
        ensures
            all_wf(final(agents)@),
            final(agents)@.len() == old(agents)@.len(),
            match born {
                None => final(agents)@ == old(agents)@ && exists|draws: Seq<int>| #[trigger]
                    first_to_split(old(agents)@, draws, None),
                Some(child) => exists|p: int, draws: Seq<int>|
                    0 <= p < old(agents)@.len() && #[trigger] splits_at(
                        old(agents)@,
                        final(agents)@,
                        p,
                        child@,
                    ) && #[trigger] first_to_split(old(agents)@, draws, Some(p)),
            },
    {
        let found = Agent::split_first(agents);
        let ghost draws = choose|draws: Seq<int>| #[trigger]
            first_to_split(old(agents)@, draws, parent_of(found));
        match found {
            Some((p, child)) => {
                let born = Some(child);
                assert(splits_at(old(agents)@, agents@, p as int, (born->0)@) && first_to_split(
                    old(agents)@,
                    draws,
                    Some(p as int),
                ));
                born
            },
            None => {
                assert(first_to_split(old(agents)@, draws, None));
                None
            },
        }
    }
}

/// Whether `draws` holds one draw for each of the first `count` agents:
/// for an agent larger than [`SPLIT_SIZE`], a draw from 0 up to its
/// [`split_odds`].
pub open spec fn split_draws(agents: Seq<Agent>, draws: Seq<int>, count: int) -> bool {
    &&& draws.len() == count
    &&& forall|i: int|
        0 <= i < count && agents[i].body.size > SPLIT_SIZE ==> 0 <= #[trigger] draws[i]
            <= split_odds(agents[i].body.size as int, agents[i].inv_split_freq as int)
}

/// Whether `agent` splits on the draw `draw`: it is larger than
/// [`SPLIT_SIZE`], and the draw is 0.
pub open spec fn splits_on(agent: Agent, draw: int) -> bool {
    agent.body.size > SPLIT_SIZE && hit(draw)
}

/// Whether, with the agents asked in order on `draws`, `parent` is the
/// first that splits, or none does if `parent` is `None`.  Agents behind
/// the first that splits are not asked.
pub open spec fn first_to_split(agents: Seq<Agent>, draws: Seq<int>, parent: Option<int>) -> bool {
    match parent {
        None => split_draws(agents, draws, agents.len() as int) && forall|i: int|
            0 <= i < agents.len() ==> !splits_on(agents[i], #[trigger] draws[i]),
        Some(p) => 0 <= p < agents.len() && split_draws(agents, draws, p + 1) && splits_on(
            agents[p],
            draws[p],
        ) && forall|i: int| 0 <= i < p ==> !splits_on(agents[i], #[trigger] draws[i]),
    }
}

/// The place of the agent that split, if one did.
pub open spec fn parent_of(born: Option<(usize, Agent)>) -> Option<int> {
    match born {
        Some((p, _)) => Some(p as int),
        None => None,
    }
}

/// Whether the population `after` is `before` after agent `p` split off
/// `child`: agent `p` was larger than [`SPLIT_SIZE`] and has shrunk by the
/// child's area, the child is its offspring of seven tenths of its size,
/// and no other agent changed.
pub open spec fn splits_at(before: Seq<Agent>, after: Seq<Agent>, p: int, child: AgentView)
    -> bool {
    &&& 0 <= p < before.len()
    &&& after.len() == before.len()
    &&& before[p].body.size > SPLIT_SIZE
    &&& after[p]@ == split(before[p]@)
    &&& is_offspring(before[p]@, child, child_size(before[p].body.size as int))
    &&& forall|q: int| 0 <= q < before.len() && q != p ==> #[trigger] after[q] == before[q]
}

} // verus!
