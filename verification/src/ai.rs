//! Thinking: every agent senses, its brain propagates, and the outputs
//! become its drives.

use vstd::prelude::*;

use crate::agent::all_wf;
use crate::brain::{lemma_propagated_keeps_wiring, propagated, same_wiring};
use crate::fixed::{confined, UNIT};
use crate::input::{
    all_see, distance_signal, sees, sensed, sighting, size_signal, spots_of, stimulated, Nearest,
};
use crate::mutation::lemma_same_wiring_wf;
use crate::output::drive;
use crate::structs::{agent_views, Agent, AgentView, Body, BrainView};

verus! {

/// `x`, kept between -1 and 1.
pub open spec fn unit_clamped(x: int) -> int {
    confined(x, -UNIT as int, UNIT as int)
}

/// `brain` with what a body `body` senses of `nearest` written to its input
/// neurons.
pub open spec fn with_senses(brain: BrainView, body: Body, nearest: Nearest) -> BrainView {
    BrainView {
        inp: brain.inp.update(
            0,
            stimulated(brain.inp[0], size_signal(body.size as int, nearest.size as int)),
        ).update(1, stimulated(brain.inp[1], distance_signal(nearest.inv_dist as int))).update(
            2,
            stimulated(brain.inp[2], nearest.angle as int),
        ),
        ..brain
    }
}

/// `agent` after it sensed `nearest` and thought: its brain made one
/// propagation pass on the new inputs, and its two drives are the drives of
/// the two output neurons, kept between -1 and 1.
pub open spec fn thought(agent: AgentView, nearest: Nearest) -> AgentView {
    let brain = propagated(with_senses(agent.brain, agent.body, nearest));
    AgentView {
        brain,
        body: Body {
            mov: unit_clamped(drive(brain.out[0])) as i64,
            rot: unit_clamped(drive(brain.out[1])) as i64,
            ..agent.body
        },
        ..agent
    }
}

/// Keeps a drive between -1 and 1.
pub fn clamp_unit(x: i64) -> (r: i64)
    ensures
        r == unit_clamped(x as int),
{
    if x < -UNIT {
        -UNIT
    } else if x > UNIT {
        UNIT
    } else {
        x
    }
}

/// Lets every agent sense and think.
///
/// All agents sense the population as it is when the call begins.
/// `directions[i]` is the direction, in half turns, of the offset of what
/// agent `i` sees (see [`Nearest::sight`]); it counts only where that is no
/// border.  Every agent must have the borders and every living agent in
/// view (see [`Nearest::check_view`]).
pub fn update_ai(agents: &mut Vec<Agent>, directions: &Vec<i64>)
    requires
        all_wf(old(agents)@),
        all_see(spots_of(agent_views(old(agents)@))),
        directions@.len() == old(agents)@.len(),
    ensures
        final(agents)@.len() == old(agents)@.len(),
        all_wf(final(agents)@),
        forall|i: int|
            0 <= i < old(agents)@.len() ==> (#[trigger] final(agents)@[i])@ == thought(
                old(agents)@[i]@,
                sensed(
                    sighting(spots_of(agent_views(old(agents)@)), i),
                    old(agents)@[i].body.angle as int,
                    directions@[i] as int,
                ),
            ),
{
    let ghost spots = spots_of(agent_views(agents@));
    let count: usize = agents.len();
    let mut i: usize = 0;
    while i < count
        invariant
            i <= count,
            count == agents@.len(),
            count == old(agents)@.len(),
            directions@.len() == count,
            all_wf(agents@),
            all_see(spots),
            spots == spots_of(agent_views(old(agents)@)),
            spots_of(agent_views(agents@)) == spots,
            forall|j: int| i <= j < count ==> #[trigger] agents@[j] == old(agents)@[j],
            forall|j: int|
                0 <= j < i ==> (#[trigger] agents@[j])@ == thought(
                    old(agents)@[j]@,
                    sensed(
                        sighting(spots, j),
                        old(agents)@[j].body.angle as int,
                        directions@[j] as int,
                    ),
                ),
        decreases count - i,
    {
        let ghost before = agents@;
        assert(before[i as int].wf());
        assert(sees(spots, i as int));
        let nearest = Nearest::to(agents, i, directions[i]);
        let body: Body = agents[i].body;
        let ghost brain = agents@[i as int].brain@;
        crate::input::assign(agents[i].brain.input(), &body, nearest);
        assert(agents@[i as int].brain@.inp =~= with_senses(brain, body, nearest).inp);
        let mut mov: i64 = 0;
        let mut rot: i64 = 0;
        let output = agents[i].brain.update_neurons();
        crate::output::assign(&mut mov, &output[0]);
        crate::output::assign(&mut rot, &output[1]);
        agents[i].body.mov = clamp_unit(mov);
        agents[i].body.rot = clamp_unit(rot);
        proof {
            let sensing = with_senses(brain, body, nearest);
            assert(same_wiring(brain, sensing));
            lemma_same_wiring_wf(brain, sensing);
            lemma_propagated_keeps_wiring(sensing);
            lemma_same_wiring_wf(sensing, propagated(sensing));
            assert(agents@[i as int]@ == thought(before[i as int]@, nearest));
            assert(agents@[i as int].wf());
            assert forall|j: int| 0 <= j < count implies (#[trigger] agents@[j]).wf() by {
                if j != i {
                    assert(agents@[j] == before[j]);
                }
            }
            assert(spots_of(agent_views(agents@)) =~= spots) by {
                assert forall|j: int| 0 <= j < count implies spots_of(agent_views(agents@))[j]
                    == spots[j] by {
                    assert(spots[j] == spots_of(agent_views(before))[j]);
                    if j != i {
                        assert(agents@[j] == before[j]);
                    }
                }
            }
            assert forall|j: int| 0 <= j < i + 1 implies (#[trigger] agents@[j])@ == thought(
                old(agents)@[j]@,
                sensed(
                    sighting(spots, j),
                    old(agents)@[j].body.angle as int,
                    directions@[j] as int,
                ),
            ) by {
                if j < i {
                    assert(agents@[j] == before[j]);
                }
            }
        }
        i += 1;
    }
}

} // verus!
