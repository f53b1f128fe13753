//! The world: movement, energy cost, eating, culling, and the order in
//! which the population is shown.
//!
//! Sines, cosines and powers with a fractional exponent are not computed
//! here: the caller supplies them, per agent, as a [`Motion`].

use vstd::prelude::*;

use crate::agent::{all_wf, first_to_split, is_arrival, parent_of, splits_at};
use crate::helpers::{hit, one_in};
use crate::ai::{clamp_unit, unit_clamped};
use crate::body::{remainder, slid};
use crate::fixed::{
    confined, fx_add, fx_mul, fx_sub, isqrt, lemma_product_of_fraction, lemma_root_exists,
    magnitude, product, root, wrap_angle, wrapped, UNIT,
};
use crate::structs::{agent_views, Agent, AgentView, Body, Pos};

verus! {

/// The side of the square arena.
pub const GAME_SIZE: i64 = 600_000_000;

/// How far an agent at full drive moves in one tick.
pub const MOV_SPEED: i64 = 2_000_000;

/// How far an agent at full drive turns in one tick, in half turns.
pub const ROT_SPEED: i64 = 50_000;

/// An agent smaller than this does not survive.
pub const MIN_SIZE: i64 = 4_000_000;

/// The fraction of its size that an agent at rest keeps per tick.  An agent
/// keeps this fraction raised to the power of its [`effort`].
pub const DECAY_BASE: i64 = 999_500;

/// What the caller computes for one agent and one tick.
#[derive(Clone, Copy, Debug)]
pub struct Motion {
    /// The cosine of the heading that the agent has after it turned (see
    /// [`turned`]), from -1 to 1.
    pub cos: i64,
    /// The sine of that heading, from -1 to 1.
    pub sin: i64,
    /// The fraction of its size that the agent keeps, from 0 to 1.
    pub decay: i64,
}

/// The heading of `body` after it turned by its turn drive.
pub open spec fn turned(body: Body) -> int {
    wrapped(body.angle + product(ROT_SPEED as int, unit_clamped(body.rot as int)))
}

/// How much energy `body` spends in a tick, as the exponent of
/// [`DECAY_BASE`]: 1 at rest, and more by half the magnitude of its forward
/// drive and an eighth of that of its turn drive.
pub open spec fn effort(body: Body) -> int {
    UNIT + magnitude(unit_clamped(body.mov as int)) / 2 + magnitude(
        unit_clamped(body.rot as int),
    ) / 8
}

/// `body` after it turned and moved along its new heading, whose cosine and
/// sine are `cos` and `sin`.
pub open spec fn moved(body: Body, cos: int, sin: int) -> Body {
    let step = product(MOV_SPEED as int, unit_clamped(body.mov as int));
    Body {
        angle: turned(body) as i64,
        pos: Pos {
            x: slid(body.pos.x as int, product(step, unit_clamped(cos))) as i64,
            y: slid(body.pos.y as int, product(step, unit_clamped(sin))) as i64,
        },
        ..body
    }
}

/// `body` after it kept the fraction `decay` of its size, and its centre.
pub open spec fn shrunk(body: Body, decay: int) -> Body {
    let size = product(body.size as int, confined(decay, 0, UNIT as int));
    let shift = (body.size - size) / 2;
    Body {
        size: size as i64,
        pos: Pos {
            x: slid(body.pos.x as int, shift) as i64,
            y: slid(body.pos.y as int, shift) as i64,
        },
        ..body
    }
}

/// The larger of two numbers.
pub open spec fn larger(a: int, b: int) -> int {
    if a >= b {
        a
    } else {
        b
    }
}

/// The smaller of two numbers.
pub open spec fn smaller(a: int, b: int) -> int {
    if a <= b {
        a
    } else {
        b
    }
}

/// Whether two squares, given by their upper left corners and sides,
/// overlap in more than nine tenths of the area of the smaller one.
pub open spec fn overlapping(pos: Pos, pos2: Pos, size: int, size2: int) -> bool {
    let width = smaller(pos.x + size, pos2.x + size2) - larger(pos.x as int, pos2.x as int);
    let height = smaller(pos.y + size, pos2.y + size2) - larger(pos.y as int, pos2.y as int);
    let least = smaller(size, size2);
    width > 0 && height > 0 && 10 * (width * height) > 9 * (least * least)
}

/// Whether size `a` is more than a tenth above size `b`.
pub open spec fn outweighs(a: int, b: int) -> bool {
    10 * a > 11 * b
}

/// The side of the square that has the area of two squares of sides `a`
/// and `b` together, rounded down.
pub open spec fn merged(a: int, b: int) -> int {
    root(a * a + b * b)
}

/// The largest area that the living agents of a population may have
/// together: one below the square of the first number beyond `i64`, so that
/// an agent that absorbed all the others would still have a size.
pub const AREA_LIMIT: u128 = 0x4000_0000_0000_0000_0000_0000_0000_0000;

/// The area of `agent` if it is alive, else nothing.
pub open spec fn live_share(agent: AgentView) -> int {
    if agent.alive {
        agent.body.size * agent.body.size
    } else {
        0
    }
}

/// The area of the living agents among the first `count` agents together.
pub open spec fn live_area(agents: Seq<AgentView>, count: nat) -> int
    decreases count,
{
    if count == 0 {
        0
    } else {
        live_area(agents, (count - 1) as nat) + live_share(agents[count - 1])
    }
}

/// Whether the living agents together have an area below [`AREA_LIMIT`].
pub open spec fn has_room(agents: Seq<AgentView>) -> bool {
    live_area(agents, agents.len()) < AREA_LIMIT
}

/// `eater` after it, at size `size_l`, absorbed something of size `size_s`:
/// it has the merged size, and both coordinates fall by half of what the
/// size gained.
pub open spec fn fed(eater: Body, size_l: int, size_s: int) -> Body {
    let size = merged(size_l, size_s);
    let shift = (size - size_l) / 2;
    Body {
        size: size as i64,
        pos: Pos {
            x: slid(eater.pos.x as int, -shift) as i64,
            y: slid(eater.pos.y as int, -shift) as i64,
        },
        ..eater
    }
}

impl Body {
    /// The heading that the body has after it turned by its turn drive; see
    /// [`turned`].
    pub fn turned(&self) -> (angle: i64)
        requires
            self.wf(),
        ensures
            angle == turned(*self),
            -UNIT < angle <= UNIT,
    {
        let spin: i64 = clamp_unit(self.rot);
        let turn: i64 = fx_mul(ROT_SPEED, spin);
        assert(-ROT_SPEED <= turn <= ROT_SPEED) by {
            lemma_product_of_fraction(ROT_SPEED as int, spin as int);
        }
        wrap_angle(self.angle + turn)
    }

    /// How much energy the body spends in a tick; see [`effort`].
    pub fn effort(&self) -> (exponent: i64)
        ensures
            exponent == effort(*self),
            UNIT <= exponent <= UNIT + UNIT / 2 + UNIT / 8,
    {
        let drive: i64 = clamp_unit(self.mov);
        let spin: i64 = clamp_unit(self.rot);
        let drive: i64 = if drive < 0 {
            -drive
        } else {
            drive
        };
        let spin: i64 = if spin < 0 {
            -spin
        } else {
            spin
        };
        UNIT + drive / 2 + spin / 8
    }
}

/// Turns the body by its turn drive and moves it by its forward drive
/// along the new heading, whose cosine and sine are `cos` and `sin`.
pub fn mov(body: &mut Body, cos: i64, sin: i64)
    requires
        old(body).wf(),
    ensures
        *final(body) == moved(*old(body), cos as int, sin as int),
        final(body).wf(),
{
    body.angle = body.turned();
    let drive: i64 = clamp_unit(body.mov);
    let step: i64 = fx_mul(MOV_SPEED, drive);
    proof {
        lemma_product_of_fraction(MOV_SPEED as int, drive as int);
    }
    let along: i64 = fx_mul(step, clamp_unit(cos));
    let across: i64 = fx_mul(step, clamp_unit(sin));
    body.pos.x = fx_add(body.pos.x, along);
    body.pos.y = fx_add(body.pos.y, across);
}

/// Lets the body keep the fraction `decay` of its size, and its centre.
pub fn shrink(body: &mut Body, decay: i64)
    requires
        old(body).wf(),
    ensures
        *final(body) == shrunk(*old(body), decay as int),
        final(body).wf(),
        final(body).size <= old(body).size,
{
    let size0: i64 = body.size;
    let fraction: i64 = if decay < 0 {
        0
    } else if decay > UNIT {
        UNIT
    } else {
        decay
    };
    proof {
        lemma_product_of_fraction(size0 as int, fraction as int);
    }
    body.size = fx_mul(size0, fraction);
    let shift: i64 = (size0 - body.size) / 2;
    body.pos.x = fx_add(body.pos.x, shift);
    body.pos.y = fx_add(body.pos.y, shift);
}

/// Whether two bodies overlap in more than nine tenths of the area of the
/// smaller one.
pub fn closely_overlapping(pos: Pos, pos2: Pos, size: i64, size2: i64) -> (close: bool)
    ensures
        close == overlapping(pos, pos2, size as int, size2 as int),
{
    let overlap_x1: i128 = if pos.x >= pos2.x {
        pos.x as i128
    } else {
        pos2.x as i128
    };
    let overlap_x2: i128 = if pos.x as i128 + size as i128 <= pos2.x as i128 + size2 as i128 {
        pos.x as i128 + size as i128
    } else {
        pos2.x as i128 + size2 as i128
    };
    let overlap_y1: i128 = if pos.y >= pos2.y {
        pos.y as i128
    } else {
        pos2.y as i128
    };
    let overlap_y2: i128 = if pos.y as i128 + size as i128 <= pos2.y as i128 + size2 as i128 {
        pos.y as i128 + size as i128
    } else {
        pos2.y as i128 + size2 as i128
    };
    let overlap_width: i128 = overlap_x2 - overlap_x1;
    let overlap_height: i128 = overlap_y2 - overlap_y1;
    let least: i128 = if size <= size2 {
        size as i128
    } else {
        size2 as i128
    };
    if overlap_width > 0 && overlap_height > 0 {
        assert(overlap_width <= least && overlap_height <= least);
        assert(0 < overlap_width * overlap_height <= least * least) by (nonlinear_arith)
            requires
                0 < overlap_width <= least,
                0 < overlap_height <= least,
        ;
        assert(least * least <= 0x7fff_ffff_ffff_ffff * 0x7fff_ffff_ffff_ffff) by (nonlinear_arith)
            requires
                0 < least <= 0x7fff_ffff_ffff_ffff,
        ;
        // ten times the overlap exceeds nine times the area of the smaller
        // body just when ten times what the overlap leaves of that area is
        // less than the area
        let area: i128 = least * least;
        let left: i128 = area - overlap_width * overlap_height;
        left <= (area - 1) / 10
    } else {
        false
    }
}

/// Lets `eater`, at size `size_l`, absorb something of size `size_s`: its
/// area grows by the area absorbed, and it keeps its centre.
///
/// The merged size must be one that an `i64` can hold.
pub fn eat(eater: &mut Body, size_l: i64, size_s: i64)
    requires
        0 <= size_l,
        0 <= size_s,
        merged(size_l as int, size_s as int) <= i64::MAX,
    ensures
        *final(eater) == fed(*old(eater), size_l as int, size_s as int),
        final(eater).size == merged(size_l as int, size_s as int),
        final(eater).size >= size_l,
        final(eater).size >= size_s,
        old(eater).wf() ==> final(eater).wf(),
{
    assert(0 <= size_l * size_l <= 0x7fff_ffff_ffff_ffff * 0x7fff_ffff_ffff_ffff)
        by (nonlinear_arith)
        requires
            0 <= size_l <= 0x7fff_ffff_ffff_ffff,
    ;
    assert(0 <= size_s * size_s <= 0x7fff_ffff_ffff_ffff * 0x7fff_ffff_ffff_ffff)
        by (nonlinear_arith)
        requires
            0 <= size_s <= 0x7fff_ffff_ffff_ffff,
    ;
    let side: u64 = isqrt(
        (size_l as u128) * (size_l as u128) + (size_s as u128) * (size_s as u128),
    );
    assert(side >= size_l && side >= size_s) by (nonlinear_arith)
        requires
            0 <= size_l,
            0 <= size_s,
            0 <= side,
            size_l * size_l + size_s * size_s < (side + 1) * (side + 1),
    ;
    let new_size_l: i64 = side as i64;
    let shift: i64 = (new_size_l - size_l) / 2;
    eater.pos.x = fx_sub(eater.pos.x, shift);
    eater.pos.y = fx_sub(eater.pos.y, shift);
    eater.size = new_size_l;
}

/// `agent`, absorbed.
pub open spec fn absorbed(agent: AgentView) -> AgentView {
    AgentView { alive: false, ..agent }
}

/// `agent` after it absorbed something of size `prey`.
pub open spec fn feasted(agent: AgentView, prey: int) -> AgentView {
    AgentView { body: fed(agent.body, agent.body.size as int, prey), ..agent }
}

/// The population after agents `i` and `j` met: if both are alive and
/// overlap closely, and one is more than a tenth larger than the other, the
/// larger one absorbs the smaller one.
pub open spec fn clash(agents: Seq<AgentView>, i: int, j: int) -> Seq<AgentView> {
    let a = agents[i];
    let b = agents[j];
    if a.alive && b.alive && overlapping(
        a.body.pos,
        b.body.pos,
        a.body.size as int,
        b.body.size as int,
    ) {
        if outweighs(a.body.size as int, b.body.size as int) {
            agents.update(i, feasted(a, b.body.size as int)).update(j, absorbed(b))
        } else if outweighs(b.body.size as int, a.body.size as int) {
            agents.update(j, feasted(b, a.body.size as int)).update(i, absorbed(a))
        } else {
            agents
        }
    } else {
        agents
    }
}

/// The population after agent `i` met, in order, every later agent before
/// `upto`.
pub open spec fn row_done(agents: Seq<AgentView>, i: int, upto: int) -> Seq<AgentView>
    decreases upto - i,
{
    if upto <= i + 1 {
        agents
    } else {
        clash(row_done(agents, i, upto - 1), i, upto - 1)
    }
}

/// The population after each of the first `rows` agents met, in order,
/// every later agent.
pub open spec fn rows_done(agents: Seq<AgentView>, rows: nat) -> Seq<AgentView>
    decreases rows,
{
    if rows == 0 {
        agents
    } else {
        row_done(rows_done(agents, (rows - 1) as nat), rows - 1, agents.len() as int)
    }
}

/// The population after every pair of agents met once, in the order of the
/// first and then of the second agent of the pair.
pub open spec fn collided(agents: Seq<AgentView>) -> Seq<AgentView> {
    rows_done(agents, agents.len())
}

/// Whether `agent` stays in the population: it is alive and not smaller
/// than [`MIN_SIZE`].
pub open spec fn viable(agent: AgentView) -> bool {
    agent.alive && agent.body.size >= MIN_SIZE
}

/// The agents that stay in the population, in order.
pub open spec fn survivors(agents: Seq<AgentView>) -> Seq<AgentView> {
    agents.filter(|agent: AgentView| viable(agent))
}

/// `body` moved so that, on each axis, its square lies within the arena; a
/// body larger than the arena lies at 0.
pub open spec fn kept_inside(body: Body) -> Body {
    Body {
        pos: Pos {
            x: larger(smaller(body.pos.x as int, GAME_SIZE - body.size), 0) as i64,
            y: larger(smaller(body.pos.y as int, GAME_SIZE - body.size), 0) as i64,
        },
        ..body
    }
}

/// The population with every body kept inside the arena.
pub open spec fn all_kept_inside(agents: Seq<AgentView>) -> Seq<AgentView> {
    Seq::new(agents.len(), |i: int| AgentView { body: kept_inside(agents[i].body), ..agents[i] })
}

/// Whether the agents stand in ascending order of size.
pub open spec fn ascending(agents: Seq<AgentView>) -> bool {
    forall|i: int, j: int|
        0 <= i <= j < agents.len() ==> (#[trigger] agents[i]).body.size <= (
        #[trigger] agents[j]).body.size
}

/// The population after collisions, culling and the border clamp, before
/// it is put in order.
pub open spec fn settled(agents: Seq<AgentView>) -> Seq<AgentView> {
    all_kept_inside(survivors(collided(agents)))
}

/// Culling a population that grew by one agent.
pub proof fn lemma_survivors_push(agents: Seq<AgentView>, agent: AgentView)
    ensures
        survivors(agents.push(agent)) == if viable(agent) {
            survivors(agents).push(agent)
        } else {
            survivors(agents)
        },
{
    reveal(Seq::filter);
    assert(agents.push(agent).drop_last() =~= agents);
}

/// Culling leaves only viable agents, each of which was there before.
pub proof fn lemma_survivors(agents: Seq<AgentView>)
    ensures
        survivors(agents).len() <= agents.len(),
        forall|i: int|
            0 <= i < survivors(agents).len() ==> viable(#[trigger] survivors(agents)[i])
                && agents.contains(survivors(agents)[i]),
    decreases agents.len(),
{
    reveal(Seq::filter);
    if agents.len() > 0 {
        let front = agents.drop_last();
        lemma_survivors(front);
        assert forall|i: int| 0 <= i < survivors(agents).len() implies viable(
            #[trigger] survivors(agents)[i],
        ) && agents.contains(survivors(agents)[i]) by {
            if i < survivors(front).len() {
                let j = choose|j: int| 0 <= j < front.len() && front[j] == survivors(front)[i];
                assert(agents[j] == survivors(agents)[i]);
            } else {
                assert(agents[agents.len() - 1] == survivors(agents)[i]);
            }
        }
    }
}

proof fn lemma_row_done_len(agents: Seq<AgentView>, i: int, upto: int)
    requires
        0 <= i,
        upto <= agents.len(),
    ensures
        row_done(agents, i, upto).len() == agents.len(),
    decreases upto - i,
{
    if upto > i + 1 {
        lemma_row_done_len(agents, i, upto - 1);
    }
}

proof fn lemma_rows_done_len(agents: Seq<AgentView>, rows: nat)
    requires
        rows <= agents.len(),
    ensures
        rows_done(agents, rows).len() == agents.len(),
    decreases rows,
{
    if rows > 0 {
        lemma_rows_done_len(agents, (rows - 1) as nat);
        lemma_row_done_len(
            rows_done(agents, (rows - 1) as nat),
            rows - 1,
            agents.len() as int,
        );
    }
}

/// The area of the living agents among the first agents is not negative
/// and grows with their number.
pub proof fn lemma_live_area_grows(agents: Seq<AgentView>, fewer: nat, more: nat)
    requires
        fewer <= more,
    ensures
        0 <= live_area(agents, fewer) <= live_area(agents, more),
    decreases more,
{
    if more > 0 {
        let share = live_share(agents[more - 1]);
        let size = agents[more - 1].body.size as int;
        assert(size * size >= 0) by (nonlinear_arith);
        if fewer < more {
            lemma_live_area_grows(agents, fewer, (more - 1) as nat);
        } else {
            lemma_live_area_grows(agents, 0, (more - 1) as nat);
        }
    }
}

/// Two living agents have no more area together than all living agents.
pub proof fn lemma_pair_in_area(agents: Seq<AgentView>, i: int, j: int)
    requires
        0 <= i < j < agents.len(),
    ensures
        live_share(agents[i]) + live_share(agents[j]) <= live_area(agents, agents.len()),
{
    lemma_live_area_grows(agents, 0, i as nat);
    lemma_live_area_grows(agents, (i + 1) as nat, j as nat);
    lemma_live_area_grows(agents, (j + 1) as nat, agents.len());
}

/// What the area of the living agents becomes when one agent changes.
pub proof fn lemma_live_area_update(agents: Seq<AgentView>, i: int, agent: AgentView, count: nat)
    requires
        0 <= i < agents.len(),
        count <= agents.len(),
    ensures
        live_area(agents.update(i, agent), count) == live_area(agents, count) + if i < count {
            live_share(agent) - live_share(agents[i])
        } else {
            0
        },
    decreases count,
{
    if count > 0 {
        lemma_live_area_update(agents, i, agent, (count - 1) as nat);
    }
}

/// Agents that each have no more living area than before have no more
/// together.
pub proof fn lemma_live_area_shrinks(before: Seq<AgentView>, after: Seq<AgentView>, count: nat)
    requires
        count <= before.len(),
        after.len() == before.len(),
        forall|k: int|
            0 <= k < count ==> live_share(#[trigger] after[k]) <= live_share(before[k]),
    ensures
        live_area(after, count) <= live_area(before, count),
    decreases count,
{
    if count > 0 {
        lemma_live_area_shrinks(before, after, (count - 1) as nat);
    }
}

/// A side whose square is below the square of the first number beyond
/// `i64` is one that an `i64` can hold.
pub proof fn lemma_side_fits(side: int, area: int)
    requires
        0 <= side,
        side * side <= area < AREA_LIMIT,
    ensures
        side <= i64::MAX,
{
    if side > i64::MAX {
        assert(side * side >= 0x8000_0000_0000_0000 * 0x8000_0000_0000_0000) by (nonlinear_arith)
            requires
                side >= 0x8000_0000_0000_0000,
        ;
    }
}

/// A meeting of two agents does not add to the area of the living: what
/// the larger gains is what the smaller had, rounded down.
pub proof fn lemma_clash_keeps_area(agents: Seq<AgentView>, i: int, j: int)
    requires
        0 <= i < j < agents.len(),
        agents[i].body.size >= 0,
        agents[j].body.size >= 0,
        has_room(agents),
    ensures
        clash(agents, i, j).len() == agents.len(),
        live_area(clash(agents, i, j), agents.len()) <= live_area(agents, agents.len()),
        agents[i].alive && agents[j].alive ==> merged(
            agents[i].body.size as int,
            agents[j].body.size as int,
        ) <= i64::MAX,
{
    let a = agents[i];
    let b = agents[j];
    let l = a.body.size as int;
    let s = b.body.size as int;
    assert(l * l >= 0 && s * s >= 0) by (nonlinear_arith);
    lemma_root_exists(l * l + s * s);
    let side = merged(l, s);
    assert(merged(s, l) == side) by {
        assert(s * s + l * l == l * l + s * s);
    }
    if a.alive && b.alive {
        lemma_pair_in_area(agents, i, j);
        lemma_side_fits(side, l * l + s * s);
        let fat = feasted(a, s);
        let fatter = feasted(b, l);
        assert(fat.body.size == side);
        assert(fatter.body.size == side);
        lemma_live_area_update(agents, i, fat, agents.len());
        lemma_live_area_update(agents.update(i, fat), j, absorbed(b), agents.len());
        lemma_live_area_update(agents, j, fatter, agents.len());
        lemma_live_area_update(agents.update(j, fatter), i, absorbed(a), agents.len());
    }
}

/// Lets agents `i` and `j` of the population meet; see [`clash`].
pub fn meet(agents: &mut Vec<Agent>, i: usize, j: usize)
    requires
        i < j < old(agents)@.len(),
        all_wf(old(agents)@),
        has_room(agent_views(old(agents)@)),
    ensures
        agent_views(final(agents)@) == clash(agent_views(old(agents)@), i as int, j as int),
        final(agents)@.len() == old(agents)@.len(),
        all_wf(final(agents)@),
        live_area(agent_views(final(agents)@), final(agents)@.len()) <= live_area(
            agent_views(old(agents)@),
            old(agents)@.len(),
        ),
{
    let ghost before = agents@;
    assert(before[i as int].wf() && before[j as int].wf());
    proof {
        lemma_clash_keeps_area(agent_views(before), i as int, j as int);
        let l = before[i as int].body.size as int;
        let s = before[j as int].body.size as int;
        assert(s * s + l * l == l * l + s * s) by (nonlinear_arith);
    }
    let first: Body = agents[i].body;
    let second: Body = agents[j].body;
    if agents[i].alive && agents[j].alive && closely_overlapping(
        first.pos,
        second.pos,
        first.size,
        second.size,
    ) {
        if 10 * (first.size as i128) > 11 * (second.size as i128) {
            eat(&mut agents[i].body, first.size, second.size);
            agents[j].alive = false;
        } else if 10 * (second.size as i128) > 11 * (first.size as i128) {
            eat(&mut agents[j].body, second.size, first.size);
            agents[i].alive = false;
        }
    }
    proof {
        assert(agent_views(agents@) =~= clash(agent_views(before), i as int, j as int));
        assert forall|k: int| 0 <= k < agents@.len() implies (#[trigger] agents@[k]).wf() by {
            if k != i && k != j {
                assert(agents@[k] == before[k]);
            }
        }
    }
}

/// Lets every pair of agents meet once; see [`collided`].  The area of the
/// living does not grow by it.
pub fn collide(agents: &mut Vec<Agent>)
    requires
        all_wf(old(agents)@),
        has_room(agent_views(old(agents)@)),
    ensures
        agent_views(final(agents)@) == collided(agent_views(old(agents)@)),
        final(agents)@.len() == old(agents)@.len(),
        all_wf(final(agents)@),
        live_area(agent_views(final(agents)@), final(agents)@.len()) <= live_area(
            agent_views(old(agents)@),
            old(agents)@.len(),
        ),
{
    let ghost start = agent_views(agents@);
    let count: usize = agents.len();
    let mut i: usize = 0;
    while i < count
        invariant
            i <= count,
            count == agents@.len(),
            count == start.len(),
            all_wf(agents@),
            start == agent_views(old(agents)@),
            has_room(start),
            live_area(agent_views(agents@), count as nat) <= live_area(start, count as nat),
            agent_views(agents@) == rows_done(start, i as nat),
        decreases count - i,
    {
        let ghost row = agent_views(agents@);
        let mut j: usize = i + 1;
        while j < count
            invariant
                i < j <= count,
                i < count,
                count == agents@.len(),
                count == row.len(),
                count == start.len(),
                all_wf(agents@),
                has_room(start),
                live_area(agent_views(agents@), count as nat) <= live_area(start, count as nat),
                agent_views(agents@) == row_done(row, i as int, j as int),
            decreases count - j,
        {
            meet(agents, i, j);
            j += 1;
        }
        i += 1;
    }
}

/// Removes every agent that is not alive or is smaller than [`MIN_SIZE`].
pub fn cull(agents: &mut Vec<Agent>)
    requires
        all_wf(old(agents)@),
    ensures
        agent_views(final(agents)@) == survivors(agent_views(old(agents)@)),
        all_wf(final(agents)@),
{
    let ghost before = agent_views(agents@);
    let ghost mut seen: int = 0;
    let mut i: usize = 0;
    assert(agent_views(agents@).take(0) =~= survivors(before.take(0))) by {
        reveal(Seq::filter);
    }
    assert(agent_views(agents@).skip(0) =~= before.skip(0));
    while i < agents.len()
        invariant
            i <= agents.len(),
            0 <= seen <= before.len(),
            agents.len() - i == before.len() - seen,
            agent_views(agents@).take(i as int) == survivors(before.take(seen)),
            agent_views(agents@).skip(i as int) == before.skip(seen),
            all_wf(agents@),
        decreases agents.len() - i,
    {
        let ghost current = agent_views(agents@);
        let ghost held = agents@;
        assert(current[i as int] == current.skip(i as int)[0]);
        assert(before[seen] == before.skip(seen)[0]);
        proof {
            lemma_survivors_push(before.take(seen), before[seen]);
            assert(before.take(seen + 1) =~= before.take(seen).push(before[seen]));
        }
        if !(agents[i].alive && agents[i].body.size >= MIN_SIZE) {
            agents.remove(i);
            assert(agent_views(agents@) =~= current.remove(i as int));
            assert(agent_views(agents@).take(i as int) =~= current.take(i as int));
            assert(agent_views(agents@).skip(i as int) =~= current.skip(i as int).skip(1));
            assert(before.skip(seen + 1) =~= before.skip(seen).skip(1));
            assert forall|k: int| 0 <= k < agents@.len() implies (#[trigger] agents@[k]).wf() by {
                if k < i {
                    assert(agents@[k] == held[k]);
                } else {
                    assert(agents@[k] == held[k + 1]);
                }
            }
        } else {
            assert(current.take(i + 1) =~= current.take(i as int).push(current[i as int]));
            assert(current.skip(i + 1) =~= current.skip(i as int).skip(1));
            assert(before.skip(seen + 1) =~= before.skip(seen).skip(1));
            i += 1;
        }
        proof {
            seen = seen + 1;
        }
    }
    assert(agent_views(agents@).take(i as int) =~= agent_views(agents@));
    assert(before.take(seen) =~= before);
}

/// Moves every body so that its square lies within the arena.
pub fn keep_inside(agents: &mut Vec<Agent>)
    requires
        all_wf(old(agents)@),
    ensures
        agent_views(final(agents)@) == all_kept_inside(agent_views(old(agents)@)),
        all_wf(final(agents)@),
{
    let ghost before = agents@;
    let count: usize = agents.len();
    let mut i: usize = 0;
    while i < count
        invariant
            i <= count,
            count == agents@.len(),
            count == before.len(),
            all_wf(before),
            forall|k: int|
                0 <= k < i ==> (#[trigger] agents@[k])@ == (AgentView {
                    body: kept_inside(before[k].body),
                    ..before[k]@
                }),
            forall|k: int| i <= k < count ==> #[trigger] agents@[k] == before[k],
        decreases count - i,
    {
        let ghost held = agents@;
        assert(before[i as int].wf());
        let body: Body = agents[i].body;
        let room: i64 = GAME_SIZE - body.size;
        let x: i64 = if body.pos.x <= room {
            body.pos.x
        } else {
            room
        };
        let y: i64 = if body.pos.y <= room {
            body.pos.y
        } else {
            room
        };
        agents[i].body.pos.x = if x >= 0 {
            x
        } else {
            0
        };
        agents[i].body.pos.y = if y >= 0 {
            y
        } else {
            0
        };
        proof {
            assert forall|k: int| 0 <= k < i + 1 implies (#[trigger] agents@[k])@ == (AgentView {
                body: kept_inside(before[k].body),
                ..before[k]@
            }) by {
                if k < i {
                    assert(agents@[k] == held[k]);
                }
            }
            assert forall|k: int| i + 1 <= k < count implies #[trigger] agents@[k]
                == before[k] by {
                assert(agents@[k] == held[k]);
            }
        }
        i += 1;
    }
    proof {
        assert(agent_views(agents@) =~= all_kept_inside(agent_views(before)));
        assert forall|k: int| 0 <= k < agents@.len() implies (#[trigger] agents@[k]).wf() by {
            assert(before[k].wf());
        }
    }
}

/// Where an agent of size `size` belongs among `agents`: before the first
/// agent that is larger.
pub open spec fn slot(agents: Seq<AgentView>, size: int) -> int
    decreases agents.len(),
{
    if agents.len() == 0 || agents[0].body.size > size {
        0
    } else {
        1 + slot(agents.drop_first(), size)
    }
}

/// `agents` after the first `count` agents were put in order, one after
/// the other, each taken out and put back where it belongs among those
/// before it.
pub open spec fn ordered(agents: Seq<AgentView>, count: nat) -> Seq<AgentView>
    decreases count,
{
    if count == 0 {
        agents
    } else {
        let before = ordered(agents, (count - 1) as nat);
        let agent = before[count - 1];
        let rest = before.remove(count - 1);
        rest.insert(slot(rest.take(count - 1), agent.body.size as int), agent)
    }
}

/// `agents` in ascending order of size, agents of one size in the order
/// they had.
pub open spec fn in_order(agents: Seq<AgentView>) -> Seq<AgentView> {
    ordered(agents, agents.len())
}

/// Puts the population in ascending order of size.  Agents of one size
/// keep their order.
pub fn sort_by_size(agents: &mut Vec<Agent>)
    ensures
        agent_views(final(agents)@) == in_order(agent_views(old(agents)@)),
        ascending(agent_views(final(agents)@)),
        agent_views(final(agents)@).to_multiset() == agent_views(old(agents)@).to_multiset(),
        final(agents)@.to_multiset() == old(agents)@.to_multiset(),
        final(agents)@.len() == old(agents)@.len(),
{
    let ghost start = agent_views(agents@);
    let count: usize = agents.len();
    let mut k: usize = 0;
    while k < count
        invariant
            k <= count,
            count == agents@.len(),
            count == old(agents)@.len(),
            start == agent_views(old(agents)@),
            agent_views(agents@) == ordered(start, k as nat),
            forall|a: int, b: int|
                0 <= a <= b < k ==> (#[trigger] agents@[a]).body.size <= (
                #[trigger] agents@[b]).body.size,
            agents@.to_multiset() == old(agents)@.to_multiset(),
            agent_views(agents@).to_multiset() == start.to_multiset(),
        decreases count - k,
    {
        let ghost held = agents@;
        let agent: Agent = agents.remove(k);
        let ghost rest = agents@;
        let ghost front = agent_views(rest).take(k as int);
        let size: i64 = agent.body.size;
        let mut j: usize = 0;
        assert(front.skip(0) =~= front);
        while j < k && agents[j].body.size <= size
            invariant
                j <= k,
                k < count,
                agents@ == rest,
                rest.len() == count - 1,
                front == agent_views(rest).take(k as int),
                slot(front, size as int) == j + slot(front.skip(j as int), size as int),
                forall|a: int| 0 <= a < j ==> (#[trigger] rest[a]).body.size <= size,
            decreases k - j,
        {
            assert(front.skip(j as int)[0] == rest[j as int]@);
            assert(front.skip(j as int).drop_first() =~= front.skip(j + 1));
            j += 1;
        }
        assert(slot(front, size as int) == j) by {
            if j < k {
                assert(front.skip(j as int)[0] == rest[j as int]@);
            }
        }
        agents.insert(j, agent);
        proof {
            broadcast use {
                vstd::multiset::group_multiset_axioms,
                vstd::seq_lib::to_multiset_remove,
                vstd::seq_lib::to_multiset_insert,
                vstd::seq_lib::to_multiset_contains,
            };

            assert(rest == held.remove(k as int));
            assert(agents@ == rest.insert(j as int, agent));
            assert(held.contains(agent)) by {
                assert(held[k as int] == agent);
            }
            assert(held.to_multiset().count(agent) > 0);
            assert(agents@.to_multiset() =~= held.to_multiset());
            let views = agent_views(held);
            assert(agent_views(rest) =~= views.remove(k as int));
            assert(agent_views(agents@) =~= agent_views(rest).insert(j as int, agent@));
            assert(views.contains(agent@)) by {
                assert(views[k as int] == agent@);
            }
            assert(views.to_multiset().count(agent@) > 0);
            assert(agent_views(agents@).to_multiset() =~= views.to_multiset());
            assert forall|a: int, b: int| 0 <= a <= b < k + 1 implies (
            #[trigger] agents@[a]).body.size <= (#[trigger] agents@[b]).body.size by {
                let before_a = if a < j {
                    a
                } else {
                    a - 1
                };
                let before_b = if b < j {
                    b
                } else {
                    b - 1
                };
                if a != j {
                    assert(agents@[a] == rest[before_a]);
                    assert(rest[before_a] == held[before_a]);
                }
                if b != j {
                    assert(agents@[b] == rest[before_b]);
                    assert(rest[before_b] == held[before_b]);
                }
                if a == j && b != j {
                    assert(rest[j as int] == held[j as int]);
                    assert(held[j as int].body.size <= held[before_b].body.size);
                }
            }
        }
        k += 1;
    }
    assert(ascending(agent_views(agents@))) by {
        assert forall|a: int, b: int| 0 <= a <= b < agent_views(agents@).len() implies (
        #[trigger] agent_views(agents@)[a]).body.size <= (
        #[trigger] agent_views(agents@)[b]).body.size by {
            assert(agents@[a].body.size <= agents@[b].body.size);
        }
    }
}

/// No agent of a settled population is dead or smaller than [`MIN_SIZE`].
pub proof fn lemma_settled_viable(agents: Seq<AgentView>)
    ensures
        forall|i: int| 0 <= i < settled(agents).len() ==> viable(#[trigger] settled(agents)[i]),
        settled(agents).len() <= agents.len(),
{
    lemma_survivors(collided(agents));
    lemma_rows_done_len(agents, agents.len());
    assert forall|i: int| 0 <= i < settled(agents).len() implies viable(
        #[trigger] settled(agents)[i],
    ) by {
        assert(viable(survivors(collided(agents))[i]));
    }
}

/// Merging two squares and taking the second away again gives back the
/// first, up to rounding: the merged square has the area of both, rounded
/// down to a whole side `c`, and the side that is left of it is at most `a`
/// and short of `a` by less than the rounding of the merge allows.
pub proof fn lemma_area_round_trip(a: int, b: int)
    requires
        0 < a,
        0 < b,
    ensures
        merged(a, b) * merged(a, b) <= a * a + b * b < (merged(a, b) + 1) * (merged(a, b) + 1),
        remainder(merged(a, b), b) <= a,
        a * a <= (remainder(merged(a, b), b) + 1) * (remainder(merged(a, b), b) + 1) + 2 * merged(
            a,
            b,
        ),
{
    assert(a * a >= 1 && b * b >= 1) by (nonlinear_arith)
        requires
            0 < a,
            0 < b,
    ;
    let c = root(a * a + b * b);
    lemma_root_exists(a * a + b * b);
    assert(c >= b) by (nonlinear_arith)
        requires
            0 <= c,
            0 < b,
            a * a + b * b < (c + 1) * (c + 1),
            a * a >= 1,
    ;
    assert(c * c >= b * b) by (nonlinear_arith)
        requires
            c >= b,
            b > 0,
    ;
    let left = c * c - b * b;
    lemma_root_exists(left);
    let d = root(left);
    assert(d <= a) by (nonlinear_arith)
        requires
            0 <= d,
            0 < a,
            d * d <= left,
            left <= a * a,
    ;
    assert((c + 1) * (c + 1) == c * c + 2 * c + 1) by (nonlinear_arith);
}

/// Whether the living agents together have an area below [`AREA_LIMIT`].
pub fn check_room(agents: &Vec<Agent>) -> (ok: bool)
    ensures
        ok == has_room(agent_views(agents@)),
{
    let ghost views = agent_views(agents@);
    let mut area: u128 = 0;
    let mut i: usize = 0;
    while i < agents.len()
        invariant
            i <= agents.len(),
            views == agent_views(agents@),
            area == live_area(views, i as nat),
            area < AREA_LIMIT,
        decreases agents.len() - i,
    {
        if agents[i].alive {
            let size: i128 = agents[i].body.size as i128;
            assert(0 <= size * size <= 0x8000_0000_0000_0000 * 0x8000_0000_0000_0000)
                by (nonlinear_arith)
                requires
                    -0x8000_0000_0000_0000 <= size <= 0x7fff_ffff_ffff_ffff,
            ;
            let share: u128 = (size * size) as u128;
            if area + share >= AREA_LIMIT {
                proof {
                    lemma_live_area_grows(views, (i + 1) as nat, agents@.len());
                }
                return false;
            }
            area = area + share;
        }
        i += 1;
    }
    true
}

/// Resolves collisions, removes what did not survive, keeps the survivors
/// inside the arena, and puts them in ascending order of size.
///
/// Every pair of agents meets once: where both are alive and overlap in
/// more than nine tenths of the smaller one's area, the one that is more
/// than a tenth larger absorbs the other, and has the area of both
/// afterwards.  Afterwards no agent is dead or smaller than [`MIN_SIZE`].
///
/// The living agents together must have an area below [`AREA_LIMIT`] (see
/// [`check_room`]), so that whoever absorbs whom has a size that an `i64`
/// can hold.
pub fn handle_collisions(agents: &mut Vec<Agent>)
    requires
        all_wf(old(agents)@),
        has_room(agent_views(old(agents)@)),
    ensures
        agent_views(final(agents)@) == in_order(settled(agent_views(old(agents)@))),
        ascending(agent_views(final(agents)@)),
        agent_views(final(agents)@).to_multiset() == settled(
            agent_views(old(agents)@),
        ).to_multiset(),
        forall|i: int| 0 <= i < final(agents)@.len() ==> viable((#[trigger] final(agents)@[i])@),
        final(agents)@.len() <= old(agents)@.len(),
        all_wf(final(agents)@),
{
    collide(agents);
    cull(agents);
    keep_inside(agents);
    let ghost placed = agents@;
    sort_by_size(agents);
    proof {
        broadcast use {vstd::seq_lib::to_multiset_contains, vstd::seq_lib::to_multiset_len};

        let start = agent_views(old(agents)@);
        lemma_settled_viable(start);
        assert(agent_views(placed) == settled(start));
        assert forall|i: int| 0 <= i < agents@.len() implies viable((#[trigger] agents@[i])@)
            && agents@[i].wf() by {
            let views = agent_views(agents@);
            assert(views[i] == agents@[i]@);
            assert(views.contains(views[i]));
            assert(agent_views(placed).to_multiset().count(views[i]) > 0);
            assert(agent_views(placed).contains(views[i]));
            assert(agents@.contains(agents@[i]));
            assert(placed.to_multiset().count(agents@[i]) > 0);
            assert(placed.contains(agents@[i]));
        }
    }
}

/// `agent` after one tick of physics with what the caller computed for it:
/// it turned and moved, and then shrank by its energy cost.
pub open spec fn stepped(agent: AgentView, motion: Motion) -> AgentView {
    AgentView {
        body: shrunk(
            moved(agent.body, motion.cos as int, motion.sin as int),
            motion.decay as int,
        ),
        ..agent
    }
}

/// The population after one tick of physics.
pub open spec fn all_stepped(agents: Seq<AgentView>, motions: Seq<Motion>) -> Seq<AgentView> {
    Seq::new(agents.len(), |i: int| stepped(agents[i], motions[i]))
}

/// Advances the world by one tick: every agent turns, moves and pays its
/// energy cost, and then collisions are handled as [`handle_collisions`]
/// does.
///
/// `motions[i]` holds, for agent `i`, the cosine and sine of the heading
/// that [`Body::turned`] gives and [`DECAY_BASE`] raised to the power that
/// [`Body::effort`] gives.  The living agents together must have an area
/// below [`AREA_LIMIT`] (see [`check_room`]).
pub fn update_game(agents: &mut Vec<Agent>, motions: &Vec<Motion>)
    requires
        all_wf(old(agents)@),
        has_room(agent_views(old(agents)@)),
        motions@.len() == old(agents)@.len(),
    ensures
        agent_views(final(agents)@) == in_order(
            settled(all_stepped(agent_views(old(agents)@), motions@)),
        ),
        ascending(agent_views(final(agents)@)),
        agent_views(final(agents)@).to_multiset() == settled(
            all_stepped(agent_views(old(agents)@), motions@),
        ).to_multiset(),
        forall|i: int| 0 <= i < final(agents)@.len() ==> viable((#[trigger] final(agents)@[i])@),
        final(agents)@.len() <= old(agents)@.len(),
        all_wf(final(agents)@),
{
    let ghost before = agents@;
    let count: usize = agents.len();
    let mut i: usize = 0;
    while i < count
        invariant
            i <= count,
            count == agents@.len(),
            count == before.len(),
            motions@.len() == count,
            all_wf(before),
            forall|k: int|
                0 <= k < i ==> (#[trigger] agents@[k])@ == stepped(before[k]@, motions@[k]),
            forall|k: int| 0 <= k < i ==> (#[trigger] agents@[k]).wf(),
            forall|k: int| i <= k < count ==> #[trigger] agents@[k] == before[k],
        decreases count - i,
    {
        let ghost held = agents@;
        assert(before[i as int].wf());
        let motion: Motion = motions[i];
        mov(&mut agents[i].body, motion.cos, motion.sin);
        shrink(&mut agents[i].body, motion.decay);
        proof {
            assert forall|k: int| 0 <= k < i + 1 implies (#[trigger] agents@[k])@ == stepped(
                before[k]@,
                motions@[k],
            ) && agents@[k].wf() by {
                if k < i {
                    assert(agents@[k] == held[k]);
                }
            }
            assert forall|k: int| i + 1 <= k < count implies #[trigger] agents@[k]
                == before[k] by {
                assert(agents@[k] == held[k]);
            }
        }
        i += 1;
    }
    assert(agent_views(agents@) =~= all_stepped(agent_views(before), motions@));
    proof {
        let views = agent_views(before);
        let stepped = agent_views(agents@);
        assert forall|k: int| 0 <= k < count implies live_share(#[trigger] stepped[k])
            <= live_share(views[k]) by {
            assert(before[k].wf());
            let was = views[k].body.size as int;
            let is = stepped[k].body.size as int;
            lemma_product_of_fraction(
                was,
                confined(motions@[k].decay as int, 0, UNIT as int),
            );
            assert(is * is <= was * was) by (nonlinear_arith)
                requires
                    0 <= is <= was,
            ;
        }
        lemma_live_area_shrinks(views, stepped, count as nat);
    }
    handle_collisions(agents);
}

/// Whether the square of `body` holds the point `(x, y)`; the upper and
/// left sides count, the lower and right sides do not.
pub open spec fn covers(body: Body, x: int, y: int) -> bool {
    body.pos.x <= x < body.pos.x + body.size && body.pos.y <= y < body.pos.y + body.size
}

/// The first agent whose square holds the point `(x, y)`, if any.
pub fn agent_at(agents: &Vec<Agent>, x: i64, y: i64) -> (found: Option<usize>)
    ensures
        match found {
            Some(i) => i < agents@.len() && covers(agents@[i as int].body, x as int, y as int)
                && forall|j: int| 0 <= j < i ==> !covers((#[trigger] agents@[j]).body, x as int, y as int),
            None => forall|j: int|
                0 <= j < agents@.len() ==> !covers((#[trigger] agents@[j]).body, x as int, y as int),
        },
{
    let mut i: usize = 0;
    while i < agents.len()
        invariant
            i <= agents.len(),
            forall|j: int| 0 <= j < i ==> !covers((#[trigger] agents@[j]).body, x as int, y as int),
        decreases agents.len() - i,
    {
        let body: Body = agents[i].body;
        let right: i128 = body.pos.x as i128 + body.size as i128;
        let bottom: i128 = body.pos.y as i128 + body.size as i128;
        if body.pos.x <= x && (x as i128) < right && body.pos.y <= y && (y as i128) < bottom {
            return Some(i);
        }
        i += 1;
    }
    None
}

/// What the reproduction intake of a tick added to the population.
#[derive(Clone, Copy, Debug)]
pub struct Intake {
    /// Whether a new agent appeared.
    pub appeared: bool,
    /// The agent that split, if one did.
    pub parent: Option<usize>,
}

/// The population `before` with the agent that appeared, if one did: the
/// one that stands behind them in `after`.
pub open spec fn arrived(before: Seq<Agent>, after: Seq<Agent>, appeared: bool) -> Seq<Agent> {
    if appeared {
        before.push(after[before.len() as int])
    } else {
        before
    }
}

/// The reproduction intake of one tick.
///
/// With one chance in `inverse_spawn_rate` a new agent appears (see
/// [`Agent::new`]) and stands behind the others; at a rate of 1 one always
/// does.  Then the agents, the new one too, are asked in order whether they
/// split (see [`Agent::split_first`]); the child of the first that does
/// stands last.
pub fn reproduce(agents: &mut Vec<Agent>, inverse_spawn_rate: usize) -> (intake: Intake)
    requires
        inverse_spawn_rate > 0,
        all_wf(old(agents)@),
    ensures
        all_wf(final(agents)@),
        intake.appeared ==> old(agents)@.len() < final(agents)@.len() && is_arrival(
            old(agents)@,
            final(agents)@[old(agents)@.len() as int]@,
        ),
        match intake.parent {
            None => final(agents)@ == arrived(old(agents)@, final(agents)@, intake.appeared),
            Some(p) => final(agents)@.len() > 0 && splits_at(
                arrived(old(agents)@, final(agents)@, intake.appeared),
                final(agents)@.drop_last(),
                p as int,
                final(agents)@.last()@,
            ),
        },
        one_in(inverse_spawn_rate - 1, intake.appeared),
        exists|draws: Seq<int>| #[trigger]
            first_to_split(
                arrived(old(agents)@, final(agents)@, intake.appeared),
                draws,
                place_of(intake.parent),
            ),
{
    let draw: usize = crate::helpers::rand_range(0..inverse_spawn_rate);
    assert(hit(draw as int) == (draw == 0));
    let appeared: bool = draw == 0;
    if appeared {
        let agent = Agent::new(agents);
        agents.push(agent);
    }
    let ghost grown = agents@;
    assert(grown == arrived(old(agents)@, grown, appeared));
    let found = Agent::split_first(agents);
    let ghost draws = choose|draws: Seq<int>| #[trigger]
        first_to_split(grown, draws, parent_of(found));
    match found {
        Some((p, child)) => {
            let ghost parted = agents@;
            agents.push(child);
            proof {
                assert(agents@.drop_last() =~= parted);
                assert forall|i: int| 0 <= i < agents@.len() implies (#[trigger] agents@[i]).wf() by {
                    if i < parted.len() {
                        assert(parted[i].wf());
                    }
                }
                assert(first_to_split(
                    arrived(old(agents)@, agents@, appeared),
                    draws,
                    place_of(Some(p)),
                ));
            }
            Intake { appeared, parent: Some(p) }
        },
        None => {
            assert(first_to_split(
                arrived(old(agents)@, agents@, appeared),
                draws,
                place_of(None::<usize>),
            ));
            Intake { appeared, parent: None }
        },
    }
}

/// The place of the agent that split, if one did, as a number.
pub open spec fn place_of(parent: Option<usize>) -> Option<int> {
    match parent {
        Some(p) => Some(p as int),
        None => None,
    }
}

} // verus!
