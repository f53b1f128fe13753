//! Sensing: what an agent perceives of its nearest neighbour or of the
//! nearest border of the arena, written to the input neurons of its brain.
//!
//! Directions are measured in half turns from the positive x axis toward
//! the positive y axis.  The direction from an agent to another agent is an
//! arc tangent, which this crate does not compute: the caller supplies it.

use vstd::prelude::*;

use crate::fixed::{magnitude, quot, sat, saturate, wrap_angle, wrapped, UNIT};
use crate::game::GAME_SIZE;
use crate::structs::{agent_views, Agent, AgentView, Body, Neuron, NeuronView, Pos};

verus! {

/// The largest inverse distance between two points of the arena: that of a
/// point to itself.
pub const MAX_DIST: i128 = 259_200_000_000_000_000_000_000_000_000_000_000;

/// One border of the arena.
#[derive(Clone, Copy, Debug, PartialEq, Eq, Structural)]
pub enum Edge {
    /// Where x is 0.
    Left,
    /// Where x is the size of the arena.
    Right,
    /// Where y is 0.
    Top,
    /// Where y is the size of the arena.
    Bottom,
}

/// What sensing reads of one agent.
pub struct Spot {
    pub pos: Pos,
    pub size: i64,
    pub alive: bool,
}

/// What sensing reads of a population.
pub open spec fn spots_of(agents: Seq<AgentView>) -> Seq<Spot> {
    Seq::new(
        agents.len(),
        |j: int| Spot { pos: agents[j].body.pos, size: agents[j].body.size, alive: agents[j].alive },
    )
}

/// The widest gap between two coordinates at which sensing works: beyond
/// it the inverse distance no longer fits the `i128` that holds it.
pub const GAP_LIMIT: i64 = 3_637_000_499;

/// Whether `to` lies near enough to `from` on both axes to be sensed from
/// there.
pub open spec fn in_view(from: Pos, to: Pos) -> bool {
    magnitude(from.x - to.x) <= GAP_LIMIT && magnitude(from.y - to.y) <= GAP_LIMIT
}

/// Whether agent `i` has the four borders and every living agent in view.
pub open spec fn sees(spots: Seq<Spot>, i: int) -> bool {
    let from = spots[i].pos;
    &&& in_view(from, edge_point(Edge::Left, from))
    &&& in_view(from, edge_point(Edge::Right, from))
    &&& in_view(from, edge_point(Edge::Top, from))
    &&& in_view(from, edge_point(Edge::Bottom, from))
    &&& forall|j: int|
        0 <= j < spots.len() && spots[j].alive ==> in_view(from, (#[trigger] spots[j]).pos)
}

/// Whether every agent has the borders and every living agent in view.
pub open spec fn all_see(spots: Seq<Spot>) -> bool {
    forall|i: int| 0 <= i < spots.len() ==> #[trigger] sees(spots, i)
}

/// The nearest thing that an agent sees.
#[derive(Clone, Copy, Debug)]
pub struct Sighting {
    /// The size of the thing; a border counts as large as the arena.
    pub size: i64,
    /// How near the thing is: the larger, the nearer.
    pub inv_dist: i128,
    /// Where the thing is, seen from the agent.
    pub offset: Pos,
    /// The border, if the thing is one.
    pub edge: Option<Edge>,
}

/// What sensing tells the brain about the nearest thing.
#[derive(Clone, Copy, Debug)]
pub struct Nearest {
    pub size: i64,
    pub inv_dist: i128,
    /// The agent's heading relative to the direction of the thing, in half
    /// turns.
    pub angle: i64,
}

/// How near two coordinates are along one axis: the fourth power of the
/// arena's size less their distance.
pub open spec fn closeness(gap: int) -> int {
    let near = GAME_SIZE - magnitude(gap);
    (near * near) * (near * near)
}

/// The inverse distance of two points.
pub open spec fn inv_dist(from: Pos, to: Pos) -> int {
    closeness(from.x - to.x) + closeness(from.y - to.y)
}

/// The point of `edge` that is nearest to `from`.
pub open spec fn edge_point(edge: Edge, from: Pos) -> Pos {
    match edge {
        Edge::Left => Pos { x: 0, y: from.y },
        Edge::Right => Pos { x: GAME_SIZE, y: from.y },
        Edge::Top => Pos { x: from.x, y: 0 },
        Edge::Bottom => Pos { x: from.x, y: GAME_SIZE },
    }
}

/// The direction in which `edge` lies, in half turns.
pub open spec fn edge_direction(edge: Edge) -> int {
    match edge {
        Edge::Left => UNIT as int,
        Edge::Right => 0,
        Edge::Top => -UNIT / 2,
        Edge::Bottom => UNIT / 2,
    }
}

/// The sight of something of size `size` at `to`, seen from `from`.
pub open spec fn seen(from: Pos, to: Pos, size: i64, edge: Option<Edge>) -> Sighting {
    Sighting {
        size,
        inv_dist: inv_dist(from, to) as i128,
        offset: Pos { x: (to.x - from.x) as i64, y: (to.y - from.y) as i64 },
        edge,
    }
}

/// The sight of `edge`, seen from `from`.
pub open spec fn seen_edge(from: Pos, edge: Edge) -> Sighting {
    seen(from, edge_point(edge, from), GAME_SIZE, Some(edge))
}

/// The nearer of two sights; the first one, if they are as near.
pub open spec fn nearer(best: Sighting, candidate: Sighting) -> Sighting {
    if candidate.inv_dist > best.inv_dist {
        candidate
    } else {
        best
    }
}

/// The sight of nothing.
pub open spec fn nothing() -> Sighting {
    Sighting { size: 0, inv_dist: 0, offset: Pos { x: 0, y: 0 }, edge: None }
}

/// The nearest living agent other than `i` among the first `count`.
pub open spec fn nearest_agent(spots: Seq<Spot>, i: int, count: nat) -> Sighting
    decreases count,
{
    if count == 0 {
        nothing()
    } else {
        let best = nearest_agent(spots, i, (count - 1) as nat);
        let other = spots[count - 1];
        if count - 1 != i && other.alive {
            nearer(best, seen(spots[i].pos, other.pos, other.size, None))
        } else {
            best
        }
    }
}

/// The nearest thing that agent `i` sees: the nearest of every other living
/// agent and of the four borders.  Among things that are as near, an agent
/// wins over a border, an earlier agent over a later one, and the borders
/// win in the order left, right, top, bottom.
pub open spec fn sighting(spots: Seq<Spot>, i: int) -> Sighting {
    let from = spots[i].pos;
    nearer(
        nearer(
            nearer(
                nearer(nearest_agent(spots, i, spots.len()), seen_edge(from, Edge::Left)),
                seen_edge(from, Edge::Right),
            ),
            seen_edge(from, Edge::Top),
        ),
        seen_edge(from, Edge::Bottom),
    )
}

/// A heading relative to a direction, within a half turn either way.
pub open spec fn angle_between(heading: int, direction: int) -> int {
    wrapped(heading - wrapped(direction))
}

/// What sensing tells the brain of `sight`, for an agent with heading
/// `heading`.  `direction` is the direction of `sight.offset`; it counts
/// only where the sight is no border, whose direction is known.
pub open spec fn sensed(sight: Sighting, heading: int, direction: int) -> Nearest {
    Nearest {
        size: sight.size,
        inv_dist: sight.inv_dist,
        angle: angle_between(
            heading,
            match sight.edge {
                Some(edge) => edge_direction(edge),
                None => direction,
            },
        ) as i64,
    }
}

/// The relative size signal: 1 if `size` is more than a tenth above
/// `other`, -1 if `other` is more than a tenth above `size`, else 0.
pub open spec fn size_signal(size: int, other: int) -> int {
    if 10 * size > 11 * other {
        UNIT as int
    } else if 10 * other > 11 * size {
        -UNIT
    } else {
        0
    }
}

/// The inverse distance signal: the inverse distance as a fraction of the
/// largest one in the arena.
pub open spec fn distance_signal(inv_dist: int) -> int {
    sat(quot(inv_dist, (MAX_DIST / (UNIT as i128)) as int))
}

/// `neuron` with its excitation set to `signal`.
pub open spec fn stimulated(neuron: NeuronView, signal: int) -> NeuronView {
    NeuronView { excitation: signal, ..neuron }
}

/// Writes what the agent with body `body` senses of `nearest` to the input
/// neurons: the relative size signal, the inverse distance signal, and the
/// relative heading in half turns.
pub fn assign(input: &mut [Neuron; 3], body: &Body, nearest: Nearest)
    ensures
        final(input)[0]@ == stimulated(
            old(input)[0]@,
            size_signal(body.size as int, nearest.size as int),
        ),
        final(input)[1]@ == stimulated(old(input)[1]@, distance_signal(nearest.inv_dist as int)),
        final(input)[2]@ == stimulated(old(input)[2]@, nearest.angle as int),
{
    input[0].excitation = if 10 * (body.size as i128) > 11 * (nearest.size as i128) {
        UNIT
    } else if 10 * (nearest.size as i128) > 11 * (body.size as i128) {
        -UNIT
    } else {
        0
    };
    input[1].excitation = saturate(nearest.inv_dist / (MAX_DIST / UNIT as i128));
    input[2].excitation = nearest.angle;
}

impl Edge {
    /// The direction in which the border lies, in half turns.
    pub fn direction(self) -> (direction: i64)
        ensures
            direction == edge_direction(self),
    {
        match self {
            Edge::Left => UNIT,
            Edge::Right => 0,
            Edge::Top => -UNIT / 2,
            Edge::Bottom => UNIT / 2,
        }
    }
}

impl Nearest {
    /// The inverse distance of two points in view of each other.
    pub fn inv_dist(pos1: Pos, pos2: Pos) -> (nearness: i128)
        requires
            in_view(pos1, pos2),
        ensures
            nearness == inv_dist(pos1, pos2),
            0 <= nearness,
    {
        Nearest::closeness((pos1.x as i128 - pos2.x as i128) as i64) + Nearest::closeness(
            (pos1.y as i128 - pos2.y as i128) as i64,
        )
    }

    fn closeness(gap: i64) -> (nearness: i128)
        requires
            -GAP_LIMIT <= gap <= GAP_LIMIT,
        ensures
            nearness == closeness(gap as int),
            0 <= nearness <= 0x3fff_ffff_ffff_ffff_ffff_ffff_ffff_ffff,
    {
        let near: i128 = (GAME_SIZE - if gap < 0 {
            -gap
        } else {
            gap
        }) as i128;
        assert(0 <= near * near <= 0x7fff_ffff_ffff_ffff) by (nonlinear_arith)
            requires
                -3_037_000_499 <= near <= 3_037_000_499,
        ;
        let square: i128 = near * near;
        assert(0 <= square * square <= 0x7fff_ffff_ffff_ffff * 0x7fff_ffff_ffff_ffff)
            by (nonlinear_arith)
            requires
                0 <= square <= 0x7fff_ffff_ffff_ffff,
        ;
        square * square
    }

    /// Brings an angle to within a half turn either way.
    pub fn norm_angle(angle: i64) -> (r: i64)
        ensures
            r == wrapped(angle as int),
            -UNIT < r <= UNIT,
    {
        wrap_angle(angle)
    }

    /// A heading relative to a direction, within a half turn either way.
    pub fn angle_between(heading: i64, direction: i64) -> (r: i64)
        requires
            -UNIT <= heading <= UNIT,
        ensures
            r == angle_between(heading as int, direction as int),
            -UNIT < r <= UNIT,
    {
        Nearest::norm_angle(heading - Nearest::norm_angle(direction))
    }

    fn see(from: Pos, to: Pos, size: i64, edge: Option<Edge>) -> (sight: Sighting)
        requires
            in_view(from, to),
        ensures
            sight == seen(from, to, size, edge),
            sight.inv_dist >= 0,
    {
        Sighting {
            size,
            inv_dist: Nearest::inv_dist(from, to),
            offset: Pos {
                x: (to.x as i128 - from.x as i128) as i64,
                y: (to.y as i128 - from.y as i128) as i64,
            },
            edge,
        }
    }

    fn see_edge(from: Pos, edge: Edge) -> (sight: Sighting)
        requires
            in_view(from, edge_point(edge, from)),
        ensures
            sight == seen_edge(from, edge),
            sight.inv_dist >= 0,
    {
        let to: Pos = match edge {
            Edge::Left => Pos { x: 0, y: from.y },
            Edge::Right => Pos { x: GAME_SIZE, y: from.y },
            Edge::Top => Pos { x: from.x, y: 0 },
            Edge::Bottom => Pos { x: from.x, y: GAME_SIZE },
        };
        Nearest::see(from, to, GAME_SIZE, Some(edge))
    }

    fn nearer(best: Sighting, candidate: Sighting) -> (sight: Sighting)
        ensures
            sight == nearer(best, candidate),
    {
        if candidate.inv_dist > best.inv_dist {
            candidate
        } else {
            best
        }
    }

    /// Whether every agent has the borders and every living agent in view.
    pub fn check_view(agents: &Vec<Agent>) -> (ok: bool)
        ensures
            ok == all_see(spots_of(agent_views(agents@))),
    {
        let ghost spots = spots_of(agent_views(agents@));
        let low: i64 = GAME_SIZE - GAP_LIMIT;
        let mut i: usize = 0;
        while i < agents.len()
            invariant
                i <= agents.len(),
                low == GAME_SIZE - GAP_LIMIT,
                spots == spots_of(agent_views(agents@)),
                forall|k: int| 0 <= k < i ==> #[trigger] sees(spots, k),
            decreases agents.len() - i,
        {
            let from: Pos = agents[i].body.pos;
            if from.x < low || from.x > GAP_LIMIT || from.y < low || from.y > GAP_LIMIT {
                assert(!sees(spots, i as int));
                return false;
            }
            let mut j: usize = 0;
            while j < agents.len()
                invariant
                    j <= agents.len(),
                    i < agents.len(),
                    spots == spots_of(agent_views(agents@)),
                    from == spots[i as int].pos,
                    forall|k: int|
                        0 <= k < j && spots[k].alive ==> in_view(from, (#[trigger] spots[k]).pos),
                decreases agents.len() - j,
            {
                if agents[j].alive {
                    let to: Pos = agents[j].body.pos;
                    let dx: i128 = from.x as i128 - to.x as i128;
                    let dy: i128 = from.y as i128 - to.y as i128;
                    if dx < -(GAP_LIMIT as i128) || dx > GAP_LIMIT as i128 || dy < -(GAP_LIMIT as i128)
                        || dy > GAP_LIMIT as i128 {
                        assert(spots[j as int].alive && !in_view(from, spots[j as int].pos));
                        assert(!sees(spots, i as int));
                        return false;
                    }
                }
                j += 1;
            }
            assert(sees(spots, i as int));
            i += 1;
        }
        true
    }

    /// The nearest thing that agent `i` of `agents` sees; see [`sighting`].
    pub fn sight(agents: &Vec<Agent>, i: usize) -> (sight: Sighting)
        requires
            i < agents@.len(),
            sees(spots_of(agent_views(agents@)), i as int),
        ensures
            sight == sighting(spots_of(agent_views(agents@)), i as int),
            sight.inv_dist >= 0,
    {
        let ghost spots = spots_of(agent_views(agents@));
        let from: Pos = agents[i].body.pos;
        let mut best = Sighting { size: 0, inv_dist: 0, offset: Pos { x: 0, y: 0 }, edge: None };
        let mut j: usize = 0;
        while j < agents.len()
            invariant
                j <= agents.len(),
                i < agents@.len(),
                spots == spots_of(agent_views(agents@)),
                sees(spots, i as int),
                from == agents@[i as int].body.pos,
                best == nearest_agent(spots, i as int, j as nat),
                best.inv_dist >= 0,
            decreases agents.len() - j,
        {
            if j != i && agents[j].alive {
                assert(spots[j as int].alive);
                let other: &Body = &agents[j].body;
                best = Nearest::nearer(best, Nearest::see(from, other.pos, other.size, None));
            }
            j += 1;
        }
        best = Nearest::nearer(best, Nearest::see_edge(from, Edge::Left));
        best = Nearest::nearer(best, Nearest::see_edge(from, Edge::Right));
        best = Nearest::nearer(best, Nearest::see_edge(from, Edge::Top));
        best = Nearest::nearer(best, Nearest::see_edge(from, Edge::Bottom));
        best
    }

    /// What agent `i` of `agents` senses of the nearest thing it sees.
    ///
    /// `direction` is the direction, in half turns, of the offset of
    /// [`Nearest::sight`] for the same agent; it counts only where that
    /// sight is no border.
    pub fn to(agents: &Vec<Agent>, i: usize, direction: i64) -> (nearest: Nearest)
        requires
            i < agents@.len(),
            sees(spots_of(agent_views(agents@)), i as int),
            -UNIT <= agents@[i as int].body.angle <= UNIT,
        ensures
            nearest == sensed(
                sighting(spots_of(agent_views(agents@)), i as int),
                agents@[i as int].body.angle as int,
                direction as int,
            ),
            nearest.inv_dist >= 0,
    {
        let sight = Nearest::sight(agents, i);
        let toward: i64 = match sight.edge {
            Some(edge) => edge.direction(),
            None => direction,
        };
        Nearest {
            size: sight.size,
            inv_dist: sight.inv_dist,
            angle: Nearest::angle_between(agents[i].body.angle, toward),
        }
    }
}

} // verus!
