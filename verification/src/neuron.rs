//! Neurons and their outgoing connections: firing, decay, and the mutation
//! of one neuron.
//!
//! Mutation is random.  Each random decision is drawn first and gathered in
//! a [`Mutation`]; applying a `Mutation` to a neuron is deterministic, and
//! its contract is exact.

use vstd::prelude::*;

use crate::fixed::{fx_add, fx_neg, magnitude, product, sat, UNIT};
use crate::helpers::{
    bounded_sum, hit, one_in, rand_coin, rand_range, rand_upto, BoundedSignedAdd,
};
use crate::structs::{Neuron, NeuronView, OutwardConn, OUTS};

verus! {

/// `state` moved by `change` away from zero (or, for a negative `change`,
/// toward zero, where it stops).  Zero counts as negative.
pub open spec fn shifted(state: int, change: int) -> int {
    if state > 0 {
        if sat(state + change) < 0 {
            0
        } else {
            sat(state + change)
        }
    } else {
        if sat(state - change) > 0 {
            0
        } else {
            sat(state - change)
        }
    }
}

/// Whether `conn` is one that [`OutwardConn::new`] may return for
/// `recv_neuron_count` possible destinations.
pub open spec fn fresh_conn(conn: OutwardConn, recv_neuron_count: int) -> bool {
    &&& conn.dest_index < recv_neuron_count
    &&& conn.speed == 0
    &&& (conn.weight == UNIT || conn.weight == -UNIT)
}

/// Whether the weight of `conn` rounds to zero at one decimal.
pub open spec fn is_dead(conn: OutwardConn) -> bool {
    magnitude(conn.weight as int) * 20 < UNIT
}

/// The connections of `conns` that are not dead, in order.
pub open spec fn live_conns(conns: Seq<OutwardConn>) -> Seq<OutwardConn> {
    conns.filter(|conn: OutwardConn| !is_dead(conn))
}

/// Whether a neuron in state `neuron` fires.
pub open spec fn fires(neuron: NeuronView) -> bool {
    neuron.excitation >= neuron.act_threshold
}

/// What a firing neuron with excitation `excitation` delivers over `conn`.
pub open spec fn impulse(conn: OutwardConn, excitation: int) -> int {
    if conn.relu {
        product(conn.weight as int, excitation)
    } else {
        conn.weight as int
    }
}

/// `neuron` after `amount` was delivered to it.
pub open spec fn excited(neuron: NeuronView, amount: int) -> NeuronView {
    NeuronView { excitation: sat(neuron.excitation + amount), reachable: true, ..neuron }
}

/// `neuron` after its excitation decayed toward zero by the magnitude of its
/// drain.
pub open spec fn drained(neuron: NeuronView) -> NeuronView {
    NeuronView {
        excitation: shifted(neuron.excitation, -magnitude(neuron.tick_drain)),
        ..neuron
    }
}

/// What a mutation does to one connection.
#[derive(Clone, Copy, Debug)]
pub enum Tweak {
    /// Leave the connection alone.
    Keep,
    /// Negate the weight.
    Flip,
    /// Move the weight one unit away from zero.
    Strengthen,
    /// Move the weight one unit toward zero.
    Weaken,
    /// Ask for one new connection somewhere in the brain.
    NewConn,
    /// Ask for one new hidden neuron.
    NewNeuron,
}

/// The random decisions of one neuron's mutation.
#[derive(Debug)]
pub struct Mutation {
    /// Added to the inverse mutation rate: -1, 0 or 1.
    pub gene: isize,
    /// Added to the drain: `-UNIT`, 0 or `UNIT`.
    pub drain: i64,
    /// Added to the firing threshold: `-UNIT`, 0 or `UNIT`.
    pub threshold: i64,
    /// One decision per outgoing connection; a missing one counts as
    /// [`Tweak::Keep`].
    pub tweaks: Vec<Tweak>,
    /// The connection that re-seeds the neuron if it is recycled.
    pub seed: OutwardConn,
}

/// Whether `plan` can come out of [`Neuron::plan`] for a neuron in state
/// `neuron` and `recv_neuron_count` possible destinations.
///
/// The mutation rate moves with one chance in its cube plus one.  With one
/// chance in the new rate plus one each, the drain moves, the threshold
/// moves, and each connection changes as [`may_tweak`] says.
pub open spec fn admissible(plan: Mutation, neuron: NeuronView, recv_neuron_count: int) -> bool {
    let rate = bounded_sum(neuron.inv_mut as int, plan.gene as int);
    &&& -1 <= plan.gene <= 1
    &&& one_in(cube(neuron.inv_mut as int), plan.gene != 0)
    &&& (plan.drain == 0 || plan.drain == UNIT || plan.drain == -UNIT)
    &&& one_in(rate, plan.drain != 0)
    &&& (plan.threshold == 0 || plan.threshold == UNIT || plan.threshold == -UNIT)
    &&& one_in(rate, plan.threshold != 0)
    &&& plan.tweaks@.len() == neuron.next_conn.len()
    &&& forall|i: int|
        0 <= i < plan.tweaks@.len() ==> may_tweak(
            rate,
            neuron.next_conn[i].weight as int,
            #[trigger] plan.tweaks@[i],
        )
    &&& fresh_conn(plan.seed, recv_neuron_count)
}

/// The cube of `n`, stopped at the largest `usize`.
pub open spec fn cube(n: int) -> int {
    if n * n * n > usize::MAX {
        usize::MAX as int
    } else {
        n * n * n
    }
}

/// How rarely a weight flips its sign when it changes: with one chance in
/// two plus its whole part, stopped at the largest `usize`.
pub open spec fn flip_odds(weight: int) -> int {
    let whole = sat(magnitude(weight)) / (UNIT as int);
    if whole >= usize::MAX - 2 {
        usize::MAX as int
    } else {
        whole + 2
    }
}

/// What happens to a connection on four draws.  It changes if `change` is
/// 0.  A changing weight flips if `flip` is 0; else, if `expand` is 0, it
/// grows or a new connection or a new neuron is asked for, as `kind` is 0,
/// 1 or more; else it shrinks.
pub open spec fn tweak_for(change: int, flip: int, expand: int, kind: int) -> Tweak {
    if change != 0 {
        Tweak::Keep
    } else if flip == 0 {
        Tweak::Flip
    } else if expand != 0 {
        Tweak::Weaken
    } else if kind == 0 {
        Tweak::Strengthen
    } else if kind == 1 {
        Tweak::NewConn
    } else {
        Tweak::NewNeuron
    }
}

/// Whether `tweak` can be drawn for a connection of weight `weight` of a
/// neuron with inverse mutation rate `inv_mut`: whether it comes of a draw
/// from `0 ..= inv_mut`, a draw below the [`flip_odds`], a draw from
/// `0 ..= 1` and a draw below 3.
pub open spec fn may_tweak(inv_mut: int, weight: int, tweak: Tweak) -> bool {
    exists|change: int, flip: int, expand: int, kind: int|
        0 <= change <= inv_mut && 0 <= flip < flip_odds(weight) && 0 <= expand <= 1 && 0 <= kind
            < 3 && tweak == #[trigger] tweak_for(change, flip, expand, kind)
}

/// The weight `weight` after `tweak`.
pub open spec fn tweaked(weight: int, tweak: Tweak) -> int {
    match tweak {
        Tweak::Flip => sat(-weight),
        Tweak::Strengthen => shifted(weight, UNIT as int),
        Tweak::Weaken => shifted(weight, -UNIT),
        _ => weight,
    }
}

/// The decision for connection `i`.
pub open spec fn tweak_at(tweaks: Seq<Tweak>, i: int) -> Tweak {
    if 0 <= i < tweaks.len() {
        tweaks[i]
    } else {
        Tweak::Keep
    }
}

/// `conn` with its weight changed as `tweak` says.
pub open spec fn tweaked_conn(conn: OutwardConn, tweak: Tweak) -> OutwardConn {
    OutwardConn { weight: tweaked(conn.weight as int, tweak) as i64, ..conn }
}

/// `conns`, each changed as its decision says.
pub open spec fn tweaked_conns(conns: Seq<OutwardConn>, tweaks: Seq<Tweak>) -> Seq<OutwardConn> {
    Seq::new(conns.len(), |i: int| tweaked_conn(conns[i], tweak_at(tweaks, i)))
}

/// How many of the first `count` decisions ask for a new connection.
pub open spec fn conns_wanted(tweaks: Seq<Tweak>, count: nat) -> nat
    decreases count,
{
    if count == 0 {
        0
    } else {
        let rest = conns_wanted(tweaks, (count - 1) as nat);
        if tweak_at(tweaks, count - 1) is NewConn {
            rest + 1
        } else {
            rest
        }
    }
}

/// How many of the first `count` decisions ask for a new neuron.
pub open spec fn neurons_wanted(tweaks: Seq<Tweak>, count: nat) -> nat
    decreases count,
{
    if count == 0 {
        0
    } else {
        let rest = neurons_wanted(tweaks, (count - 1) as nat);
        if tweak_at(tweaks, count - 1) is NewNeuron {
            rest + 1
        } else {
            rest
        }
    }
}

/// A neuron after mutation, with the two running tallies of growth that the
/// brain has yet to carry out.
pub struct Mutated {
    pub neuron: NeuronView,
    pub new_neurons: nat,
    pub new_conns: nat,
}

/// The outcome of applying `plan` to `neuron` when `new_neurons` neurons and
/// `new_conns` connections were asked for so far.
///
/// Dead connections are pruned.  A neuron left without connections takes one
/// pending new neuron off the tally and is re-seeded with `plan.seed`
/// instead.  Excitation and reachability are reset.
pub open spec fn mutated(neuron: NeuronView, plan: Mutation, new_neurons: nat, new_conns: nat)
    -> Mutated {
    let count = neuron.next_conn.len();
    let kept = live_conns(tweaked_conns(neuron.next_conn, plan.tweaks@));
    let pending = bounded_sum(new_neurons as int, neurons_wanted(plan.tweaks@, count) as int);
    let recycle = kept.len() == 0 && pending > 0;
    Mutated {
        neuron: NeuronView {
            excitation: 0,
            tick_drain: sat(neuron.tick_drain + plan.drain),
            act_threshold: sat(neuron.act_threshold + plan.threshold),
            next_conn: if recycle {
                seq![plan.seed]
            } else {
                kept
            },
            reachable: false,
            inv_mut: bounded_sum(neuron.inv_mut as int, plan.gene as int) as nat,
        },
        new_neurons: if recycle {
            (pending - 1) as nat
        } else {
            pending as nat
        },
        new_conns: bounded_sum(new_conns as int, conns_wanted(plan.tweaks@, count) as int) as nat,
    }
}

/// Whether `after` is what some admissible decisions make of `neuron` and
/// the two tallies.
pub open spec fn is_mutation(
    neuron: NeuronView,
    new_neurons: nat,
    new_conns: nat,
    recv_neuron_count: int,
    after: Mutated,
) -> bool {
    exists|plan: Mutation|
        admissible(plan, neuron, recv_neuron_count) && #[trigger] mutated(
            neuron,
            plan,
            new_neurons,
            new_conns,
        ) == after
}

/// Whether every connection of `conns` leads to a destination below
/// `limit`.
pub open spec fn targets_below(conns: Seq<OutwardConn>, limit: int) -> bool {
    forall|k: int| 0 <= k < conns.len() ==> (#[trigger] conns[k]).dest_index < limit
}

/// The connections of `conns` that lead to a destination below `limit`, in
/// order.
pub open spec fn bounded_conns(conns: Seq<OutwardConn>, limit: int) -> Seq<OutwardConn> {
    conns.filter(|conn: OutwardConn| conn.dest_index < limit)
}

/// `neuron` without the connections that lead to `limit` or beyond.
pub open spec fn retargeted(neuron: NeuronView, limit: int) -> NeuronView {
    NeuronView { next_conn: bounded_conns(neuron.next_conn, limit), ..neuron }
}

/// Where `conn` leads once the hidden neurons have moved: hidden neuron `h`
/// to the destination `places[h]`, or away if that is `None`.  A connection
/// to an output neuron stays as it is; one whose destination has gone, or
/// never was, is dropped.
pub open spec fn moved_conn(conn: OutwardConn, places: Seq<Option<usize>>) -> Option<OutwardConn> {
    let place = conn.dest_index - OUTS;
    if conn.dest_index < OUTS {
        Some(conn)
    } else if place < places.len() {
        match places[place] {
            Some(dest) => Some(OutwardConn { dest_index: dest, ..conn }),
            None => None,
        }
    } else {
        None
    }
}

/// The connections of `conns` as they are once the hidden neurons have
/// moved, in order.
pub open spec fn moved_conns(conns: Seq<OutwardConn>, places: Seq<Option<usize>>) -> Seq<
    OutwardConn,
>
    decreases conns.len(),
{
    if conns.len() == 0 {
        conns
    } else {
        let front = moved_conns(conns.drop_last(), places);
        match moved_conn(conns.last(), places) {
            Some(conn) => front.push(conn),
            None => front,
        }
    }
}

/// `neuron` with its connections renumbered to where the hidden neurons
/// have moved.
pub open spec fn renumbered(neuron: NeuronView, places: Seq<Option<usize>>) -> NeuronView {
    NeuronView { next_conn: moved_conns(neuron.next_conn, places), ..neuron }
}

/// Whether `neuron` is at rest: no excitation, and not reachable.
pub open spec fn at_rest(neuron: NeuronView) -> bool {
    neuron.excitation == 0 && !neuron.reachable
}

/// Whether `neuron` has no outgoing connection.
pub open spec fn is_idle(neuron: NeuronView) -> bool {
    neuron.next_conn.len() == 0
}

/// Bounding a list that grew by one connection.
pub proof fn lemma_bounded_conns_push(conns: Seq<OutwardConn>, conn: OutwardConn, limit: int)
    ensures
        bounded_conns(conns.push(conn), limit) == if conn.dest_index < limit {
            bounded_conns(conns, limit).push(conn)
        } else {
            bounded_conns(conns, limit)
        },
{
    reveal(Seq::filter);
    assert(conns.push(conn).drop_last() =~= conns);
}

/// Bounding leaves only destinations below the limit, and changes nothing
/// where all are below it already.
pub proof fn lemma_bounded_conns(conns: Seq<OutwardConn>, limit: int)
    ensures
        targets_below(bounded_conns(conns, limit), limit),
        bounded_conns(conns, limit).len() <= conns.len(),
        targets_below(conns, limit) ==> bounded_conns(conns, limit) == conns,
    decreases conns.len(),
{
    reveal(Seq::filter);
    if conns.len() > 0 {
        lemma_bounded_conns(conns.drop_last(), limit);
        if targets_below(conns, limit) {
            assert(conns.last() == conns[conns.len() - 1]);
            assert(targets_below(conns.drop_last(), limit)) by {
                assert forall|k: int| 0 <= k < conns.drop_last().len() implies (
                #[trigger] conns.drop_last()[k]).dest_index < limit by {
                    assert(conns.drop_last()[k] == conns[k]);
                }
            }
            assert(conns.drop_last().push(conns.last()) =~= conns);
        }
    }
}

/// Whether `neuron` is one that [`Neuron::new`] may return for
/// `recv_neuron_count` possible destinations: at rest, with the default
/// parameters and one fresh connection.
pub open spec fn newborn(neuron: NeuronView, recv_neuron_count: int) -> bool {
    &&& at_rest(neuron)
    &&& neuron.tick_drain == UNIT
    &&& neuron.act_threshold == 0
    &&& neuron.inv_mut == 2
    &&& neuron.next_conn.len() == 1
    &&& fresh_conn(neuron.next_conn[0], recv_neuron_count)
}

/// `neuron` with `conn` added behind its connections.
pub open spec fn linked(neuron: NeuronView, conn: OutwardConn) -> NeuronView {
    NeuronView { next_conn: neuron.next_conn.push(conn), ..neuron }
}

/// Whether `after` is `before`, or one unit above or below it.
pub open spec fn nudged(before: int, after: int) -> bool {
    after == before || after == sat(before + UNIT) || after == sat(before - UNIT)
}

/// Whether `after` can be what a mutation leaves of the parameters of
/// `before`: at rest, the mutation rate moved by at most one, drain and
/// threshold each by at most one unit.
pub open spec fn kin(before: NeuronView, after: NeuronView) -> bool {
    &&& at_rest(after)
    &&& before.inv_mut - 1 <= after.inv_mut <= before.inv_mut + 1
    &&& nudged(before.tick_drain, after.tick_drain)
    &&& nudged(before.act_threshold, after.act_threshold)
}

/// A mutated neuron is kin of the neuron it was.
pub proof fn lemma_mutation_is_kin(
    neuron: NeuronView,
    new_neurons: nat,
    new_conns: nat,
    recv_neuron_count: int,
    after: Mutated,
)
    requires
        is_mutation(neuron, new_neurons, new_conns, recv_neuron_count, after),
        neuron.inv_mut <= usize::MAX,
    ensures
        kin(neuron, after.neuron),
{
    let plan = choose|plan: Mutation|
        admissible(plan, neuron, recv_neuron_count) && #[trigger] mutated(
            neuron,
            plan,
            new_neurons,
            new_conns,
        ) == after;
    assert(after.neuron == mutated(neuron, plan, new_neurons, new_conns).neuron);
}

/// Pruning a list that grew by one connection.
pub proof fn lemma_live_conns_push(conns: Seq<OutwardConn>, conn: OutwardConn)
    ensures
        live_conns(conns.push(conn)) == if is_dead(conn) {
            live_conns(conns)
        } else {
            live_conns(conns).push(conn)
        },
{
    reveal(Seq::filter);
    assert(conns.push(conn).drop_last() =~= conns);
}

impl OutwardConn {
    /// A connection to a destination drawn from `0 .. recv_neuron_count`,
    /// with weight 1 or -1 and either activation mode, each by a fair draw.
    pub fn new(recv_neuron_count: usize) -> (conn: OutwardConn)
        requires
            recv_neuron_count > 0,
        ensures
            fresh_conn(conn, recv_neuron_count as int),
    {
        OutwardConn {
            dest_index: rand_range(0..recv_neuron_count),
            speed: 0,
            weight: if rand_coin() {
                -UNIT
            } else {
                UNIT
            },
            relu: !rand_coin(),
        }
    }

    /// Whether the weight rounds to zero at one decimal.
    pub fn is_dead(&self) -> (dead: bool)
        ensures
            dead == is_dead(*self),
    {
        -UNIT / 20 < self.weight && self.weight < UNIT / 20
    }

    /// Changes the weight as `tweak` says.
    pub fn tweak(&mut self, tweak: Tweak)
        ensures
            *final(self) == tweaked_conn(*old(self), tweak),
    {
        match tweak {
            Tweak::Flip => { self.weight = fx_neg(self.weight) },
            Tweak::Strengthen => { Neuron::expand_or_shrink(&mut self.weight, UNIT) },
            Tweak::Weaken => { Neuron::expand_or_shrink(&mut self.weight, -UNIT) },
            _ => {},
        }
    }
}

impl Neuron {
    /// A resting neuron with one fresh connection.
    pub fn new(recv_neuron_count: usize) -> (neuron: Neuron)
        requires
            recv_neuron_count > 0,
        ensures
            newborn(neuron@, recv_neuron_count as int),
    {
        let mut next_conn: Vec<OutwardConn> = Vec::new();
        next_conn.push(OutwardConn::new(recv_neuron_count));
        Neuron {
            excitation: 0,
            tick_drain: UNIT,
            act_threshold: 0,
            next_conn,
            reachable: false,
            inv_mut: 2,
        }
    }

    /// Whether the neuron fires: its excitation has reached its threshold.
    pub fn fires(&self) -> (firing: bool)
        ensures
            firing == fires(self@),
    {
        self.excitation >= self.act_threshold
    }

    /// Takes in `amount` and marks the neuron reachable.
    pub fn excite(&mut self, amount: i64)
        ensures
            final(self)@ == excited(old(self)@, amount as int),
    {
        self.excitation = fx_add(self.excitation, amount);
        self.reachable = true;
    }

    /// Lets the excitation decay toward zero by the magnitude of the drain,
    /// never past zero.
    pub fn drain(&mut self)
        ensures
            final(self)@ == drained(old(self)@),
    {
        let change: i64 = if self.tick_drain > 0 {
            -self.tick_drain
        } else {
            self.tick_drain
        };
        Neuron::expand_or_shrink(&mut self.excitation, change)
    }

    /// Whether the mutation rate itself mutates now: one chance in
    /// `inv_mut` cubed plus one.
    fn should_mutate_mut(inv_mut: usize) -> (yes: bool)
        ensures
            one_in(cube(inv_mut as int), yes),
    {
        let cubed: usize = match inv_mut.checked_mul(inv_mut) {
            Some(square) => match square.checked_mul(inv_mut) {
                Some(cubed) => cubed,
                None => usize::MAX,
            },
            None => usize::MAX,
        };
        assert(cubed == cube(inv_mut as int)) by (nonlinear_arith)
            requires
                0 <= inv_mut <= usize::MAX,
                cubed == if inv_mut * inv_mut > usize::MAX {
                    usize::MAX as int
                } else if (inv_mut * inv_mut) * inv_mut > usize::MAX {
                    usize::MAX as int
                } else {
                    (inv_mut * inv_mut) * inv_mut
                },
        ;
        let draw: usize = rand_upto(cubed);
        assert(hit(draw as int) == (draw == 0));
        draw == 0
    }

    /// Whether a property mutates now: one chance in `inv_mut` plus one.
    fn should_mutate_now(inv_mut: usize) -> (yes: bool)
        ensures
            one_in(inv_mut as int, yes),
    {
        let draw: usize = rand_upto(inv_mut);
        assert(hit(draw as int) == (draw == 0));
        draw == 0
    }

    /// Whether a weight grows rather than shrinks: an even chance.
    fn should_expand_now() -> bool {
        rand_upto(1) == 0
    }

    /// One unit up or down, by an even chance.
    fn nudge() -> (step: i64)
        ensures
            step == UNIT || step == -UNIT,
    {
        if rand_upto(1) == 0 {
            -UNIT
        } else {
            UNIT
        }
    }

    /// Draws what happens to one connection of weight `weight`.
    ///
    /// With one chance in `inv_mut` plus one the connection changes.  A
    /// changing weight flips its sign with one chance in two plus its whole
    /// part, so heavier weights flip more rarely; otherwise it shrinks or, by
    /// an even chance, one of three things happens with equal odds: it
    /// grows, a new connection is asked for, or a new neuron is.
    fn draw_tweak(inv_mut: usize, weight: i64) -> (tweak: Tweak)
        ensures
            may_tweak(inv_mut as int, weight as int, tweak),
    {
        let changes: bool = Neuron::should_mutate_now(inv_mut);
        let ghost change: int = choose|draw: int|
            0 <= draw <= inv_mut && changes == #[trigger] hit(draw);
        if changes {
            let whole: i64 = crate::fixed::fx_abs(weight) / UNIT;
            let odds: usize = if whole as u64 >= usize::MAX as u64 - 2 {
                usize::MAX
            } else {
                whole as usize + 2
            };
            assert(odds == flip_odds(weight as int));
            let flip: usize = rand_range(0..odds);
            if flip == 0 {
                assert(Tweak::Flip == tweak_for(change, 0, 0, 0));
                Tweak::Flip
            } else if Neuron::should_expand_now() {
                let kind: usize = rand_range(0..3);
                assert(tweak_for(change, flip as int, 0, kind as int) == if kind == 0 {
                    Tweak::Strengthen
                } else if kind == 1 {
                    Tweak::NewConn
                } else {
                    Tweak::NewNeuron
                });
                if kind == 0 {
                    Tweak::Strengthen
                } else if kind == 1 {
                    Tweak::NewConn
                } else {
                    Tweak::NewNeuron
                }
            } else {
                assert(Tweak::Weaken == tweak_for(change, flip as int, 1, 0));
                Tweak::Weaken
            }
        } else {
            assert(Tweak::Keep == tweak_for(change, 0, 0, 0));
            Tweak::Keep
        }
    }

    /// Draws the random decisions of one mutation of this neuron.
    pub fn plan(&self, recv_neuron_count: usize) -> (plan: Mutation)
        requires
            recv_neuron_count > 0,
        ensures
            admissible(plan, self@, recv_neuron_count as int),
    {
        let gene: isize = if Neuron::should_mutate_mut(self.inv_mut) {
            if rand_upto(1) == 0 {
                -1
            } else {
                1
            }
        } else {
            0
        };
        let mut inv_mut: usize = self.inv_mut;
        inv_mut.add_bounded(gene);
        let drain: i64 = if Neuron::should_mutate_now(inv_mut) {
            Neuron::nudge()
        } else {
            0
        };
        let threshold: i64 = if Neuron::should_mutate_now(inv_mut) {
            Neuron::nudge()
        } else {
            0
        };
        let mut tweaks: Vec<Tweak> = Vec::new();
        let mut k: usize = 0;
        while k < self.next_conn.len()
            invariant
                k <= self.next_conn.len(),
                tweaks@.len() == k,
                forall|i: int|
                    0 <= i < k ==> may_tweak(
                        inv_mut as int,
                        self@.next_conn[i].weight as int,
                        #[trigger] tweaks@[i],
                    ),
            decreases self.next_conn.len() - k,
        {
            tweaks.push(Neuron::draw_tweak(inv_mut, self.next_conn[k].weight));
            k += 1;
        }
        Mutation { gene, drain, threshold, tweaks, seed: OutwardConn::new(recv_neuron_count) }
    }

    /// Carries out the decisions of `plan`, adding what it asks for to the
    /// two tallies.
    pub fn apply(&mut self, plan: &Mutation, new_neuron_count: &mut usize, new_conn_count: &mut usize)
        ensures
            final(self)@ == mutated(
                old(self)@,
                *plan,
                *old(new_neuron_count) as nat,
                *old(new_conn_count) as nat,
            ).neuron,
            *final(new_neuron_count) == mutated(
                old(self)@,
                *plan,
                *old(new_neuron_count) as nat,
                *old(new_conn_count) as nat,
            ).new_neurons,
            *final(new_conn_count) == mutated(
                old(self)@,
                *plan,
                *old(new_neuron_count) as nat,
                *old(new_conn_count) as nat,
            ).new_conns,
    {
        let ghost conns = self.next_conn@;
        let ghost changed = tweaked_conns(conns, plan.tweaks@);
        self.inv_mut.add_bounded(plan.gene);
        self.tick_drain = fx_add(self.tick_drain, plan.drain);
        self.act_threshold = fx_add(self.act_threshold, plan.threshold);

        let count: usize = self.next_conn.len();
        let mut kept: Vec<OutwardConn> = Vec::new();
        let mut k: usize = 0;
        assert(changed.take(0) =~= Seq::<OutwardConn>::empty());
        proof {
            reveal(Seq::filter);
        }
        while k < count
            invariant
                k <= count,
                count == conns.len(),
                self.next_conn@ == conns,
                changed == tweaked_conns(conns, plan.tweaks@),
                kept@ == live_conns(changed.take(k as int)),
                *new_neuron_count == bounded_sum(
                    *old(new_neuron_count) as int,
                    neurons_wanted(plan.tweaks@, k as nat) as int,
                ),
                *new_conn_count == bounded_sum(
                    *old(new_conn_count) as int,
                    conns_wanted(plan.tweaks@, k as nat) as int,
                ),
            decreases count - k,
        {
            let tweak: Tweak = if k < plan.tweaks.len() {
                plan.tweaks[k]
            } else {
                Tweak::Keep
            };
            let mut conn: OutwardConn = self.next_conn[k];
            conn.tweak(tweak);
            match tweak {
                Tweak::NewConn => { *new_conn_count = new_conn_count.saturating_add(1) },
                Tweak::NewNeuron => { *new_neuron_count = new_neuron_count.saturating_add(1) },
                _ => {},
            }
            proof {
                lemma_live_conns_push(changed.take(k as int), conn);
                assert(changed.take(k + 1) =~= changed.take(k as int).push(conn));
            }
            if !conn.is_dead() {
                kept.push(conn);
            }
            k += 1;
        }
        assert(changed.take(count as int) =~= changed);
        if kept.len() < 1 && *new_neuron_count > 0 {
            *new_neuron_count -= 1;
            kept.push(plan.seed);
            assert(kept@ =~= seq![plan.seed]);
        }
        self.next_conn = kept;
        self.excitation = 0;
        self.reachable = false;
    }

    /// Mutates the neuron at random.
    ///
    /// The mutation rate may move by one; drain and threshold may each move
    /// by one unit; each connection may flip, grow or shrink, or ask for
    /// growth elsewhere, which is added to the tallies.  Dead connections are
    /// pruned, and a neuron left without any is re-seeded at the expense of
    /// one pending new neuron.  Excitation and reachability are reset.
    pub fn mutate(
        &mut self,
        new_neuron_count: &mut usize,
        new_conn_count: &mut usize,
        recv_neuron_count: usize,
    )
        requires
            recv_neuron_count > 0,
        ensures
            is_mutation(
                old(self)@,
                *old(new_neuron_count) as nat,
                *old(new_conn_count) as nat,
                recv_neuron_count as int,
                Mutated {
                    neuron: final(self)@,
                    new_neurons: *final(new_neuron_count) as nat,
                    new_conns: *final(new_conn_count) as nat,
                },
            ),
    {
        let plan = self.plan(recv_neuron_count);
        self.apply(&plan, new_neuron_count, new_conn_count);
    }

    /// Renumbers the connections to where the hidden neurons have moved,
    /// and drops those whose destination has gone.
    pub fn renumber(&mut self, places: &Vec<Option<usize>>)
        ensures
            final(self)@ == renumbered(old(self)@, places@),
    {
        let ghost conns = self.next_conn@;
        let count: usize = self.next_conn.len();
        let mut kept: Vec<OutwardConn> = Vec::new();
        let mut k: usize = 0;
        assert(conns.take(0) =~= Seq::<OutwardConn>::empty());
        while k < count
            invariant
                k <= count,
                count == conns.len(),
                self.next_conn@ == conns,
                kept@ == moved_conns(conns.take(k as int), places@),
            decreases count - k,
        {
            let conn: OutwardConn = self.next_conn[k];
            proof {
                assert(conns.take(k + 1).drop_last() =~= conns.take(k as int));
                assert(conns.take(k + 1).last() == conn);
            }
            if conn.dest_index < OUTS {
                kept.push(conn);
            } else if conn.dest_index - OUTS < places.len() {
                match places[conn.dest_index - OUTS] {
                    Some(dest) => {
                        kept.push(
                            OutwardConn {
                                dest_index: dest,
                                speed: conn.speed,
                                weight: conn.weight,
                                relu: conn.relu,
                            },
                        );
                    },
                    None => {},
                }
            }
            k += 1;
        }
        assert(conns.take(count as int) =~= conns);
        self.next_conn = kept;
    }

    /// Removes the connections that lead to `limit` or beyond.
    pub fn retarget(&mut self, limit: usize)
        ensures
            final(self)@ == retargeted(old(self)@, limit as int),
    {
        let ghost conns = self.next_conn@;
        let count: usize = self.next_conn.len();
        let mut kept: Vec<OutwardConn> = Vec::new();
        let mut k: usize = 0;
        assert(conns.take(0) =~= Seq::<OutwardConn>::empty());
        proof {
            reveal(Seq::filter);
        }
        while k < count
            invariant
                k <= count,
                count == conns.len(),
                self.next_conn@ == conns,
                kept@ == bounded_conns(conns.take(k as int), limit as int),
            decreases count - k,
        {
            let conn: OutwardConn = self.next_conn[k];
            proof {
                lemma_bounded_conns_push(conns.take(k as int), conn, limit as int);
                assert(conns.take(k + 1) =~= conns.take(k as int).push(conn));
            }
            if conn.dest_index < limit {
                kept.push(conn);
            }
            k += 1;
        }
        assert(conns.take(count as int) =~= conns);
        self.next_conn = kept;
    }

    /// Adds `conn` behind the connections of the neuron.
    pub fn link(&mut self, conn: OutwardConn)
        ensures
            final(self)@ == linked(old(self)@, conn),
    {
        self.next_conn.push(conn);
    }

    /// Moves `state` by `change` away from the neutral state 0, or toward it
    /// for a negative `change`, stopping at 0.
    pub fn expand_or_shrink(state: &mut i64, change: i64)
        ensures
            *final(state) == shifted(*old(state) as int, change as int),
    {
        if *state > 0 {
            *state = fx_add(*state, change);
            if *state < 0 {
                *state = 0
            }
        } else {
            *state = crate::fixed::fx_sub(*state, change);
            if *state > 0 {
                *state = 0
            }
        }
    }
}

} // verus!
