use alife::agent::{
    FRESH_HIDDEN, FRESH_SIZE, FRESH_SPLIT_FREQ, HEIR_SIZE, SPLIT_SIZE,
};
use alife::body::SPAWN_SPAN;
use alife::fixed::UNIT;
use alife::structs::{Agent, Body, Brain, Colour, Neuron, OutwardConn, Pos};

fn conn(dest_index: usize) -> OutwardConn {
    OutwardConn { dest_index, speed: 0, weight: UNIT, relu: false }
}

fn neuron(dest_index: usize) -> Neuron {
    Neuron {
        excitation: 0,
        tick_drain: UNIT,
        act_threshold: 0,
        next_conn: vec![conn(dest_index)],
        reachable: false,
        inv_mut: 2,
    }
}

fn brain(generation: usize) -> Brain {
    Brain {
        neurons_inp: [neuron(0), neuron(1), neuron(2)],
        neurons_hid: vec![neuron(0)],
        neurons_out: [neuron(0), neuron(1)],
        generation,
    }
}

fn agent(size: i64, freq: usize, generation: usize) -> Agent {
    Agent {
        brain: brain(generation),
        body: Body {
            colour: Colour { r: 100, g: 100, b: 100 },
            pos: Pos { x: 50 * UNIT, y: 60 * UNIT },
            size,
            angle: 250_000,
            mov: 3,
            rot: 4,
        },
        alive: true,
        inv_split_freq: freq,
    }
}

fn same_brain(a: &Brain, b: &Brain) -> bool {
    fn same(a: &Neuron, b: &Neuron) -> bool {
        a.excitation == b.excitation
            && a.tick_drain == b.tick_drain
            && a.act_threshold == b.act_threshold
            && a.inv_mut == b.inv_mut
            && a.reachable == b.reachable
            && a.next_conn.len() == b.next_conn.len()
            && a.next_conn.iter().zip(b.next_conn.iter()).all(|(x, y)| {
                x.dest_index == y.dest_index && x.weight == y.weight && x.relu == y.relu
            })
    }
    a.generation == b.generation
        && a.neurons_hid.len() == b.neurons_hid.len()
        && a.neurons_inp.iter().zip(b.neurons_inp.iter()).all(|(x, y)| same(x, y))
        && a.neurons_hid.iter().zip(b.neurons_hid.iter()).all(|(x, y)| same(x, y))
        && a.neurons_out.iter().zip(b.neurons_out.iter()).all(|(x, y)| same(x, y))
}

#[test]
fn with_places_the_agent_at_random() {
    let mut west = false;
    let mut east = false;
    for _ in 0..500 {
        let a = Agent::with(brain(7), Colour { r: 1, g: 2, b: 3 }, 48 * UNIT, 255);
        assert!(a.alive);
        assert_eq!(a.body.size, 48 * UNIT);
        assert_eq!(a.inv_split_freq, 255);
        assert_eq!(a.body.colour.g, 2);
        assert_eq!(a.body.mov, 0);
        assert_eq!(a.body.rot, 0);
        assert!(0 <= a.body.pos.x && a.body.pos.x < SPAWN_SPAN);
        assert!(0 <= a.body.pos.y && a.body.pos.y < SPAWN_SPAN);
        assert!(-UNIT <= a.body.angle && a.body.angle < UNIT);
        assert_eq!(a.brain.generation, 7);
        if a.body.angle < 0 { west = true } else { east = true }
        assert!(a.check());
    }
    assert!(west && east);
}

#[test]
fn children_are_copies_or_mutants_of_the_next_generation() {
    let parent = agent(90 * UNIT, 10, 5);
    let mut copies = 0;
    let mut mutants = 0;
    for _ in 0..400 {
        let child = parent.spawn_child(30 * UNIT);
        assert!(child.alive);
        assert!(child.check());
        assert_eq!(child.body.size, 30 * UNIT);
        assert!(0 <= child.body.pos.x && child.body.pos.x < SPAWN_SPAN);
        assert_eq!(child.body.mov, 0);
        if child.brain.generation == 5 {
            copies += 1;
            assert!(same_brain(&child.brain, &parent.brain));
            assert_eq!(child.inv_split_freq, 10);
            assert_eq!(child.body.colour.r, 100);
            assert_eq!(child.body.colour.g, 100);
            assert_eq!(child.body.colour.b, 100);
        } else {
            mutants += 1;
            assert_eq!(child.brain.generation, 6);
            assert!(84 <= child.body.colour.r && child.body.colour.r <= 115);
            assert!(child.inv_split_freq >= 1);
            assert!(
                child.inv_split_freq == 20
                    || child.inv_split_freq == 5
                    || (9..=11).contains(&child.inv_split_freq)
            );
            for n in child.brain.neurons_inp.iter().chain(child.brain.neurons_out.iter()) {
                assert!(!n.next_conn.is_empty());
            }
        }
    }
    assert!(copies > 100 && mutants > 100);
    // the parent is untouched
    assert_eq!(parent.body.size, 90 * UNIT);
    assert_eq!(parent.brain.generation, 5);
}

#[test]
fn mutation_keeps_the_split_gene_at_one_or_above() {
    for _ in 0..300 {
        let mut a = agent(50 * UNIT, 1, 0);
        for _ in 0..20 {
            let before = a.inv_split_freq;
            a = a.mutate();
            assert!(a.inv_split_freq >= 1);
            let after = a.inv_split_freq;
            assert!(
                after == before * 2
                    || (before > 1 && after == before / 2)
                    || after + 1 == before
                    || after == before
                    || after == before + 1
            );
            assert!(a.check());
            assert_eq!(a.body.size, 50 * UNIT);
            assert_eq!(a.body.pos.x, 50 * UNIT);
            assert_eq!(a.body.angle, 250_000);
            assert_eq!(a.body.mov, 3);
            assert!(a.alive);
            assert_eq!(a.brain.generation, 0);
        }
    }
}

#[test]
fn the_split_gene_saturates() {
    for _ in 0..50 {
        let a = agent(50 * UNIT, usize::MAX, 0).mutate();
        assert!(a.inv_split_freq >= usize::MAX / 2);
    }
}

#[test]
fn split_odds_fall_with_size() {
    // 80 < size < 96: the gene itself
    assert_eq!(agent(81 * UNIT, 255, 0).split_odds(), 255);
    assert_eq!(agent(95_999_999, 255, 0).split_odds(), 255);
    // 96: one step above, twice as often
    assert_eq!(agent(96 * UNIT, 255, 0).split_odds(), 127);
    assert_eq!(agent(112 * UNIT, 255, 0).split_odds(), 85);
    assert_eq!(agent(400 * UNIT, 255, 0).split_odds(), 12);
    assert_eq!(agent(400 * UNIT, 3, 0).split_odds(), 0);
    assert_eq!(SPLIT_SIZE, 80 * UNIT);
}

#[test]
fn shed_gives_seven_tenths_and_conserves_area() {
    let mut a = agent(100 * UNIT, 10, 0);
    let child = a.shed();
    assert_eq!(child, 70 * UNIT);
    assert_eq!(a.body.size, 71_414_284);
    assert_eq!(a.body.pos.x, 50 * UNIT + (100 * UNIT - 71_414_284) / 2);
    assert_eq!(a.body.pos.y, 60 * UNIT + (100 * UNIT - 71_414_284) / 2);
    assert_eq!(a.inv_split_freq, 10);
    assert!(a.alive);
    let area = (a.body.size as i128).pow(2) + (child as i128).pow(2);
    let whole = (100 * UNIT as i128).pow(2);
    assert!(area <= whole && whole - area < 2 * 100 * UNIT as i128 + 1);
}

#[test]
fn small_agents_never_split() {
    let mut agents = vec![agent(80 * UNIT, 1, 0), agent(10 * UNIT, 1, 0)];
    for _ in 0..200 {
        assert!(Agent::maybe_split(&mut agents).is_none());
    }
    assert_eq!(agents[0].body.size, 80 * UNIT);
    assert_eq!(agents[1].body.size, 10 * UNIT);
    let mut nobody: Vec<Agent> = vec![];
    assert!(Agent::maybe_split(&mut nobody).is_none());
}

#[test]
fn a_large_agent_with_gene_zero_odds_splits_at_once() {
    // odds of 3 / 21 = 0: one chance in one
    let mut agents = vec![agent(20 * UNIT, 1, 0), agent(400 * UNIT, 3, 2), agent(400 * UNIT, 3, 0)];
    let child = Agent::maybe_split(&mut agents).expect("the second agent splits");
    assert_eq!(child.body.size, 280 * UNIT);
    assert!(child.alive);
    assert!(child.brain.generation == 2 || child.brain.generation == 3);
    assert_eq!(agents.len(), 3);
    assert_eq!(agents[0].body.size, 20 * UNIT);
    // sqrt(400^2 - 280^2) = 285.657137...
    assert_eq!(agents[1].body.size, 285_657_137);
    assert_eq!(agents[1].brain.generation, 2);
    // only the first that wins splits
    assert_eq!(agents[2].body.size, 400 * UNIT);
}

#[test]
fn split_first_names_the_parent() {
    let mut agents = vec![agent(20 * UNIT, 1, 0), agent(400 * UNIT, 3, 2)];
    let (parent, child) = Agent::split_first(&mut agents).expect("the second agent splits");
    assert_eq!(parent, 1);
    assert_eq!(child.body.size, 280 * UNIT);
    assert_eq!(agents[1].body.size, 285_657_137);
    let mut small = vec![agent(20 * UNIT, 1, 0)];
    assert!(Agent::split_first(&mut small).is_none());
}

#[test]
fn splitting_depends_on_the_draw() {
    let mut split = 0;
    let mut kept = 0;
    for _ in 0..400 {
        let mut agents = vec![agent(90 * UNIT, 1, 0)];
        match Agent::maybe_split(&mut agents) {
            Some(child) => {
                split += 1;
                assert_eq!(child.body.size, 63 * UNIT);
                assert!(agents[0].body.size < 90 * UNIT);
            }
            None => {
                kept += 1;
                assert_eq!(agents[0].body.size, 90 * UNIT);
                assert_eq!(agents[0].body.pos.x, 50 * UNIT);
            }
        }
    }
    assert!(split > 100 && kept > 100);
}

#[test]
fn newcomers_have_a_new_genome() {
    let nobody: Vec<Agent> = vec![];
    let mut sizes = std::collections::BTreeSet::new();
    for _ in 0..200 {
        let a = Agent::new(&nobody);
        assert!(a.alive);
        assert!(a.check());
        assert_eq!(a.body.size, FRESH_SIZE);
        assert_eq!(a.brain.generation, 0);
        assert!(a.inv_split_freq >= 1);
        assert!(0 <= a.body.pos.x && a.body.pos.x < SPAWN_SPAN);
        for n in a.brain.neurons_inp.iter().chain(a.brain.neurons_out.iter()) {
            assert!(!n.next_conn.is_empty());
            assert_eq!(n.excitation, 0);
        }
        sizes.insert(a.brain.neurons_hid.len());
    }
    // some were not mutated at all, others grew or shrank
    assert!(sizes.contains(&FRESH_HIDDEN));
    assert!(sizes.len() > 1);
    assert_eq!(FRESH_SIZE, 48 * UNIT);
    assert_eq!(FRESH_SPLIT_FREQ, 255);
}

#[test]
fn established_lines_give_heirs() {
    let agents = vec![agent(40 * UNIT, 9, 5), agent(40 * UNIT, 9, 4), agent(32 * UNIT, 9, 9)];
    let mut heirs = 0;
    for _ in 0..2000 {
        let a = Agent::new(&agents);
        assert!(a.check());
        if a.body.size != FRESH_SIZE || a.brain.generation >= 5 {
            heirs += 1;
            assert!(FRESH_SIZE <= a.body.size && a.body.size < HEIR_SIZE);
            // only the first agent is old and large enough
            assert!(a.brain.generation == 5 || a.brain.generation == 6);
        } else {
            assert_eq!(a.brain.generation, 0);
        }
    }
    assert!(heirs > 10 && heirs < 300);
}

#[test]
fn check_all_finds_a_malformed_agent() {
    let mut agents = vec![agent(40 * UNIT, 9, 5), agent(40 * UNIT, 9, 4)];
    assert!(Agent::check_all(&agents));
    agents[1].inv_split_freq = 0;
    assert!(!agents[1].check());
    assert!(!Agent::check_all(&agents));
    agents[1].inv_split_freq = 1;
    agents[0].brain.neurons_out[1].next_conn.clear();
    assert!(!Agent::check_all(&agents));
    assert!(Agent::check_all(&vec![]));
}

#[test]
fn step_gene_follows_the_draws() {
    // a change of 0 doubles or halves
    assert_eq!(Agent::step_gene(10, 0, 0, 0), 20);
    assert_eq!(Agent::step_gene(10, 0, 1, 0), 5);
    assert_eq!(Agent::step_gene(11, 0, 1, 2), 5);
    assert_eq!(Agent::step_gene(1, 0, 1, 0), 2);
    assert_eq!(Agent::step_gene(0, 0, 1, 0), 0);
    assert_eq!(Agent::step_gene(usize::MAX, 0, 0, 0), usize::MAX);
    // any other change moves the gene by the step less one
    assert_eq!(Agent::step_gene(10, 3, 0, 0), 9);
    assert_eq!(Agent::step_gene(10, 3, 0, 1), 10);
    assert_eq!(Agent::step_gene(10, 3, 1, 2), 11);
    assert_eq!(Agent::step_gene(1, 1, 0, 0), 1);
    assert_eq!(Agent::step_gene(0, 1, 0, 1), 1);
    assert_eq!(Agent::step_gene(usize::MAX, 7, 0, 2), usize::MAX);
}
