use alife::fixed::UNIT;
use alife::game::{
    agent_at, check_room, closely_overlapping, collide, cull, eat, handle_collisions,
    keep_inside, meet, mov, reproduce, shrink, sort_by_size, update_game, Motion, DECAY_BASE,
    GAME_SIZE, MIN_SIZE, MOV_SPEED, ROT_SPEED,
};
use alife::structs::{Agent, Body, Brain, Colour, Neuron, OutwardConn, Pos};

fn neuron(dest_index: usize) -> Neuron {
    Neuron {
        excitation: 0,
        tick_drain: UNIT,
        act_threshold: 0,
        next_conn: vec![OutwardConn { dest_index, speed: 0, weight: UNIT, relu: false }],
        reachable: false,
        inv_mut: 2,
    }
}

fn body(x: i64, y: i64, size: i64) -> Body {
    Body {
        colour: Colour { r: 0, g: 0, b: 0 },
        pos: Pos { x, y },
        size,
        angle: 0,
        mov: 0,
        rot: 0,
    }
}

fn agent(x: i64, y: i64, size: i64, tag: usize) -> Agent {
    Agent {
        brain: Brain {
            neurons_inp: [neuron(0), neuron(1), neuron(0)],
            neurons_hid: vec![],
            neurons_out: [neuron(0), neuron(1)],
            generation: tag,
        },
        body: body(x, y, size),
        alive: true,
        inv_split_freq: 255,
    }
}

fn still() -> Motion {
    Motion { cos: UNIT, sin: 0, decay: UNIT }
}

#[test]
fn the_constants_are_in_arena_units() {
    assert_eq!(GAME_SIZE, 600 * UNIT);
    assert_eq!(MOV_SPEED, 2 * UNIT);
    assert_eq!(ROT_SPEED, UNIT / 20);
    assert_eq!(MIN_SIZE, 4 * UNIT);
    assert_eq!(DECAY_BASE, 999_500);
}

#[test]
fn turning_scales_the_turn_drive() {
    let mut b = body(0, 0, 10 * UNIT);
    b.rot = UNIT;
    assert_eq!(b.turned(), 50_000);
    b.rot = -UNIT / 2;
    assert_eq!(b.turned(), -25_000);
    b.rot = 7 * UNIT;
    assert_eq!(b.turned(), 50_000);
    b.angle = UNIT;
    assert_eq!(b.turned(), -950_000);
    b.angle = -UNIT;
    b.rot = -UNIT;
    assert_eq!(b.turned(), 950_000);
    b.rot = 0;
    assert_eq!(b.turned(), UNIT);
}

#[test]
fn effort_grows_with_both_drives() {
    let mut b = body(0, 0, 10 * UNIT);
    assert_eq!(b.effort(), UNIT);
    b.mov = UNIT;
    b.rot = -UNIT;
    assert_eq!(b.effort(), 1_625_000);
    b.mov = -400_000;
    b.rot = 0;
    assert_eq!(b.effort(), 1_200_000);
    b.mov = 0;
    b.rot = 800_000;
    assert_eq!(b.effort(), 1_100_000);
    b.mov = 50 * UNIT;
    b.rot = -50 * UNIT;
    assert_eq!(b.effort(), 1_625_000);
}

#[test]
fn moving_follows_the_heading_vector() {
    let mut b = body(100 * UNIT, 100 * UNIT, 10 * UNIT);
    b.mov = UNIT;
    b.rot = UNIT;
    mov(&mut b, UNIT, 0);
    assert_eq!(b.angle, 50_000);
    assert_eq!(b.pos.x, 102 * UNIT);
    assert_eq!(b.pos.y, 100 * UNIT);
    b.mov = -UNIT / 2;
    b.rot = 0;
    mov(&mut b, 0, UNIT);
    assert_eq!(b.angle, 50_000);
    assert_eq!(b.pos.x, 102 * UNIT);
    assert_eq!(b.pos.y, 99 * UNIT);
    b.mov = UNIT;
    // cos and sin of a quarter of a half turn to the left
    mov(&mut b, 707_107, -707_107);
    assert_eq!(b.pos.x, 102 * UNIT + 1_414_214);
    assert_eq!(b.pos.y, 99 * UNIT - 1_414_214);
    // the size and the drives stay
    assert_eq!(b.size, 10 * UNIT);
    assert_eq!(b.mov, UNIT);
}

#[test]
fn moving_keeps_drives_and_vectors_to_one() {
    let mut b = body(0, 0, 10 * UNIT);
    b.mov = 9 * UNIT;
    mov(&mut b, 5 * UNIT, -5 * UNIT);
    assert_eq!(b.pos.x, 2 * UNIT);
    assert_eq!(b.pos.y, -2 * UNIT);
}

#[test]
fn shrinking_keeps_the_centre() {
    let mut b = body(100 * UNIT, 200 * UNIT, 100 * UNIT);
    shrink(&mut b, DECAY_BASE);
    assert_eq!(b.size, 99_950_000);
    assert_eq!(b.pos.x, 100 * UNIT + 25_000);
    assert_eq!(b.pos.y, 200 * UNIT + 25_000);
    shrink(&mut b, UNIT);
    assert_eq!(b.size, 99_950_000);
    shrink(&mut b, 3 * UNIT);
    assert_eq!(b.size, 99_950_000);
    shrink(&mut b, UNIT / 2);
    assert_eq!(b.size, 49_975_000);
    shrink(&mut b, -5);
    assert_eq!(b.size, 0);
}

#[test]
fn overlap_must_exceed_nine_tenths_of_the_smaller() {
    let at = |x: i64, y: i64| Pos { x: x * UNIT, y: y * UNIT };
    // the small one lies inside the large one
    assert!(closely_overlapping(at(100, 100), at(130, 130), 100 * UNIT, 40 * UNIT));
    assert!(closely_overlapping(at(130, 130), at(100, 100), 40 * UNIT, 100 * UNIT));
    // apart
    assert!(!closely_overlapping(at(0, 0), at(200, 200), 100 * UNIT, 40 * UNIT));
    // touching sides do not overlap
    assert!(!closely_overlapping(at(0, 0), at(100, 0), 100 * UNIT, 100 * UNIT));
    // nine tenths exactly is not enough
    assert!(!closely_overlapping(at(0, 0), at(1, 0), 10 * UNIT, 10 * UNIT));
    assert!(closely_overlapping(
        at(0, 0),
        Pos { x: UNIT - 1, y: 0 },
        10 * UNIT,
        10 * UNIT
    ));
    // 9.5 by 9.5 of a 10 by 10 square
    assert!(closely_overlapping(
        at(0, 0),
        Pos { x: UNIT / 2, y: UNIT / 2 },
        10 * UNIT,
        10 * UNIT
    ));
    // 9 by 9
    assert!(!closely_overlapping(at(0, 0), at(1, 1), 10 * UNIT, 10 * UNIT));
    // bodies without size never overlap
    assert!(!closely_overlapping(at(5, 5), at(5, 5), 0, 10 * UNIT));
    // the largest bodies there are
    assert!(closely_overlapping(at(0, 0), at(0, 0), i64::MAX, i64::MAX));
    assert!(closely_overlapping(
        Pos { x: i64::MAX, y: i64::MIN },
        Pos { x: i64::MAX, y: i64::MIN },
        i64::MAX,
        i64::MAX
    ));
    assert!(!closely_overlapping(
        Pos { x: i64::MIN, y: 0 },
        Pos { x: i64::MAX, y: 0 },
        i64::MAX,
        i64::MAX
    ));
}

#[test]
fn eating_adds_the_areas_and_keeps_the_centre() {
    let mut b = body(100 * UNIT, 100 * UNIT, 100 * UNIT);
    eat(&mut b, 100 * UNIT, 40 * UNIT);
    assert_eq!(b.size, 107_703_296);
    assert_eq!(b.pos.x, 100 * UNIT - 3_851_648);
    assert_eq!(b.pos.y, 100 * UNIT - 3_851_648);
    let mut c = body(0, 0, 3 * UNIT);
    eat(&mut c, 3 * UNIT, 4 * UNIT);
    assert_eq!(c.size, 5 * UNIT);
    assert_eq!(c.pos.x, -UNIT);
}

#[test]
fn eating_has_no_largest_size() {
    let mut b = body(0, 0, 927 * UNIT);
    eat(&mut b, 927 * UNIT, 500 * UNIT);
    // sqrt(927^2 + 500^2) = 1053.246884...
    assert_eq!(b.size, 1_053_246_884);
    b.remove(500 * UNIT);
    assert_eq!(b.size, 926_999_999);
    let mut c = body(0, 0, 3_000_000_000 * UNIT);
    eat(&mut c, 3_000_000_000 * UNIT, 4_000_000_000 * UNIT);
    assert_eq!(c.size, 5_000_000_000 * UNIT);
    assert_eq!(c.pos.x, -1_000_000_000 * UNIT);
}

#[test]
fn an_agent_that_eats_three_has_the_area_of_all_four() {
    let mut agents = vec![
        agent(0, 0, 600 * UNIT, 1),
        agent(10 * UNIT, 10 * UNIT, 500 * UNIT, 2),
        agent(50 * UNIT, 50 * UNIT, 500 * UNIT, 3),
        agent(90 * UNIT, 90 * UNIT, 500 * UNIT, 4),
    ];
    assert!(check_room(&agents));
    collide(&mut agents);
    assert!(agents[0].alive);
    assert!(!agents[1].alive && !agents[2].alive && !agents[3].alive);
    // sqrt(600^2 + 3 * 500^2) = 1053.565374...
    assert_eq!(agents[0].body.size, 1_053_565_374);
    assert_eq!(agents[0].body.pos.x, -(90_512_483 + 73_168_441 + 63_101_762));
    let area = (agents[0].body.size as i128).pow(2);
    let before = (600 * UNIT as i128).pow(2) + 3 * (500 * UNIT as i128).pow(2);
    assert!(area <= before && before - area < 3 * (2 * 1_053_565_374 + 1));
}

#[test]
fn check_room_bounds_the_area_of_the_living() {
    let mut agents = vec![agent(0, 0, i64::MAX, 1)];
    assert!(check_room(&agents));
    agents.push(agent(0, 0, 4_294_967_296, 2));
    assert!(!check_room(&agents));
    agents[1].alive = false;
    assert!(check_room(&agents));
    agents[1].alive = true;
    agents[1].body.size = 4_294_967_295;
    assert!(check_room(&agents));
    assert!(check_room(&vec![]));
}

#[test]
fn merging_and_parting_come_back_to_the_start() {
    let mut b = body(100 * UNIT, 100 * UNIT, 100 * UNIT);
    eat(&mut b, 100 * UNIT, 40 * UNIT);
    b.remove(40 * UNIT);
    assert_eq!(b.size, 99_999_999);
    assert_eq!(b.pos.x, 100 * UNIT);
    let mut c = body(0, 0, 50 * UNIT);
    eat(&mut c, 50 * UNIT, 10 * UNIT);
    assert_eq!(c.size, 50_990_195);
    c.remove(10 * UNIT);
    assert!(c.size <= 50 * UNIT && 50 * UNIT - c.size <= 2);
}

#[test]
fn the_larger_agent_absorbs_the_smaller() {
    let mut agents = vec![
        agent(100 * UNIT, 100 * UNIT, 100 * UNIT, 1),
        agent(130 * UNIT, 130 * UNIT, 40 * UNIT, 2),
    ];
    handle_collisions(&mut agents);
    assert_eq!(agents.len(), 1);
    assert_eq!(agents[0].brain.generation, 1);
    assert!(agents[0].alive);
    assert_eq!(agents[0].body.size, 107_703_296);
    assert_eq!(agents[0].body.pos.x, 100 * UNIT - 3_851_648);
    assert_eq!(agents[0].body.pos.y, 100 * UNIT - 3_851_648);
}

#[test]
fn the_order_of_the_pair_does_not_decide_who_eats() {
    let mut agents = vec![
        agent(130 * UNIT, 130 * UNIT, 40 * UNIT, 2),
        agent(100 * UNIT, 100 * UNIT, 100 * UNIT, 1),
    ];
    handle_collisions(&mut agents);
    assert_eq!(agents.len(), 1);
    assert_eq!(agents[0].brain.generation, 1);
    assert_eq!(agents[0].body.size, 107_703_296);
}

#[test]
fn agents_of_about_one_size_leave_each_other_alone() {
    let mut agents = vec![
        agent(100 * UNIT, 100 * UNIT, 100 * UNIT, 1),
        agent(100 * UNIT, 100 * UNIT, 95 * UNIT, 2),
    ];
    handle_collisions(&mut agents);
    assert_eq!(agents.len(), 2);
    // in ascending order of size
    assert_eq!(agents[0].body.size, 95 * UNIT);
    assert_eq!(agents[0].brain.generation, 2);
    assert_eq!(agents[1].body.size, 100 * UNIT);
    assert!(agents[0].alive && agents[1].alive);
}

#[test]
fn a_tenth_larger_is_not_enough() {
    let mut agents = vec![
        agent(100 * UNIT, 100 * UNIT, 110 * UNIT, 1),
        agent(100 * UNIT, 100 * UNIT, 100 * UNIT, 2),
    ];
    meet(&mut agents, 0, 1);
    assert!(agents[0].alive && agents[1].alive);
    agents[0].body.size = 110 * UNIT + 1;
    meet(&mut agents, 0, 1);
    assert!(agents[0].alive && !agents[1].alive);
}

#[test]
fn the_dead_neither_eat_nor_are_eaten() {
    let mut agents = vec![
        agent(100 * UNIT, 100 * UNIT, 100 * UNIT, 1),
        agent(130 * UNIT, 130 * UNIT, 40 * UNIT, 2),
    ];
    agents[0].alive = false;
    meet(&mut agents, 0, 1);
    assert!(agents[1].alive);
    assert_eq!(agents[0].body.size, 100 * UNIT);
    agents[0].alive = true;
    agents[1].alive = false;
    meet(&mut agents, 0, 1);
    assert_eq!(agents[0].body.size, 100 * UNIT);
}

#[test]
fn an_eater_goes_on_eating_with_the_size_it_has() {
    let mut agents = vec![
        agent(100 * UNIT, 100 * UNIT, 100 * UNIT, 1),
        agent(130 * UNIT, 130 * UNIT, 40 * UNIT, 2),
        agent(140 * UNIT, 140 * UNIT, 20 * UNIT, 3),
    ];
    collide(&mut agents);
    assert_eq!(agents.len(), 3);
    assert!(agents[0].alive && !agents[1].alive && !agents[2].alive);
    // sqrt(100^2 + 40^2 + 20^2) = 109.544511...
    assert_eq!(agents[0].body.size, 109_544_511);
    // the absorbed keep their bodies until they are culled
    assert_eq!(agents[1].body.size, 40 * UNIT);
}

#[test]
fn an_agent_eaten_in_its_row_eats_no_more() {
    // agent 0 would eat agent 2, but agent 1 eats agent 0 first
    let mut agents = vec![
        agent(100 * UNIT, 100 * UNIT, 50 * UNIT, 1),
        agent(80 * UNIT, 80 * UNIT, 100 * UNIT, 2),
        agent(110 * UNIT, 110 * UNIT, 20 * UNIT, 3),
    ];
    collide(&mut agents);
    assert!(!agents[0].alive);
    assert!(agents[1].alive);
    assert_eq!(agents[0].body.size, 50 * UNIT);
    // agent 1, grown, then meets agent 2
    assert!(!agents[2].alive);
    assert_eq!(agents[1].body.size, 113_578_166);
}

#[test]
fn culling_removes_the_dead_and_the_undersized() {
    let mut agents = vec![
        agent(0, 0, 50 * UNIT, 1),
        agent(0, 0, MIN_SIZE - 1, 2),
        agent(0, 0, MIN_SIZE, 3),
        agent(0, 0, 60 * UNIT, 4),
        agent(0, 0, 0, 5),
    ];
    agents[3].alive = false;
    cull(&mut agents);
    let tags: Vec<usize> = agents.iter().map(|a| a.brain.generation).collect();
    assert_eq!(tags, vec![1, 3]);
    for a in &agents {
        assert!(a.alive && a.body.size >= MIN_SIZE);
    }
    cull(&mut agents);
    assert_eq!(agents.len(), 2);
}

#[test]
fn bodies_are_kept_inside_the_arena() {
    let mut agents = vec![
        agent(-5 * UNIT, 590 * UNIT, 48 * UNIT, 1),
        agent(300 * UNIT, -1, 48 * UNIT, 2),
        agent(552 * UNIT, 552 * UNIT + 1, 48 * UNIT, 3),
        agent(10 * UNIT, 10 * UNIT, 700 * UNIT, 4),
    ];
    keep_inside(&mut agents);
    assert_eq!((agents[0].body.pos.x, agents[0].body.pos.y), (0, 552 * UNIT));
    assert_eq!((agents[1].body.pos.x, agents[1].body.pos.y), (300 * UNIT, 0));
    assert_eq!((agents[2].body.pos.x, agents[2].body.pos.y), (552 * UNIT, 552 * UNIT));
    assert_eq!((agents[3].body.pos.x, agents[3].body.pos.y), (0, 0));
    assert_eq!(agents[3].body.size, 700 * UNIT);
}

#[test]
fn sorting_is_ascending_and_keeps_ties_in_order() {
    let mut agents = vec![
        agent(0, 0, 50 * UNIT, 1),
        agent(0, 0, 20 * UNIT, 2),
        agent(0, 0, 50 * UNIT, 3),
        agent(0, 0, 10 * UNIT, 4),
        agent(0, 0, 20 * UNIT, 5),
        agent(0, 0, 90 * UNIT, 6),
    ];
    sort_by_size(&mut agents);
    let tags: Vec<usize> = agents.iter().map(|a| a.brain.generation).collect();
    assert_eq!(tags, vec![4, 2, 5, 1, 3, 6]);
    let mut nobody: Vec<Agent> = vec![];
    sort_by_size(&mut nobody);
    assert!(nobody.is_empty());
}

#[test]
fn a_tick_moves_shrinks_collides_culls_clamps_and_sorts() {
    let mut agents = vec![
        agent(100 * UNIT, 100 * UNIT, 100 * UNIT, 1),
        agent(128 * UNIT, 130 * UNIT, 40 * UNIT, 2),
        agent(599 * UNIT, 300 * UNIT, 10 * UNIT, 3),
        agent(300 * UNIT, 300 * UNIT, 4_001_000, 4),
    ];
    agents[1].body.mov = UNIT;
    agents[2].body.mov = UNIT;
    agents[2].body.rot = UNIT;
    let motions = vec![
        still(),
        still(),
        Motion { cos: UNIT, sin: 0, decay: UNIT },
        Motion { cos: UNIT, sin: 0, decay: DECAY_BASE },
    ];
    update_game(&mut agents, &motions);
    let tags: Vec<usize> = agents.iter().map(|a| a.brain.generation).collect();
    // agent 4 shrank below the smallest size; agent 2 moved into agent 1
    // and was absorbed
    assert_eq!(tags, vec![3, 1]);
    assert_eq!(agents[0].body.size, 10 * UNIT);
    assert_eq!(agents[0].body.angle, 50_000);
    // moved to 601, kept inside
    assert_eq!(agents[0].body.pos.x, 590 * UNIT);
    assert_eq!(agents[1].body.size, 107_703_296);
    assert_eq!(agents[1].body.pos.x, 100 * UNIT - 3_851_648);
}

#[test]
fn a_missed_meal_for_want_of_overlap() {
    let mut agents = vec![
        agent(100 * UNIT, 100 * UNIT, 100 * UNIT, 1),
        agent(190 * UNIT, 130 * UNIT, 40 * UNIT, 2),
    ];
    update_game(&mut agents, &vec![still(), still()]);
    assert_eq!(agents.len(), 2);
    assert_eq!(agents[0].body.size, 40 * UNIT);
    assert_eq!(agents[1].body.size, 100 * UNIT);
}

#[test]
fn after_a_tick_nobody_is_dead_or_undersized() {
    let mut agents: Vec<Agent> = (0..40)
        .map(|k| {
            agent(
                (k % 7) * 30 * UNIT,
                (k % 5) * 40 * UNIT,
                (k % 9) * 9 * UNIT + (k % 2) * 3 * UNIT,
                k as usize,
            )
        })
        .collect();
    let motions: Vec<Motion> = agents.iter().map(|_| still()).collect();
    let before = agents.len();
    update_game(&mut agents, &motions);
    assert!(agents.len() < before);
    assert!(!agents.is_empty());
    for a in &agents {
        assert!(a.alive);
        assert!(a.body.size >= MIN_SIZE);
        assert!(a.check());
        assert!(0 <= a.body.pos.x && a.body.pos.x + a.body.size <= GAME_SIZE);
        assert!(0 <= a.body.pos.y && a.body.pos.y + a.body.size <= GAME_SIZE);
    }
    for pair in agents.windows(2) {
        assert!(pair[0].body.size <= pair[1].body.size);
    }
}

#[test]
fn agent_at_finds_the_first_agent_that_holds_the_point() {
    let agents = vec![
        agent(0, 0, 10 * UNIT, 1),
        agent(5 * UNIT, 5 * UNIT, 10 * UNIT, 2),
        agent(5 * UNIT, 5 * UNIT, 100 * UNIT, 3),
    ];
    assert_eq!(agent_at(&agents, 0, 0), Some(0));
    assert_eq!(agent_at(&agents, 7 * UNIT, 7 * UNIT), Some(0));
    assert_eq!(agent_at(&agents, 10 * UNIT, 7 * UNIT), Some(1));
    assert_eq!(agent_at(&agents, 15 * UNIT, 15 * UNIT), Some(2));
    assert_eq!(agent_at(&agents, 105 * UNIT - 1, 50 * UNIT), Some(2));
    assert_eq!(agent_at(&agents, 105 * UNIT, 50 * UNIT), None);
    assert_eq!(agent_at(&agents, -1, 0), None);
    assert_eq!(agent_at(&vec![], 0, 0), None);
}

#[test]
fn reproduction_at_rate_one_always_adds_a_newcomer() {
    let mut agents = vec![agent(0, 0, 50 * UNIT, 1)];
    for round in 1..20 {
        let intake = reproduce(&mut agents, 1);
        assert!(intake.appeared);
        assert_eq!(intake.parent, None);
        assert_eq!(agents.len(), 1 + round);
        assert_eq!(agents[0].body.size, 50 * UNIT);
        let last = &agents[agents.len() - 1];
        assert!(last.alive);
        assert!(last.check());
    }
}

#[test]
fn reproduction_adds_at_most_two() {
    let mut spawned = false;
    let mut split = false;
    for _ in 0..300 {
        let mut agents = vec![agent(10 * UNIT, 10 * UNIT, 400 * UNIT, 1)];
        agents[0].inv_split_freq = 3;
        let intake = reproduce(&mut agents, 2);
        // odds of 3 / 21 = 0: the large agent always splits
        assert_eq!(intake.parent, Some(0));
        assert_eq!(agents.len(), if intake.appeared { 3 } else { 2 });
        assert_eq!(agents[0].body.size, 285_657_137);
        if agents.len() == 3 {
            spawned = true;
            assert_eq!(agents[2].body.size, 280 * UNIT);
        } else {
            split = true;
            assert_eq!(agents[1].body.size, 280 * UNIT);
        }
    }
    assert!(spawned && split);
}
