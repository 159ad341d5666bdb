use cooperative_pathfinding::agent::Agent;
use cooperative_pathfinding::grid::INFINITE_COST;
use cooperative_pathfinding::grid::SOFT_OBSTACLE_COST;
use cooperative_pathfinding::world::Node;
use cooperative_pathfinding::world::WINDOW_SIZE;
use cooperative_pathfinding::world::WorldMap;

fn node(x: u32, y: u32) -> Node {
    Node { pos: (x, y), g_score: 0, f_score: 0 }
}

fn open_world(width: u32, height: u32) -> WorldMap {
    WorldMap::new(vec![1; (width * height) as usize], width, height)
}

/// Chronological steps of a planned window: the buffer is stored reversed
/// for pop-from-end consumption.
fn chronological(agent: &Agent) -> Vec<(u32, u32)> {
    agent.portion_path.iter().rev().map(|n| n.pos).collect()
}

#[test]
fn open_grid_window_walks_monotonically_to_the_goal() {
    // 20x20 open grid, start (0,0), goal (0,5): one window refresh plans a
    // y-increasing path that reaches the goal and then parks on it
    let mut world = open_world(20, 20);
    let mut agent = Agent::new(1, "a");
    agent.set_start(node(0, 0));
    agent.set_goal(node(0, 5));
    assert!(agent.get_true_distance_heuristic(&world, node(0, 0), node(0, 5)));
    agent.set_portion_path(&mut world);
    let steps = chronological(&agent);
    assert_eq!(steps.len() as u32, WINDOW_SIZE);
    let mut prev_y = 0u32;
    for (t, cell) in steps.iter().enumerate() {
        assert!(cell.0 < 20 && cell.1 < 20);
        assert!(world.get_cost(*cell) != INFINITE_COST);
        assert!(cell.1 >= prev_y, "y must not decrease at step {}", t);
        prev_y = cell.1;
    }
    // the goal is reached and held for the rest of the window
    assert_eq!(steps[5], (0, 5));
    for t in 5..WINDOW_SIZE as usize {
        assert_eq!(steps[t], (0, 5));
    }
}

#[test]
fn parked_agent_replans_the_same_cell_and_marks_it_once() {
    let mut world = open_world(8, 8);
    let mut agent = Agent::new(1, "a");
    agent.set_start(node(3, 3));
    agent.set_goal(node(3, 3));
    assert!(agent.get_true_distance_heuristic(&world, node(3, 3), node(3, 3)));
    agent.set_portion_path(&mut world);
    assert_eq!(agent.portion_path.len() as u32, WINDOW_SIZE);
    for n in &agent.portion_path {
        assert_eq!(n.pos, (3, 3));
    }
    assert_eq!(world.get_cost((3, 3)), SOFT_OBSTACLE_COST);
    // a second window refresh repeats the same plan and does not rescale
    // the soft obstacle value
    agent.portion_path.clear();
    agent.set_portion_path(&mut world);
    assert_eq!(agent.portion_path.len() as u32, WINDOW_SIZE);
    for n in &agent.portion_path {
        assert_eq!(n.pos, (3, 3));
    }
    assert_eq!(world.get_cost((3, 3)), SOFT_OBSTACLE_COST);
}

#[test]
fn window_steps_are_reserved_for_their_agent() {
    let mut world = open_world(10, 10);
    let mut agent = Agent::new(7, "g");
    agent.set_start(node(0, 0));
    agent.set_goal(node(9, 9));
    assert!(agent.get_true_distance_heuristic(&world, node(0, 0), node(9, 9)));
    agent.set_portion_path(&mut world);
    let steps = chronological(&agent);
    assert_eq!(steps.len() as u32, WINDOW_SIZE);
    for (t, cell) in steps.iter().enumerate() {
        assert_eq!(world.reservation_at(t as u32, *cell), Some(7));
    }
}

/// A plus-shaped 5x5 grid: only row y=2 and column x=2 are open.
fn plus_world() -> WorldMap {
    let mut data = vec![INFINITE_COST; 25];
    for x in 0..5 {
        data[(2 * 5 + x) as usize] = 1;
    }
    for y in 0..5 {
        data[(y * 5 + 2) as usize] = 1;
    }
    WorldMap::new(data, 5, 5)
}

#[test]
fn crossing_agents_never_share_a_cell_at_a_time_slot() {
    // two agents cross the single corridor cell (2,2): the planner must
    // hand that cell to one of them per slot and route the other around
    // or hold it in place, on passable cells only
    let mut world = plus_world();
    let walls: Vec<bool> = (0..25).map(|i| {
        let x = i % 5;
        let y = i / 5;
        !(y == 2 || x == 2)
    }).collect();

    let mut a = Agent::new(1, "a");
    a.set_start(node(0, 2));
    a.set_goal(node(4, 2));
    let mut b = Agent::new(2, "b");
    b.set_start(node(2, 0));
    b.set_goal(node(2, 4));

    assert!(a.get_true_distance_heuristic(&world, node(0, 2), node(4, 2)));
    a.set_portion_path(&mut world);
    assert!(b.get_true_distance_heuristic(&world, node(2, 0), node(2, 4)));
    b.set_portion_path(&mut world);

    let sa = chronological(&a);
    let sb = chronological(&b);
    assert_eq!(sa.len() as u32, WINDOW_SIZE);
    assert_eq!(sb.len() as u32, WINDOW_SIZE);
    for t in 0..WINDOW_SIZE as usize {
        // no double occupancy between the two plans
        assert_ne!(sa[t], sb[t], "both agents occupy {:?} at slot {}", sa[t], t);
        // both stay on the grid and off the walls of the initial layout
        for cell in [sa[t], sb[t]] {
            assert!(cell.0 < 5 && cell.1 < 5);
            assert!(!walls[(cell.1 * 5 + cell.0) as usize]);
        }
    }
    // both agents get where they were going
    assert_eq!(sa[WINDOW_SIZE as usize - 1], (4, 2));
    assert_eq!(sb[WINDOW_SIZE as usize - 1], (2, 4));
    // the second planner saw the first agent's reservations: B detoured or
    // waited at least once instead of walking straight down the column
    assert_eq!(world.reservation_at(15, (4, 2)), Some(1));
    assert_eq!(world.reservation_at(15, (2, 4)), Some(2));
}

#[test]
fn advance_drives_an_agent_to_its_goal() {
    let mut world = open_world(20, 20);
    let mut agent = Agent::new(1, "a");
    agent.set_start(node(0, 0));
    agent.set_goal(node(0, 5));
    world.set_agent(agent);
    for _ in 0..6 {
        let stepped = world.advance();
        assert_eq!(stepped, 1);
    }
    assert_eq!(world.agents[0].current_node.pos, (0, 5));
}

#[test]
fn advance_skips_an_agent_with_an_unreachable_goal() {
    let mut data = vec![1u32; 16];
    for y in 0..4 {
        data[(y * 4 + 1) as usize] = INFINITE_COST;
    }
    let mut world = WorldMap::new(data, 4, 4);
    let mut agent = Agent::new(1, "a");
    agent.set_start(node(3, 3));
    agent.set_goal(node(0, 0));
    world.set_agent(agent);
    let stepped = world.advance();
    assert_eq!(stepped, 0);
    assert_eq!(world.agents[0].current_node.pos, (3, 3));
}

#[test]
fn two_agents_reach_distinct_goals_under_advance() {
    let mut world = WorldMap::new(vec![1; 100], 10, 10);
    let mut a = Agent::new(1, "a");
    a.set_start(node(0, 0));
    a.set_goal(node(5, 0));
    let mut b = Agent::new(2, "b");
    b.set_start(node(9, 9));
    b.set_goal(node(5, 9));
    world.set_agent(a);
    world.set_agent(b);
    for _ in 0..40 {
        world.advance();
    }
    assert_eq!(world.agents[0].current_node.pos, (5, 0));
    assert_eq!(world.agents[1].current_node.pos, (5, 9));
}

#[test]
fn reservations_clear_at_a_window_boundary() {
    let mut world = open_world(6, 6);
    let mut agent = Agent::new(1, "a");
    agent.set_start(node(0, 0));
    agent.set_goal(node(5, 5));
    world.set_agent(agent);
    world.advance();
    assert!(world.reservation_at(0, (1, 1)).is_some() || world.reservation_at(0, (0, 1)).is_some() || world.reservation_at(0, (1, 0)).is_some());
    world.clear_reservations();
    for t in 0..16u32 {
        for x in 0..6u32 {
            for y in 0..6u32 {
                assert!(world.reservation_at(t, (x, y)).is_none());
            }
        }
    }
}

#[test]
fn registering_an_existing_id_replaces_the_entry() {
    let mut world = WorldMap::new(vec![1; 16], 4, 4);
    let mut a = Agent::new(7, "a");
    a.set_start(node(0, 0));
    a.set_goal(node(3, 3));
    let mut b = Agent::new(7, "b");
    b.set_start(node(1, 1));
    b.set_goal(node(2, 2));
    world.set_agent(a);
    world.set_agent(b);
    // the registry is keyed by id: one entry, the later agent
    assert_eq!(world.agents.len(), 1);
    assert_eq!(world.agents[0].name, "b");
    let c = Agent::new(9, "c");
    world.set_agent(c);
    assert_eq!(world.agents.len(), 2);
}

#[test]
fn boundary_reservations_all_belong_to_registered_agents() {
    let mut world = open_world(8, 8);
    let mut a = Agent::new(1, "a");
    a.set_start(node(0, 0));
    a.set_goal(node(7, 0));
    let mut b = Agent::new(2, "b");
    b.set_start(node(0, 7));
    b.set_goal(node(7, 7));
    world.set_agent(a);
    world.set_agent(b);
    // the first tick is a window boundary: both buffers are empty, so the
    // table is cleared and refilled by the two plans alone
    world.advance();
    for t in 0..WINDOW_SIZE {
        for x in 0..8u32 {
            for y in 0..8u32 {
                if let Some(owner) = world.reservation_at(t, (x, y)) {
                    assert!(owner == 1 || owner == 2);
                }
            }
        }
    }
}
