use cooperative_pathfinding::a_star::AStarMap;
use cooperative_pathfinding::a_star::AStarPathfinder;
use cooperative_pathfinding::a_star::Agent as AStarAgent;
use cooperative_pathfinding::agent::Agent;
use cooperative_pathfinding::grid::INFINITE_COST;
use cooperative_pathfinding::world::Node;
use cooperative_pathfinding::world::WorldMap;

fn node(x: u32, y: u32) -> Node {
    Node { pos: (x, y), g_score: 0, f_score: 0 }
}

fn open_world(width: u32, height: u32) -> WorldMap {
    WorldMap::new(vec![1; (width * height) as usize], width, height)
}

/// A 4x4 grid whose second column is a wall: the left edge is cut off from
/// the right part.
fn walled_world() -> WorldMap {
    let mut data = vec![1u32; 16];
    for y in 0..4 {
        data[(y * 4 + 1) as usize] = INFINITE_COST;
    }
    WorldMap::new(data, 4, 4)
}

#[test]
fn astar_finds_a_valid_path_on_an_open_grid() {
    let map = AStarMap::new(vec![1; 25], 5, 5);
    let mut agent = AStarAgent::new(1, "a", (0, 0), (4, 4));
    let path = agent.astar_search(&map);
    assert!(path.len() > 0);
    assert_eq!(path[0], (4, 4));
    assert_eq!(*path.last().unwrap(), (0, 0));
    for w in path.windows(2) {
        let dx = (w[0].0 as i64 - w[1].0 as i64).abs();
        let dy = (w[0].1 as i64 - w[1].1 as i64).abs();
        assert!(dx <= 1 && dy <= 1 && (dx, dy) != (0, 0));
    }
    for cell in &path {
        assert!(cell.0 < 5 && cell.1 < 5);
    }
}

#[test]
fn astar_returns_empty_for_an_unreachable_goal() {
    let mut data = vec![1u32; 16];
    for y in 0..4 {
        data[(y * 4 + 1) as usize] = INFINITE_COST;
    }
    let map = AStarMap::new(data, 4, 4);
    let mut agent = AStarAgent::new(1, "a", (0, 0), (3, 3));
    assert_eq!(agent.astar_search(&map).len(), 0);
}

#[test]
fn astar_returns_empty_for_a_walled_goal() {
    let mut data = vec![1u32; 9];
    data[4] = INFINITE_COST;
    let map = AStarMap::new(data, 3, 3);
    let mut agent = AStarAgent::new(1, "a", (0, 0), (1, 1));
    assert_eq!(agent.astar_search(&map).len(), 0);
}

#[test]
fn astar_start_equals_goal_gives_the_single_cell() {
    let map = AStarMap::new(vec![1; 9], 3, 3);
    let mut pathfinder = AStarPathfinder::new();
    let path = pathfinder.reconstruct_path((1, 1), (1, 1), &map);
    assert_eq!(path, vec![(1, 1)]);
}

#[test]
fn astar_search_reports_the_goal_index() {
    let map = AStarMap::new(vec![1; 9], 3, 3);
    let mut pathfinder = AStarPathfinder::new();
    let found = pathfinder.search((0, 0), (2, 1), &map);
    assert_eq!(found, 5);
}

#[test]
fn reverse_search_costs_every_reachable_cell_when_target_is_cut_off() {
    // goal on the left edge, start on the far side of the wall: the search
    // exhausts the left region and leaves the start without a cost
    let world = walled_world();
    let mut agent = Agent::new(1, "a");
    agent.set_start(node(3, 3));
    agent.set_goal(node(0, 0));
    let ok = agent.get_true_distance_heuristic(&world, node(3, 3), node(0, 0));
    assert!(ok);
    // the unreachable target stays uncosted
    assert!(agent.cost_so_far[3 * 4 + 3].is_none());
    // every cell of the goal's column is reachable and costed
    for y in 0..4u32 {
        assert!(agent.cost_so_far[(y * 4) as usize].is_some());
    }
    // no cell beyond the wall is costed
    for y in 0..4u32 {
        for x in 2..4u32 {
            assert!(agent.cost_so_far[(y * 4 + x) as usize].is_none());
        }
    }
    // and a skipped window: no step generation for the unreachable goal
    let mut world = world;
    agent.set_portion_path(&mut world);
    assert_eq!(agent.portion_path.len(), 0);
}

#[test]
fn reverse_search_rejects_bad_endpoints() {
    let world = open_world(4, 4);
    let mut agent = Agent::new(1, "a");
    agent.set_goal(node(1, 1));
    // target off the grid
    assert!(!agent.get_true_distance_heuristic(&world, node(9, 0), node(1, 1)));
    // origin on a wall
    let mut data = vec![1u32; 16];
    data[5] = INFINITE_COST;
    let walled = WorldMap::new(data, 4, 4);
    let mut agent2 = Agent::new(2, "b");
    agent2.set_goal(node(1, 1));
    assert!(!agent2.get_true_distance_heuristic(&walled, node(0, 0), node(1, 1)));
}

#[test]
fn reverse_search_costs_match_true_distances() {
    // open 3x3 grid, goal in the corner: with unit costs the true distance
    // is the Chebyshev distance (diagonal steps cost floor(sqrt(2)) = 1)
    let world = open_world(3, 3);
    let mut agent = Agent::new(1, "a");
    agent.set_start(node(2, 2));
    agent.set_goal(node(0, 0));
    assert!(agent.get_true_distance_heuristic(&world, node(2, 2), node(0, 0)));
    let g = |x: u32, y: u32| agent.cost_so_far[(y * 3 + x) as usize].unwrap().g_score;
    assert_eq!(g(0, 0), 0);
    assert_eq!(g(1, 0), 1);
    assert_eq!(g(1, 1), 1);
    assert_eq!(g(2, 2), 2);
}

#[test]
fn heuristic_field_falls_back_to_the_grid_cost() {
    let world = open_world(3, 3);
    let agent = Agent::new(1, "a");
    // no search has run: every cell shows its raw cost
    assert_eq!(agent.heuristic_at(&world, 1, 1), 1);
    let mut agent = agent;
    agent.set_start(node(2, 2));
    agent.set_goal(node(0, 0));
    assert!(agent.get_true_distance_heuristic(&world, node(2, 2), node(0, 0)));
    // the goal cell was costed: f = g + manhattan = 0 + 4
    assert_eq!(agent.heuristic_at(&world, 0, 0), 4);
}

#[test]
fn recorded_scores_follow_the_laws() {
    // open 3x3 grid, goal (0,0), target (2,2): every recorded f-score is
    // its g-score plus the Manhattan distance to the target, and every
    // g-score is its parent's plus the step cost into the cell
    let world = open_world(3, 3);
    let mut agent = Agent::new(1, "a");
    agent.set_start(node(2, 2));
    agent.set_goal(node(0, 0));
    assert!(agent.get_true_distance_heuristic(&world, node(2, 2), node(0, 0)));
    for y in 0..3u32 {
        for x in 0..3u32 {
            let i = (y * 3 + x) as usize;
            if let Some(n) = agent.cost_so_far[i] {
                let mh = (x as i64 - 2).abs() + (y as i64 - 2).abs();
                assert_eq!(n.f_score as i64, n.g_score as i64 + mh);
                if let Some(c) = agent.came_from[i] {
                    let parent = agent.cost_so_far[(c.1 * 3 + c.0) as usize].unwrap();
                    // unit costs: orthogonal and diagonal steps both cost 1
                    assert_eq!(n.g_score, parent.g_score + 1);
                } else {
                    assert_eq!(n.g_score, 0);
                }
            }
        }
    }
}

#[test]
fn resuming_never_worsens_recorded_costs() {
    let world = open_world(4, 4);
    let mut agent = Agent::new(1, "a");
    agent.set_start(node(3, 3));
    agent.set_goal(node(0, 0));
    assert!(agent.get_true_distance_heuristic(&world, node(3, 3), node(0, 0)));
    let before: Vec<Option<u32>> =
        agent.cost_so_far.iter().map(|e| e.map(|n| n.g_score)).collect();
    // resume toward another corner: old entries may improve, never worsen
    assert!(agent.get_true_distance_heuristic(&world, node(3, 0), node(0, 0)));
    for (i, old_g) in before.iter().enumerate() {
        if let Some(g0) = old_g {
            let g1 = agent.cost_so_far[i].unwrap().g_score;
            assert!(g1 <= *g0);
        }
    }
}

#[test]
fn conflict_resolution_picks_the_lowest_f_score() {
    let world = open_world(3, 3);
    let mut agent = Agent::new(1, "a");
    agent.set_start(node(2, 2));
    agent.set_goal(node(0, 0));
    assert!(agent.get_true_distance_heuristic(&world, node(2, 2), node(0, 0)));
    let f_12 = agent.cost_so_far[(2 * 3 + 1) as usize].unwrap().f_score;
    let f_21 = agent.cost_so_far[(1 * 3 + 2) as usize].unwrap().f_score;
    let blocked = agent.cost_so_far[(1 * 3 + 1) as usize].unwrap();
    // current told to avoid (1,1); the free neighbors of (2,2) are (1,2)
    // and (2,1); with a roomy f-score the best of the two must be chosen
    let current = Node { pos: (2, 2), g_score: 0, f_score: 1000 };
    let chosen = agent.process_neighbors(current, blocked, &world, 0);
    assert!(chosen.pos == (1, 2) || chosen.pos == (2, 1));
    assert_eq!(chosen.f_score, f_12.min(f_21));
}
