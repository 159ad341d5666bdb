use cooperative_pathfinding::a_star::AStarMap;
use cooperative_pathfinding::a_star::AStarPathfinder;
use cooperative_pathfinding::grid::neighbors_of;
use cooperative_pathfinding::grid::saturating_add_cost;
use cooperative_pathfinding::grid::scaled_diagonal_cost;
use cooperative_pathfinding::grid::step_cost;
use cooperative_pathfinding::world::Node;
use cooperative_pathfinding::world::WorldMap;

#[test]
fn diagonal_cost_truncates_sqrt2_scaling() {
    // floor(c * sqrt(2)) for small cell costs
    assert_eq!(scaled_diagonal_cost(0), 0);
    assert_eq!(scaled_diagonal_cost(1), 1);
    assert_eq!(scaled_diagonal_cost(2), 2);
    assert_eq!(scaled_diagonal_cost(5), 7);
    assert_eq!(scaled_diagonal_cost(10), 14);
    assert_eq!(scaled_diagonal_cost(100), 141);
    assert_eq!(scaled_diagonal_cost(1000), 1414);
}

#[test]
fn diagonal_cost_saturates_at_the_sentinel() {
    // a near-sentinel cost scales past u32::MAX and must clamp there
    assert_eq!(scaled_diagonal_cost(u32::MAX - 1), u32::MAX);
}

#[test]
fn step_cost_diagonal_law() {
    // orthogonal moves cost the destination cell exactly; diagonal moves
    // cost the destination cell scaled by sqrt(2), truncated
    assert_eq!(step_cost(7, false), 7);
    assert_eq!(step_cost(7, true), 9);
    assert_eq!(step_cost(1, false), 1);
    assert_eq!(step_cost(1, true), 1);
}

#[test]
fn cost_addition_saturates() {
    assert_eq!(saturating_add_cost(3, 4), 7);
    assert_eq!(saturating_add_cost(u32::MAX, 1), u32::MAX);
    assert_eq!(saturating_add_cost(u32::MAX - 1, 5), u32::MAX);
}

#[test]
fn manhattan_distance_is_exact() {
    let a = Node { pos: (3, 4), g_score: 0, f_score: 0 };
    let b = Node { pos: (1, 9), g_score: 0, f_score: 0 };
    assert_eq!(WorldMap::manhattan_distance(a, b), 7);
    assert_eq!(WorldMap::manhattan_distance(b, a), 7);
    assert_eq!(WorldMap::manhattan_distance(a, a), 0);
}

#[test]
fn corner_cell_has_three_neighbors() {
    let mut n = neighbors_of(3, 3, (0, 0));
    n.sort();
    assert_eq!(n, vec![(0, 1), (1, 0), (1, 1)]);
}

#[test]
fn center_cell_has_eight_neighbors() {
    let mut n = neighbors_of(3, 3, (1, 1));
    n.sort();
    assert_eq!(
        n,
        vec![(0, 0), (0, 1), (0, 2), (1, 0), (1, 2), (2, 0), (2, 1), (2, 2)]
    );
}

#[test]
fn world_map_reads_costs_row_major() {
    let data = vec![1, 2, 3, 4, 5, 6];
    let map = WorldMap::new(data, 3, 2);
    assert_eq!(map.get_cost((0, 0)), 1);
    assert_eq!(map.get_cost((2, 0)), 3);
    assert_eq!(map.get_cost((0, 1)), 4);
    assert_eq!(map.get((2, 1).0, (2, 1).1), 6);
    assert!(!map.is_obstacle(Node { pos: (1, 1), g_score: 0, f_score: 0 }));
}

#[test]
fn obstacle_cells_are_the_sentinel() {
    let data = vec![1, u32::MAX, 1, 1];
    let map = WorldMap::new(data, 2, 2);
    assert!(map.is_obstacle(Node { pos: (1, 0), g_score: 0, f_score: 0 }));
    assert!(!map.is_obstacle(Node { pos: (0, 0), g_score: 0, f_score: 0 }));
}

#[test]
fn node_identity_is_its_position() {
    let a = Node { pos: (2, 3), g_score: 10, f_score: 20 };
    let b = Node { pos: (2, 3), g_score: 99, f_score: 1 };
    let c = Node { pos: (3, 2), g_score: 10, f_score: 20 };
    assert!(a == b);
    assert!(a != c);
}

#[test]
fn node_from_triple_carries_g_score() {
    let n = Node::from((4, 5, 17));
    assert_eq!(n.pos, (4, 5));
    assert_eq!(n.g_score, 17);
    assert_eq!(n.f_score, 0);
}

#[test]
fn node_default_is_the_zero_cell() {
    let n = Node::default();
    assert_eq!(n.pos, (0, 0));
    assert_eq!(n.g_score, 0);
    assert_eq!(n.f_score, 0);
}

#[test]
fn index_position_is_row_major() {
    let map = AStarMap::new(vec![1; 12], 4, 3);
    assert_eq!(map.get_index_position(0, 0), 0);
    assert_eq!(map.get_index_position(3, 0), 3);
    assert_eq!(map.get_index_position(0, 1), 4);
    assert_eq!(map.get_index_position(2, 2), 10);
}

#[test]
fn heuristic_is_manhattan() {
    assert_eq!(AStarPathfinder::heuristic((0, 0), (3, 4)), 7);
    assert_eq!(AStarPathfinder::heuristic((-2, 5), (1, 1)), 7);
    assert_eq!(AStarPathfinder::heuristic((2, 2), (2, 2)), 0);
}

#[test]
fn tuple_cast_keeps_values() {
    assert_eq!(AStarPathfinder::tuple_u32_as_i32((7, 9)), (7, 9));
}
