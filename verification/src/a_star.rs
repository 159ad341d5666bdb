//! Plain forward A* over a cost grid: a map type, a pathfinder whose search
//! fills a visited set, a distance field and a back-pointer tree, and an
//! agent that walks the reconstructed path.

use vstd::prelude::*;

use crate::grid::INFINITE_COST;
use crate::grid::adjacent;
use crate::grid::cell_idx;
use crate::grid::cell_index;
use crate::grid::count_true;
use crate::grid::in_bounds;
use crate::grid::lemma_cell_index_distinct;
use crate::grid::lemma_count_true_le;
use crate::grid::lemma_count_true_update;
use crate::grid::lemma_reachable_in_closed_set;
use crate::grid::lemma_reachable_self;
use crate::grid::lemma_reachable_step;
use crate::grid::neighbors_of;
use crate::grid::passable_at;
use crate::grid::reachable;
use crate::grid::step_cost;
use crate::open_set::OpenSet;
use crate::open_set::open_set_entries;
use crate::open_set::open_set_new;
use crate::open_set::open_set_pop;
use crate::open_set::open_set_push;

verus! {

/// Bound on any one step's cost, used to bound the distance field.
pub const STEP_COST_BOUND: u128 = 0x1_0000_0000;

/// A dense row-major cost grid for the plain A* searcher.
pub struct AStarMap {
    pub data: Vec<u32>,
    pub width: u32,
    pub height: u32,
}

impl AStarMap {
    /// Positive dimensions, a dense cell array of matching length, positive
    /// cell costs, and an area leaving `u32` room for a sentinel index.
    pub open spec fn wf(self) -> bool {
        &&& 1 <= self.width
        &&& 1 <= self.height
        &&& self.width * self.height < u32::MAX
        &&& self.data@.len() == self.width * self.height
        &&& forall|i: int| 0 <= i < self.data@.len() ==> 1 <= #[trigger] self.data@[i]
    }

    pub fn new(data: Vec<u32>, width: u32, height: u32) -> (r: AStarMap)
        requires
            1 <= width,
            1 <= height,
            width * height < u32::MAX,
            data@.len() == width * height,
            forall|i: int| 0 <= i < data@.len() ==> 1 <= #[trigger] data@[i],
        ensures
            r.wf(),
            r.data == data,
            r.width == width,
            r.height == height,
    {
        AStarMap { data, width, height }
    }

    /// In-bounds neighbors of `position`, orthogonal and diagonal: exactly
    /// the in-bounds adjacent cells, listed in the fixed enumeration order.
    pub fn get_neighbors(&self, position: (u32, u32)) -> (r: Vec<(u32, u32)>)
        requires
            self.wf(),
            in_bounds(self.width, self.height, position),
        ensures
            r@ == crate::grid::neighbor_seq(self.width, self.height, position),
            forall|i: int|
                0 <= i < r@.len() ==> in_bounds(self.width, self.height, #[trigger] r@[i])
                    && adjacent(position, r@[i]),
            forall|q: (u32, u32)|
                in_bounds(self.width, self.height, q) && adjacent(position, q) ==> r@.contains(q),
    {
        neighbors_of(self.width, self.height, position)
    }

    /// Row-major index of the cell at `(x, y)`.
    pub fn get_index_position(&self, x: u32, y: u32) -> (r: usize)
        requires
            self.wf(),
            in_bounds(self.width, self.height, (x, y)),
        ensures
            r == cell_index(self.width, (x, y)),
    {
        cell_idx(self.width, self.height, (x, y))
    }

    /// Cost of the cell at `pos`.
    pub fn get_cost(&self, pos: (u32, u32)) -> (r: u32)
        requires
            self.wf(),
            in_bounds(self.width, self.height, pos),
        ensures
            r == self.data@[cell_index(self.width, pos)],
    {
        let idx: usize = cell_idx(self.width, self.height, pos);
        self.data[idx]
    }
}

/// The forward A* searcher. One run of `search` fills `visited`, `dist` and
/// `prev` (arenas keyed by row-major cell index); `reconstruct_path` then
/// walks `prev` from the goal back to the start.
pub struct AStarPathfinder {
    pub path: Vec<(u32, u32)>,
    pub prev: Vec<(u32, u32)>,
    pub visited: Vec<bool>,
    pub dist: Vec<u128>,
    pub closed: Vec<bool>,
}

impl AStarPathfinder {
    pub fn new() -> (r: AStarPathfinder)
        ensures
            r.path@.len() == 0,
            r.visited@.len() == 0,
    {
        AStarPathfinder {
            path: Vec::new(),
            prev: Vec::new(),
            visited: Vec::new(),
            dist: Vec::new(),
            closed: Vec::new(),
        }
    }

    /// Positions as signed pairs, for the heuristic.
    pub fn tuple_u32_as_i32(tuple: (u32, u32)) -> (r: (i32, i32))
        requires
            tuple.0 <= i32::MAX,
            tuple.1 <= i32::MAX,
        ensures
            r.0 == tuple.0,
            r.1 == tuple.1,
    {
        (tuple.0 as i32, tuple.1 as i32)
    }

    /// Manhattan distance between `a` and `b`: the heuristic of the search.
    pub fn heuristic(a: (i32, i32), b: (i32, i32)) -> (r: usize)
        requires
            -0x4000_0000 <= a.0 < 0x4000_0000,
            -0x4000_0000 <= a.1 < 0x4000_0000,
            -0x4000_0000 <= b.0 < 0x4000_0000,
            -0x4000_0000 <= b.1 < 0x4000_0000,
        ensures
            r == vstd::math::abs(a.0 - b.0) + vstd::math::abs(a.1 - b.1),
    {
        let dx: i32 = if a.0 >= b.0 {
            a.0 - b.0
        } else {
            b.0 - a.0
        };
        let dy: i32 = if a.1 >= b.1 {
            a.1 - b.1
        } else {
            b.1 - a.1
        };
        (dx as usize) + (dy as usize)
    }

    pub open spec fn visited_at(self, width: u32, p: (u32, u32)) -> bool {
        self.visited@[cell_index(width, p)]
    }

    pub open spec fn dist_at(self, width: u32, p: (u32, u32)) -> u128 {
        self.dist@[cell_index(width, p)]
    }

    pub open spec fn prev_at(self, width: u32, p: (u32, u32)) -> (u32, u32) {
        self.prev@[cell_index(width, p)]
    }

    pub open spec fn closed_at(self, width: u32, p: (u32, u32)) -> bool {
        self.closed@[cell_index(width, p)]
    }

    pub open spec fn arena_wf(self, width: u32, height: u32) -> bool {
        &&& self.prev@.len() == width * height
        &&& self.visited@.len() == width * height
        &&& self.dist@.len() == width * height
        &&& self.closed@.len() == width * height
    }

    /// Every visited cell is passable and reachable from `origin`; its
    /// distance respects the global bound; and every visited cell but the
    /// origin has a back-pointer to an adjacent visited cell of strictly
    /// smaller distance, which makes the reconstruction walk terminate.
    pub open spec fn visited_wf(
        self,
        data: Seq<u32>,
        width: u32,
        height: u32,
        origin: (u32, u32),
    ) -> bool {
        forall|p: (u32, u32)|
            #![trigger self.visited_at(width, p)]
            in_bounds(width, height, p) && self.visited_at(width, p) ==> {
                &&& passable_at(data, width, p)
                &&& reachable(data, width, height, origin, p)
                &&& self.dist_at(width, p) <= count_true(self.visited@) * STEP_COST_BOUND
                &&& (p != origin ==> {
                    let q = self.prev_at(width, p);
                    &&& in_bounds(width, height, q)
                    &&& passable_at(data, width, q)
                    &&& adjacent(q, p)
                    &&& self.visited_at(width, q)
                    &&& self.dist_at(width, q) < self.dist_at(width, p)
                })
            }
    }

    /// Expanded cells are visited.
    pub open spec fn closed_wf(self, width: u32, height: u32) -> bool {
        forall|p: (u32, u32)|
            #![trigger self.closed_at(width, p)]
            in_bounds(width, height, p) && self.closed_at(width, p) ==> self.visited_at(width, p)
    }

    /// The open queue holds exactly the visited, not yet expanded cells.
    pub open spec fn queue_wf(self, queue: OpenSet, width: u32, height: u32) -> bool {
        &&& forall|c: (u32, u32)|
            #[trigger] open_set_entries(queue).dom().contains(c) ==> in_bounds(width, height, c)
                && self.visited_at(width, c) && !self.closed_at(width, c)
        &&& forall|p: (u32, u32)|
            #![trigger self.visited_at(width, p)]
            in_bounds(width, height, p) && self.visited_at(width, p) && !self.closed_at(width, p)
                ==> open_set_entries(queue).dom().contains(p)
    }

    /// Every expanded cell, except possibly `except`, has visited each of
    /// its passable in-bounds neighbors.
    pub open spec fn frontier_wf_except(
        self,
        data: Seq<u32>,
        width: u32,
        height: u32,
        except: Option<(u32, u32)>,
    ) -> bool {
        forall|p: (u32, u32), q: (u32, u32)|
            #![trigger self.closed_at(width, p), self.visited_at(width, q)]
            in_bounds(width, height, p) && self.closed_at(width, p) && except != Some(p)
                && adjacent(p, q) && in_bounds(width, height, q) && passable_at(data, width, q)
                ==> self.visited_at(width, q)
    }

    /// Expands one freshly closed cell: visits every passable in-bounds
    /// neighbor not yet expanded, recording or improving its distance and
    /// back-pointer and pushing it on the open queue.
    #[verifier::loop_isolation(false)]
    #[verifier::rlimit(100)]
    fn expand_cell(
        &mut self,
        open_list: &mut OpenSet,
        map: &AStarMap,
        cur: (u32, u32),
        origin: (u32, u32),
        goal: (u32, u32),
    )
        requires
            map.wf(),
            old(self).arena_wf(map.width, map.height),
            old(self).visited_wf(map.data@, map.width, map.height, origin),
            old(self).closed_wf(map.width, map.height),
            old(self).queue_wf(*old(open_list), map.width, map.height),
            old(self).frontier_wf_except(map.data@, map.width, map.height, Some(cur)),
            in_bounds(map.width, map.height, cur),
            old(self).visited_at(map.width, cur),
            old(self).closed_at(map.width, cur),
        ensures
            final(self).arena_wf(map.width, map.height),
            final(self).visited_wf(map.data@, map.width, map.height, origin),
            final(self).closed_wf(map.width, map.height),
            final(self).queue_wf(*final(open_list), map.width, map.height),
            final(self).frontier_wf_except(map.data@, map.width, map.height, None),
            final(self).closed@ == old(self).closed@,
            final(self).path == old(self).path,
            forall|p: (u32, u32)|
                in_bounds(map.width, map.height, p) && old(self).visited_at(map.width, p) ==> (
                #[trigger] final(self).visited_at(map.width, p)),
    {
        let ghost data = map.data@;
        let width: u32 = map.width;
        let height: u32 = map.height;
        let neigh: Vec<(u32, u32)> = map.get_neighbors(cur);
        let idx_cur: usize = cell_idx(width, height, cur);
        let g_cur: u128 = self.dist[idx_cur];
        let ghost closed_now = self.closed@;
        let mut j: usize = 0;
        while j < neigh.len()
            invariant
                j <= neigh@.len(),
                self.arena_wf(width, height),
                self.visited_wf(data, width, height, origin),
                self.closed_wf(width, height),
                self.queue_wf(*open_list, width, height),
                self.frontier_wf_except(data, width, height, Some(cur)),
                self.closed@ == closed_now,
                self.path == old(self).path,
                self.visited_at(width, cur),
                g_cur == self.dist_at(width, cur),
                forall|jj: int|
                    0 <= jj < j && passable_at(data, width, neigh@[jj])
                        ==> (#[trigger] self.visited_at(width, neigh@[jj])),
                forall|p: (u32, u32)|
                    in_bounds(width, height, p) && old(self).visited_at(width, p) ==> (
                    #[trigger] self.visited_at(width, p)),
            decreases neigh@.len() - j,
        {
            let q: (u32, u32) = neigh[j];
            let idx_q: usize = cell_idx(width, height, q);
            let cost_q: u32 = map.get_cost(q);
            if cost_q != INFINITE_COST {
                proof {
                    lemma_count_true_le(self.visited@);
                    assert(count_true(self.visited@) * STEP_COST_BOUND <= (u32::MAX as int)
                        * STEP_COST_BOUND) by (nonlinear_arith)
                        requires
                            count_true(self.visited@) <= u32::MAX,
                    ;
                }
                let diagonal: bool = cur.0 != q.0 && cur.1 != q.1;
                let step: u32 = step_cost(cost_q, diagonal);
                let tentative: u128 = g_cur + (step as u128);
                let was_visited: bool = self.visited[idx_q];
                let improve: bool = if !was_visited {
                    true
                } else {
                    !self.closed[idx_q] && tentative < self.dist[idx_q]
                };
                if improve {
                    // order the queue by f = g + Manhattan distance to the goal
                    let dxh: u64 = if q.0 >= goal.0 {
                        (q.0 - goal.0) as u64
                    } else {
                        (goal.0 - q.0) as u64
                    };
                    let dyh: u64 = if q.1 >= goal.1 {
                        (q.1 - goal.1) as u64
                    } else {
                        (goal.1 - q.1) as u64
                    };
                    let big: u128 = tentative + (dxh as u128) + (dyh as u128);
                    let priority: u64 = if big > u64::MAX as u128 {
                        u64::MAX
                    } else {
                        big as u64
                    };
                    let ghost pre = *self;
                    let ghost count_pre = count_true(self.visited@);
                    self.visited[idx_q] = true;
                    self.dist[idx_q] = tentative;
                    self.prev[idx_q] = cur;
                    open_set_push(open_list, q, priority);
                    proof {
                        if !was_visited {
                            lemma_count_true_update(pre.visited@, cell_index(width, q));
                        } else {
                            assert(self.visited@ =~= pre.visited@);
                        }
                        assert forall|p: (u32, u32)|
                            #![trigger self.visited_at(width, p)]
                            #![trigger self.dist_at(width, p)]
                            #![trigger self.prev_at(width, p)]
                            #![trigger self.closed_at(width, p)]
                            in_bounds(width, height, p) implies self.closed_at(width, p)
                            == pre.closed_at(width, p) && (p != q ==> self.visited_at(width, p)
                            == pre.visited_at(width, p) && self.dist_at(width, p) == pre.dist_at(
                            width,
                            p,
                        ) && self.prev_at(width, p) == pre.prev_at(width, p)) by {
                            crate::grid::lemma_cell_index_bound(width, height, p);
                            if p != q {
                                lemma_cell_index_distinct(width, height, p, q);
                            }
                        }
                        assert(adjacent(cur, q));
                        lemma_reachable_step(data, width, height, origin, cur, q);
                        assert(count_true(self.visited@) * STEP_COST_BOUND >= count_pre
                            * STEP_COST_BOUND) by (nonlinear_arith)
                            requires
                                count_true(self.visited@) >= count_pre,
                        ;
                        assert(pre.dist_at(width, cur) <= count_pre * STEP_COST_BOUND);
                        assert(self.dist_at(width, q) == tentative);
                        if !was_visited {
                            assert(count_true(self.visited@) == count_pre + 1);
                            assert(count_pre * STEP_COST_BOUND + STEP_COST_BOUND == (count_pre
                                + 1) * STEP_COST_BOUND) by (nonlinear_arith);
                            assert(tentative <= count_true(self.visited@) * STEP_COST_BOUND);
                        } else {
                            assert(pre.visited_at(width, q));
                            assert(tentative < pre.dist_at(width, q));
                            assert(pre.dist_at(width, q) <= count_pre * STEP_COST_BOUND);
                            assert(count_true(self.visited@) == count_pre);
                            assert(tentative <= count_true(self.visited@) * STEP_COST_BOUND);
                        }
                        assert(self.visited_wf(data, width, height, origin));
                        assert(self.closed_wf(width, height));
                        assert(self.queue_wf(*open_list, width, height));
                        assert(self.frontier_wf_except(data, width, height, Some(cur)));
                    }
                }
            }
            j = j + 1;
        }
        proof {
            assert forall|p2: (u32, u32), q2: (u32, u32)|
                in_bounds(width, height, p2) && #[trigger] self.closed_at(width, p2) && adjacent(
                    p2,
                    q2,
                ) && in_bounds(width, height, q2) && passable_at(data, width, q2) implies (
            #[trigger] self.visited_at(width, q2)) by {
                if p2 == cur {
                    assert(neigh@.contains(q2));
                    let jj = choose|jj: int| 0 <= jj < neigh@.len() && neigh@[jj] == q2;
                    assert(self.visited_at(width, neigh@[jj]));
                }
            }
        }
    }

    /// Runs A* from `start` toward `goal`, filling the arenas. Returns the
    /// goal cell's row-major index when the goal was reached, `u32::MAX`
    /// exactly when the goal is unreachable from `start`.
    #[verifier::loop_isolation(false)]
    #[verifier::rlimit(100)]
    pub fn search(&mut self, start: (u32, u32), goal: (u32, u32), map: &AStarMap) -> (r: u32)
        requires
            map.wf(),
            in_bounds(map.width, map.height, start),
            in_bounds(map.width, map.height, goal),
        ensures
            final(self).search_result_wf(map.data@, map.width, map.height, start),
            (r != u32::MAX) == reachable(map.data@, map.width, map.height, start, goal),
            r != u32::MAX ==> r == cell_index(map.width, goal) && final(self).visited_at(
                map.width,
                goal,
            ),
            final(self).path == old(self).path,
    {
        let ghost data = map.data@;
        let width: u32 = map.width;
        let height: u32 = map.height;
        let area: usize = map.data.len();
        self.prev = vec![(0u32, 0u32); area];
        self.visited = vec![false; area];
        self.dist = vec![0u128; area];
        self.closed = vec![false; area];
        proof {
            assert(self.visited@ =~= Seq::new(area as nat, |i: int| false));
            assert(self.closed@ =~= Seq::new(area as nat, |i: int| false));
            assert(width * height >= 1) by (nonlinear_arith)
                requires
                    width >= 1,
                    height >= 1,
            ;
        }
        let mut open_list: OpenSet = open_set_new();
        // a walled start reaches nothing, not even itself
        if map.get_cost(start) == INFINITE_COST {
            proof {
                assert forall|p: (u32, u32)|
                    in_bounds(width, height, p) implies !(#[trigger] self.visited_at(
                    width,
                    p,
                )) by {
                    crate::grid::lemma_cell_index_bound(width, height, p);
                }
                if reachable(data, width, height, start, goal) {
                    let path = choose|path: Seq<(u32, u32)>|
                        #[trigger] crate::grid::path_ok(data, width, height, path) && path.first()
                            == start && path.last() == goal;
                    assert(passable_at(data, width, path[0]));
                }
            }
            return u32::MAX;
        }
        let idx_start: usize = cell_idx(width, height, start);
        let ghost visited_blank = self.visited@;
        self.visited[idx_start] = true;
        self.dist[idx_start] = 0;
        open_set_push(&mut open_list, start, 0);
        proof {
            lemma_count_true_update(visited_blank, cell_index(width, start));
            lemma_reachable_self(data, width, height, start);
            assert forall|p: (u32, u32)| in_bounds(width, height, p) && p != start implies !(
            #[trigger] self.visited_at(width, p)) && !self.closed_at(width, p) by {
                crate::grid::lemma_cell_index_bound(width, height, p);
                lemma_cell_index_distinct(width, height, p, start);
            }
            assert(self.visited_wf(data, width, height, start));
            assert(self.queue_wf(open_list, width, height));
        }
        let mut result: u32 = u32::MAX;
        let mut done: bool = false;
        while !done
            invariant
                self.arena_wf(width, height),
                self.visited_wf(data, width, height, start),
                self.closed_wf(width, height),
                self.queue_wf(open_list, width, height),
                self.frontier_wf_except(data, width, height, None),
                self.visited_at(width, start),
                self.path == old(self).path,
                result != u32::MAX ==> result == cell_index(width, goal) && self.visited_at(
                    width,
                    goal,
                ) && done,
                self.closed_at(width, goal) ==> result != u32::MAX,
                done ==> (open_set_entries(open_list).dom() =~= Set::<(u32, u32)>::empty()
                    || result != u32::MAX),
            decreases (width * height) as int - count_true(self.closed@), if done {
                0int
            } else {
                1int
            },
        {
            proof {
                lemma_count_true_le(self.closed@);
            }
            let ghost pre_self = *self;
            let ghost entries_pre = open_set_entries(open_list);
            let popped: Option<((u32, u32), u64)> = open_set_pop(&mut open_list);
            match popped {
                None => {
                    done = true;
                },
                Some((cur, _prio)) => {
                    proof {
                        assert(entries_pre.dom().contains(cur));
                        assert(in_bounds(width, height, cur));
                        assert(pre_self.visited_at(width, cur));
                        assert(!pre_self.closed_at(width, cur));
                        assert(open_set_entries(open_list) == entries_pre.remove(cur));
                    }
                    let idx_cur: usize = cell_idx(width, height, cur);
                    self.closed[idx_cur] = true;
                    proof {
                        lemma_count_true_update(pre_self.closed@, cell_index(width, cur));
                        lemma_count_true_le(self.closed@);
                        assert forall|p: (u32, u32)|
                            #![trigger self.visited_at(width, p)]
                            #![trigger self.dist_at(width, p)]
                            #![trigger self.prev_at(width, p)]
                            #![trigger self.closed_at(width, p)]
                            in_bounds(width, height, p) implies self.visited_at(width, p)
                            == pre_self.visited_at(width, p) && self.dist_at(width, p)
                            == pre_self.dist_at(width, p) && self.prev_at(width, p)
                            == pre_self.prev_at(width, p) && (p != cur ==> self.closed_at(width, p)
                            == pre_self.closed_at(width, p)) by {
                            crate::grid::lemma_cell_index_bound(width, height, p);
                            if p != cur {
                                lemma_cell_index_distinct(width, height, p, cur);
                            }
                        }
                        assert(self.visited_wf(data, width, height, start));
                        assert(self.closed_wf(width, height));
                        assert forall|c: (u32, u32)| #[trigger] open_set_entries(
                            open_list,
                        ).dom().contains(c) implies in_bounds(width, height, c) && self.visited_at(
                            width,
                            c,
                        ) && !self.closed_at(width, c) by {
                            assert(entries_pre.dom().contains(c));
                            assert(c != cur);
                        }
                        assert forall|p: (u32, u32)|
                            in_bounds(width, height, p) && #[trigger] self.visited_at(width, p)
                                && !self.closed_at(width, p) implies open_set_entries(
                            open_list,
                        ).dom().contains(p) by {
                            assert(p != cur);
                            assert(pre_self.visited_at(width, p));
                            assert(!pre_self.closed_at(width, p));
                            assert(entries_pre.dom().contains(p));
                        }
                        assert(self.queue_wf(open_list, width, height));
                        assert(self.frontier_wf_except(data, width, height, Some(cur)));
                    }
                    self.expand_cell(&mut open_list, map, cur, start, goal);
                    proof {
                        if !(cur.0 == goal.0 && cur.1 == goal.1) {
                            assert(self.closed_at(width, goal) == pre_self.closed_at(
                                width,
                                goal,
                            )) by {
                                crate::grid::lemma_cell_index_bound(width, height, goal);
                                lemma_cell_index_distinct(width, height, goal, cur);
                            }
                        }
                    }
                    if cur.0 == goal.0 && cur.1 == goal.1 {
                        result = idx_cur as u32;
                        done = true;
                    }
                },
            }
        }
        proof {
            if result == u32::MAX && reachable(data, width, height, start, goal) {
                assert(!self.closed_at(width, goal));
                assert(open_set_entries(open_list).dom() =~= Set::<(u32, u32)>::empty());
                let s = Set::new(
                    |p: (u32, u32)| in_bounds(width, height, p) && self.visited_at(width, p),
                );
                assert(s.contains(start));
                assert forall|p: (u32, u32), q: (u32, u32)|
                    s.contains(p) && adjacent(p, q) && in_bounds(width, height, q) && passable_at(
                        data,
                        width,
                        q,
                    ) implies s.contains(q) by {
                    assert(self.visited_at(width, p));
                    if !self.closed_at(width, p) {
                        assert(open_set_entries(open_list).dom().contains(p));
                        assert(false);
                    }
                    assert(self.visited_at(width, q));
                }
                lemma_reachable_in_closed_set(data, width, height, s, start, goal);
                assert(self.visited_at(width, goal));
                assert(false);
            }
        }
        result
    }

    /// Finds a path from `start` to `goal` and returns it goal-first: the
    /// walk follows the back-pointers the search recorded, so the path can
    /// be consumed chronologically by popping from the end. The result is
    /// empty exactly when the goal is unreachable from the start.
    #[verifier::loop_isolation(false)]
    #[verifier::rlimit(100)]
    pub fn reconstruct_path(&mut self, start: (u32, u32), goal: (u32, u32), map: &AStarMap) -> (r:
        Vec<(u32, u32)>)
        requires
            map.wf(),
            in_bounds(map.width, map.height, start),
            in_bounds(map.width, map.height, goal),
        ensures
            (r@.len() > 0) == reachable(map.data@, map.width, map.height, start, goal),
            r@.len() > 0 ==> ({
                &&& r@.first() == goal
                &&& r@.last() == start
                &&& (forall|i: int|
                    0 <= i < r@.len() ==> in_bounds(map.width, map.height, #[trigger] r@[i])
                        && passable_at(map.data@, map.width, r@[i]))
                &&& (forall|i: int| 0 < i < r@.len() ==> adjacent(r@[i - 1], #[trigger] r@[i]))
            }),
    {
        let ghost data = map.data@;
        let width: u32 = map.width;
        let height: u32 = map.height;
        if map.get_cost(goal) == INFINITE_COST {
            proof {
                if reachable(data, width, height, start, goal) {
                    let path = choose|path: Seq<(u32, u32)>|
                        #[trigger] crate::grid::path_ok(data, width, height, path) && path.first()
                            == start && path.last() == goal;
                    assert(passable_at(data, width, path[path.len() - 1]));
                }
            }
            return Vec::new();
        }
        let found: u32 = self.search(start, goal, map);
        if found == u32::MAX {
            return Vec::new();
        }
        let mut path: Vec<(u32, u32)> = Vec::new();
        let mut i: (u32, u32) = goal;
        path.push(i);
        while !(i.0 == start.0 && i.1 == start.1)
            invariant
                in_bounds(width, height, i),
                self.visited_at(width, i),
                path@.len() >= 1,
                path@.first() == goal,
                path@.last() == i,
                forall|k: int|
                    0 <= k < path@.len() ==> in_bounds(width, height, #[trigger] path@[k])
                        && passable_at(data, width, path@[k]),
                forall|k: int| 0 < k < path@.len() ==> adjacent(path@[k - 1], #[trigger] path@[k]),
            decreases self.dist_at(width, i),
        {
            let idx_i: usize = cell_idx(width, height, i);
            let prev_i: (u32, u32) = self.prev[idx_i];
            proof {
                assert(self.visited_at(width, i));
                assert(i != start);
                assert(prev_i == self.prev_at(width, i));
                assert(self.dist_at(width, prev_i) < self.dist_at(width, i));
            }
            path.push(prev_i);
            i = prev_i;
        }
        path
    }

    /// The state one run of `search` leaves behind, relative to the grid and
    /// the start cell it ran from.
    pub open spec fn search_result_wf(
        self,
        data: Seq<u32>,
        width: u32,
        height: u32,
        origin: (u32, u32),
    ) -> bool {
        &&& self.arena_wf(width, height)
        &&& self.visited_wf(data, width, height, origin)
    }
}

/// An agent of the plain A* demo: identity, endpoints, and the path most
/// recently found for it.
pub struct Agent {
    pub id: u32,
    pub name: String,
    pub path: Vec<(u32, u32)>,
    pub start_node: (u32, u32),
    pub end_node: (u32, u32),
    pub current_node: (u32, u32),
}

impl Agent {
    pub fn new(id: u32, name: &str, start_node: (u32, u32), end_node: (u32, u32)) -> (r: Agent)
        ensures
            r.id == id,
            r.name@ == name@,
            r.start_node == start_node,
            r.end_node == end_node,
            r.current_node == start_node,
            r.path@.len() == 0,
    {
        Agent {
            id,
            name: name.to_owned(),
            path: Vec::new(),
            start_node,
            end_node,
            current_node: start_node,
        }
    }

    /// Finds a path from this agent's start to its goal, goal-first, ready
    /// to be consumed by popping from the end. Empty exactly when the goal
    /// is unreachable.
    pub fn astar_search(&mut self, map: &AStarMap) -> (r: Vec<(u32, u32)>)
        requires
            map.wf(),
            in_bounds(map.width, map.height, old(self).start_node),
            in_bounds(map.width, map.height, old(self).end_node),
        ensures
            *final(self) == *old(self),
            (r@.len() > 0) == reachable(
                map.data@,
                map.width,
                map.height,
                old(self).start_node,
                old(self).end_node,
            ),
            r@.len() > 0 ==> ({
                &&& r@.first() == old(self).end_node
                &&& r@.last() == old(self).start_node
                &&& (forall|i: int|
                    0 <= i < r@.len() ==> in_bounds(map.width, map.height, #[trigger] r@[i])
                        && passable_at(map.data@, map.width, r@[i]))
                &&& (forall|i: int| 0 < i < r@.len() ==> adjacent(r@[i - 1], #[trigger] r@[i]))
            }),
    {
        let mut pathfinder = AStarPathfinder::new();
        pathfinder.reconstruct_path(self.start_node, self.end_node, map)
    }
}

} // verus!
