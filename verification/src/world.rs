//! The shared world of the cooperative planner: the cost grid, the
//! time-indexed reservation table scoped to one planning window, and the
//! registry of agents.

use vstd::prelude::*;

use crate::agent::Agent;
use crate::grid::INFINITE_COST;
use crate::grid::adjacent;
use crate::grid::cell_index;
use crate::grid::in_bounds;
use crate::grid::lemma_cell_index_bound;
use crate::grid::manhattan;
use crate::grid::passable_at;

verus! {

/// Number of time steps planned and reserved ahead in one window.
pub const WINDOW_SIZE: u32 = 16;

/// A search node: a grid cell with its cost-so-far (`g_score`) and its
/// estimated total cost (`f_score`). Its identity is its position alone:
/// equality ignores the score fields, so scores can be updated in place
/// without changing which node a value denotes.
#[derive(Clone, Copy, Debug)]
pub struct Node {
    pub pos: (u32, u32),
    pub g_score: u32,
    pub f_score: u32,
}

impl PartialEq for Node {
    fn eq(&self, other: &Node) -> (r: bool) {
        self.pos.0 == other.pos.0 && self.pos.1 == other.pos.1
    }
}

impl vstd::std_specs::cmp::PartialEqSpecImpl for Node {
    open spec fn obeys_eq_spec() -> bool {
        true
    }

    open spec fn eq_spec(&self, other: &Node) -> bool {
        self.pos == other.pos
    }
}

impl From<(u32, u32, u32)> for Node {
    fn from(item: (u32, u32, u32)) -> (r: Node) {
        Node { pos: (item.0, item.1), g_score: item.2, f_score: 0 }
    }
}

impl vstd::std_specs::convert::FromSpecImpl<(u32, u32, u32)> for Node {
    open spec fn obeys_from_spec() -> bool {
        true
    }

    open spec fn from_spec(item: (u32, u32, u32)) -> Node {
        Node { pos: (item.0, item.1), g_score: item.2, f_score: 0 }
    }
}

impl Default for Node {
    fn default() -> (r: Node)
        ensures
            r.pos == (0u32, 0u32),
            r.g_score == 0,
            r.f_score == 0,
    {
        Node { pos: (0, 0), g_score: 0, f_score: 0 }
    }
}

/// One slot of the reservation table: for each cell, the id of the agent
/// that holds the cell at that time offset, if any. Keeping one owner per
/// cell in a dense array makes double occupancy unrepresentable.
pub type ReservationSlot = Vec<Option<u32>>;

/// The world: a dense row-major cost grid, the reservation table of the
/// current planning window, and the agent registry.
pub struct WorldMap {
    pub data: Vec<u32>,
    pub width: u32,
    pub height: u32,
    pub space_time_map: Vec<ReservationSlot>,
    pub agents: Vec<Agent>,
}

impl WorldMap {
    /// The grid has positive dimensions, a dense cell array of matching
    /// length, and only positive cell costs; its area leaves the index
    /// space of `u32` room for a sentinel.
    pub open spec fn wf_grid(self) -> bool {
        &&& 1 <= self.width
        &&& 1 <= self.height
        &&& self.width * self.height < u32::MAX
        &&& self.data@.len() == self.width * self.height
        &&& forall|i: int| 0 <= i < self.data@.len() ==> 1 <= #[trigger] self.data@[i]
    }

    /// The reservation table has one slot per window step, each slot one
    /// owner cell per grid cell.
    pub open spec fn wf_reservations(self) -> bool {
        &&& self.space_time_map@.len() == WINDOW_SIZE
        &&& forall|t: int|
            0 <= t < self.space_time_map@.len() ==> (#[trigger] self.space_time_map@[t])@.len()
                == self.width * self.height
    }

    pub open spec fn wf(self) -> bool {
        &&& self.wf_grid()
        &&& self.wf_reservations()
    }

    /// Every registered agent's search state fits this grid.
    pub open spec fn agents_wf(self) -> bool {
        forall|k: int|
            0 <= k < self.agents@.len() ==> (#[trigger] self.agents@[k]).search_wf(
                self.data@,
                self.width,
                self.height,
            )
    }

    /// The registry is keyed by agent id: no two entries share one. Without
    /// this, two agents with one id would be invisible to each other's
    /// conflict checks.
    pub open spec fn ids_unique(self) -> bool {
        forall|i: int, j: int|
            0 <= i < j < self.agents@.len() ==> (#[trigger] self.agents@[i]).id != (
            #[trigger] self.agents@[j]).id
    }

    /// The agent an owner id in `slot` assigns to cell `p`.
    pub open spec fn reserved_by(self, t: int, p: (u32, u32)) -> Option<u32> {
        self.space_time_map@[t]@[cell_index(self.width, p)]
    }

    pub fn new(data: Vec<u32>, width: u32, height: u32) -> (r: WorldMap)
        requires
            1 <= width,
            1 <= height,
            width * height < u32::MAX,
            data@.len() == width * height,
            forall|i: int| 0 <= i < data@.len() ==> 1 <= #[trigger] data@[i],
        ensures
            r.wf(),
            r.data == data,
            r.width == width,
            r.height == height,
            r.agents@.len() == 0,
            r.ids_unique(),
            forall|t: int, p: (u32, u32)|
                0 <= t < WINDOW_SIZE && in_bounds(width, height, p) ==> #[trigger] r.reserved_by(
                    t,
                    p,
                ) is None,
    {
        let area: usize = data.len();
        let mut space_time_map: Vec<ReservationSlot> = Vec::new();
        let mut t: u32 = 0;
        while t < WINDOW_SIZE
            invariant
                t <= WINDOW_SIZE,
                space_time_map@.len() == t,
                forall|k: int|
                    0 <= k < t ==> (#[trigger] space_time_map@[k])@ == Seq::new(
                        area as nat,
                        |i: int| None::<u32>,
                    ),
            decreases WINDOW_SIZE - t,
        {
            let slot: ReservationSlot = vec![None; area];
            proof {
                assert(slot@ =~= Seq::new(area as nat, |i: int| None::<u32>));
            }
            space_time_map.push(slot);
            t = t + 1;
        }
        let r = WorldMap { data, width, height, space_time_map, agents: Vec::new() };
        proof {
            assert forall|t2: int, p: (u32, u32)|
                0 <= t2 < WINDOW_SIZE && in_bounds(width, height, p) implies #[trigger] r.reserved_by(
                t2,
                p,
            ) is None by {
                lemma_cell_index_bound(width, height, p);
            }
        }
        r
    }

    /// Cost of the cell at `pos`.
    pub fn get_cost(&self, pos: (u32, u32)) -> (r: u32)
        requires
            self.wf_grid(),
            in_bounds(self.width, self.height, pos),
        ensures
            r == self.data@[cell_index(self.width, pos)],
    {
        proof {
            lemma_cell_index_bound(self.width, self.height, pos);
        }
        let idx: usize = (pos.1 as usize) * (self.width as usize) + (pos.0 as usize);
        self.data[idx]
    }

    /// Cost of the cell at `(x, y)`.
    pub fn get(&self, x: u32, y: u32) -> (r: u32)
        requires
            self.wf_grid(),
            in_bounds(self.width, self.height, (x, y)),
        ensures
            r == self.data@[cell_index(self.width, (x, y))],
    {
        self.get_cost((x, y))
    }

    /// In-bounds neighbors of the node's cell, orthogonal and diagonal:
    /// exactly the in-bounds adjacent cells, listed in the fixed
    /// enumeration order.
    pub fn get_neighbors(&self, position: Node) -> (r: Vec<(u32, u32)>)
        requires
            self.wf_grid(),
            in_bounds(self.width, self.height, position.pos),
        ensures
            r@ == crate::grid::neighbor_seq(self.width, self.height, position.pos),
            forall|i: int|
                0 <= i < r@.len() ==> in_bounds(self.width, self.height, #[trigger] r@[i])
                    && adjacent(position.pos, r@[i]),
            forall|q: (u32, u32)|
                in_bounds(self.width, self.height, q) && adjacent(position.pos, q)
                    ==> r@.contains(q),
    {
        crate::grid::neighbors_of(self.width, self.height, position.pos)
    }

    /// The node's cell is a wall.
    pub fn is_obstacle(&self, node: Node) -> (r: bool)
        requires
            self.wf_grid(),
            in_bounds(self.width, self.height, node.pos),
        ensures
            r == !passable_at(self.data@, self.width, node.pos),
    {
        self.get_cost(node.pos) == INFINITE_COST
    }

    /// Registers an agent, before any of its searches have run. The
    /// registry is keyed by id: an agent whose id is already present
    /// replaces that entry; a new id is appended.
    #[verifier::loop_isolation(false)]
    pub fn set_agent(&mut self, agent: Agent)
        requires
            agent.search_is_fresh(),
            old(self).ids_unique(),
        ensures
            final(self).data == old(self).data,
            final(self).width == old(self).width,
            final(self).height == old(self).height,
            final(self).space_time_map == old(self).space_time_map,
            (forall|k: int|
                0 <= k < old(self).agents@.len() ==> (#[trigger] old(self).agents@[k]).id
                    != agent.id) ==> final(self).agents@ == old(self).agents@.push(agent),
            forall|k: int|
                0 <= k < old(self).agents@.len() && (#[trigger] old(self).agents@[k]).id
                    == agent.id ==> final(self).agents@ == old(self).agents@.update(k, agent),
            final(self).ids_unique(),
            old(self).agents_wf() ==> final(self).agents_wf(),
    {
        let n: usize = self.agents.len();
        let mut k: usize = 0;
        while k < n
            invariant
                k <= n,
                *self == *old(self),
                forall|j: int| 0 <= j < k ==> (#[trigger] self.agents@[j]).id != agent.id,
            decreases n - k,
        {
            if self.agents[k].id == agent.id {
                let ghost agents_pre = self.agents@;
                self.agents.remove(k);
                self.agents.insert(k, agent);
                proof {
                    assert(self.agents@ =~= agents_pre.update(k as int, agent));
                }
                return ;
            }
            k = k + 1;
        }
        self.agents.push(agent);
    }

    /// Manhattan distance between two nodes' cells, saturating at `u32::MAX`.
    pub fn manhattan_distance(a: Node, b: Node) -> (r: u32)
        ensures
            r == if manhattan(a.pos, b.pos) <= u32::MAX {
                manhattan(a.pos, b.pos)
            } else {
                u32::MAX as int
            },
    {
        let dx: u64 = if a.pos.0 >= b.pos.0 {
            (a.pos.0 - b.pos.0) as u64
        } else {
            (b.pos.0 - a.pos.0) as u64
        };
        let dy: u64 = if a.pos.1 >= b.pos.1 {
            (a.pos.1 - b.pos.1) as u64
        } else {
            (b.pos.1 - a.pos.1) as u64
        };
        let sum: u64 = dx + dy;
        if sum > u32::MAX as u64 {
            u32::MAX
        } else {
            sum as u32
        }
    }

    /// The owner recorded for cell `pos` at window offset `t`, if any.
    pub fn reservation_at(&self, t: u32, pos: (u32, u32)) -> (r: Option<u32>)
        requires
            self.wf(),
            t < WINDOW_SIZE,
            in_bounds(self.width, self.height, pos),
        ensures
            r == self.reserved_by(t as int, pos),
    {
        proof {
            lemma_cell_index_bound(self.width, self.height, pos);
        }
        let idx: usize = (pos.1 as usize) * (self.width as usize) + (pos.0 as usize);
        self.space_time_map[t as usize][idx]
    }

    /// Records `id` as the owner of cell `pos` at window offset `t`,
    /// replacing any previous owner of that cell at that offset.
    pub fn reserve(&mut self, t: u32, pos: (u32, u32), id: u32)
        requires
            old(self).wf(),
            t < WINDOW_SIZE,
            in_bounds(old(self).width, old(self).height, pos),
        ensures
            final(self).wf(),
            final(self).data == old(self).data,
            final(self).width == old(self).width,
            final(self).height == old(self).height,
            final(self).agents == old(self).agents,
            final(self).reserved_by(t as int, pos) == Some(id),
            forall|t2: int, p2: (u32, u32)|
                0 <= t2 < WINDOW_SIZE && in_bounds(old(self).width, old(self).height, p2) && !(t2
                    == t && p2 == pos) ==> final(self).reserved_by(t2, p2) == old(
                    self,
                ).reserved_by(t2, p2),
    {
        proof {
            lemma_cell_index_bound(self.width, self.height, pos);
        }
        let idx: usize = (pos.1 as usize) * (self.width as usize) + (pos.0 as usize);
        let slot: &mut ReservationSlot = &mut self.space_time_map[t as usize];
        slot[idx] = Some(id);
        proof {
            assert forall|t2: int, p2: (u32, u32)|
                0 <= t2 < WINDOW_SIZE && in_bounds(final(self).width, final(self).height, p2) && !(
                t2 == t && p2 == pos) implies final(self).reserved_by(t2, p2) == old(
                self,
            ).reserved_by(t2, p2) by {
                lemma_cell_index_bound(final(self).width, final(self).height, p2);
                if t2 == t && cell_index(final(self).width, p2) == cell_index(
                    final(self).width,
                    pos,
                ) {
                    crate::grid::lemma_cell_index_injective(
                        final(self).width,
                        final(self).height,
                        p2,
                        pos,
                    );
                }
            }
        }
    }

    /// Empties every slot of the reservation table, as happens at the start
    /// of each planning window.
    pub fn clear_reservations(&mut self)
        requires
            old(self).wf(),
        ensures
            final(self).wf(),
            final(self).data == old(self).data,
            final(self).width == old(self).width,
            final(self).height == old(self).height,
            final(self).agents == old(self).agents,
            forall|t: int, p: (u32, u32)|
                0 <= t < WINDOW_SIZE && in_bounds(final(self).width, final(self).height, p)
                    ==> #[trigger] final(self).reserved_by(t, p) is None,
    {
        let area: usize = self.data.len();
        let mut space_time_map: Vec<ReservationSlot> = Vec::new();
        let mut t: u32 = 0;
        while t < WINDOW_SIZE
            invariant
                t <= WINDOW_SIZE,
                space_time_map@.len() == t,
                forall|k: int|
                    0 <= k < t ==> (#[trigger] space_time_map@[k])@ == Seq::new(
                        area as nat,
                        |i: int| None::<u32>,
                    ),
            decreases WINDOW_SIZE - t,
        {
            let slot: ReservationSlot = vec![None; area];
            proof {
                assert(slot@ =~= Seq::new(area as nat, |i: int| None::<u32>));
            }
            space_time_map.push(slot);
            t = t + 1;
        }
        self.space_time_map = space_time_map;
        proof {
            assert forall|t2: int, p: (u32, u32)|
                0 <= t2 < WINDOW_SIZE && in_bounds(self.width, self.height, p) implies
                #[trigger] self.reserved_by(t2, p) is None by {
                lemma_cell_index_bound(self.width, self.height, p);
            }
        }
    }

    /// One planning tick, the operation the external driver calls once per
    /// accepted input: every agent whose window buffer is exhausted first
    /// resumes its reverse search and plans a fresh window against the
    /// reservation table (which is cleared when all buffers are empty, a
    /// window boundary); then each agent pops one step from its buffer into
    /// its current position. Agents are planned in registry order, which
    /// gives earlier agents reservation priority. Returns how many agents
    /// received a step; an agent whose buffer stays empty (an unreachable
    /// goal, or a position off the grid or on a wall) is skipped rather
    /// than failed.
    #[verifier::loop_isolation(false)]
    #[verifier::rlimit(100)]
    pub fn advance(&mut self) -> (stepped: usize)
        requires
            old(self).wf(),
            old(self).agents_wf(),
        ensures
            final(self).wf(),
            final(self).agents_wf(),
            final(self).width == old(self).width,
            final(self).height == old(self).height,
            final(self).agents@.len() == old(self).agents@.len(),
            final(self).data@.len() == old(self).data@.len(),
            stepped <= final(self).agents@.len(),
            forall|p: (u32, u32)|
                in_bounds(old(self).width, old(self).height, p) ==> (#[trigger] passable_at(
                    final(self).data@,
                    old(self).width,
                    p,
                ) <==> passable_at(old(self).data@, old(self).width, p)),
            forall|k: int|
                0 <= k < old(self).agents@.len() ==> agent_ticked(
                    old(self).agents@[k],
                    #[trigger] final(self).agents@[k],
                    final(self).data@,
                    old(self).width,
                    old(self).height,
                ),
            forall|k: int|
                0 <= k < old(self).agents@.len() && replan_owed(
                    old(self).data@,
                    old(self).width,
                    old(self).height,
                    old(self).agents@[k],
                ) ==> (#[trigger] final(self).agents@[k]).portion_path@.len() + 1 == WINDOW_SIZE,
            stepped == count_stepped(
                old(self).agents@,
                final(self).agents@,
                old(self).agents@.len() as int,
            ),
            old(self).ids_unique() ==> final(self).ids_unique(),
            (forall|k: int|
                0 <= k < old(self).agents@.len() ==> (#[trigger] old(
                    self,
                ).agents@[k]).portion_path@.len() == 0) ==> forall|t: int, p: (u32, u32)|
                0 <= t < WINDOW_SIZE && in_bounds(old(self).width, old(self).height, p) && (
                #[trigger] final(self).reserved_by(t, p)) is Some ==> exists|k: int|
                0 <= k < final(self).agents@.len() && final(self).reserved_by(t, p) == Some(
                    (#[trigger] final(self).agents@[k]).id,
                ),
    {
        let width: u32 = self.width;
        let height: u32 = self.height;
        proof {
            assert(width * height >= 1) by (nonlinear_arith)
                requires
                    width >= 1,
                    height >= 1,
            ;
        }
        let n: usize = self.agents.len();
        let mut all_empty: bool = true;
        let mut k: usize = 0;
        while k < n
            invariant
                k <= n,
                n == self.agents@.len(),
                all_empty == (forall|l: int|
                    0 <= l < k ==> (#[trigger] self.agents@[l]).portion_path@.len() == 0),
            decreases n - k,
        {
            if self.agents[k].portion_path.len() > 0 {
                all_empty = false;
            }
            k = k + 1;
        }
        if all_empty {
            // window boundary: the table holds only reservations of the
            // window that just ended
            self.clear_reservations();
        }
        let ghost agents0 = old(self).agents@;
        let mut stepped: usize = 0;
        let mut k2: usize = 0;
        while k2 < n
            invariant
                k2 <= n,
                stepped <= k2,
                self.wf(),
                self.agents_wf(),
                self.width == width,
                self.height == height,
                self.agents@.len() == n,
                self.data@.len() == old(self).data@.len(),
                forall|p: (u32, u32)|
                    in_bounds(width, height, p) ==> (#[trigger] passable_at(self.data@, width, p)
                        <==> passable_at(old(self).data@, width, p)),
                forall|l: int|
                    0 <= l < k2 ==> agent_ticked(
                        agents0[l],
                        #[trigger] self.agents@[l],
                        self.data@,
                        width,
                        height,
                    ),
                forall|l: int|
                    0 <= l < k2 && replan_owed(old(self).data@, width, height, agents0[l]) ==> (
                    #[trigger] self.agents@[l]).portion_path@.len() + 1 == WINDOW_SIZE,
                all_empty ==> forall|t: int, p: (u32, u32)|
                    0 <= t < WINDOW_SIZE && in_bounds(width, height, p) && (
                    #[trigger] self.reserved_by(t, p)) is Some ==> exists|l: int|
                    0 <= l < k2 && self.reserved_by(t, p) == Some((#[trigger] agents0[l]).id),
                forall|l: int| k2 <= l < n ==> #[trigger] self.agents@[l] == agents0[l],
                stepped == count_stepped(agents0, self.agents@, k2 as int),
            decreases n - k2,
        {
            let ghost pre_iter = *self;
            let ghost agent0 = agents0[k2 as int];
            let mut agent: Agent = self.agents.remove(k2);
            proof {
                assert(agent == agent0);
            }
            proof {
                assert(agent.search_wf(self.data@, width, height));
                assert forall|j: int|
                    0 <= j < self.agents@.len() implies (#[trigger] self.agents@[j]).search_wf(
                    self.data@,
                    width,
                    height,
                ) by {
                    if j < k2 {
                        assert(self.agents@[j] == pre_iter.agents@[j]);
                    } else {
                        assert(self.agents@[j] == pre_iter.agents@[j + 1]);
                    }
                }
            }
            let ghost data_before = self.data@;
            let ghost mut map_planned = *self;
            let ghost owed = replan_owed(old(self).data@, width, height, agent0);
            proof {
                if owed {
                    // the duty is stated over the grid the tick began with;
                    // the walls have not moved since
                    assert(passable_at(self.data@, width, agent0.current_node.pos));
                    assert(passable_at(self.data@, width, agent0.goal.pos));
                    if agent0.current_node.pos != agent0.goal.pos {
                        crate::grid::lemma_reachable_same_mask(
                            old(self).data@,
                            self.data@,
                            width,
                            height,
                            agent0.goal.pos,
                            agent0.current_node.pos,
                        );
                    }
                }
            }
            if agent.portion_path.len() == 0 {
                let cpos: (u32, u32) = agent.current_node.pos;
                let gpos: (u32, u32) = agent.goal.pos;
                let mut ready: bool = cpos.0 < width && cpos.1 < height && gpos.0 < width
                    && gpos.1 < height;
                if ready {
                    ready = self.get_cost(cpos) != INFINITE_COST;
                }
                if ready {
                    let s_node = agent.get_start();
                    let g_node = agent.get_goal();
                    let refreshed: bool = agent.get_true_distance_heuristic(self, s_node, g_node);
                    proof {
                        if owed && agent0.current_node.pos != agent0.goal.pos {
                            // the refresh accepted both endpoints and, since
                            // the goal reaches the agent's cell, must have
                            // costed that cell before stopping
                            assert(refreshed);
                            assert(agent.search_state_wf(self.data@, width, height));
                            if agent.entry(width, agent0.current_node.pos) is None {
                                assert(false);
                            }
                            assert(agent.came(width, agent0.current_node.pos) is Some);
                        }
                    }
                    agent.set_portion_path(self);
                    proof {
                        map_planned = *self;
                        if owed {
                            assert(agent.portion_path@.len() == WINDOW_SIZE);
                        }
                    }
                }
                proof {
                    if owed {
                        assert(agent.portion_path@.len() == WINDOW_SIZE);
                    }
                }
            }
            proof {
                // the parking write, if any, kept every wall where it was,
                // so the other agents' search state still fits the grid
                assert forall|j: int|
                    0 <= j < self.agents@.len() implies (#[trigger] self.agents@[j]).search_wf(
                    self.data@,
                    width,
                    height,
                ) by {
                    self.agents@[j].lemma_search_wf_mask_transfer(
                        data_before,
                        self.data@,
                        width,
                        height,
                    );
                }
            }
            let ghost agent_planned = agent;
            proof {
                assert(agent_planned.search_wf(self.data@, width, height));
            }
            let ghost buffer_full = agent.portion_path@;
            match agent.portion_path.pop() {
                Some(step) => {
                    agent.current_node = step;
                    stepped = stepped + 1;
                },
                None => {},
            }
            proof {
                agent_planned.lemma_search_wf_same_fields(agent, self.data@, width, height);
                if buffer_full.len() > 0 {
                    assert(agent.portion_path@.push(agent.current_node) =~= buffer_full);
                }
                assert(agent_ticked(agent0, agent, self.data@, width, height));
            }
            let ghost agents_before_insert = self.agents@;
            self.agents.insert(k2, agent);
            proof {
                agents_before_insert.insert_ensures(k2 as int, agent);
                assert forall|j: int|
                    0 <= j < self.agents@.len() implies (#[trigger] self.agents@[j]).search_wf(
                    self.data@,
                    width,
                    height,
                ) by {
                    if j < k2 {
                        assert(self.agents@[j] == agents_before_insert[j]);
                    } else if j == k2 {
                        assert(self.agents@[j] == agent);
                    } else {
                        assert(self.agents@[j] == agents_before_insert[j - 1]);
                    }
                }
                assert forall|l: int| 0 <= l < k2 + 1 implies agent_ticked(
                    agents0[l],
                    #[trigger] self.agents@[l],
                    self.data@,
                    width,
                    height,
                ) by {
                    if l < k2 {
                        assert(self.agents@[l] == pre_iter.agents@[l]);
                        assert(agent_ticked(agents0[l], self.agents@[l], pre_iter.data@, width, height));
                        lemma_agent_ticked_same_mask(
                            agents0[l],
                            self.agents@[l],
                            pre_iter.data@,
                            self.data@,
                            width,
                            height,
                        );
                    } else {
                        assert(self.agents@[l] == agent);
                    }
                }
                assert forall|l: int| k2 + 1 <= l < n implies #[trigger] self.agents@[l]
                    == agents0[l] by {
                    assert(self.agents@[l] == agents_before_insert[l - 1]);
                    assert(agents_before_insert[l - 1] == pre_iter.agents@[l]);
                }
                lemma_count_stepped_prefix(agents0, pre_iter.agents@, self.agents@, k2 as int);
                assert(count_stepped(agents0, self.agents@, k2 + 1) == count_stepped(
                    agents0,
                    self.agents@,
                    k2 as int,
                ) + if agents0[k2 as int].portion_path@.len() != 0 || self.agents@[
                    k2 as int
                ].portion_path@.len() != 0 {
                    1int
                } else {
                    0int
                });
                if all_empty {
                    assert forall|t: int, p: (u32, u32)|
                        0 <= t < WINDOW_SIZE && in_bounds(width, height, p) && (
                        #[trigger] self.reserved_by(t, p)) is Some implies exists|l: int|
                        0 <= l < k2 + 1 && self.reserved_by(t, p) == Some(
                            (#[trigger] agents0[l]).id,
                        ) by {
                        if self.reserved_by(t, p) == pre_iter.reserved_by(t, p) {
                            let l0 = choose|l: int|
                                0 <= l < k2 && pre_iter.reserved_by(t, p) == Some(
                                    (#[trigger] agents0[l]).id,
                                );
                            assert(0 <= l0 < k2 + 1 && self.reserved_by(t, p) == Some(
                                agents0[l0].id,
                            ));
                        } else {
                            // only this agent's planning wrote the table
                            // this iteration, and only at its own steps
                            assert(agent_planned.id == agents0[k2 as int].id);
                            assert(self.space_time_map == map_planned.space_time_map);
                            assert(map_planned.reserved_by(t, p) != pre_iter.reserved_by(t, p));
                            assert(t < agent_planned.portion_path@.len() && p == agent_planned
                                .portion_path@.reverse()[t].pos);
                            assert(map_planned.reserved_by(
                                t,
                                agent_planned.portion_path@.reverse()[t].pos,
                            ) == Some(agent_planned.id));
                        }
                    }
                }
            }
            k2 = k2 + 1;
        }
        proof {
            if old(self).ids_unique() {
                assert forall|i: int, j: int|
                    0 <= i < j < self.agents@.len() implies (#[trigger] self.agents@[i]).id != (
                    #[trigger] self.agents@[j]).id by {
                    assert(agent_ticked(agents0[i], self.agents@[i], self.data@, width, height));
                    assert(agent_ticked(agents0[j], self.agents@[j], self.data@, width, height));
                }
            }
            if forall|k3: int|
                0 <= k3 < n ==> (#[trigger] agents0[k3]).portion_path@.len() == 0 {
                assert forall|t: int, p: (u32, u32)|
                    0 <= t < WINDOW_SIZE && in_bounds(width, height, p) && (
                    #[trigger] self.reserved_by(t, p)) is Some implies exists|l: int|
                    0 <= l < self.agents@.len() && self.reserved_by(t, p) == Some(
                        (#[trigger] self.agents@[l]).id,
                    ) by {
                    let l0 = choose|l: int|
                        0 <= l < n && self.reserved_by(t, p) == Some((#[trigger] agents0[l]).id);
                    assert(agent_ticked(agents0[l0], self.agents@[l0], self.data@, width, height));
                    assert(0 <= l0 < self.agents@.len() && self.reserved_by(t, p) == Some(
                        self.agents@[l0].id,
                    ));
                }
            }
        }
        stepped
    }
}

/// What one tick does to one agent: identity and endpoints are untouched;
/// an agent with buffered steps pops the last one into its current
/// position; an agent with an exhausted buffer either stays put with an
/// empty buffer (nothing could be planned) or holds the remainder of a
/// freshly planned window whose steps form a valid chain out of its old
/// position, with the first step popped into its current position.
pub open spec fn agent_ticked(
    before: Agent,
    after: Agent,
    data: Seq<u32>,
    width: u32,
    height: u32,
) -> bool {
    &&& after.id == before.id
    &&& after.name == before.name
    &&& after.start == before.start
    &&& after.goal == before.goal
    &&& (before.portion_path@.len() > 0 ==> after.portion_path@ == before.portion_path@.drop_last()
        && after.current_node == before.portion_path@.last())
    &&& (before.portion_path@.len() == 0 ==> ((after.portion_path@.len() == 0
        && after.current_node == before.current_node) || (after.portion_path@.len() + 1
        == WINDOW_SIZE && crate::agent::steps_ok(
        data,
        width,
        height,
        before.current_node.pos,
        after.portion_path@.push(after.current_node).reverse(),
    ))))
}

/// A tick transition keeps holding on any grid of the same shape whose
/// cells agree on passability.
pub proof fn lemma_agent_ticked_same_mask(
    before: Agent,
    after: Agent,
    data1: Seq<u32>,
    data2: Seq<u32>,
    width: u32,
    height: u32,
)
    requires
        agent_ticked(before, after, data1, width, height),
        data1.len() == data2.len(),
        forall|p: (u32, u32)|
            in_bounds(width, height, p) ==> (#[trigger] passable_at(data1, width, p)
                <==> passable_at(data2, width, p)),
    ensures
        agent_ticked(before, after, data2, width, height),
{
    if before.portion_path@.len() == 0 && after.portion_path@.len() + 1 == WINDOW_SIZE
        && crate::agent::steps_ok(
        data1,
        width,
        height,
        before.current_node.pos,
        after.portion_path@.push(after.current_node).reverse(),
    ) {
        crate::agent::lemma_steps_ok_same_mask(
            data1,
            data2,
            width,
            height,
            before.current_node.pos,
            after.portion_path@.push(after.current_node).reverse(),
        );
    }
}

/// A tick owes this agent a freshly planned window: its buffer is
/// exhausted, its cells are sane, and it is parked on its goal or sits on
/// its start cell with the goal able to reach it. (An agent mid-window, or
/// off the grid, or with an unreachable goal, is owed nothing.)
pub open spec fn replan_owed(
    data: Seq<u32>,
    width: u32,
    height: u32,
    a: Agent,
) -> bool {
    &&& a.portion_path@.len() == 0
    &&& in_bounds(width, height, a.current_node.pos)
    &&& in_bounds(width, height, a.goal.pos)
    &&& passable_at(data, width, a.current_node.pos)
    &&& passable_at(data, width, a.goal.pos)
    &&& (a.current_node.pos == a.goal.pos || (a.current_node.pos == a.start.pos
        && crate::grid::reachable(data, width, height, a.goal.pos, a.current_node.pos)))
}

/// Number of agents in the first `upto` registry slots that received a
/// step: those that had buffered steps before the tick, or hold a fresh
/// window's remainder after it.
pub open spec fn count_stepped(before: Seq<Agent>, after: Seq<Agent>, upto: int) -> int
    decreases upto,
{
    if upto <= 0 {
        0
    } else {
        count_stepped(before, after, upto - 1) + if before[upto - 1].portion_path@.len() != 0
            || after[upto - 1].portion_path@.len() != 0 {
            1int
        } else {
            0int
        }
    }
}

/// The count reads only the first `upto` slots of each sequence.
pub proof fn lemma_count_stepped_prefix(
    before: Seq<Agent>,
    after1: Seq<Agent>,
    after2: Seq<Agent>,
    upto: int,
)
    requires
        forall|l: int| 0 <= l < upto ==> after1[l] == after2[l],
    ensures
        count_stepped(before, after1, upto) == count_stepped(before, after2, upto),
    decreases upto,
{
    if upto > 0 {
        lemma_count_stepped_prefix(before, after1, after2, upto - 1);
    }
}

/// Law of single occupancy: the reservation table assigns each cell, at each
/// window offset, at most one agent — whatever order the planner visited the
/// agents in. The table maps a cell to one optional owner id, so two distinct
/// owners of one cell at one offset cannot even be represented.
pub proof fn lemma_reservation_single_occupancy(
    m: WorldMap,
    t: int,
    p: (u32, u32),
    a1: u32,
    a2: u32,
)
    requires
        m.wf(),
        0 <= t < WINDOW_SIZE,
        in_bounds(m.width, m.height, p),
        m.reserved_by(t, p) == Some(a1),
        m.reserved_by(t, p) == Some(a2),
    ensures
        a1 == a2,
{
}

} // verus!
