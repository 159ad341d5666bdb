//! A planning agent: its identity, endpoints, current cell, the persistent
//! state of its reverse resumable A* (RRA*) search, and its window step
//! buffer.

use vstd::prelude::*;

use crate::grid::INFINITE_COST;
use crate::grid::SOFT_OBSTACLE_COST;
use crate::grid::adjacent;
use crate::grid::cell_idx;
use crate::grid::cell_index;
use crate::grid::clamped_sum;
use crate::grid::diagonal_move;
use crate::grid::manhattan;
use crate::grid::step_cost_value;
use crate::grid::count_true;
use crate::grid::in_bounds;
use crate::grid::lemma_cell_index_distinct;
use crate::grid::lemma_count_true_le;
use crate::grid::lemma_count_true_update;
use crate::grid::lemma_reachable_in_closed_set;
use crate::grid::lemma_reachable_self;
use crate::grid::lemma_reachable_step;
use crate::grid::passable_at;
use crate::grid::reachable;
use crate::grid::saturating_add_cost;
use crate::grid::step_cost;
use crate::open_set::OpenSet;
use crate::open_set::open_set_entries;
use crate::open_set::open_set_new;
use crate::open_set::open_set_pop;
use crate::open_set::open_set_push;
use crate::world::Node;
use crate::world::WINDOW_SIZE;
use crate::world::WorldMap;

verus! {

/// `steps` is a valid chronological window plan out of `start`: every step
/// stays on a passable in-bounds cell, and each step either repeats the
/// previous cell (a wait) or is one move away from it.
pub open spec fn steps_ok(
    data: Seq<u32>,
    width: u32,
    height: u32,
    start: (u32, u32),
    steps: Seq<Node>,
) -> bool {
    forall|i: int|
        0 <= i < steps.len() ==> {
            let prev = if i == 0 {
                start
            } else {
                steps[i - 1].pos
            };
            &&& in_bounds(width, height, (#[trigger] steps[i]).pos)
            &&& passable_at(data, width, steps[i].pos)
            &&& (steps[i].pos == prev || adjacent(prev, steps[i].pos))
        }
}

/// The move along the back-pointer from the agent's current cell to `next`
/// is blocked at window offset `i`: either another agent holds `next` at
/// that offset, or the agent that held `next` one offset earlier now holds
/// this agent's cell (a head-on pass-through).
pub open spec fn advance_blocked(map: WorldMap, agent: Agent, i: u32, next: (u32, u32)) -> bool {
    ||| match map.reserved_by(i as int, next) {
        Some(owner) => owner != agent.id,
        None => false,
    }
    ||| (i > 0 && map.reserved_by(i as int - 1, next) is Some && map.reserved_by(
        i as int,
        agent.current_node.pos,
    ) == map.reserved_by(i as int - 1, next))
}

/// A chronological window plan stays valid on any grid of the same shape
/// whose cells agree on passability.
pub proof fn lemma_steps_ok_same_mask(
    data1: Seq<u32>,
    data2: Seq<u32>,
    width: u32,
    height: u32,
    start: (u32, u32),
    steps: Seq<Node>,
)
    requires
        steps_ok(data1, width, height, start, steps),
        data1.len() == data2.len(),
        forall|p: (u32, u32)|
            in_bounds(width, height, p) ==> (#[trigger] passable_at(data1, width, p)
                <==> passable_at(data2, width, p)),
    ensures
        steps_ok(data2, width, height, start, steps),
{
    assert forall|i: int| 0 <= i < steps.len() implies passable_at(
        data2,
        width,
        (#[trigger] steps[i]).pos,
    ) by {
        assert(passable_at(data1, width, steps[i].pos));
    }
}

/// An agent. The search state (`came_from`, `cost_so_far`, `closed_set`,
/// `open_set`) is an arena keyed by row-major cell index, kept across calls
/// so that the reverse search can resume instead of restarting.
pub struct Agent {
    pub came_from: Vec<Option<(u32, u32)>>,
    pub cost_so_far: Vec<Option<Node>>,
    pub closed_set: Vec<bool>,
    pub open_set: OpenSet,
    pub id: u32,
    pub name: String,
    pub start: Node,
    pub goal: Node,
    pub current_node: Node,
    pub portion_path: Vec<Node>,
    pub is_walking: bool,
}

impl Agent {
    /// No search has started: the arenas are unallocated and the queue empty.
    pub open spec fn search_is_fresh(self) -> bool {
        &&& self.came_from@.len() == 0
        &&& self.cost_so_far@.len() == 0
        &&& self.closed_set@.len() == 0
        &&& open_set_entries(self.open_set).dom() =~= Set::<(u32, u32)>::empty()
    }

    pub fn new(id: u32, name: &str) -> (r: Agent)
        ensures
            r.search_is_fresh(),
            r.id == id,
            r.name@ == name@,
            r.portion_path@.len() == 0,
            r.current_node.pos == (0u32, 0u32),
            r.goal.pos == (0u32, 0u32),
            r.start.pos == (0u32, 0u32),
    {
        Agent {
            came_from: Vec::new(),
            cost_so_far: Vec::new(),
            closed_set: Vec::new(),
            open_set: open_set_new(),
            id,
            name: name.to_owned(),
            start: Node::default(),
            goal: Node::default(),
            current_node: Node::default(),
            portion_path: Vec::with_capacity(crate::world::WINDOW_SIZE as usize),
            is_walking: false,
        }
    }

    /// Sets where the agent begins; its current cell starts there too.
    pub fn set_start(&mut self, start: Node)
        ensures
            *final(self) == (Agent { start, current_node: start, ..*old(self) }),
    {
        self.start = start;
        self.current_node = start;
    }

    pub fn get_start(&self) -> (r: Node)
        ensures
            r == self.start,
    {
        self.start
    }

    /// Sets the goal and discards any search state built for the old goal:
    /// the stored cost field and back-pointers are meaningful only relative
    /// to the goal the search ran from.
    pub fn set_goal(&mut self, goal: Node)
        ensures
            final(self).goal == goal,
            final(self).search_is_fresh(),
            final(self).id == old(self).id,
            final(self).name == old(self).name,
            final(self).start == old(self).start,
            final(self).current_node == old(self).current_node,
            final(self).portion_path == old(self).portion_path,
    {
        self.goal = goal;
        self.came_from = Vec::new();
        self.cost_so_far = Vec::new();
        self.closed_set = Vec::new();
        self.open_set = open_set_new();
    }

    pub fn get_goal(&self) -> (r: Node)
        ensures
            r == self.goal,
    {
        self.goal
    }

    /// Cell the reverse search starts from: the agent's goal.
    pub open spec fn origin(self) -> (u32, u32) {
        self.goal.pos
    }

    /// Recorded cost entry of cell `p`.
    pub open spec fn entry(self, width: u32, p: (u32, u32)) -> Option<Node> {
        self.cost_so_far@[cell_index(width, p)]
    }

    /// Recorded back-pointer of cell `p`: the neighbor one step closer to
    /// the origin along the search tree.
    pub open spec fn came(self, width: u32, p: (u32, u32)) -> Option<(u32, u32)> {
        self.came_from@[cell_index(width, p)]
    }

    /// Cell `p` has been expanded.
    pub open spec fn is_closed(self, width: u32, p: (u32, u32)) -> bool {
        self.closed_set@[cell_index(width, p)]
    }

    /// The arenas cover the whole grid.
    pub open spec fn arena_wf(self, width: u32, height: u32) -> bool {
        &&& self.came_from@.len() == width * height
        &&& self.cost_so_far@.len() == width * height
        &&& self.closed_set@.len() == width * height
    }

    /// The search origin is on the grid, passable, and has a cost entry.
    pub open spec fn origin_seeded(self, data: Seq<u32>, width: u32, height: u32) -> bool {
        &&& in_bounds(width, height, self.origin())
        &&& passable_at(data, width, self.origin())
        &&& self.entry(width, self.origin()) is Some
    }

    /// Every cost entry describes its own passable cell, which is reachable
    /// from the origin; every entried cell but the origin has a back-pointer.
    pub open spec fn entries_wf(self, data: Seq<u32>, width: u32, height: u32) -> bool {
        forall|p: (u32, u32)|
            #![trigger self.entry(width, p)]
            in_bounds(width, height, p) ==> match self.entry(width, p) {
                Some(n) => {
                    &&& n.pos == p
                    &&& passable_at(data, width, p)
                    &&& reachable(data, width, height, self.origin(), p)
                    &&& (p != self.origin() ==> self.came(width, p) is Some)
                },
                None => true,
            }
    }

    /// Every back-pointer leads to an adjacent, passable, in-bounds cell
    /// that itself has a cost entry.
    pub open spec fn back_pointers_wf(self, data: Seq<u32>, width: u32, height: u32) -> bool {
        forall|p: (u32, u32)|
            #![trigger self.came(width, p)]
            in_bounds(width, height, p) ==> match self.came(width, p) {
                Some(q) => {
                    &&& in_bounds(width, height, q)
                    &&& passable_at(data, width, q)
                    &&& adjacent(q, p)
                    &&& self.entry(width, q) is Some
                    &&& self.entry(width, p) is Some
                    &&& (match (self.entry(width, p), self.entry(width, q)) {
                        (Some(np), Some(nq)) => nq.g_score < np.g_score || np.g_score
                            == u32::MAX,
                        _ => true,
                    })
                },
                None => true,
            }
    }

    /// Expanded cells have cost entries.
    pub open spec fn closed_wf(self, width: u32, height: u32) -> bool {
        forall|p: (u32, u32)|
            #![trigger self.is_closed(width, p)]
            in_bounds(width, height, p) && self.is_closed(width, p) ==> self.entry(width, p)
                is Some
    }

    /// The open queue holds exactly the discovered, not yet expanded cells.
    pub open spec fn queue_wf(self, width: u32, height: u32) -> bool {
        &&& forall|c: (u32, u32)|
            #[trigger] open_set_entries(self.open_set).dom().contains(c) ==> in_bounds(
                width,
                height,
                c,
            ) && self.entry(width, c) is Some && !self.is_closed(width, c)
        &&& forall|p: (u32, u32)|
            #![trigger self.entry(width, p)]
            in_bounds(width, height, p) && self.entry(width, p) is Some && !self.is_closed(
                width,
                p,
            ) ==> open_set_entries(self.open_set).dom().contains(p)
    }

    /// Every expanded cell, except possibly `except`, has seeded a cost
    /// entry for each of its passable in-bounds neighbors.
    pub open spec fn frontier_wf_except(
        self,
        data: Seq<u32>,
        width: u32,
        height: u32,
        except: Option<(u32, u32)>,
    ) -> bool {
        forall|p: (u32, u32), q: (u32, u32)|
            #![trigger self.is_closed(width, p), self.entry(width, q)]
            in_bounds(width, height, p) && self.is_closed(width, p) && except != Some(p)
                && adjacent(p, q) && in_bounds(width, height, q) && passable_at(data, width, q)
                ==> self.entry(width, q) is Some
    }

    /// Every expanded cell has seeded a cost entry for each of its passable
    /// in-bounds neighbors.
    pub open spec fn frontier_wf(self, data: Seq<u32>, width: u32, height: u32) -> bool {
        self.frontier_wf_except(data, width, height, None)
    }

    /// The score laws of a cost entry the search wrote: its f-score is its
    /// cost-so-far plus the Manhattan estimate to the search target, and its
    /// cost-so-far is its back-pointer parent's (an already expanded cell,
    /// whose score no longer changes) plus the cost of the step into the
    /// cell — the cell's own cost for an orthogonal step, its diagonally
    /// scaled cost for a diagonal one — everything clamped at the sentinel.
    /// An entry without a back-pointer is the search origin, at cost zero.
    pub open spec fn scores_law(
        self,
        data: Seq<u32>,
        width: u32,
        target: (u32, u32),
        p: (u32, u32),
    ) -> bool {
        match self.entry(width, p) {
            Some(n) => {
                &&& n.f_score == clamped_sum(
                    n.g_score as int,
                    if manhattan(p, target) <= u32::MAX {
                        manhattan(p, target)
                    } else {
                        u32::MAX as int
                    },
                )
                &&& match self.came(width, p) {
                    Some(c) => {
                        &&& self.is_closed(width, c)
                        &&& match self.entry(width, c) {
                            Some(nc) => n.g_score == clamped_sum(
                                nc.g_score as int,
                                step_cost_value(
                                    data[cell_index(width, p)],
                                    diagonal_move(c, p),
                                ),
                            ),
                            None => true,
                        }
                    },
                    None => n.g_score == 0,
                }
            },
            None => true,
        }
    }

    /// Full well-formedness of an active search, relative to the grid.
    pub open spec fn search_state_wf(self, data: Seq<u32>, width: u32, height: u32) -> bool {
        &&& self.arena_wf(width, height)
        &&& self.origin_seeded(data, width, height)
        &&& self.entries_wf(data, width, height)
        &&& self.back_pointers_wf(data, width, height)
        &&& self.closed_wf(width, height)
        &&& self.queue_wf(width, height)
        &&& self.frontier_wf(data, width, height)
    }

    /// The search state is either untouched or well-formed for this grid.
    pub open spec fn search_wf(self, data: Seq<u32>, width: u32, height: u32) -> bool {
        self.search_is_fresh() || self.search_state_wf(data, width, height)
    }

    /// The agent's identity and planning fields, which the search leaves
    /// alone.
    pub open spec fn same_identity(self, other: Agent) -> bool {
        &&& self.id == other.id
        &&& self.name == other.name
        &&& self.start == other.start
        &&& self.goal == other.goal
        &&& self.current_node == other.current_node
        &&& self.portion_path == other.portion_path
    }

    /// The fields the search state is made of.
    pub open spec fn same_search_fields(self, other: Agent) -> bool {
        &&& self.came_from == other.came_from
        &&& self.cost_so_far == other.cost_so_far
        &&& self.closed_set == other.closed_set
        &&& self.open_set == other.open_set
        &&& self.goal == other.goal
    }

    /// Search well-formedness depends on the search fields alone: changing
    /// the agent's other fields cannot disturb it.
    pub proof fn lemma_search_wf_same_fields(
        self,
        other: Agent,
        data: Seq<u32>,
        width: u32,
        height: u32,
    )
        requires
            self.search_wf(data, width, height),
            other.same_search_fields(self),
        ensures
            other.search_wf(data, width, height),
    {
        assert forall|p: (u32, u32)|
            #![trigger other.entry(width, p)]
            #![trigger other.came(width, p)]
            #![trigger other.is_closed(width, p)]
            true implies other.entry(width, p) == self.entry(width, p) && other.came(width, p)
            == self.came(width, p) && other.is_closed(width, p) == self.is_closed(width, p) by {}
        if self.search_is_fresh() {
            assert(other.search_is_fresh());
        } else {
            assert(self.search_state_wf(data, width, height));
            assert(other.search_state_wf(data, width, height));
        }
    }

    /// Search well-formedness carries to any grid of the same shape whose
    /// cells agree on passability.
    pub proof fn lemma_search_wf_mask_transfer(
        self,
        data1: Seq<u32>,
        data2: Seq<u32>,
        width: u32,
        height: u32,
    )
        requires
            self.search_wf(data1, width, height),
            data1.len() == data2.len(),
            forall|p: (u32, u32)|
                in_bounds(width, height, p) ==> (#[trigger] passable_at(data1, width, p)
                    <==> passable_at(data2, width, p)),
        ensures
            self.search_wf(data2, width, height),
    {
        if !self.search_is_fresh() {
            self.lemma_search_wf_same_mask(data1, data2, width, height);
        }
    }

    /// A well-formed active search stays well-formed on any grid of the same
    /// shape whose cells agree on passability: every clause of the state
    /// speaks of the grid only through walls.
    pub proof fn lemma_search_wf_same_mask(
        self,
        data1: Seq<u32>,
        data2: Seq<u32>,
        width: u32,
        height: u32,
    )
        requires
            self.search_state_wf(data1, width, height),
            data1.len() == data2.len(),
            forall|p: (u32, u32)|
                in_bounds(width, height, p) ==> (#[trigger] passable_at(data1, width, p)
                    <==> passable_at(data2, width, p)),
        ensures
            self.search_state_wf(data2, width, height),
    {
        assert forall|p: (u32, u32)|
            in_bounds(width, height, p) && #[trigger] self.entry(width, p) is Some implies
            passable_at(data2, width, p) && reachable(
            data2,
            width,
            height,
            self.origin(),
            p,
        ) by {
            crate::grid::lemma_reachable_same_mask(data1, data2, width, height, self.origin(), p);
        }
        assert(self.entries_wf(data2, width, height));
        assert(self.back_pointers_wf(data2, width, height));
        assert forall|p2: (u32, u32), q2: (u32, u32)|
            in_bounds(width, height, p2) && #[trigger] self.is_closed(width, p2) && adjacent(
                p2,
                q2,
            ) && in_bounds(width, height, q2) && passable_at(data2, width, q2) implies (
        #[trigger] self.entry(width, q2)) is Some by {
            assert(passable_at(data1, width, q2));
        }
        assert(self.frontier_wf(data2, width, height));
    }

    /// An active search stays well-formed when the search fields are equal
    /// and the queue holds the same entries, whatever else changed.
    pub proof fn lemma_state_wf_requeued(self, other: Agent, data: Seq<u32>, width: u32, height: u32)
        requires
            self.search_state_wf(data, width, height),
            other.cost_so_far == self.cost_so_far,
            other.came_from == self.came_from,
            other.closed_set == self.closed_set,
            other.goal == self.goal,
            open_set_entries(other.open_set) == open_set_entries(self.open_set),
        ensures
            other.search_state_wf(data, width, height),
    {
        assert forall|p: (u32, u32)|
            #![trigger other.entry(width, p)]
            #![trigger other.came(width, p)]
            #![trigger other.is_closed(width, p)]
            true implies other.entry(width, p) == self.entry(width, p) && other.came(width, p)
            == self.came(width, p) && other.is_closed(width, p) == self.is_closed(width, p) by {}
    }

    /// The queue-free part of the search state carries over to any value
    /// with equal search fields.
    pub proof fn lemma_core_wf_same_fields(
        self,
        other: Agent,
        data: Seq<u32>,
        width: u32,
        height: u32,
    )
        requires
            self.arena_wf(width, height),
            self.origin_seeded(data, width, height),
            self.entries_wf(data, width, height),
            self.back_pointers_wf(data, width, height),
            self.closed_wf(width, height),
            self.frontier_wf(data, width, height),
            other.cost_so_far == self.cost_so_far,
            other.came_from == self.came_from,
            other.closed_set == self.closed_set,
            other.goal == self.goal,
        ensures
            other.arena_wf(width, height),
            other.origin_seeded(data, width, height),
            other.entries_wf(data, width, height),
            other.back_pointers_wf(data, width, height),
            other.closed_wf(width, height),
            other.frontier_wf(data, width, height),
    {
        assert forall|p: (u32, u32)|
            #![trigger other.entry(width, p)]
            #![trigger other.came(width, p)]
            #![trigger other.is_closed(width, p)]
            true implies other.entry(width, p) == self.entry(width, p) && other.came(width, p)
            == self.came(width, p) && other.is_closed(width, p) == self.is_closed(width, p) by {}
    }

    /// Marks a cell that just left the open queue as expanded: it was
    /// discovered and not yet expanded, and the rest of the search state
    /// stands as it was.
    #[verifier::loop_isolation(false)]
    #[verifier::rlimit(100)]
    fn close_cell(&mut self, map: &WorldMap, cur: (u32, u32))
        requires
            map.wf_grid(),
            old(self).arena_wf(map.width, map.height),
            old(self).origin_seeded(map.data@, map.width, map.height),
            old(self).entries_wf(map.data@, map.width, map.height),
            old(self).back_pointers_wf(map.data@, map.width, map.height),
            old(self).closed_wf(map.width, map.height),
            old(self).frontier_wf(map.data@, map.width, map.height),
            in_bounds(map.width, map.height, cur),
            old(self).entry(map.width, cur) is Some,
            !old(self).is_closed(map.width, cur),
            !open_set_entries(old(self).open_set).dom().contains(cur),
            forall|c: (u32, u32)|
                #[trigger] open_set_entries(old(self).open_set).dom().contains(c) ==> in_bounds(
                    map.width,
                    map.height,
                    c,
                ) && old(self).entry(map.width, c) is Some && !old(self).is_closed(map.width, c),
            forall|p: (u32, u32)|
                in_bounds(map.width, map.height, p) && (#[trigger] old(self).entry(map.width, p))
                    is Some && !old(self).is_closed(map.width, p) && p != cur
                    ==> open_set_entries(old(self).open_set).dom().contains(p),
        ensures
            final(self).arena_wf(map.width, map.height),
            final(self).origin_seeded(map.data@, map.width, map.height),
            final(self).entries_wf(map.data@, map.width, map.height),
            final(self).back_pointers_wf(map.data@, map.width, map.height),
            final(self).closed_wf(map.width, map.height),
            final(self).queue_wf(map.width, map.height),
            final(self).frontier_wf_except(map.data@, map.width, map.height, Some(cur)),
            final(self).cost_so_far == old(self).cost_so_far,
            final(self).came_from == old(self).came_from,
            final(self).open_set == old(self).open_set,
            final(self).same_identity(*old(self)),
            final(self).is_closed(map.width, cur),
            forall|p: (u32, u32)|
                in_bounds(map.width, map.height, p) && p != cur ==> (#[trigger] final(self)
                    .is_closed(map.width, p)) == old(self).is_closed(map.width, p),
            count_true(final(self).closed_set@) == count_true(old(self).closed_set@) + 1,
            count_true(final(self).closed_set@) <= map.width * map.height,
    {
        let ghost data = map.data@;
        let width: u32 = map.width;
        let height: u32 = map.height;
        let ghost pre_self = *old(self);
        let idx_cur: usize = cell_idx(width, height, cur);
        self.closed_set[idx_cur] = true;
        proof {
            lemma_count_true_update(pre_self.closed_set@, cell_index(width, cur));
            lemma_count_true_le(self.closed_set@);
            assert forall|p: (u32, u32)|
                #![trigger self.entry(width, p)]
                #![trigger self.came(width, p)]
                #![trigger self.is_closed(width, p)]
                in_bounds(width, height, p) implies self.entry(width, p) == pre_self.entry(
                width,
                p,
            ) && self.came(width, p) == pre_self.came(width, p) && (p != cur ==> self.is_closed(
                width,
                p,
            ) == pre_self.is_closed(width, p)) by {
                crate::grid::lemma_cell_index_bound(width, height, p);
                if p != cur {
                    lemma_cell_index_distinct(width, height, p, cur);
                }
            }
            assert(self.entries_wf(data, width, height));
            assert(self.back_pointers_wf(data, width, height));
            assert(self.closed_wf(width, height));
            assert forall|c: (u32, u32)| #[trigger] open_set_entries(
                self.open_set,
            ).dom().contains(c) implies in_bounds(width, height, c) && self.entry(width, c)
                is Some && !self.is_closed(width, c) by {
                assert(open_set_entries(pre_self.open_set).dom().contains(c));
                assert(c != cur);
            }
            assert forall|p: (u32, u32)|
                in_bounds(width, height, p) && #[trigger] self.entry(width, p) is Some
                    && !self.is_closed(width, p) implies open_set_entries(
                self.open_set,
            ).dom().contains(p) by {
                assert(p != cur);
                assert(pre_self.entry(width, p) is Some);
                assert(!pre_self.is_closed(width, p));
                assert(open_set_entries(pre_self.open_set).dom().contains(p));
            }
            assert(self.queue_wf(width, height));
            assert(self.frontier_wf_except(data, width, height, Some(cur)));
        }
    }

    /// Expands one freshly closed cell of the reverse search: seeds a cost
    /// entry for every passable in-bounds neighbor and improves entries that
    /// the step through `cur` makes cheaper, pushing them on the open queue.
    #[verifier::loop_isolation(false)]
    #[verifier::rlimit(60)]
    fn expand_cell(&mut self, map: &WorldMap, cur: (u32, u32), target: Node)
        requires
            map.wf_grid(),
            old(self).arena_wf(map.width, map.height),
            old(self).origin_seeded(map.data@, map.width, map.height),
            old(self).entries_wf(map.data@, map.width, map.height),
            old(self).back_pointers_wf(map.data@, map.width, map.height),
            old(self).closed_wf(map.width, map.height),
            old(self).queue_wf(map.width, map.height),
            old(self).frontier_wf_except(map.data@, map.width, map.height, Some(cur)),
            in_bounds(map.width, map.height, cur),
            old(self).entry(map.width, cur) is Some,
            old(self).is_closed(map.width, cur),
        ensures
            final(self).search_state_wf(map.data@, map.width, map.height),
            final(self).closed_set@ == old(self).closed_set@,
            final(self).same_identity(*old(self)),
            forall|p: (u32, u32)|
                in_bounds(map.width, map.height, p) && old(self).entry(map.width, p) is Some
                    ==> (#[trigger] final(self).entry(map.width, p)) is Some,
            forall|p: (u32, u32)|
                in_bounds(map.width, map.height, p) ==> match (
                old(self).entry(map.width, p),
                (#[trigger] final(self).entry(map.width, p)),
            ) {
                    (Some(b), Some(a)) => a.g_score <= b.g_score,
                    _ => true,
                },
            forall|p: (u32, u32)|
                in_bounds(map.width, map.height, p) && old(self).is_closed(map.width, p) ==> (
                #[trigger] final(self).entry(map.width, p)) == old(self).entry(map.width, p),
            forall|p: (u32, u32)|
                in_bounds(map.width, map.height, p) && (#[trigger] final(self).entry(
                    map.width,
                    p,
                )) == old(self).entry(map.width, p) ==> final(self).came(map.width, p) == old(
                    self,
                ).came(map.width, p),
            forall|p: (u32, u32)|
                in_bounds(map.width, map.height, p) && (#[trigger] final(self).entry(
                    map.width,
                    p,
                )) != old(self).entry(map.width, p) ==> final(self).scores_law(
                    map.data@,
                    map.width,
                    target.pos,
                    p,
                ),
    {
        let ghost data = map.data@;
        let width: u32 = map.width;
        let height: u32 = map.height;
        let neigh: Vec<(u32, u32)> = map.get_neighbors(Node { pos: cur, g_score: 0, f_score: 0 });
        let idx_cur: usize = cell_idx(width, height, cur);
        let cur_entry: Option<Node> = self.cost_so_far[idx_cur];
        let g_cur: u32 = cur_entry.unwrap().g_score;
        let ghost closed_now = self.closed_set@;
        let mut j: usize = 0;
        while j < neigh.len()
            invariant
                j <= neigh@.len(),
                self.arena_wf(width, height),
                self.origin_seeded(data, width, height),
                self.entries_wf(data, width, height),
                self.back_pointers_wf(data, width, height),
                self.closed_wf(width, height),
                self.queue_wf(width, height),
                self.frontier_wf_except(data, width, height, Some(cur)),
                self.closed_set@ == closed_now,
                self.entry(width, cur) is Some,
                self.same_identity(*old(self)),
                forall|jj: int|
                    0 <= jj < j && passable_at(data, width, neigh@[jj]) ==> (#[trigger] self.entry(
                        width,
                        neigh@[jj],
                    )) is Some,
                forall|p: (u32, u32)|
                    in_bounds(width, height, p) && old(self).entry(width, p) is Some ==> (
                    #[trigger] self.entry(width, p)) is Some,
                forall|p: (u32, u32)|
                    in_bounds(width, height, p) ==> match (
                    old(self).entry(width, p),
                    (#[trigger] self.entry(width, p)),
                ) {
                        (Some(b), Some(a)) => a.g_score <= b.g_score,
                        _ => true,
                    },
                forall|p: (u32, u32)|
                    in_bounds(width, height, p) && old(self).is_closed(width, p) ==> (
                    #[trigger] self.entry(width, p)) == old(self).entry(width, p),
                forall|p: (u32, u32)|
                    in_bounds(width, height, p) && (#[trigger] self.entry(width, p)) == old(
                        self,
                    ).entry(width, p) ==> self.came(width, p) == old(self).came(width, p),
                forall|p: (u32, u32)|
                    in_bounds(width, height, p) && (#[trigger] self.entry(width, p)) != old(
                        self,
                    ).entry(width, p) ==> self.scores_law(data, width, target.pos, p),
            decreases neigh@.len() - j,
        {
            let q: (u32, u32) = neigh[j];
            let idx_q: usize = cell_idx(width, height, q);
            let cost_q: u32 = map.get_cost(q);
            if cost_q != INFINITE_COST {
                let diagonal: bool = cur.0 != q.0 && cur.1 != q.1;
                let step: u32 = step_cost(cost_q, diagonal);
                let tentative: u32 = saturating_add_cost(g_cur, step);
                let existing: Option<Node> = self.cost_so_far[idx_q];
                let improve: bool = match existing {
                    None => true,
                    Some(n) => !self.closed_set[idx_q] && tentative < n.g_score,
                };
                if improve {
                    let h_q: u32 = WorldMap::manhattan_distance(
                        Node { pos: q, g_score: 0, f_score: 0 },
                        target,
                    );
                    let f_q: u32 = saturating_add_cost(tentative, h_q);
                    let ghost pre = *self;
                    self.cost_so_far[idx_q] = Some(Node { pos: q, g_score: tentative, f_score: f_q });
                    self.came_from[idx_q] = Some(cur);
                    open_set_push(&mut self.open_set, q, f_q as u64);
                    proof {
                        assert forall|p: (u32, u32)|
                            #![trigger self.entry(width, p)]
                            #![trigger self.came(width, p)]
                            #![trigger self.is_closed(width, p)]
                            in_bounds(width, height, p) implies self.is_closed(width, p)
                            == pre.is_closed(width, p) && (p != q ==> self.entry(width, p)
                            == pre.entry(width, p) && self.came(width, p) == pre.came(
                            width,
                            p,
                        )) by {
                            crate::grid::lemma_cell_index_bound(width, height, p);
                            if p != q {
                                lemma_cell_index_distinct(width, height, p, q);
                            }
                        }
                        assert(adjacent(cur, q));
                        lemma_reachable_step(data, width, height, self.origin(), cur, q);
                        assert(self.entries_wf(data, width, height));
                        assert(self.back_pointers_wf(data, width, height));
                        assert(self.closed_wf(width, height));
                        assert(self.queue_wf(width, height));
                        assert(self.frontier_wf_except(data, width, height, Some(cur)));
                        assert(self.entry(width, cur) == pre.entry(width, cur));
                        assert(self.scores_law(data, width, target.pos, q));
                        assert forall|p: (u32, u32)|
                            in_bounds(width, height, p) && (#[trigger] self.entry(width, p))
                                != old(self).entry(width, p) implies self.scores_law(
                            data,
                            width,
                            target.pos,
                            p,
                        ) by {
                            if p != q {
                                assert(self.entry(width, p) == pre.entry(width, p));
                                assert(self.came(width, p) == pre.came(width, p));
                                assert(pre.scores_law(data, width, target.pos, p));
                                match pre.came(width, p) {
                                    Some(c) => {
                                        assert(pre.is_closed(width, c));
                                        assert(c != q);
                                        assert(self.entry(width, c) == pre.entry(width, c));
                                    },
                                    None => {},
                                }
                            }
                        }
                    }
                }
            }
            j = j + 1;
        }
        proof {
            assert forall|p2: (u32, u32), q2: (u32, u32)|
                in_bounds(width, height, p2) && #[trigger] self.is_closed(width, p2) && adjacent(
                    p2,
                    q2,
                ) && in_bounds(width, height, q2) && passable_at(data, width, q2) implies (
            #[trigger] self.entry(width, q2)) is Some by {
                if p2 == cur {
                    assert(neigh@.contains(q2));
                    let jj = choose|jj: int| 0 <= jj < neigh@.len() && neigh@[jj] == q2;
                    assert(self.entry(width, neigh@[jj]) is Some);
                }
            }
            assert(self.frontier_wf(data, width, height));
        }
    }

    /// Carries the resumability facts (entries never vanish, costs never
    /// worsen, expanded cells frozen, score laws of written entries) across
    /// one expansion round: from the state at the round's head (`head`),
    /// through the state after the popped cell was closed (`mid`), to the
    /// state after its neighbors were relaxed (`now`), all relative to the
    /// state `base` the search call began with.
    proof fn lemma_round_history(
        base: Agent,
        head: Agent,
        mid: Agent,
        now: Agent,
        data: Seq<u32>,
        width: u32,
        height: u32,
        target: (u32, u32),
        cur: (u32, u32),
    )
        requires
            in_bounds(width, height, cur),
            base.search_state_wf(data, width, height) ==> forall|p: (u32, u32)|
                in_bounds(width, height, p) && base.entry(width, p) is Some ==> (
                #[trigger] head.entry(width, p)) is Some,
            base.search_state_wf(data, width, height) ==> forall|p: (u32, u32)|
                in_bounds(width, height, p) ==> match (
                base.entry(width, p),
                (#[trigger] head.entry(width, p)),
            ) {
                    (Some(b), Some(a)) => a.g_score <= b.g_score,
                    _ => true,
                },
            base.search_state_wf(data, width, height) ==> forall|p: (u32, u32)|
                in_bounds(width, height, p) && base.is_closed(width, p) ==> head.is_closed(
                    width,
                    p,
                ) && (#[trigger] head.entry(width, p)) == base.entry(width, p),
            forall|p: (u32, u32)|
                in_bounds(width, height, p) && (base.search_is_fresh() || (#[trigger] head.entry(
                    width,
                    p,
                )) != base.entry(width, p)) ==> head.scores_law(data, width, target, p),
            head.back_pointers_wf(data, width, height),
            !head.is_closed(width, cur),
            mid.cost_so_far == head.cost_so_far,
            mid.came_from == head.came_from,
            mid.goal == head.goal,
            mid.is_closed(width, cur),
            forall|p: (u32, u32)|
                in_bounds(width, height, p) && p != cur ==> (#[trigger] mid.is_closed(width, p))
                    == head.is_closed(width, p),
            forall|p: (u32, u32)|
                in_bounds(width, height, p) && mid.entry(width, p) is Some ==> (
                #[trigger] now.entry(width, p)) is Some,
            forall|p: (u32, u32)|
                in_bounds(width, height, p) ==> match (
                mid.entry(width, p),
                (#[trigger] now.entry(width, p)),
            ) {
                    (Some(b), Some(a)) => a.g_score <= b.g_score,
                    _ => true,
                },
            forall|p: (u32, u32)|
                in_bounds(width, height, p) && mid.is_closed(width, p) ==> (#[trigger] now.entry(
                    width,
                    p,
                )) == mid.entry(width, p),
            forall|p: (u32, u32)|
                in_bounds(width, height, p) && (#[trigger] now.entry(width, p)) == mid.entry(
                    width,
                    p,
                ) ==> now.came(width, p) == mid.came(width, p),
            forall|p: (u32, u32)|
                in_bounds(width, height, p) && (#[trigger] now.entry(width, p)) != mid.entry(
                    width,
                    p,
                ) ==> now.scores_law(data, width, target, p),
            now.closed_set@ == mid.closed_set@,
        ensures
            base.search_state_wf(data, width, height) ==> forall|p: (u32, u32)|
                in_bounds(width, height, p) && base.entry(width, p) is Some ==> (
                #[trigger] now.entry(width, p)) is Some,
            base.search_state_wf(data, width, height) ==> forall|p: (u32, u32)|
                in_bounds(width, height, p) ==> match (
                base.entry(width, p),
                (#[trigger] now.entry(width, p)),
            ) {
                    (Some(b), Some(a)) => a.g_score <= b.g_score,
                    _ => true,
                },
            base.search_state_wf(data, width, height) ==> forall|p: (u32, u32)|
                in_bounds(width, height, p) && base.is_closed(width, p) ==> now.is_closed(
                    width,
                    p,
                ) && (#[trigger] now.entry(width, p)) == base.entry(width, p),
            forall|p: (u32, u32)|
                in_bounds(width, height, p) && (base.search_is_fresh() || (#[trigger] now.entry(
                    width,
                    p,
                )) != base.entry(width, p)) ==> now.scores_law(data, width, target, p),
    {
        assert forall|p: (u32, u32)|
            #![trigger mid.entry(width, p)]
            #![trigger mid.came(width, p)]
            true implies mid.entry(width, p) == head.entry(width, p) && mid.came(width, p)
            == head.came(width, p) by {}
        if base.search_state_wf(data, width, height) {
            assert forall|p: (u32, u32)|
                in_bounds(width, height, p) && base.is_closed(width, p) implies now.is_closed(
                width,
                p,
            ) && (#[trigger] now.entry(width, p)) == base.entry(width, p) by {
                assert(head.is_closed(width, p));
                if p == cur {
                    assert(false);
                }
                assert(mid.is_closed(width, p));
                assert(now.entry(width, p) == mid.entry(width, p));
                assert(now.is_closed(width, p) == mid.is_closed(width, p));
            }
        }
        assert forall|p: (u32, u32)|
            in_bounds(width, height, p) && (base.search_is_fresh() || (#[trigger] now.entry(
                width,
                p,
            )) != base.entry(width, p)) implies now.scores_law(data, width, target, p) by {
            if now.entry(width, p) == mid.entry(width, p) {
                assert(base.search_is_fresh() || head.entry(width, p) != base.entry(width, p));
                assert(head.scores_law(data, width, target, p));
                assert(now.came(width, p) == mid.came(width, p));
                match head.came(width, p) {
                    Some(c) => {
                        assert(head.is_closed(width, c));
                        assert(c != cur);
                        assert(mid.is_closed(width, c));
                        assert(now.entry(width, c) == mid.entry(width, c));
                        assert(now.is_closed(width, c) == mid.is_closed(width, c));
                    },
                    None => {},
                }
            }
        }
    }

    /// First call of the search for a goal: allocates the arenas and seeds
    /// the search origin (the goal) with cost zero and the Manhattan
    /// estimate toward the target.
    #[verifier::loop_isolation(false)]
    #[verifier::rlimit(100)]
    fn seed_search(&mut self, map: &WorldMap, agent_start: Node, agent_goal: Node)
        requires
            map.wf_grid(),
            agent_goal.pos == old(self).goal.pos,
            old(self).search_is_fresh(),
            in_bounds(map.width, map.height, agent_start.pos),
            in_bounds(map.width, map.height, agent_goal.pos),
            passable_at(map.data@, map.width, agent_goal.pos),
        ensures
            final(self).search_state_wf(map.data@, map.width, map.height),
            final(self).same_identity(*old(self)),
            forall|p: (u32, u32)|
                in_bounds(map.width, map.height, p) ==> (#[trigger] final(self).scores_law(
                    map.data@,
                    map.width,
                    agent_start.pos,
                    p,
                )),
    {
        let ghost data = map.data@;
        let width: u32 = map.width;
        let height: u32 = map.height;
        let target: (u32, u32) = agent_start.pos;
        let org: (u32, u32) = agent_goal.pos;
        let area: usize = map.data.len();
        self.came_from = vec![None; area];
        self.cost_so_far = vec![None; area];
        self.closed_set = vec![false; area];
        proof {
            assert(self.came_from@ =~= Seq::new(area as nat, |i: int| None::<(u32, u32)>));
            assert(self.cost_so_far@ =~= Seq::new(area as nat, |i: int| None::<Node>));
            assert(self.closed_set@ =~= Seq::new(area as nat, |i: int| false));
            assert(width * height >= 1) by (nonlinear_arith)
                requires
                    width >= 1,
                    height >= 1,
            ;
        }
        let h0: u32 = WorldMap::manhattan_distance(agent_goal, agent_start);
        let idx_org: usize = cell_idx(width, height, org);
        self.cost_so_far[idx_org] = Some(Node { pos: org, g_score: 0, f_score: h0 });
        open_set_push(&mut self.open_set, org, h0 as u64);
        proof {
            lemma_reachable_self(data, width, height, org);
            assert forall|p: (u32, u32)|
                #![trigger self.came(width, p)]
                #![trigger self.is_closed(width, p)]
                #![trigger self.entry(width, p)]
                in_bounds(width, height, p) implies self.came(width, p) is None
                && !self.is_closed(width, p) && (p != org ==> self.entry(width, p) is None) by {
                crate::grid::lemma_cell_index_bound(width, height, p);
                if p != org {
                    lemma_cell_index_distinct(width, height, p, org);
                }
            }
            assert(self.entry(width, org) is Some);
            assert forall|p: (u32, u32)|
                in_bounds(width, height, p) implies #[trigger] self.scores_law(
                data,
                width,
                target,
                p,
            ) by {
                crate::grid::lemma_cell_index_bound(width, height, p);
                if p != org {
                    lemma_cell_index_distinct(width, height, p, org);
                }
            }
            assert(open_set_entries(self.open_set) == open_set_entries(
                old(self).open_set,
            ).insert(org, h0 as u64));
            assert(open_set_entries(self.open_set).dom() =~= Set::<(u32, u32)>::empty().insert(
                org,
            ));
            assert(self.arena_wf(width, height));
            assert(self.origin_seeded(data, width, height));
            assert(self.entries_wf(data, width, height));
            assert(self.back_pointers_wf(data, width, height));
            assert(self.closed_wf(width, height));
            assert(self.queue_wf(width, height));
            assert(self.frontier_wf(data, width, height));
        }
    }

    /// Runs or resumes the reverse resumable A* search from the agent's
    /// goal (`agent_goal`) toward `agent_start`, filling the true-distance
    /// cost field and the back-pointer tree. Expansion stops once
    /// `agent_start` is expanded or the whole reachable region is exhausted;
    /// a later call resumes from the retained open set. Returns false, and
    /// leaves the state untouched, when either endpoint is off the grid or
    /// on a wall.
    #[verifier::loop_isolation(false)]
    #[verifier::rlimit(100)]
    pub fn get_true_distance_heuristic(
        &mut self,
        map: &WorldMap,
        agent_start: Node,
        agent_goal: Node,
    ) -> (r: bool)
        requires
            map.wf_grid(),
            agent_goal.pos == old(self).goal.pos,
            old(self).search_wf(map.data@, map.width, map.height),
        ensures
            final(self).search_wf(map.data@, map.width, map.height),
            final(self).same_identity(*old(self)),
            r == ({
                &&& in_bounds(map.width, map.height, agent_start.pos)
                &&& in_bounds(map.width, map.height, agent_goal.pos)
                &&& passable_at(map.data@, map.width, agent_start.pos)
                &&& passable_at(map.data@, map.width, agent_goal.pos)
            }),
            r ==> final(self).search_state_wf(map.data@, map.width, map.height),
            !r ==> *final(self) == *old(self),
            old(self).search_state_wf(map.data@, map.width, map.height) ==> final(self).search_state_wf(map.data@, map.width, map.height),
            old(self).search_state_wf(map.data@, map.width, map.height) ==> forall|p: (u32, u32)|
                in_bounds(map.width, map.height, p) && old(self).entry(map.width, p) is Some ==> (
                #[trigger] final(self).entry(map.width, p)) is Some,
            old(self).search_state_wf(map.data@, map.width, map.height) ==> forall|p: (u32, u32)|
                in_bounds(map.width, map.height, p) ==> match (
                old(self).entry(map.width, p),
                (#[trigger] final(self).entry(map.width, p)),
            ) {
                    (Some(b), Some(a)) => a.g_score <= b.g_score,
                    _ => true,
                },
            old(self).search_state_wf(map.data@, map.width, map.height) ==> forall|p: (u32, u32)|
                in_bounds(map.width, map.height, p) && old(self).is_closed(map.width, p) ==>
                    final(self).is_closed(map.width, p) && (#[trigger] final(self).entry(
                    map.width,
                    p,
                )) == old(self).entry(map.width, p),
            forall|p: (u32, u32)|
                in_bounds(map.width, map.height, p) && ((r && old(self).search_is_fresh()) || (
                #[trigger] final(self).entry(map.width, p)) != old(self).entry(map.width, p))
                    ==> final(self).scores_law(map.data@, map.width, agent_start.pos, p),
            r && final(self).entry(map.width, agent_start.pos) is None ==> forall|p: (u32, u32)|
                in_bounds(map.width, map.height, p) ==> ((#[trigger] final(self).entry(
                    map.width,
                    p,
                )) is Some <==> reachable(
                    map.data@,
                    map.width,
                    map.height,
                    final(self).origin(),
                    p,
                )),
    {
        let ghost data = map.data@;
        let width: u32 = map.width;
        let height: u32 = map.height;
        let target: (u32, u32) = agent_start.pos;
        let org: (u32, u32) = agent_goal.pos;
        if !(target.0 < width && target.1 < height) {
            return false;
        }
        if !(org.0 < width && org.1 < height) {
            return false;
        }
        if map.get_cost(target) == INFINITE_COST {
            return false;
        }
        if map.get_cost(org) == INFINITE_COST {
            return false;
        }
        if self.cost_so_far.len() == 0 {
            proof {
                assert(width * height >= 1) by (nonlinear_arith)
                    requires
                        width >= 1,
                        height >= 1,
                ;
                assert(old(self).search_is_fresh());
            }
            self.seed_search(map, agent_start, agent_goal);
        }
        let mut done: bool = false;
        while !done
            invariant
                self.search_state_wf(data, width, height),
                self.same_identity(*old(self)),
                old(self).search_state_wf(data, width, height) ==> forall|p: (u32, u32)|
                    in_bounds(width, height, p) && old(self).entry(width, p) is Some ==> (
                    #[trigger] self.entry(width, p)) is Some,
                old(self).search_state_wf(data, width, height) ==> forall|p: (u32, u32)|
                    in_bounds(width, height, p) ==> match (
                    old(self).entry(width, p),
                    (#[trigger] self.entry(width, p)),
                ) {
                        (Some(b), Some(a)) => a.g_score <= b.g_score,
                        _ => true,
                    },
                old(self).search_state_wf(data, width, height) ==> forall|p: (u32, u32)|
                    in_bounds(width, height, p) && old(self).is_closed(width, p)
                        ==> self.is_closed(width, p) && (#[trigger] self.entry(width, p)) == old(
                        self,
                    ).entry(width, p),
                forall|p: (u32, u32)|
                    in_bounds(width, height, p) && (old(self).search_is_fresh() || (
                    #[trigger] self.entry(width, p)) != old(self).entry(width, p))
                        ==> self.scores_law(data, width, target, p),
                done ==> open_set_entries(self.open_set).dom() =~= Set::<(u32, u32)>::empty()
                    || self.is_closed(width, target),
            decreases (width * height) as int - count_true(self.closed_set@), if done {
                0int
            } else {
                1int
            },
        {
            proof {
                lemma_count_true_le(self.closed_set@);
            }
            let ghost pre_self = *self;
            let popped: Option<((u32, u32), u64)> = open_set_pop(&mut self.open_set);
            match popped {
                None => {
                    done = true;
                    proof {
                        pre_self.lemma_state_wf_requeued(*self, data, width, height);
                        assert forall|p: (u32, u32)|
                            #![trigger self.entry(width, p)]
                            #![trigger self.came(width, p)]
                            #![trigger self.is_closed(width, p)]
                            true implies self.entry(width, p) == pre_self.entry(width, p)
                            && self.came(width, p) == pre_self.came(width, p) && self.is_closed(
                            width,
                            p,
                        ) == pre_self.is_closed(width, p) by {}
                    }
                },
                Some((cur, _prio)) => {
                    // `cur` was queued, so it is on the grid, has a cost
                    // entry, and is not yet expanded. Expand it now.
                    proof {
                        assert(open_set_entries(pre_self.open_set).dom().contains(cur));
                        assert(in_bounds(width, height, cur));
                        assert(pre_self.entry(width, cur) is Some);
                        assert(!pre_self.is_closed(width, cur));
                        assert(open_set_entries(self.open_set) == open_set_entries(
                            pre_self.open_set,
                        ).remove(cur));
                        pre_self.lemma_core_wf_same_fields(*self, data, width, height);
                        assert forall|c: (u32, u32)| #[trigger] open_set_entries(
                            self.open_set,
                        ).dom().contains(c) implies in_bounds(width, height, c) && self.entry(
                            width,
                            c,
                        ) is Some && !self.is_closed(width, c) by {
                            assert(open_set_entries(pre_self.open_set).dom().contains(c));
                            assert(pre_self.entry(width, c) is Some);
                            assert(!pre_self.is_closed(width, c));
                        }
                        assert forall|p: (u32, u32)|
                            in_bounds(width, height, p) && (#[trigger] self.entry(width, p))
                                is Some && !self.is_closed(width, p) && p != cur implies
                            open_set_entries(self.open_set).dom().contains(p) by {
                            assert(pre_self.entry(width, p) is Some);
                            assert(!pre_self.is_closed(width, p));
                            assert(open_set_entries(pre_self.open_set).dom().contains(p));
                        }
                    }
                    self.close_cell(map, cur);
                    let ghost closed_self = *self;
                    self.expand_cell(map, cur, agent_start);
                    proof {
                        Self::lemma_round_history(
                            *old(self),
                            pre_self,
                            closed_self,
                            *self,
                            data,
                            width,
                            height,
                            target,
                            cur,
                        );
                    }
                    if cur.0 == target.0 && cur.1 == target.1 {
                        done = true;
                    }
                },
            }
        }
        proof {
            if self.entry(width, target) is None {
                assert(!self.is_closed(width, target));
                let s = Set::new(
                    |p: (u32, u32)| in_bounds(width, height, p) && self.entry(width, p) is Some,
                );
                assert(s.contains(self.origin()));
                assert forall|p: (u32, u32), q: (u32, u32)|
                    s.contains(p) && adjacent(p, q) && in_bounds(width, height, q) && passable_at(
                        data,
                        width,
                        q,
                    ) implies s.contains(q) by {
                    assert(self.entry(width, p) is Some);
                    if !self.is_closed(width, p) {
                        assert(open_set_entries(self.open_set).dom().contains(p));
                        assert(false);
                    }
                    assert(self.entry(width, q) is Some);
                }
                assert forall|p: (u32, u32)|
                    in_bounds(width, height, p) && reachable(
                        data,
                        width,
                        height,
                        self.origin(),
                        p,
                    ) implies (#[trigger] self.entry(width, p)) is Some by {
                    lemma_reachable_in_closed_set(data, width, height, s, self.origin(), p);
                }
            }
        }
        true
    }

    /// A free alternative for a blocked move: `q` is adjacent to the
    /// current cell, is not the blocked cell itself, is unreserved at the
    /// window offset, and carries a cost entry whose f-score is no worse
    /// than the current cell's.
    pub open spec fn viable_detour(
        self,
        map: WorldMap,
        current_pos: Node,
        next_best: Node,
        time: u32,
        q: (u32, u32),
    ) -> bool {
        &&& self.cost_so_far@.len() == map.width * map.height
        &&& in_bounds(map.width, map.height, q)
        &&& adjacent(current_pos.pos, q)
        &&& q != next_best.pos
        &&& map.reserved_by(time as int, q) is None
        &&& match self.entry(map.width, q) {
            Some(n) => n.f_score <= current_pos.f_score,
            None => false,
        }
    }

    /// Resolves a blocked move: among the current cell's neighbors that are
    /// free at window offset `time` (skipping the blocked cell `next_best`),
    /// returns the one with the lowest f-score not above the current cell's,
    /// and the current cell itself when no such neighbor exists. Resumes the
    /// reverse search first for neighbors it has not costed yet, so the
    /// choice is made over settled entries.
    #[verifier::loop_isolation(false)]
    #[verifier::rlimit(100)]
    pub fn process_neighbors(
        &mut self,
        current_pos: Node,
        next_best: Node,
        map: &WorldMap,
        time: u32,
    ) -> (r: Node)
        requires
            map.wf(),
            in_bounds(map.width, map.height, current_pos.pos),
            time < WINDOW_SIZE,
            old(self).search_wf(map.data@, map.width, map.height),
        ensures
            final(self).search_wf(map.data@, map.width, map.height),
            old(self).search_state_wf(map.data@, map.width, map.height) ==> final(self).search_state_wf(map.data@, map.width, map.height),
            old(self).search_state_wf(map.data@, map.width, map.height) ==> forall|p: (u32, u32)|
                in_bounds(map.width, map.height, p) && old(self).entry(map.width, p) is Some ==> (
                #[trigger] final(self).entry(map.width, p)) is Some,
            final(self).same_identity(*old(self)),
            forall|q: (u32, u32)|
                in_bounds(map.width, map.height, q) && adjacent(current_pos.pos, q) && q
                    != next_best.pos && map.reserved_by(time as int, q) is None && passable_at(
                    map.data@,
                    map.width,
                    q,
                ) && in_bounds(map.width, map.height, old(self).goal.pos) && passable_at(
                    map.data@,
                    map.width,
                    old(self).goal.pos,
                ) && reachable(map.data@, map.width, map.height, old(self).goal.pos, q) ==> (
                #[trigger] final(self).entry(map.width, q)) is Some,
            r == current_pos || ({
                &&& in_bounds(map.width, map.height, r.pos)
                &&& passable_at(map.data@, map.width, r.pos)
                &&& adjacent(current_pos.pos, r.pos)
                &&& r.pos != next_best.pos
                &&& map.reserved_by(time as int, r.pos) is None
                &&& r.f_score <= current_pos.f_score
                &&& final(self).entry(map.width, r.pos) == Some(r)
            }),
            (exists|q: (u32, u32)|
                #[trigger] final(self).viable_detour(*map, current_pos, next_best, time, q)) ==> r
                != current_pos,
            forall|q: (u32, u32)|
                #[trigger] final(self).viable_detour(*map, current_pos, next_best, time, q)
                    ==> match final(self).entry(map.width, q) {
                    Some(n) => r.f_score <= n.f_score,
                    None => true,
                },
    {
        let width: u32 = map.width;
        let height: u32 = map.height;
        proof {
            assert(width * height >= 1) by (nonlinear_arith)
                requires
                    width >= 1,
                    height >= 1,
            ;
        }
        let neigh: Vec<(u32, u32)> = map.get_neighbors(current_pos);
        let goal_node: Node = self.goal;
        // first pass: give every candidate neighbor the partial search has
        // not costed yet its chance, by resuming the search toward it
        let mut j: usize = 0;
        while j < neigh.len()
            invariant
                j <= neigh@.len(),
                self.search_wf(map.data@, width, height),
                old(self).search_state_wf(map.data@, width, height) ==> self.search_state_wf(
                    map.data@,
                    width,
                    height,
                ),
                old(self).search_state_wf(map.data@, width, height) ==> forall|p: (u32, u32)|
                    in_bounds(width, height, p) && old(self).entry(width, p) is Some ==> (
                    #[trigger] self.entry(width, p)) is Some,
                self.same_identity(*old(self)),
                forall|jj: int|
                    0 <= jj < j && neigh@[jj] != next_best.pos && map.reserved_by(
                        time as int,
                        neigh@[jj],
                    ) is None && passable_at(map.data@, width, neigh@[jj]) && in_bounds(
                        width,
                        height,
                        old(self).goal.pos,
                    ) && passable_at(map.data@, width, old(self).goal.pos) && reachable(
                        map.data@,
                        width,
                        height,
                        old(self).goal.pos,
                        neigh@[jj],
                    ) ==> (self.cost_so_far@.len() == width * height && (#[trigger] self.entry(
                        width,
                        neigh@[jj],
                    )) is Some),
            decreases neigh@.len() - j,
        {
            let q: (u32, u32) = neigh[j];
            if !(q.0 == next_best.pos.0 && q.1 == next_best.pos.1) {
                if map.reservation_at(time, q).is_none() {
                    let mut known: bool = self.cost_so_far.len() > 0;
                    if known {
                        let idx_q: usize = cell_idx(width, height, q);
                        known = self.cost_so_far[idx_q].is_some();
                    }
                    if !known {
                        let probe: Node = Node::from((q.0, q.1, map.get_cost(q)));
                        let costed: bool = self.get_true_distance_heuristic(
                            map,
                            probe,
                            goal_node,
                        );
                        proof {
                            if passable_at(map.data@, width, q) && in_bounds(
                                width,
                                height,
                                old(self).goal.pos,
                            ) && passable_at(map.data@, width, old(self).goal.pos) && reachable(
                                map.data@,
                                width,
                                height,
                                old(self).goal.pos,
                                q,
                            ) {
                                // the resume toward the cell accepted both
                                // endpoints, so it either expanded the cell
                                // or exhausted everything reachable from
                                // the goal, which includes the cell
                                assert(costed);
                                if self.entry(width, q) is None {
                                    assert(false);
                                }
                                assert(self.search_state_wf(map.data@, width, height));
                            }
                        }
                    }
                }
            }
            j = j + 1;
        }
        // second pass: over the now-settled entries, pick the free neighbor
        // with the lowest f-score not above the current cell's
        let mut best_neighbor: Node = current_pos;
        let mut have: bool = false;
        let mut jj: usize = 0;
        while jj < neigh.len()
            invariant
                jj <= neigh@.len(),
                !have ==> best_neighbor == current_pos,
                !have ==> forall|l: int|
                    0 <= l < jj ==> !self.viable_detour(
                        *map,
                        current_pos,
                        next_best,
                        time,
                        #[trigger] neigh@[l],
                    ),
                have ==> self.viable_detour(*map, current_pos, next_best, time, best_neighbor.pos)
                    && self.entry(width, best_neighbor.pos) == Some(best_neighbor),
                have ==> forall|l: int|
                    0 <= l < jj && self.viable_detour(
                        *map,
                        current_pos,
                        next_best,
                        time,
                        #[trigger] neigh@[l],
                    ) ==> match self.entry(width, neigh@[l]) {
                        Some(n) => best_neighbor.f_score <= n.f_score,
                        None => true,
                    },
            decreases neigh@.len() - jj,
        {
            let q: (u32, u32) = neigh[jj];
            let mut candidate: Option<Node> = None;
            if !(q.0 == next_best.pos.0 && q.1 == next_best.pos.1) {
                if map.reservation_at(time, q).is_none() {
                    if self.cost_so_far.len() > 0 {
                        let idx_q: usize = cell_idx(width, height, q);
                        let found: Option<Node> = self.cost_so_far[idx_q];
                        match found {
                            Some(n) => {
                                if n.f_score <= current_pos.f_score {
                                    proof {
                                        assert(self.entry(width, q) == Some(n));
                                        assert(!self.search_is_fresh());
                                        assert(self.search_state_wf(map.data@, width, height));
                                        assert(n.pos == q);
                                    }
                                    candidate = Some(n);
                                }
                            },
                            None => {},
                        }
                    }
                }
            }
            match candidate {
                Some(n) => {
                    proof {
                        assert(self.viable_detour(*map, current_pos, next_best, time, q));
                    }
                    if !have {
                        best_neighbor = n;
                        have = true;
                    } else if n.f_score < best_neighbor.f_score {
                        best_neighbor = n;
                    }
                },
                None => {
                    proof {
                        assert(!self.viable_detour(*map, current_pos, next_best, time, q));
                    }
                },
            }
            jj = jj + 1;
        }
        proof {
            if exists|q: (u32, u32)|
                #[trigger] self.viable_detour(*map, current_pos, next_best, time, q) {
                let q = choose|q: (u32, u32)|
                    #[trigger] self.viable_detour(*map, current_pos, next_best, time, q);
                assert(neigh@.contains(q));
                let l = choose|l: int| 0 <= l < neigh@.len() && neigh@[l] == q;
                assert(have);
            }
            if have {
                assert(self.cost_so_far@.len() >= 1);
                assert(!self.search_is_fresh());
                assert(self.search_state_wf(map.data@, width, height));
                assert(passable_at(map.data@, width, best_neighbor.pos));
                assert(best_neighbor.pos != current_pos.pos);
            }
        }
        best_neighbor
    }

    /// One parked window step: the agent stays on its goal cell, reserves it
    /// at offset `i`, and raises the goal cell's cost to the soft obstacle
    /// value, so that other agents treat the parked agent as expensive but
    /// not impossible to path through.
    #[verifier::loop_isolation(false)]
    #[verifier::rlimit(100)]
    fn park_step(&mut self, map: &mut WorldMap, i: u32)
        requires
            old(map).wf(),
            i < WINDOW_SIZE,
            in_bounds(old(map).width, old(map).height, old(self).current_node.pos),
            passable_at(old(map).data@, old(map).width, old(self).current_node.pos),
            old(self).current_node.pos == old(self).goal.pos,
            old(self).search_wf(old(map).data@, old(map).width, old(map).height),
        ensures
            final(map).wf(),
            final(map).width == old(map).width,
            final(map).height == old(map).height,
            final(map).agents == old(map).agents,
            final(map).data@.len() == old(map).data@.len(),
            forall|k: int|
                0 <= k < old(map).data@.len() && k != cell_index(
                    old(map).width,
                    old(self).goal.pos,
                ) ==> final(map).data@[k] == old(map).data@[k],
            forall|p: (u32, u32)|
                in_bounds(old(map).width, old(map).height, p) ==> (#[trigger] passable_at(
                    final(map).data@,
                    old(map).width,
                    p,
                ) <==> passable_at(old(map).data@, old(map).width, p)),
            final(map).data@[cell_index(old(map).width, old(self).goal.pos)]
                == SOFT_OBSTACLE_COST,
            final(map).reserved_by(i as int, old(self).current_node.pos) == Some(old(self).id),
            forall|t2: int, p2: (u32, u32)|
                0 <= t2 < WINDOW_SIZE && in_bounds(old(map).width, old(map).height, p2) && !(t2
                    == i && p2 == old(self).current_node.pos) ==> final(map).reserved_by(t2, p2)
                    == old(map).reserved_by(t2, p2),
            final(self).search_wf(final(map).data@, old(map).width, old(map).height),
            final(self).portion_path@ == old(self).portion_path@.push(old(self).current_node),
            final(self).current_node == old(self).current_node,
            final(self).is_walking == false,
            final(self).id == old(self).id,
            final(self).name == old(self).name,
            final(self).start == old(self).start,
            final(self).goal == old(self).goal,
    {
        let width: u32 = map.width;
        let height: u32 = map.height;
        let ghost agent_at_entry = *old(self);
        self.portion_path.push(self.current_node);
        map.reserve(i, self.current_node.pos, self.id);
        self.is_walking = false;
        proof {
            agent_at_entry.lemma_search_wf_same_fields(*self, map.data@, width, height);
        }
        let idx_g: usize = cell_idx(width, height, self.current_node.pos);
        let ghost pre_data = map.data@;
        if map.data[idx_g] != INFINITE_COST {
            map.data[idx_g] = SOFT_OBSTACLE_COST;
        }
        proof {
            assert forall|p: (u32, u32)| in_bounds(width, height, p) implies (
            #[trigger] passable_at(map.data@, width, p) <==> passable_at(pre_data, width, p)) by {
                crate::grid::lemma_cell_index_bound(width, height, p);
            }
            self.lemma_search_wf_mask_transfer(pre_data, map.data@, width, height);
            assert forall|k: int| 0 <= k < map.data@.len() implies 1 <= #[trigger] map.data@[k] by {}
            assert(map.wf());
        }
    }

    /// One moving window step: follows the back-pointer toward the goal,
    /// detouring through a neighbor or waiting in place when the reservation
    /// table shows the cell ahead held by another agent at offset `i` or a
    /// head-on pass-through, then reserves the chosen cell and moves there.
    #[verifier::loop_isolation(false)]
    #[verifier::rlimit(100)]
    fn advance_step(&mut self, map: &mut WorldMap, i: u32)
        requires
            old(map).wf(),
            i < WINDOW_SIZE,
            in_bounds(old(map).width, old(map).height, old(self).current_node.pos),
            passable_at(old(map).data@, old(map).width, old(self).current_node.pos),
            old(self).current_node.pos != old(self).goal.pos,
            old(self).search_state_wf(old(map).data@, old(map).width, old(map).height),
            old(self).came(old(map).width, old(self).current_node.pos) is Some,
        ensures
            final(map).wf(),
            final(map).width == old(map).width,
            final(map).height == old(map).height,
            final(map).agents == old(map).agents,
            final(map).data == old(map).data,
            final(map).reserved_by(i as int, final(self).current_node.pos) == Some(old(self).id),
            forall|t2: int, p2: (u32, u32)|
                0 <= t2 < WINDOW_SIZE && in_bounds(old(map).width, old(map).height, p2) && !(t2
                    == i && p2 == final(self).current_node.pos) ==> final(map).reserved_by(t2, p2)
                    == old(map).reserved_by(t2, p2),
            final(self).search_state_wf(old(map).data@, old(map).width, old(map).height),
            final(self).portion_path@ == old(self).portion_path@.push(final(self).current_node),
            in_bounds(old(map).width, old(map).height, final(self).current_node.pos),
            passable_at(old(map).data@, old(map).width, final(self).current_node.pos),
            final(self).current_node.pos == old(self).current_node.pos || adjacent(
                old(self).current_node.pos,
                final(self).current_node.pos,
            ),
            final(self).current_node.pos == final(self).goal.pos || final(self).came(
                old(map).width,
                final(self).current_node.pos,
            ) is Some,
            final(self).id == old(self).id,
            final(self).name == old(self).name,
            final(self).start == old(self).start,
            final(self).goal == old(self).goal,
            final(self).current_node.pos != old(self).current_node.pos ==> (old(
                map,
            ).reserved_by(i as int, final(self).current_node.pos) is None || old(map).reserved_by(
                i as int,
                final(self).current_node.pos,
            ) == Some(old(self).id)),
            match old(self).came(old(map).width, old(self).current_node.pos) {
                Some(next) => match old(self).entry(old(map).width, next) {
                    Some(nb) => {
                        &&& (!(advance_blocked(*old(map), *old(self), i, next)) ==> final(self)
                            .current_node.pos == next)
                        &&& (advance_blocked(*old(map), *old(self), i, next) ==> final(self)
                            .current_node.pos == old(self).current_node.pos || final(self)
                            .viable_detour(
                            *old(map),
                            old(self).current_node,
                            nb,
                            i,
                            final(self).current_node.pos,
                        ))
                    },
                    None => true,
                },
                None => true,
            },
    {
        let width: u32 = map.width;
        let height: u32 = map.height;
        let idx_c: usize = cell_idx(width, height, self.current_node.pos);
        let next_pos: (u32, u32) = self.came_from[idx_c].unwrap();
        proof {
            assert(self.came(width, self.current_node.pos) == Some(next_pos));
        }
        let idx_n: usize = cell_idx(width, height, next_pos);
        let mut next_best: Node = self.cost_so_far[idx_n].unwrap();
        proof {
            assert(self.entry(width, next_pos) == Some(next_best));
            assert(next_best.pos == next_pos);
        }
        let res_here: Option<u32> = map.reservation_at(i, next_best.pos);
        let occupied_by_other: bool = match res_here {
            Some(other) => other != self.id,
            None => false,
        };
        let mut resolve: bool = occupied_by_other;
        if !resolve && i > 0 {
            // the agent that held the cell ahead one step ago may be moving
            // into this agent's cell: a head-on pass-through
            let prev_owner: Option<u32> = map.reservation_at(i - 1, next_best.pos);
            match prev_owner {
                Some(other_agent) => {
                    let here_now: Option<u32> = map.reservation_at(i, self.current_node.pos);
                    match here_now {
                        Some(h) => {
                            resolve = other_agent == h;
                        },
                        None => {},
                    }
                },
                None => {},
            }
        }
        if resolve {
            let cn: Node = self.current_node;
            let bn: Node = self.process_neighbors(cn, next_best, map, i);
            map.reserve(i, bn.pos, self.id);
            next_best = bn;
        } else {
            map.reserve(i, next_best.pos, self.id);
        }
        proof {
            assert(!self.search_is_fresh());
            assert(self.search_state_wf(map.data@, width, height));
            assert(self.entry(width, next_best.pos) is Some);
            assert(in_bounds(width, height, next_best.pos));
            assert(passable_at(map.data@, width, next_best.pos));
        }
        let ghost agent_before_step = *self;
        self.portion_path.push(next_best);
        self.current_node = next_best;
        proof {
            agent_before_step.lemma_search_wf_same_fields(*self, map.data@, width, height);
            assert(!self.search_is_fresh());
            assert(self.search_state_wf(map.data@, width, height));
            if self.current_node.pos != self.goal.pos {
                assert(self.current_node.pos != self.origin());
                assert(self.came(width, self.current_node.pos) is Some);
            }
        }
    }

    /// The value the diagnostic heuristic view shows for a cell: the f-score
    /// the reverse search recorded for it, or the raw grid cost where the
    /// search has no entry yet.
    pub open spec fn heuristic_field(self, data: Seq<u32>, width: u32, p: (u32, u32)) -> u32 {
        if self.cost_so_far@.len() > 0 {
            match self.entry(width, p) {
                Some(n) => n.f_score,
                None => data[cell_index(width, p)],
            }
        } else {
            data[cell_index(width, p)]
        }
    }

    /// Diagnostic read interface: the heuristic value recorded for the cell
    /// at `(x, y)`, falling back to the raw grid cost where the search has
    /// not reached the cell. A renderer can print the whole field from this.
    pub fn heuristic_at(&self, map: &WorldMap, x: u32, y: u32) -> (r: u32)
        requires
            map.wf_grid(),
            in_bounds(map.width, map.height, (x, y)),
            self.search_wf(map.data@, map.width, map.height),
        ensures
            r == self.heuristic_field(map.data@, map.width, (x, y)),
    {
        let width: u32 = map.width;
        let height: u32 = map.height;
        if self.cost_so_far.len() > 0 {
            let idx: usize = cell_idx(width, height, (x, y));
            match self.cost_so_far[idx] {
                Some(n) => n.f_score,
                None => map.get_cost((x, y)),
            }
        } else {
            map.get_cost((x, y))
        }
    }

    /// Plans one full window of steps for this agent against the shared
    /// reservation table. An agent already at its goal parks: it reserves
    /// its cell for the whole window and raises the goal cell's cost to the
    /// soft obstacle value. Otherwise each step follows the back-pointer
    /// toward the goal, detouring through `process_neighbors` when the cell
    /// ahead is held by another agent at that offset or a head-on
    /// pass-through threatens. An agent whose current cell has no route
    /// information (an unreachable goal) plans nothing. The buffer ends
    /// reversed, so steps pop from the end in chronological order.
    #[verifier::loop_isolation(false)]
    #[verifier::rlimit(100)]
    pub fn set_portion_path(&mut self, map: &mut WorldMap)
        requires
            old(map).wf(),
            in_bounds(old(map).width, old(map).height, old(self).current_node.pos),
            passable_at(old(map).data@, old(map).width, old(self).current_node.pos),
            in_bounds(old(map).width, old(map).height, old(self).goal.pos),
            old(self).search_wf(old(map).data@, old(map).width, old(map).height),
            old(self).portion_path@.len() == 0,
        ensures
            final(map).wf(),
            final(map).width == old(map).width,
            final(map).height == old(map).height,
            final(map).agents == old(map).agents,
            final(map).data@.len() == old(map).data@.len(),
            forall|k: int|
                0 <= k < old(map).data@.len() && k != cell_index(
                    old(map).width,
                    old(self).goal.pos,
                ) ==> final(map).data@[k] == old(map).data@[k],
            forall|p: (u32, u32)|
                in_bounds(old(map).width, old(map).height, p) ==> (#[trigger] passable_at(
                    final(map).data@,
                    old(map).width,
                    p,
                ) <==> passable_at(old(map).data@, old(map).width, p)),
            final(self).search_wf(final(map).data@, old(map).width, old(map).height),
            final(self).id == old(self).id,
            final(self).name == old(self).name,
            final(self).start == old(self).start,
            final(self).goal == old(self).goal,
            final(self).portion_path@.len() == WINDOW_SIZE || final(self).portion_path@.len()
                == 0,
            final(self).portion_path@.len() == WINDOW_SIZE <==> (old(self).current_node.pos == old(
                self,
            ).goal.pos || (old(self).cost_so_far@.len() > 0 && old(self).came(
                old(map).width,
                old(self).current_node.pos,
            ) is Some)),
            steps_ok(
                final(map).data@,
                old(map).width,
                old(map).height,
                old(self).current_node.pos,
                final(self).portion_path@.reverse(),
            ),
            forall|k: int|
                0 <= k < final(self).portion_path@.len() ==> final(map).reserved_by(
                    k,
                    (#[trigger] final(self).portion_path@.reverse()[k]).pos,
                ) == Some(old(self).id),
            forall|t: int, p: (u32, u32)|
                0 <= t < WINDOW_SIZE && in_bounds(old(map).width, old(map).height, p) && !(t
                    < final(self).portion_path@.len() && p == final(self).portion_path@.reverse()[
                    t
                ].pos) ==> final(map).reserved_by(t, p) == old(map).reserved_by(t, p),
            forall|t: int|
                #![trigger final(self).portion_path@.reverse()[t]]
                0 <= t < final(self).portion_path@.len() ==> (final(self)
                    .portion_path@.reverse()[t].pos != (if t == 0 {
                    old(self).current_node.pos
                } else {
                    final(self).portion_path@.reverse()[t - 1].pos
                }) ==> old(map).reserved_by(t, final(self).portion_path@.reverse()[t].pos) is None
                    || old(map).reserved_by(t, final(self).portion_path@.reverse()[t].pos) == Some(
                    old(self).id,
                )),
            final(self).portion_path@.len() == 0 ==> *final(self) == (Agent {
                is_walking: true,
                ..*old(self)
            }) && *final(map) == *old(map),
            final(self).portion_path@.len() > 0 ==> final(self).current_node == final(self)
                .portion_path@.reverse()[final(self).portion_path@.len() - 1],
            old(self).current_node.pos == old(self).goal.pos ==> final(self).is_walking
                == false,
            old(self).current_node.pos == old(self).goal.pos ==> ({
                &&& final(self).portion_path@.len() == WINDOW_SIZE
                &&& (forall|k: int|
                    0 <= k < final(self).portion_path@.len() ==> (
                    #[trigger] final(self).portion_path@[k]) == old(self).current_node)
                &&& final(map).data@[cell_index(old(map).width, old(self).goal.pos)]
                    == SOFT_OBSTACLE_COST
                &&& final(self).current_node == old(self).current_node
            }),
    {
        self.is_walking = true;
        let width: u32 = map.width;
        let height: u32 = map.height;
        proof {
            assert(width * height >= 1) by (nonlinear_arith)
                requires
                    width >= 1,
                    height >= 1,
            ;
            old(self).lemma_search_wf_same_fields(*self, map.data@, width, height);
        }
        if !(self.current_node.pos.0 == self.goal.pos.0 && self.current_node.pos.1
            == self.goal.pos.1) {
            let mut missing: bool = self.came_from.len() == 0;
            if !missing {
                let idx_c: usize = cell_idx(width, height, self.current_node.pos);
                missing = self.came_from[idx_c].is_none();
            }
            if missing {
                // the goal was unreachable when the search ran: skip step
                // generation for this window rather than follow an absent
                // back-pointer
                return ;
            }
            proof {
                assert(!self.search_is_fresh());
                assert(self.search_state_wf(map.data@, width, height));
                assert(self.came(width, self.current_node.pos) is Some);
            }
        }
        let mut i: u32 = 0;
        while i < WINDOW_SIZE
            invariant
                i <= WINDOW_SIZE,
                map.wf(),
                map.width == width,
                map.height == height,
                map.agents == old(map).agents,
                map.data@.len() == old(map).data@.len(),
                forall|k: int|
                    0 <= k < old(map).data@.len() && k != cell_index(width, old(self).goal.pos)
                        ==> map.data@[k] == old(map).data@[k],
                forall|p: (u32, u32)|
                    in_bounds(width, height, p) ==> (#[trigger] passable_at(map.data@, width, p)
                        <==> passable_at(old(map).data@, width, p)),
                self.search_wf(map.data@, width, height),
                self.id == old(self).id,
                self.name == old(self).name,
                self.start == old(self).start,
                self.goal == old(self).goal,
                self.portion_path@.len() == i,
                steps_ok(map.data@, width, height, old(self).current_node.pos, self.portion_path@),
                forall|k: int|
                    0 <= k < i ==> map.reserved_by(k, (#[trigger] self.portion_path@[k]).pos)
                        == Some(old(self).id),
                forall|t: int, p: (u32, u32)|
                    0 <= t < WINDOW_SIZE && in_bounds(width, height, p) && !(t < i && p
                        == self.portion_path@[t].pos) ==> map.reserved_by(t, p) == old(
                        map,
                    ).reserved_by(t, p),
                forall|t: int|
                    #![trigger self.portion_path@[t]]
                    0 <= t < i ==> (self.portion_path@[t].pos != (if t == 0 {
                        old(self).current_node.pos
                    } else {
                        self.portion_path@[t - 1].pos
                    }) ==> old(map).reserved_by(t, self.portion_path@[t].pos) is None || old(
                        map,
                    ).reserved_by(t, self.portion_path@[t].pos) == Some(old(self).id)),
                old(self).current_node.pos == old(self).goal.pos && i > 0 ==> self.is_walking
                    == false,
                i == 0 ==> self.current_node == old(self).current_node,
                i > 0 ==> self.current_node == self.portion_path@[i - 1],
                in_bounds(width, height, self.current_node.pos),
                passable_at(map.data@, width, self.current_node.pos),
                self.current_node.pos == self.goal.pos || (self.search_state_wf(
                    map.data@,
                    width,
                    height,
                ) && self.came(width, self.current_node.pos) is Some),
                old(self).current_node.pos == old(self).goal.pos ==> (forall|k: int|
                    0 <= k < i ==> (#[trigger] self.portion_path@[k]) == old(self).current_node)
                    && self.current_node == old(self).current_node,
                old(self).current_node.pos == old(self).goal.pos && i > 0 ==> map.data@[cell_index(
                    width,
                    old(self).goal.pos,
                )] == SOFT_OBSTACLE_COST,
            decreases WINDOW_SIZE - i,
        {
            let ghost head_self = *self;
            let ghost head_map = *map;
            if self.current_node.pos.0 == self.goal.pos.0 && self.current_node.pos.1
                == self.goal.pos.1 {
                self.park_step(map, i);
            } else {
                self.advance_step(map, i);
            }
            proof {
                assert(steps_ok(
                    map.data@,
                    width,
                    height,
                    old(self).current_node.pos,
                    self.portion_path@,
                ));
                assert forall|k: int| 0 <= k < i + 1 implies map.reserved_by(
                    k,
                    (#[trigger] self.portion_path@[k]).pos,
                ) == Some(old(self).id) by {
                    if k < i {
                        assert(head_map.reserved_by(k, self.portion_path@[k].pos) == Some(
                            old(self).id,
                        ));
                    }
                }
            }
            i = i + 1;
        }
        // reverse the buffer: the driver consumes steps by popping from the
        // end, so the first planned step must sit last
        let ghost chron = self.portion_path@;
        let ghost before_rev = *self;
        let mut rev: Vec<Node> = Vec::new();
        while self.portion_path.len() > 0
            invariant
                rev@.len() + self.portion_path@.len() == chron.len(),
                self.portion_path@ == chron.subrange(0, self.portion_path@.len() as int),
                forall|k: int|
                    0 <= k < rev@.len() ==> #[trigger] rev@[k] == chron[chron.len() - 1 - k],
                *self == (Agent { portion_path: self.portion_path, ..before_rev }),
            decreases self.portion_path@.len(),
        {
            proof {
                assert(self.portion_path@.last() == chron[self.portion_path@.len() - 1]);
            }
            let n: Node = self.portion_path.pop().unwrap();
            rev.push(n);
            proof {
                assert(self.portion_path@ =~= chron.subrange(0, self.portion_path@.len() as int));
            }
        }
        self.portion_path = rev;
        proof {
            assert(self.portion_path@.reverse() =~= chron);
            before_rev.lemma_search_wf_same_fields(*self, map.data@, width, height);
        }
    }
}

} // verus!
