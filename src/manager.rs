use vstd::prelude::*;
use crate::graph::{grid_graph, Node};
use crate::grid::{manhattan, Point};
use crate::metrics::{TaskMetric, TaskMetricsCollector};
use crate::neighbors::has_node;
use crate::tasks::{Task, TaskGeneratorAgent};
use crate::text::{chars_of, same_chars};
use crate::tswap::{agents_in_graph, positions, tswap_step, Agent};

verus! {

/// Where an assigned agent is in its task.
#[derive(Clone, Copy, Debug, PartialEq, Eq, Structural)]
pub enum TaskPhase {
    Idle,
    MovingToPickup,
    MovingToDelivery,
}

/// The manager's view of one agent.
pub struct AgentRecord {
    pub peer_id: String,
    pub current_pos: Point,
    pub goal_pos: Option<Point>,
    pub task: Option<Task>,
    pub task_phase: TaskPhase,
}

/// A move the manager orders: `peer_id` goes to `next_pos`.
pub struct MoveInstruction {
    pub peer_id: String,
    pub next_pos: Point,
    pub timestamp: u64,
}

/// The vertex at cell `p`, if any.
fn node_of(nodes: &[Node], p: Point) -> (r: Option<usize>)
    ensures
        r is Some ==> (r->0 as int) < nodes@.len() && nodes@[r->0 as int].pos == p,
        r is None ==> !has_node(nodes@, p),
{
    let mut k: usize = 0;
    while k < nodes.len()
        invariant
            k <= nodes@.len(),
            forall|j: int| 0 <= j < k ==> nodes@[j].pos != p,
        decreases nodes@.len() - k,
    {
        if nodes[k].pos.0 == p.0 && nodes[k].pos.1 == p.1 {
            return Some(k);
        }
        k = k + 1;
    }
    None
}


/// The vertex of cell `p`, vertex 0 when `p` is not a vertex.
pub open spec fn vertex_or_zero(nodes: Seq<Node>, p: Point) -> usize {
    if has_node(nodes, p) {
        crate::neighbors::node_index(nodes, p) as usize
    } else {
        0
    }
}

/// The TSWAP agents of a planning tick: agent `i` on the vertex of its cell,
/// aiming at the vertex of its goal (its own vertex without a known goal).
pub open spec fn fleet_of(nodes: Seq<Node>, a: Seq<AgentRecord>) -> Seq<Agent> {
    Seq::new(
        a.len(),
        |i: int|
            {
                let v = vertex_or_zero(nodes, a[i].current_pos);
                let g = match a[i].goal_pos {
                    Some(goal) => if has_node(nodes, goal) {
                        crate::neighbors::node_index(nodes, goal) as usize
                    } else {
                        v
                    },
                    None => v,
                };
                Agent { id: i as usize, v, g }
            },
    )
}

/// No two records share a cell.
pub open spec fn cells_distinct(s: Seq<AgentRecord>) -> bool {
    forall|i: int, j: int| 0 <= i < s.len() && 0 <= j < s.len() && i != j ==> s[i].current_pos != s[j].current_pos
}

/// One central planning tick: every agent becomes a TSWAP agent at the vertex
/// of its cell (vertex 0 for an unknown cell) aiming at the vertex of its goal
/// (its own vertex without one), one TSWAP step runs, and each agent's new cell
/// is recorded and ordered, stamped `timestamp`. Agents on known cells stay or
/// move to a 4-adjacent cell; if they all stood on distinct known cells, they
/// still do.
pub fn plan_all_paths(agents: &mut Vec<AgentRecord>, nodes: &[Node], timestamp: u64) -> (instructions: Vec<MoveInstruction>)
    requires
        grid_graph(nodes@),
    ensures
        final(agents)@.len() == old(agents)@.len(),
        instructions@.len() == old(agents)@.len(),
        forall|i: int|
            0 <= i < instructions@.len() ==> {
                &&& (#[trigger] instructions@[i]).peer_id@ == old(agents)@[i].peer_id@
                &&& instructions@[i].next_pos == final(agents)@[i].current_pos
                &&& instructions@[i].timestamp == timestamp
                &&& final(agents)@[i].peer_id == old(agents)@[i].peer_id
                &&& final(agents)@[i].goal_pos == old(agents)@[i].goal_pos
                &&& final(agents)@[i].task == old(agents)@[i].task
                &&& final(agents)@[i].task_phase == old(agents)@[i].task_phase
            },
        forall|i: int|
            0 <= i < final(agents)@.len() && has_node(nodes@, old(agents)@[i].current_pos) ==> {
                let (p, q) = ((#[trigger] final(agents)@[i]).current_pos, old(agents)@[i].current_pos);
                p == q || manhattan(p, q) == 1
            },
        (forall|i: int| 0 <= i < old(agents)@.len() ==> has_node(nodes@, #[trigger] old(agents)@[i].current_pos))
            && cells_distinct(old(agents)@) ==> cells_distinct(final(agents)@),
        nodes@.len() > 0 ==> forall|i: int|
            0 <= i < final(agents)@.len() ==> (#[trigger] final(agents)@[i]).current_pos == nodes@[crate::tswap::phase_b(
                nodes@,
                crate::tswap::after_phase_a(nodes@, fleet_of(nodes@, old(agents)@)),
            )[i] as int].pos,
{
    let n = agents.len();
    let ghost a0 = agents@;
    let mut instructions: Vec<MoveInstruction> = Vec::new();
    if nodes.len() == 0 {
        let mut i: usize = 0;
        while i < n
            invariant
                agents@ == a0,
                n == a0.len(),
                i <= n,
                nodes@.len() == 0,
                instructions@.len() == i,
                forall|k: int|
                    0 <= k < i ==> {
                        &&& (#[trigger] instructions@[k]).peer_id@ == a0[k].peer_id@
                        &&& instructions@[k].next_pos == a0[k].current_pos
                        &&& instructions@[k].timestamp == timestamp
                    },
            decreases n - i,
        {
            instructions.push(MoveInstruction { peer_id: agents[i].peer_id.clone(), next_pos: agents[i].current_pos, timestamp });
            i = i + 1;
        }
        return instructions;
    }
    let mut fleet: Vec<Agent> = Vec::new();
    let mut i: usize = 0;
    while i < n
        invariant
            agents@ == a0,
            n == a0.len(),
            nodes@.len() > 0,
            i <= n,
            fleet@.len() == i,
            agents_in_graph(fleet@, nodes@.len() as int),
            forall|k: int| 0 <= k < i && has_node(nodes@, a0[k].current_pos) ==> nodes@[(#[trigger] fleet@[k]).v as int].pos == a0[k].current_pos,
            grid_graph(nodes@),
            forall|k: int| 0 <= k < i ==> #[trigger] fleet@[k] == fleet_of(nodes@, a0)[k],
        decreases n - i,
    {
        let v = match node_of(nodes, agents[i].current_pos) {
            Some(v) => v,
            None => 0,
        };
        let g = match agents[i].goal_pos {
            Some(goal) => match node_of(nodes, goal) {
                Some(w) => w,
                None => v,
            },
            None => v,
        };
        proof {
            if has_node(nodes@, a0[i as int].current_pos) {
                let j = choose|j: int| 0 <= j < nodes@.len() && nodes@[j].pos == a0[i as int].current_pos;
            }
            let p = a0[i as int].current_pos;
            if has_node(nodes@, p) {
                crate::neighbors::lemma_node_index(nodes@, p, v as int);
            }
            match a0[i as int].goal_pos {
                Some(goal) => {
                    if has_node(nodes@, goal) {
                        let w = crate::neighbors::node_index(nodes@, goal);
                        assert(0 <= w < nodes@.len() && nodes@[w].pos == goal);
                        assert(g as int == w) by {
                            assert(nodes@[g as int].pos == goal);
                            assert(grid_graph(nodes@));
                        }
                    }
                },
                None => {},
            }
            assert(Agent { id: i, v, g } == fleet_of(nodes@, a0)[i as int]);
        }
        fleet.push(Agent { id: i, v, g });
        i = i + 1;
    }
    let ghost f0 = fleet@;
    assert(f0 =~= fleet_of(nodes@, a0));
    proof {
        if (forall|i: int| 0 <= i < a0.len() ==> has_node(nodes@, #[trigger] a0[i].current_pos)) && cells_distinct(a0) {
            assert forall|x: int, y: int| 0 <= x < n && 0 <= y < n && x != y implies f0[x].v != f0[y].v by {
                assert(has_node(nodes@, a0[x].current_pos));
                assert(has_node(nodes@, a0[y].current_pos));
            }
        }
    }
    tswap_step(&mut fleet, nodes);
    let mut i: usize = 0;
    assert(positions(fleet@) == crate::tswap::phase_b(nodes@, crate::tswap::after_phase_a(nodes@, fleet_of(nodes@, a0))));
    while i < n
        invariant
            grid_graph(nodes@),
            n == a0.len(),
            agents@.len() == n,
            fleet@.len() == n,
            agents_in_graph(fleet@, nodes@.len() as int),
            i <= n,
            instructions@.len() == i,
            forall|k: int|
                0 <= k < n ==> {
                    &&& (#[trigger] agents@[k]).peer_id == a0[k].peer_id
                    &&& agents@[k].goal_pos == a0[k].goal_pos
                    &&& agents@[k].task == a0[k].task
                    &&& agents@[k].task_phase == a0[k].task_phase
                },
            forall|k: int| 0 <= k < i ==> #[trigger] agents@[k].current_pos == nodes@[fleet@[k].v as int].pos,
            forall|k: int| i <= k < n ==> #[trigger] agents@[k].current_pos == a0[k].current_pos,
            positions(fleet@) == crate::tswap::phase_b(nodes@, crate::tswap::after_phase_a(nodes@, fleet_of(nodes@, a0))),
            forall|k: int|
                0 <= k < i ==> {
                    &&& (#[trigger] instructions@[k]).peer_id@ == a0[k].peer_id@
                    &&& instructions@[k].next_pos == agents@[k].current_pos
                    &&& instructions@[k].timestamp == timestamp
                },
        decreases n - i,
    {
        let next_pos = nodes[fleet[i].v].pos;
        let ghost before = agents@;
        agents[i].current_pos = next_pos;
        assert forall|k: int| 0 <= k < n && k != i implies agents@[k] == before[k] by {}
        instructions.push(MoveInstruction { peer_id: agents[i].peer_id.clone(), next_pos, timestamp });
        i = i + 1;
    }
    proof {
        assert forall|i: int|
            0 <= i < n && has_node(nodes@, a0[i].current_pos) implies {
                let (p, q) = ((#[trigger] agents@[i]).current_pos, a0[i].current_pos);
                p == q || manhattan(p, q) == 1
            } by {
            assert(nodes@[f0[i].v as int].pos == a0[i].current_pos);
            if fleet@[i].v != f0[i].v {
                assert(crate::graph::adjacent(nodes@, f0[i].v as int, fleet@[i].v as int));
            }
        }
        if (forall|i: int| 0 <= i < a0.len() ==> has_node(nodes@, #[trigger] a0[i].current_pos)) && cells_distinct(a0) {
            assert forall|x: int, y: int| 0 <= x < n && 0 <= y < n && x != y implies agents@[x].current_pos
                != agents@[y].current_pos by {
                assert(fleet@[x].v != fleet@[y].v);
            }
        }
    }
    instructions
}

/// The centralized manager's bookkeeping: agents in order of registration
/// (one record per peer), the peer of each dispatched task, the last task id
/// issued, the number of requested tasks not yet dispatched, and the ledger.
pub struct Manager {
    pub agents: Vec<AgentRecord>,
    pub task_peers: Vec<(u64, String)>,
    pub task_counter: u64,
    pub pending: usize,
    pub metrics: TaskMetricsCollector,
}

/// One record per peer.
pub open spec fn records_unique(s: Seq<AgentRecord>) -> bool {
    forall|i: int, j: int| 0 <= i < s.len() && 0 <= j < s.len() && i != j ==> s[i].peer_id@ != s[j].peer_id@
}

impl Manager {
    /// Every task id in the ledger or in the task map was issued, i.e. is at
    /// most the counter.
    pub open spec fn wf(&self) -> bool {
        &&& records_unique(self.agents@)
        &&& self.metrics.wf()
        &&& forall|id: u64| #[trigger] self.metrics.row(id) is Some ==> id <= self.task_counter
        &&& forall|k: int| 0 <= k < self.task_peers@.len() ==> (#[trigger] self.task_peers@[k]).0 <= self.task_counter
    }

    pub fn new() -> (m: Manager)
        ensures
            m.wf(),
            m.agents@.len() == 0,
            m.task_peers@.len() == 0,
            m.task_counter == 0,
            m.pending == 0,
    {
        Manager {
            agents: Vec::new(),
            task_peers: Vec::new(),
            task_counter: 0,
            pending: 0,
            metrics: TaskMetricsCollector::new(),
        }
    }

    /// Index of the record of `peer_id`.
    pub fn find_agent(&self, peer_id: &str) -> (r: Option<usize>)
        requires
            self.wf(),
        ensures
            r is Some ==> (r->0 as int) < self.agents@.len() && self.agents@[r->0 as int].peer_id@ == peer_id@,
            r is None ==> forall|k: int| 0 <= k < self.agents@.len() ==> self.agents@[k].peer_id@ != peer_id@,
    {
        let me = chars_of(peer_id);
        let mut k: usize = 0;
        while k < self.agents.len()
            invariant
                me@ == peer_id@,
                k <= self.agents@.len(),
                forall|j: int| 0 <= j < k ==> self.agents@[j].peer_id@ != peer_id@,
            decreases self.agents@.len() - k,
        {
            if same_chars(&chars_of(self.agents[k].peer_id.as_str()), &me) {
                return Some(k);
            }
            k = k + 1;
        }
        None
    }

    /// A position report: a new peer is registered as an idle agent at `pos`;
    /// a known one has its cell updated. Returns whether the peer is new.
    pub fn record_position(&mut self, peer_id: String, pos: Point) -> (is_new: bool)
        requires
            old(self).wf(),
        ensures
            final(self).wf(),
            final(self).task_counter == old(self).task_counter,
            final(self).pending == old(self).pending,
            is_new == forall|k: int| 0 <= k < old(self).agents@.len() ==> old(self).agents@[k].peer_id@ != peer_id@,
            is_new ==> final(self).agents@.len() == old(self).agents@.len() + 1 && final(self).agents@.last().peer_id@
                == peer_id@ && final(self).agents@.last().current_pos == pos && final(self).agents@.last().task_phase
                == TaskPhase::Idle && final(self).agents@.last().task is None,
            !is_new ==> final(self).agents@.len() == old(self).agents@.len() && exists|k: int|
                0 <= k < final(self).agents@.len() && final(self).agents@[k].peer_id@ == peer_id@
                    && #[trigger] final(self).agents@[k].current_pos == pos,
            forall|k: int|
                0 <= k < old(self).agents@.len() ==> {
                    let (a, b) = (#[trigger] final(self).agents@[k], old(self).agents@[k]);
                    &&& a.peer_id == b.peer_id
                    &&& a.goal_pos == b.goal_pos
                    &&& a.task == b.task
                    &&& a.task_phase == b.task_phase
                    &&& (b.peer_id@ != peer_id@ ==> a.current_pos == b.current_pos)
                    &&& (b.peer_id@ == peer_id@ ==> a.current_pos == pos)
                },
            final(self).task_peers@ == old(self).task_peers@,
            final(self).metrics == old(self).metrics,
    {
        match self.find_agent(peer_id.as_str()) {
            Some(k) => {
                let ghost before = self.agents@;
                self.agents[k].current_pos = pos;
                assert forall|a: int, b: int|
                    0 <= a < self.agents@.len() && 0 <= b < self.agents@.len() && a != b implies self.agents@[a].peer_id@
                    != self.agents@[b].peer_id@ by {
                    assert(self.agents@[a].peer_id == before[a].peer_id);
                    assert(self.agents@[b].peer_id == before[b].peer_id);
                }
                assert(self.agents@[k as int].current_pos == pos);
                false
            },
            None => {
                let ghost before = self.agents@;
                self.agents.push(AgentRecord { peer_id, current_pos: pos, goal_pos: None, task: None, task_phase: TaskPhase::Idle });
                assert forall|a: int, b: int|
                    0 <= a < self.agents@.len() && 0 <= b < self.agents@.len() && a != b implies self.agents@[a].peer_id@
                    != self.agents@[b].peer_id@ by {
                    if a < before.len() {
                        assert(self.agents@[a] == before[a]);
                    }
                    if b < before.len() {
                        assert(self.agents@[b] == before[b]);
                    }
                }
                true
            },
        }
    }

    /// The first agent without a task.
    pub fn first_idle(&self) -> (r: Option<usize>)
        ensures
            r is Some ==> (r->0 as int) < self.agents@.len() && self.agents@[r->0 as int].task is None && forall|k: int|
                0 <= k < r->0 ==> #[trigger] self.agents@[k].task is Some,
            r is None ==> forall|k: int| 0 <= k < self.agents@.len() ==> #[trigger] self.agents@[k].task is Some,
    {
        let mut k: usize = 0;
        while k < self.agents.len()
            invariant
                k <= self.agents@.len(),
                forall|j: int| 0 <= j < k ==> #[trigger] self.agents@[j].task is Some,
            decreases self.agents@.len() - k,
        {
            if self.agents[k].task.is_none() {
                return Some(k);
            }
            k = k + 1;
        }
        None
    }

    /// Numbers a fresh task from `gen` for agent `idx`: the id is one more than
    /// the last issued, so it exceeds every id issued before; a ledger row sent
    /// at `now` is added. `None` when `gen` has fewer than two free cells or the
    /// ids are exhausted; then nothing changes but `gen`'s order.
    pub fn stamp_task(&mut self, idx: usize, gen: &mut TaskGeneratorAgent, now: u64) -> (r: Option<Task>)
        requires
            old(self).wf(),
            old(gen).wf(),
            idx < old(self).agents@.len(),
        ensures
            final(self).wf(),
            final(gen).wf(),
            final(self).agents@ == old(self).agents@,
            final(self).task_peers@ == old(self).task_peers@,
            final(self).pending == old(self).pending,
            r is None <==> old(gen).free_cells@.len() < 2 || old(self).task_counter == u64::MAX,
            r is None ==> final(self).task_counter == old(self).task_counter && final(self).metrics == old(self).metrics,
            r is Some ==> {
                let t = r->0;
                let row = final(self).metrics.row(t.task_id->0)->0;
                &&& row.status == crate::metrics::TaskStatus::Sent
                &&& row.sent_time == now
                &&& row.peer_id@ == old(self).agents@[idx as int].peer_id@
                &&& row.task_id == t.task_id->0
                &&& forall|id: u64| id != t.task_id->0 ==> #[trigger] final(self).metrics.row(id) == old(self).metrics.row(id)
                &&& t.task_id == Some((old(self).task_counter + 1) as u64)
                &&& final(self).task_counter == old(self).task_counter + 1
                &&& forall|id: u64| #[trigger] old(self).metrics.row(id) is Some ==> id < t.task_id->0
                &&& t.peer_id is Some
                &&& t.peer_id->0@ == old(self).agents@[idx as int].peer_id@
                &&& t.pickup != t.delivery
                &&& old(gen).free_cells@.contains(t.pickup)
                &&& old(gen).free_cells@.contains(t.delivery)
                &&& final(self).metrics.row(t.task_id->0) is Some
            },
    {
        if self.task_counter == u64::MAX {
            return None;
        }
        match gen.generate_task() {
            None => None,
            Some(task) => {
                let id = self.task_counter + 1;
                self.task_counter = id;
                let peer = self.agents[idx].peer_id.clone();
                let metric = TaskMetric::new_at(id, peer.clone(), now);
                let ghost before = self.metrics;
                self.metrics.add_metric(metric);
                proof {
                    assert forall|x: u64| #[trigger] self.metrics.row(x) is Some implies x <= self.task_counter by {
                        if x != id {
                            assert(before.row(x) is Some);
                        }
                    }
                    assert forall|k: int| 0 <= k < self.task_peers@.len() implies (#[trigger] self.task_peers@[k]).0
                        <= self.task_counter by {}
                }
                Some(Task { pickup: task.pickup, delivery: task.delivery, peer_id: Some(peer), task_id: Some(id) })
            },
        }
    }

    /// Prepares the next requested dispatch: when a task is pending and an
    /// agent is idle, numbers a task for the first idle agent. The caller sends
    /// it and then calls `commit_dispatch`.
    pub fn prepare_dispatch(&mut self, gen: &mut TaskGeneratorAgent, now: u64) -> (r: Option<(usize, Task)>)
        requires
            old(self).wf(),
            old(gen).wf(),
        ensures
            final(self).wf(),
            final(gen).wf(),
            final(self).agents@ == old(self).agents@,
            final(self).task_peers@ == old(self).task_peers@,
            final(self).pending == old(self).pending,
            old(self).pending == 0 ==> r is None,
            old(self).pending > 0 && (exists|k: int| 0 <= k < old(self).agents@.len() && #[trigger] old(self).agents@[k].task is None)
                && old(gen).free_cells@.len() >= 2 && old(self).task_counter < u64::MAX ==> r is Some,
            r is None ==> final(self).task_counter == old(self).task_counter && final(self).metrics == old(self).metrics,
            r is Some ==> {
                let (idx, t) = r->0;
                let row = final(self).metrics.row(t.task_id->0)->0;
                &&& final(self).task_counter == old(self).task_counter + 1
                &&& final(self).metrics.row(t.task_id->0) is Some
                &&& row.status == crate::metrics::TaskStatus::Sent
                &&& row.sent_time == now
                &&& row.peer_id@ == old(self).agents@[idx as int].peer_id@
                &&& (idx as int) < old(self).agents@.len()
                &&& old(self).agents@[idx as int].task is None
                &&& forall|k: int| 0 <= k < idx ==> #[trigger] old(self).agents@[k].task is Some
                &&& t.task_id == Some((old(self).task_counter + 1) as u64)
                &&& forall|id: u64| #[trigger] old(self).metrics.row(id) is Some ==> id < t.task_id->0
                &&& t.peer_id is Some
                &&& t.peer_id->0@ == old(self).agents@[idx as int].peer_id@
            },
    {
        if self.pending == 0 {
            return None;
        }
        match self.first_idle() {
            None => None,
            Some(idx) => match self.stamp_task(idx, gen, now) {
                None => None,
                Some(t) => Some((idx, t)),
            },
        }
    }

    /// Records that `task` went out to agent `idx`: the agent heads for the
    /// pickup, the task maps to its peer, and one fewer task is pending.
    pub fn commit_dispatch(&mut self, idx: usize, task: Task)
        requires
            old(self).wf(),
            idx < old(self).agents@.len(),
            task.task_id is Some,
            task.task_id->0 <= old(self).task_counter,
        ensures
            final(self).wf(),
            final(self).agents@.len() == old(self).agents@.len(),
            final(self).agents@[idx as int].task_phase == TaskPhase::MovingToPickup,
            final(self).agents@[idx as int].goal_pos == Some(task.pickup),
            final(self).agents@[idx as int].task == Some(task),
            final(self).metrics == old(self).metrics,
            final(self).task_peers@.len() == old(self).task_peers@.len() + 1,
            final(self).task_peers@.last().0 == task.task_id->0,
            final(self).task_peers@.last().1@ == old(self).agents@[idx as int].peer_id@,
            final(self).pending == if old(self).pending > 0 { (old(self).pending - 1) as usize } else { 0 },
            final(self).task_counter == old(self).task_counter,
            forall|k: int| 0 <= k < final(self).agents@.len() && k != idx ==> #[trigger] final(self).agents@[k] == old(self).agents@[k],
    {
        let id = match task.task_id {
            Some(id) => id,
            None => 0,
        };
        let peer = self.agents[idx].peer_id.clone();
        let pickup = task.pickup;
        let ghost before = self.agents@;
        self.agents[idx].goal_pos = Some(pickup);
        self.agents[idx].task = Some(task);
        self.agents[idx].task_phase = TaskPhase::MovingToPickup;
        assert forall|a: int, b: int|
            0 <= a < self.agents@.len() && 0 <= b < self.agents@.len() && a != b implies self.agents@[a].peer_id@
            != self.agents@[b].peer_id@ by {
            assert(self.agents@[a].peer_id == before[a].peer_id);
            assert(self.agents@[b].peer_id == before[b].peer_id);
        }
        let ghost tp = self.task_peers@;
        self.task_peers.push((id, peer));
        assert forall|k: int| 0 <= k < self.task_peers@.len() implies (#[trigger] self.task_peers@[k]).0
            <= self.task_counter by {
            if k < tp.len() {
                assert(self.task_peers@[k] == tp[k]);
            }
        }
        if self.pending > 0 {
            self.pending = self.pending - 1;
        }
    }

    /// A completion report for `task_id`: the agent it went to (the first
    /// mapping for that id) becomes idle without goal or task. Returns that
    /// peer, or `None` for an unknown id.
    pub fn complete_task(&mut self, task_id: u64) -> (r: Option<String>)
        requires
            old(self).wf(),
        ensures
            final(self).wf(),
            final(self).agents@.len() == old(self).agents@.len(),
            final(self).task_counter == old(self).task_counter,
            final(self).pending == old(self).pending,
            r is None <==> forall|k: int| 0 <= k < old(self).task_peers@.len() ==> (#[trigger] old(self).task_peers@[k]).0 != task_id,
            r is Some ==> exists|k: int| 0 <= k < old(self).task_peers@.len() && (#[trigger] old(self).task_peers@[k]).0 == task_id
                && old(self).task_peers@[k].1@ == r->0@,
            forall|k: int|
                0 <= k < final(self).agents@.len() ==> {
                    let (a, b) = (#[trigger] final(self).agents@[k], old(self).agents@[k]);
                    if r is Some && b.peer_id@ == r->0@ {
                        a.task is None && a.goal_pos is None && a.task_phase == TaskPhase::Idle
                            && a.peer_id == b.peer_id && a.current_pos == b.current_pos
                    } else {
                        a == b
                    }
                },
    {
        let mut k: usize = 0;
        while k < self.task_peers.len()
            invariant
                self.wf(),
                self.agents@ == old(self).agents@,
                self.task_peers@ == old(self).task_peers@,
                self.task_counter == old(self).task_counter,
                self.pending == old(self).pending,
                self.metrics == old(self).metrics,
                k <= self.task_peers@.len(),
                forall|j: int| 0 <= j < k ==> (#[trigger] self.task_peers@[j]).0 != task_id,
            decreases self.task_peers@.len() - k,
        {
            if self.task_peers[k].0 == task_id {
                let peer = self.task_peers[k].1.clone();
                assert(self.task_peers@[k as int].1@ == peer@);
                match self.find_agent(peer.as_str()) {
                    Some(a) => {
                        let ghost before = self.agents@;
                        self.agents[a].task = None;
                        self.agents[a].goal_pos = None;
                        self.agents[a].task_phase = TaskPhase::Idle;
                        assert forall|x: int, y: int|
                            0 <= x < self.agents@.len() && 0 <= y < self.agents@.len() && x != y implies self.agents@[x].peer_id@
                            != self.agents@[y].peer_id@ by {
                            assert(self.agents@[x].peer_id == before[x].peer_id);
                            assert(self.agents@[y].peer_id == before[y].peer_id);
                        }
                        assert forall|j: int| 0 <= j < self.agents@.len() implies {
                            let (p, q) = (#[trigger] self.agents@[j], before[j]);
                            if q.peer_id@ == peer@ {
                                p.task is None && p.goal_pos is None && p.task_phase == TaskPhase::Idle
                                    && p.peer_id == q.peer_id && p.current_pos == q.current_pos
                            } else {
                                p == q
                            }
                        } by {
                            if j != a {
                                assert(before[j].peer_id@ != before[a as int].peer_id@);
                            }
                        }
                    },
                    None => {},
                }
                return Some(peer);
            }
            k = k + 1;
        }
        None
    }

    /// After a planning tick: an agent heading for its pickup and standing on it
    /// now heads for the delivery.
    pub fn advance_phases(&mut self)
        requires
            old(self).wf(),
        ensures
            final(self).wf(),
            final(self).agents@.len() == old(self).agents@.len(),
            final(self).task_counter == old(self).task_counter,
            final(self).pending == old(self).pending,
            forall|k: int|
                0 <= k < final(self).agents@.len() ==> {
                    let (a, b) = (#[trigger] final(self).agents@[k], old(self).agents@[k]);
                    if b.task_phase == TaskPhase::MovingToPickup && b.task is Some && b.current_pos == b.task->0.pickup {
                        a.task_phase == TaskPhase::MovingToDelivery && a.goal_pos == Some(b.task->0.delivery)
                            && a.peer_id == b.peer_id && a.current_pos == b.current_pos && a.task == b.task
                    } else {
                        a == b
                    }
                },
    {
        let ghost a0 = self.agents@;
        let mut k: usize = 0;
        while k < self.agents.len()
            invariant
                a0 == old(self).agents@,
                old(self).wf(),
                self.task_peers@ == old(self).task_peers@,
                self.task_counter == old(self).task_counter,
                self.pending == old(self).pending,
                self.metrics == old(self).metrics,
                k <= self.agents@.len(),
                self.agents@.len() == a0.len(),
                records_unique(a0),
                forall|j: int| 0 <= j < self.agents@.len() ==> (#[trigger] self.agents@[j]).peer_id == a0[j].peer_id,
                forall|j: int|
                    0 <= j < k ==> {
                        let (a, b) = (#[trigger] self.agents@[j], a0[j]);
                        if b.task_phase == TaskPhase::MovingToPickup && b.task is Some && b.current_pos == b.task->0.pickup {
                            a.task_phase == TaskPhase::MovingToDelivery && a.goal_pos == Some(b.task->0.delivery)
                                && a.peer_id == b.peer_id && a.current_pos == b.current_pos && a.task == b.task
                        } else {
                            a == b
                        }
                    },
                forall|j: int| k <= j < self.agents@.len() ==> #[trigger] self.agents@[j] == a0[j],
            decreases self.agents@.len() - k,
        {
            let switch = match &self.agents[k].task {
                Some(t) => self.agents[k].task_phase == TaskPhase::MovingToPickup && self.agents[k].current_pos.0
                    == t.pickup.0 && self.agents[k].current_pos.1 == t.pickup.1,
                None => false,
            };
            if switch {
                let delivery = match &self.agents[k].task {
                    Some(t) => t.delivery,
                    None => self.agents[k].current_pos,
                };
                let ghost before = self.agents@;
                self.agents[k].goal_pos = Some(delivery);
                self.agents[k].task_phase = TaskPhase::MovingToDelivery;
                assert forall|j: int| 0 <= j < self.agents@.len() && j != k implies #[trigger] self.agents@[j] == before[j] by {}
            }
            k = k + 1;
        }
        assert forall|a: int, b: int|
            0 <= a < self.agents@.len() && 0 <= b < self.agents@.len() && a != b implies self.agents@[a].peer_id@
            != self.agents@[b].peer_id@ by {
            assert(self.agents@[a].peer_id == a0[a].peer_id);
            assert(self.agents@[b].peer_id == a0[b].peer_id);
        }
    }
}

/// The record holds no task and is idle.
pub open spec fn idle_record(r: AgentRecord) -> bool {
    r.task is None && r.task_phase == TaskPhase::Idle
}

/// `s` without its first `k` idle records.
pub open spec fn drop_idle(s: Seq<AgentRecord>, k: int) -> Seq<AgentRecord>
    decreases s.len(),
{
    if s.len() == 0 {
        Seq::empty()
    } else if k > 0 && idle_record(s[0]) {
        drop_idle(s.drop_first(), k - 1)
    } else {
        seq![s[0]] + drop_idle(s.drop_first(), k)
    }
}

proof fn lemma_drop_idle_from(s: Seq<AgentRecord>, k: int)
    ensures
        forall|j: int| 0 <= j < drop_idle(s, k).len() ==> s.contains(#[trigger] drop_idle(s, k)[j]),
        records_unique(s) ==> records_unique(drop_idle(s, k)),
    decreases s.len(),
{
    if s.len() > 0 {
        let t = s.drop_first();
        lemma_drop_idle_from(t, k);
        lemma_drop_idle_from(t, k - 1);
        let d = drop_idle(s, k);
        if k > 0 && idle_record(s[0]) {
            assert(d == drop_idle(t, k - 1));
        } else {
            assert(d == seq![s[0]] + drop_idle(t, k));
        }
        assert forall|j: int| 0 <= j < d.len() implies s.contains(#[trigger] d[j]) by {
            if k > 0 && idle_record(s[0]) {
                let i = choose|i: int| 0 <= i < t.len() && t[i] == d[j];
                assert(s[i + 1] == d[j]);
            } else if j == 0 {
                assert(s[0] == d[0]);
            } else {
                let rest = drop_idle(t, k);
                assert(d[j] == rest[j - 1]);
                let i = choose|i: int| 0 <= i < t.len() && t[i] == rest[j - 1];
                assert(s[i + 1] == d[j]);
            }
        }
        if records_unique(s) {
            assert(records_unique(t)) by {
                assert forall|a: int, b: int| 0 <= a < t.len() && 0 <= b < t.len() && a != b implies t[a].peer_id@
                    != t[b].peer_id@ by {
                    assert(t[a] == s[a + 1] && t[b] == s[b + 1]);
                }
            }
            if !(k > 0 && idle_record(s[0])) {
                let rest = drop_idle(t, k);
                assert forall|a: int, b: int| 0 <= a < d.len() && 0 <= b < d.len() && a != b implies d[a].peer_id@
                    != d[b].peer_id@ by {
                    if a > 0 && b > 0 {
                        assert(d[a] == rest[a - 1] && d[b] == rest[b - 1]);
                    } else {
                        let x = if a == 0 { b } else { a };
                        assert(d[x] == rest[x - 1]);
                        let i = choose|i: int| 0 <= i < t.len() && t[i] == rest[x - 1];
                        assert(s[i + 1] == d[x]);
                        assert(s[0] == d[0]);
                    }
                }
            }
        }
    }
}

impl Manager {
    /// Keeps at most `max_agents` records where possible: when there are more,
    /// the oldest idle records are dropped until the count fits or no idle one
    /// is left. Busy agents are never dropped.
    pub fn trim_idle_agents(&mut self, max_agents: usize)
        requires
            old(self).wf(),
        ensures
            final(self).wf(),
            final(self).task_peers@ == old(self).task_peers@,
            final(self).task_counter == old(self).task_counter,
            final(self).pending == old(self).pending,
            final(self).agents@ == drop_idle(
                old(self).agents@,
                if old(self).agents@.len() > max_agents { old(self).agents@.len() - max_agents } else { 0 },
            ),
    {
        let n = self.agents.len();
        let excess: usize = if n > max_agents { n - max_agents } else { 0 };
        let ghost s = self.agents@;
        assert(s.len() == n);
        let mut kept: Vec<AgentRecord> = Vec::new();
        let mut to_drop: usize = excess;
        // take the records out in order, oldest first
        let mut rest: Vec<AgentRecord> = Vec::new();
        while self.agents.len() > 0
            invariant
                s == old(self).agents@,
                self.agents@.len() <= s.len(),
                rest@ == s.subrange(self.agents@.len() as int, s.len() as int).reverse(),
                self.agents@ == s.subrange(0, self.agents@.len() as int),
                self.task_peers@ == old(self).task_peers@,
                self.task_counter == old(self).task_counter,
                self.pending == old(self).pending,
                self.metrics == old(self).metrics,
            decreases self.agents@.len(),
        {
            let ghost before = self.agents@;
            let r = self.agents.pop().unwrap();
            let ghost m = self.agents@.len() as int;
            rest.push(r);
            assert(self.agents@ =~= s.subrange(0, m));
            assert(rest@ =~= s.subrange(m, s.len() as int).reverse());
        }
        assert(s.subrange(0, s.len() as int) =~= s);
        assert(rest@ =~= s.subrange(0, s.len() as int).reverse());
        let mut i: usize = 0;
        while rest.len() > 0
            invariant
                s == old(self).agents@,
                s.len() == n,
                rest@.len() + i == s.len(),
                rest@ == s.subrange(i as int, s.len() as int).reverse(),
                kept@ + drop_idle(s.subrange(i as int, s.len() as int), to_drop as int) == drop_idle(s, excess as int),
                self.agents@.len() == 0,
                self.task_peers@ == old(self).task_peers@,
                self.task_counter == old(self).task_counter,
                self.pending == old(self).pending,
                self.metrics == old(self).metrics,
            decreases rest@.len(),
        {
            let r = rest.pop().unwrap();
            let ghost tail = s.subrange(i as int, s.len() as int);
            assert(r == tail[0]);
            assert(tail.drop_first() =~= s.subrange(i + 1, s.len() as int));
            assert(rest@ =~= s.subrange(i + 1, s.len() as int).reverse());
            let idle = r.task.is_none() && r.task_phase == TaskPhase::Idle;
            if to_drop > 0 && idle {
                to_drop = to_drop - 1;
            } else {
                let ghost k0 = kept@;
                kept.push(r);
                assert(kept@ + drop_idle(s.subrange(i + 1, s.len() as int), to_drop as int) =~= k0 + drop_idle(tail, to_drop as int));
            }
            i = i + 1;
        }
        assert(s.subrange(s.len() as int, s.len() as int) =~= Seq::<AgentRecord>::empty());
        assert(s.subrange(0, s.len() as int) =~= s);
        self.agents = kept;
        proof {
            lemma_drop_idle_from(s, excess as int);
        }
    }
}

} // verus!
