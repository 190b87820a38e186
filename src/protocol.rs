use vstd::prelude::*;
use crate::grid::Point;
use crate::manager::TaskPhase;
use crate::tasks::{choose_cell, Task};

verus! {

/// Asks `to_peer` to take `my_goal` and hand back its own goal.
pub struct GoalSwapRequest {
    pub request_id: String,
    pub from_peer: String,
    pub to_peer: String,
    pub my_goal: Point,
}

/// Answer to a goal swap: `my_goal` is the goal the responder gave up.
pub struct GoalSwapResponse {
    pub request_id: String,
    pub from_peer: String,
    pub to_peer: String,
    pub my_goal: Point,
    pub accepted: bool,
}

/// Asks the `participants` of a cycle, in cycle order, to rotate their
/// `goals` (aligned by index) one step.
pub struct TargetRotationRequest {
    pub request_id: String,
    pub initiator: String,
    pub participants: Vec<String>,
    pub goals: Vec<Point>,
}

/// An agent's protocol state: its identity, cell, goal, task and phase, the
/// time of the last move instruction applied, the requests already handled,
/// and the goal swap it waits for.
pub struct AgentNode {
    pub peer_id: String,
    pub position: Option<Point>,
    pub goal: Point,
    pub task: Option<Task>,
    pub phase: TaskPhase,
    pub last_instruction: u64,
    pub seen_requests: Vec<String>,
    pub pending_goal_swap: Option<String>,
}

/// `id` is among `ids`.
pub open spec fn listed(ids: Seq<String>, id: Seq<char>) -> bool {
    exists|k: int| 0 <= k < ids.len() && ids[k]@ == id
}

fn text_eq(a: &String, b: &String) -> (r: bool)
    ensures
        r == (a@ == b@),
{
    *a == *b
}

fn position_of(ids: &Vec<String>, id: &String) -> (r: Option<usize>)
    ensures
        r is Some ==> (r->0 as int) < ids@.len() && ids@[r->0 as int]@ == id@ && forall|k: int|
            0 <= k < r->0 ==> (#[trigger] ids@[k])@ != id@,
        r is None ==> !listed(ids@, id@),
{
    let mut k: usize = 0;
    while k < ids.len()
        invariant
            k <= ids@.len(),
            forall|j: int| 0 <= j < k ==> (#[trigger] ids@[j])@ != id@,
        decreases ids@.len() - k,
    {
        if text_eq(&ids[k], id) {
            return Some(k);
        }
        k = k + 1;
    }
    None
}

impl AgentNode {
    /// A fresh agent: no cell yet, idle, aiming at `goal`.
    pub fn new(peer_id: String, goal: Point) -> (a: AgentNode)
        ensures
            a.peer_id@ == peer_id@,
            a.position is None,
            a.goal == goal,
            a.task is None,
            a.phase == TaskPhase::Idle,
            a.last_instruction == 0,
            a.seen_requests@.len() == 0,
            a.pending_goal_swap is None,
    {
        AgentNode {
            peer_id,
            position: None,
            goal,
            task: None,
            phase: TaskPhase::Idle,
            last_instruction: 0,
            seen_requests: Vec::new(),
            pending_goal_swap: None,
        }
    }

    /// A goal swap addressed to this agent and not handled before: it answers
    /// with its current goal, adopts the offered one, and remembers the request.
    /// Any other request changes nothing and gets no answer.
    pub fn handle_goal_swap_request(&mut self, req: &GoalSwapRequest) -> (r: Option<GoalSwapResponse>)
        ensures
            final(self).peer_id == old(self).peer_id,
            final(self).position == old(self).position,
            final(self).phase == old(self).phase,
            r is Some <==> req.to_peer@ == old(self).peer_id@ && !listed(old(self).seen_requests@, req.request_id@),
            r is Some ==> {
                let resp = r->0;
                &&& final(self).goal == req.my_goal
                &&& resp.my_goal == old(self).goal
                &&& resp.accepted
                &&& resp.request_id@ == req.request_id@
                &&& resp.from_peer@ == old(self).peer_id@
                &&& resp.to_peer@ == req.from_peer@
                &&& listed(final(self).seen_requests@, req.request_id@)
            },
            r is None ==> final(self).goal == old(self).goal,
    {
        if !text_eq(&req.to_peer, &self.peer_id) {
            return None;
        }
        if position_of(&self.seen_requests, &req.request_id).is_some() {
            return None;
        }
        let resp = GoalSwapResponse {
            request_id: req.request_id.clone(),
            from_peer: self.peer_id.clone(),
            to_peer: req.from_peer.clone(),
            my_goal: self.goal,
            accepted: true,
        };
        self.goal = req.my_goal;
        self.seen_requests.push(req.request_id.clone());
        assert(self.seen_requests@[self.seen_requests@.len() - 1]@ == req.request_id@);
        Some(resp)
    }

    /// Notes that this agent asked for goal swap `request_id`.
    pub fn await_goal_swap(&mut self, request_id: String)
        ensures
            final(self).pending_goal_swap is Some,
            final(self).pending_goal_swap->0@ == request_id@,
            final(self).goal == old(self).goal,
    {
        self.pending_goal_swap = Some(request_id);
    }

    /// An accepted answer to the goal swap this agent waits for: it adopts the
    /// goal given up by the responder and stops waiting. Other answers are
    /// ignored.
    pub fn handle_goal_swap_response(&mut self, resp: &GoalSwapResponse) -> (adopted: bool)
        ensures
            adopted <==> resp.accepted && resp.to_peer@ == old(self).peer_id@ && old(self).pending_goal_swap is Some
                && old(self).pending_goal_swap->0@ == resp.request_id@,
            adopted ==> final(self).goal == resp.my_goal && final(self).pending_goal_swap is None,
            !adopted ==> final(self).goal == old(self).goal,
            final(self).peer_id == old(self).peer_id,
            final(self).position == old(self).position,
    {
        if !resp.accepted || !text_eq(&resp.to_peer, &self.peer_id) {
            return false;
        }
        let matches = match &self.pending_goal_swap {
            Some(id) => text_eq(id, &resp.request_id),
            None => false,
        };
        if !matches {
            return false;
        }
        self.goal = resp.my_goal;
        self.pending_goal_swap = None;
        true
    }

    /// A rotation this agent takes part in and has not handled: at index `i`
    /// of `participants` (first occurrence) it adopts `goals[(i + 1) % n]`,
    /// when that entry exists, and remembers the request. Returns the adopted
    /// goal.
    pub fn handle_rotation(&mut self, req: &TargetRotationRequest) -> (r: Option<Point>)
        ensures
            final(self).peer_id == old(self).peer_id,
            final(self).position == old(self).position,
            r is None ==> final(self).goal == old(self).goal,
            r is Some ==> {
                &&& final(self).goal == r->0
                &&& !listed(old(self).seen_requests@, req.request_id@)
                &&& exists|i: int|
                    0 <= i < req.participants@.len() && (#[trigger] req.participants@[i])@ == old(self).peer_id@ && {
                        let j = (i + 1) % (req.participants@.len() as int);
                        j < req.goals@.len() && r->0 == req.goals@[j]
                    }
                &&& listed(final(self).seen_requests@, req.request_id@)
            },
            (listed(req.participants@, old(self).peer_id@) && !listed(old(self).seen_requests@, req.request_id@)
                && req.participants@.len() <= req.goals@.len()) ==> r is Some,
    {
        if position_of(&self.seen_requests, &req.request_id).is_some() {
            return None;
        }
        match position_of(&req.participants, &self.peer_id) {
            None => None,
            Some(i) => {
                let n = req.participants.len();
                let j = if i + 1 == n { 0 } else { i + 1 };
                proof {
                    if i + 1 == n {
                        vstd::arithmetic::div_mod::lemma_mod_self_0(n as int);
                    } else {
                        vstd::arithmetic::div_mod::lemma_small_mod((i + 1) as nat, n as nat);
                    }
                }
                assert(j as int == (i + 1) % (n as int));
                if j < req.goals.len() {
                    let g = req.goals[j];
                    self.goal = g;
                    self.seen_requests.push(req.request_id.clone());
                    assert(self.seen_requests@[self.seen_requests@.len() - 1]@ == req.request_id@);
                    Some(g)
                } else {
                    None
                }
            },
        }
    }

    /// A dispatched task: when it names this agent, the agent takes it and
    /// heads for its pickup. Returns whether it was taken.
    pub fn receive_task(&mut self, task: Task) -> (taken: bool)
        ensures
            taken <==> task.peer_id is Some && task.peer_id->0@ == old(self).peer_id@,
            taken ==> final(self).phase == TaskPhase::MovingToPickup && final(self).goal == task.pickup
                && final(self).task is Some && final(self).task->0.task_id == task.task_id,
            !taken ==> final(self).phase == old(self).phase && final(self).goal == old(self).goal,
            final(self).peer_id == old(self).peer_id,
            final(self).position == old(self).position,
    {
        let mine = match &task.peer_id {
            Some(p) => text_eq(p, &self.peer_id),
            None => false,
        };
        if !mine {
            return false;
        }
        self.goal = task.pickup;
        self.task = Some(task);
        self.phase = TaskPhase::MovingToPickup;
        true
    }

    /// A move instruction from the manager: applied when it names this agent
    /// and is not older than the last one applied. The task then advances: on
    /// the pickup the agent heads for the delivery; on the delivery, after the
    /// pickup, the task is done, the agent becomes idle, and the finished
    /// task's id is returned for the completion report.
    pub fn apply_move_instruction(&mut self, peer_id: &String, next_pos: Point, timestamp: u64) -> (done: Option<Option<u64>>)
        ensures
            final(self).peer_id == old(self).peer_id,
            !(peer_id@ == old(self).peer_id@ && timestamp >= old(self).last_instruction) ==> final(self).position
                == old(self).position && final(self).phase == old(self).phase && done is None,
            peer_id@ == old(self).peer_id@ && timestamp >= old(self).last_instruction ==> {
                &&& final(self).position == Some(next_pos)
                &&& final(self).last_instruction == timestamp
                &&& (old(self).phase == TaskPhase::MovingToPickup && old(self).task is Some && next_pos
                    == old(self).task->0.pickup ==> final(self).phase == TaskPhase::MovingToDelivery
                    && final(self).goal == old(self).task->0.delivery && done is None)
                &&& (old(self).phase == TaskPhase::MovingToDelivery && old(self).task is Some && next_pos
                    == old(self).task->0.delivery ==> final(self).phase == TaskPhase::Idle && final(self).task is None
                    && done == Some(old(self).task->0.task_id))
                &&& (done is Some ==> old(self).phase == TaskPhase::MovingToDelivery)
            },
    {
        if !text_eq(peer_id, &self.peer_id) || timestamp < self.last_instruction {
            return None;
        }
        self.position = Some(next_pos);
        self.last_instruction = timestamp;
        let (pickup, delivery, id) = match &self.task {
            Some(t) => (t.pickup, t.delivery, t.task_id),
            None => {
                return None;
            },
        };
        if self.phase == TaskPhase::MovingToPickup && next_pos.0 == pickup.0 && next_pos.1 == pickup.1 {
            self.phase = TaskPhase::MovingToDelivery;
            self.goal = delivery;
            return None;
        }
        if self.phase == TaskPhase::MovingToDelivery && next_pos.0 == delivery.0 && next_pos.1 == delivery.1 {
            self.phase = TaskPhase::Idle;
            self.task = None;
            return Some(id);
        }
        None
    }
}

/// Whether the occupied-cell poll of the initial election is over: every
/// discovered peer answered, or the collection window has passed.
pub fn election_poll_done(answered: usize, discovered: usize, elapsed_ms: u64, window_ms: u64) -> (done: bool)
    ensures
        done == (answered >= discovered || elapsed_ms >= window_ms),
{
    answered >= discovered || elapsed_ms >= window_ms
}

/// The initial cell of a joining agent: a random free cell that no peer
/// reported as occupied; `None` when every free cell is taken.
pub fn choose_initial_cell(free: &Vec<Point>, occupied: &Vec<Point>) -> (r: Option<Point>)
    ensures
        r is Some ==> free@.contains(r->0) && !occupied@.contains(r->0),
        r is None <==> forall|k: int| 0 <= k < free@.len() ==> occupied@.contains(#[trigger] free@[k]),
{
    let mut available: Vec<Point> = Vec::new();
    let mut k: usize = 0;
    while k < free.len()
        invariant
            k <= free@.len(),
            forall|j: int| 0 <= j < available@.len() ==> free@.contains(#[trigger] available@[j]) && !occupied@.contains(available@[j]),
            forall|j: int| 0 <= j < k && !occupied@.contains(#[trigger] free@[j]) ==> available@.contains(free@[j]),
        decreases free@.len() - k,
    {
        let p = free[k];
        let mut taken = false;
        let mut m: usize = 0;
        while m < occupied.len()
            invariant
                m <= occupied@.len(),
                taken == exists|j: int| 0 <= j < m && occupied@[j] == p,
            decreases occupied@.len() - m,
        {
            if occupied[m].0 == p.0 && occupied[m].1 == p.1 {
                taken = true;
            }
            m = m + 1;
        }
        if !taken {
            let ghost before = available@;
            available.push(p);
            proof {
                assert(free@[k as int] == p);
                assert(available@[before.len() as int] == p);
                assert forall|j: int| 0 <= j < available@.len() implies free@.contains(#[trigger] available@[j])
                    && !occupied@.contains(available@[j]) by {
                    if j < before.len() {
                        assert(available@[j] == before[j]);
                    }
                }
                assert forall|j: int| 0 <= j < k + 1 && !occupied@.contains(#[trigger] free@[j]) implies available@.contains(
                    free@[j],
                ) by {
                    if j < k {
                        let t = choose|t: int| 0 <= t < before.len() && before[t] == free@[j];
                        assert(available@[t] == free@[j]);
                    }
                }
            }
        } else {
            assert(occupied@.contains(free@[k as int]));
        }
        k = k + 1;
    }
    let r = choose_cell(&available);
    proof {
        if r is None {
            assert forall|k: int| 0 <= k < free@.len() implies occupied@.contains(#[trigger] free@[k]) by {
                if !occupied@.contains(free@[k]) {
                    assert(available@.contains(free@[k]));
                }
            }
        } else {
            let t = choose|t: int| 0 <= t < available@.len() && available@[t] == r->0;
            assert(free@.contains(available@[t]));
        }
        if forall|k: int| 0 <= k < free@.len() ==> occupied@.contains(#[trigger] free@[k]) {
            if available@.len() > 0 {
                assert(free@.contains(available@[0]));
                let t = choose|t: int| 0 <= t < free@.len() && free@[t] == available@[0];
                assert(occupied@.contains(free@[t]));
            }
        }
    }
    r
}

} // verus!
