use vstd::prelude::*;
use crate::graph::{adjacent, canon_next, grid_graph, Node};
use crate::grid::{manhattan, manhattan_wide, Point};
use crate::metrics::now_millis;
use crate::text::{chars_of, same_chars};

verus! {

/// What a peer last reported: where it is, where it heads, and when (seconds).
#[derive(Debug)]
pub struct AgentInfo {
    pub peer_id: String,
    pub current_pos: Point,
    pub goal_pos: Point,
    pub timestamp: u64,
}

impl Clone for AgentInfo {
    fn clone(&self) -> (r: AgentInfo)
        ensures
            r == *self,
    {
        AgentInfo {
            peer_id: self.peer_id.clone(),
            current_pos: self.current_pos,
            goal_pos: self.goal_pos,
            timestamp: self.timestamp,
        }
    }
}

/// The entry is less than `max_age` seconds old at `now` (reports from the
/// future count as fresh).
pub open spec fn fresh(e: AgentInfo, now: u64, max_age: u64) -> bool {
    e.timestamp > now || now - e.timestamp < max_age
}

/// Entries of `s` near `pos` (Manhattan distance at most `radius`), except the
/// one of peer `me`, in order.
pub open spec fn nearby_of(s: Seq<AgentInfo>, pos: Point, radius: usize, me: Seq<char>) -> Seq<AgentInfo>
    decreases s.len(),
{
    if s.len() == 0 {
        Seq::empty()
    } else {
        let rest = nearby_of(s.drop_last(), pos, radius, me);
        let e = s.last();
        if e.peer_id@ != me && manhattan(pos, e.current_pos) <= radius {
            rest.push(e)
        } else {
            rest
        }
    }
}

/// Entries of `s` fresh at `now`, in order.
pub open spec fn fresh_of(s: Seq<AgentInfo>, now: u64, max_age: u64) -> Seq<AgentInfo>
    decreases s.len(),
{
    if s.len() == 0 {
        Seq::empty()
    } else {
        let rest = fresh_of(s.drop_last(), now, max_age);
        if fresh(s.last(), now, max_age) {
            rest.push(s.last())
        } else {
            rest
        }
    }
}

proof fn lemma_fresh_of(s: Seq<AgentInfo>, now: u64, max_age: u64)
    ensures
        forall|k: int| 0 <= k < fresh_of(s, now, max_age).len() ==> fresh(#[trigger] fresh_of(s, now, max_age)[k], now, max_age)
            && s.contains(fresh_of(s, now, max_age)[k]),
        forall|k: int| 0 <= k < s.len() && fresh(#[trigger] s[k], now, max_age) ==> fresh_of(s, now, max_age).contains(s[k]),
    decreases s.len(),
{
    if s.len() > 0 {
        lemma_fresh_of(s.drop_last(), now, max_age);
        let rest = fresh_of(s.drop_last(), now, max_age);
        let f = fresh_of(s, now, max_age);
        assert forall|k: int| 0 <= k < f.len() implies fresh(#[trigger] f[k], now, max_age) && s.contains(f[k]) by {
            if k < rest.len() {
                assert(f[k] == rest[k]);
                let j = choose|j: int| 0 <= j < s.drop_last().len() && s.drop_last()[j] == rest[k];
                assert(s[j] == rest[k]);
            } else {
                assert(s[s.len() - 1] == s.last());
            }
        }
        assert forall|k: int| 0 <= k < s.len() && fresh(#[trigger] s[k], now, max_age) implies f.contains(s[k]) by {
            if k < s.len() - 1 {
                assert(s.drop_last()[k] == s[k]);
                let j = choose|j: int| 0 <= j < rest.len() && rest[j] == s[k];
                assert(f[j] == s[k]);
            } else {
                assert(f[f.len() - 1] == s[k]);
            }
        }
    }
}

/// Peers' last reports, one entry per peer, with the time of the last eviction.
pub struct NearbyAgents {
    pub agents: Vec<AgentInfo>,
    pub last_cleanup: u64,
}

/// One entry per peer.
pub open spec fn peers_unique(s: Seq<AgentInfo>) -> bool {
    forall|i: int, j: int| 0 <= i < s.len() && 0 <= j < s.len() && i != j ==> s[i].peer_id@ != s[j].peer_id@
}

/// Seconds since the Unix epoch, from the wall clock.
fn now_secs() -> u64 {
    now_millis() / 1000
}

/// Seconds that must pass between two evictions of stale entries.
pub const CLEANUP_PERIOD_SECS: u64 = 5;

impl NearbyAgents {
    pub open spec fn wf(&self) -> bool {
        peers_unique(self.agents@)
    }

    /// An empty table whose last eviction is now.
    pub fn new() -> (t: NearbyAgents)
        ensures
            t.wf(),
            t.agents@.len() == 0,
    {
        NearbyAgents { agents: Vec::new(), last_cleanup: now_secs() }
    }

    /// An empty table whose last eviction was at `now` (seconds).
    pub fn new_at(now: u64) -> (t: NearbyAgents)
        ensures
            t.wf(),
            t.agents@.len() == 0,
            t.last_cleanup == now,
    {
        NearbyAgents { agents: Vec::new(), last_cleanup: now }
    }

    /// Records a peer's report. A report replaces the peer's entry only when its
    /// timestamp is later; a report from a new peer is added at the end.
    pub fn update(&mut self, info: AgentInfo)
        requires
            old(self).wf(),
        ensures
            final(self).wf(),
            final(self).last_cleanup == old(self).last_cleanup,
            (exists|i: int| 0 <= i < old(self).agents@.len() && old(self).agents@[i].peer_id@ == info.peer_id@)
                ==> {
                let i = choose|i: int|
                    0 <= i < old(self).agents@.len() && old(self).agents@[i].peer_id@ == info.peer_id@;
                final(self).agents@ == if info.timestamp > old(self).agents@[i].timestamp {
                    old(self).agents@.update(i, info)
                } else {
                    old(self).agents@
                }
            },
            !(exists|i: int| 0 <= i < old(self).agents@.len() && old(self).agents@[i].peer_id@ == info.peer_id@)
                ==> final(self).agents@ == old(self).agents@.push(info),
    {
        let ghost s = self.agents@;
        let mut k: usize = 0;
        while k < self.agents.len()
            invariant
                self.agents@ == s,
                s == old(self).agents@,
                peers_unique(s),
                self.last_cleanup == old(self).last_cleanup,
                k <= s.len(),
                forall|j: int| 0 <= j < k ==> s[j].peer_id@ != info.peer_id@,
            decreases s.len() - k,
        {
            if self.agents[k].peer_id == info.peer_id {
                proof {
                    let i = choose|i: int| 0 <= i < s.len() && s[i].peer_id@ == info.peer_id@;
                    if i != k {
                        assert(s[i].peer_id@ != s[k as int].peer_id@);
                    }
                }
                if info.timestamp > self.agents[k].timestamp {
                    self.agents.set(k, info);
                    assert forall|a: int, b: int|
                        0 <= a < self.agents@.len() && 0 <= b < self.agents@.len() && a != b implies self.agents@[a].peer_id@
                        != self.agents@[b].peer_id@ by {
                        if a != k && b != k {
                            assert(s[a].peer_id@ != s[b].peer_id@);
                        } else if a == k {
                            assert(s[k as int].peer_id@ != s[b].peer_id@);
                        } else {
                            assert(s[a].peer_id@ != s[k as int].peer_id@);
                        }
                    }
                }
                return;
            }
            k = k + 1;
        }
        self.agents.push(info);
        assert forall|a: int, b: int|
            0 <= a < self.agents@.len() && 0 <= b < self.agents@.len() && a != b implies self.agents@[a].peer_id@
            != self.agents@[b].peer_id@ by {
            if a < s.len() && b < s.len() {
                assert(self.agents@[a] == s[a] && self.agents@[b] == s[b]);
            } else if a < s.len() {
                assert(self.agents@[a] == s[a]);
            } else {
                assert(self.agents@[b] == s[b]);
            }
        }
    }

    /// The other peers within Manhattan distance `radius` of `my_pos`.
    pub fn get_nearby(&self, my_pos: Point, radius: usize, my_peer_id: &str) -> (r: Vec<AgentInfo>)
        ensures
            r@ == nearby_of(self.agents@, my_pos, radius, my_peer_id@),
    {
        let me = chars_of(my_peer_id);
        let mut r: Vec<AgentInfo> = Vec::new();
        let mut k: usize = 0;
        while k < self.agents.len()
            invariant
                k <= self.agents@.len(),
                r@ == nearby_of(self.agents@.subrange(0, k as int), my_pos, radius, my_peer_id@),
                me@ == my_peer_id@,
            decreases self.agents@.len() - k,
        {
            assert(self.agents@.subrange(0, k + 1).drop_last() == self.agents@.subrange(0, k as int));
            assert(self.agents@.subrange(0, k + 1).last() == self.agents@[k as int]);
            let e = &self.agents[k];
            let is_self = same_chars(&chars_of(e.peer_id.as_str()), &me);
            if !is_self && manhattan_wide(my_pos, e.current_pos) <= radius as u128 {
                r.push(e.clone());
            }
            k = k + 1;
        }
        assert(self.agents@.subrange(0, self.agents@.len() as int) == self.agents@);
        r
    }

    /// Drops every entry older than `max_age` seconds at `now`; keeps the rest
    /// in order. Afterwards no stale entry is left.
    pub fn prune_stale(&mut self, now: u64, max_age: u64)
        requires
            old(self).wf(),
        ensures
            final(self).wf(),
            final(self).last_cleanup == old(self).last_cleanup,
            final(self).agents@ == fresh_of(old(self).agents@, now, max_age),
            forall|k: int| 0 <= k < final(self).agents@.len() ==> fresh(#[trigger] final(self).agents@[k], now, max_age),
    {
        let ghost s = self.agents@;
        let mut kept: Vec<AgentInfo> = Vec::new();
        let mut k: usize = 0;
        while k < self.agents.len()
            invariant
                self.agents@ == s,
                k <= s.len(),
                kept@ == fresh_of(s.subrange(0, k as int), now, max_age),
            decreases s.len() - k,
        {
            assert(s.subrange(0, k + 1).drop_last() == s.subrange(0, k as int));
            assert(s.subrange(0, k + 1).last() == s[k as int]);
            let e = &self.agents[k];
            if e.timestamp > now || now - e.timestamp < max_age {
                kept.push(e.clone());
            }
            k = k + 1;
        }
        assert(s.subrange(0, s.len() as int) == s);
        self.agents = kept;
        proof {
            lemma_fresh_of(s, now, max_age);
            let f = fresh_of(s, now, max_age);
            lemma_fresh_order(s, now, max_age);
            assert forall|a: int, b: int| 0 <= a < f.len() && 0 <= b < f.len() && a != b implies f[a].peer_id@
                != f[b].peer_id@ by {
                let (ia, ib) = (fresh_index(s, now, max_age, a), fresh_index(s, now, max_age, b));
                assert(s[ia] == f[a] && s[ib] == f[b]);
            }
        }
    }

    /// Evicts stale entries when the last eviction is at least five seconds old
    /// at `now`, and notes `now` as the time of eviction; otherwise nothing
    /// changes.
    pub fn cleanup_old_at(&mut self, now: u64, max_age_secs: u64)
        requires
            old(self).wf(),
        ensures
            final(self).wf(),
            now >= old(self).last_cleanup && now - old(self).last_cleanup < CLEANUP_PERIOD_SECS ==> {
                &&& final(self).agents@ == old(self).agents@
                &&& final(self).last_cleanup == old(self).last_cleanup
            },
            !(now >= old(self).last_cleanup && now - old(self).last_cleanup < CLEANUP_PERIOD_SECS) ==> {
                &&& final(self).agents@ == fresh_of(old(self).agents@, now, max_age_secs)
                &&& final(self).last_cleanup == now
            },
    {
        if now >= self.last_cleanup && now - self.last_cleanup < CLEANUP_PERIOD_SECS {
            return;
        }
        self.prune_stale(now, max_age_secs);
        self.last_cleanup = now;
    }

    /// `cleanup_old_at` with the wall clock.
    pub fn cleanup_old(&mut self, max_age_secs: u64)
        requires
            old(self).wf(),
        ensures
            final(self).wf(),
            (final(self).agents@ == old(self).agents@ && final(self).last_cleanup == old(self).last_cleanup)
                || final(self).agents@ == fresh_of(old(self).agents@, final(self).last_cleanup, max_age_secs),
    {
        let now = now_secs();
        self.cleanup_old_at(now, max_age_secs);
    }
}

/// The index in `s` of the `k`-th fresh entry.
pub open spec fn fresh_index(s: Seq<AgentInfo>, now: u64, max_age: u64, k: int) -> int
    decreases s.len(),
{
    if s.len() == 0 {
        0
    } else if k < fresh_of(s.drop_last(), now, max_age).len() {
        fresh_index(s.drop_last(), now, max_age, k)
    } else {
        s.len() - 1
    }
}

proof fn lemma_fresh_order(s: Seq<AgentInfo>, now: u64, max_age: u64)
    ensures
        forall|k: int| 0 <= k < fresh_of(s, now, max_age).len() ==> {
            let i = #[trigger] fresh_index(s, now, max_age, k);
            &&& 0 <= i < s.len()
            &&& s[i] == fresh_of(s, now, max_age)[k]
        },
        forall|a: int, b: int| 0 <= a < b < fresh_of(s, now, max_age).len() ==> #[trigger] fresh_index(s, now, max_age, a)
            < #[trigger] fresh_index(s, now, max_age, b),
    decreases s.len(),
{
    if s.len() > 0 {
        lemma_fresh_order(s.drop_last(), now, max_age);
        let rest = fresh_of(s.drop_last(), now, max_age);
        assert forall|k: int| 0 <= k < fresh_of(s, now, max_age).len() implies {
            let i = #[trigger] fresh_index(s, now, max_age, k);
            &&& 0 <= i < s.len()
            &&& s[i] == fresh_of(s, now, max_age)[k]
        } by {
            if k < rest.len() {
                let i = fresh_index(s.drop_last(), now, max_age, k);
                assert(s.drop_last()[i] == s[i]);
            }
        }
        assert forall|a: int, b: int| 0 <= a < b < fresh_of(s, now, max_age).len() implies #[trigger] fresh_index(s, now, max_age, a)
            < #[trigger] fresh_index(s, now, max_age, b) by {
            if b < rest.len() {
                assert(fresh_index(s, now, max_age, a) == fresh_index(s.drop_last(), now, max_age, a));
                assert(fresh_index(s, now, max_age, b) == fresh_index(s.drop_last(), now, max_age, b));
            } else {
                assert(fresh_index(s, now, max_age, a) == fresh_index(s.drop_last(), now, max_age, a));
            }
        }
    }
}

/// A decentralized agent's decision for one tick.
pub enum TswapAction {
    /// Go to this cell (or stay, when it is the agent's own).
    Move(Point),
    /// Ask this peer, resting at its goal on the next cell, to swap goals.
    WaitForGoalSwap(String),
    /// Ask the blocking cycle to rotate goals: each listed peer adopts the goal
    /// listed after its own (the last one the first); this agent is listed
    /// first.
    WaitForRotation(Vec<String>, Vec<Point>),
    /// Stay this tick.
    Wait,
}

/// Some report in `s` is from peer `id` and names goal `goal`.
pub open spec fn reported_by(s: Seq<AgentInfo>, id: Seq<char>, goal: Point) -> bool {
    exists|k: int| 0 <= k < s.len() && s[k].peer_id@ == id && s[k].goal_pos == goal
}


/// The vertex at cell `p` (unique in a grid graph).
pub open spec fn node_index(nodes: Seq<Node>, p: Point) -> int {
    choose|i: int| 0 <= i < nodes.len() && nodes[i].pos == p
}

/// The cell an agent on `from` heading for `to` steps to next (`canon_next`).
pub open spec fn next_cell(nodes: Seq<Node>, from: Point, to: Point) -> Option<Point> {
    match canon_next(nodes, node_index(nodes, from) as usize, node_index(nodes, to) as usize) {
        Some(u) => Some(nodes[u as int].pos),
        None => None,
    }
}

/// The first report in `s` of a peer on cell `p`.
pub open spec fn first_on(s: Seq<AgentInfo>, p: Point) -> Option<int> {
    if exists|j: int| 0 <= j < s.len() && s[j].current_pos == p {
        Some(choose|j: int| 0 <= j < s.len() && s[j].current_pos == p && forall|k: int| 0 <= k < j ==> s[k].current_pos != p)
    } else {
        None
    }
}

/// In a grid graph the vertex at a cell is unique.
pub proof fn lemma_node_index(nodes: Seq<Node>, p: Point, i: int)
    requires
        grid_graph(nodes),
        0 <= i < nodes.len(),
        nodes[i].pos == p,
    ensures
        node_index(nodes, p) == i,
{
    let c = node_index(nodes, p);
    assert(0 <= c < nodes.len() && nodes[c].pos == p);
}

proof fn lemma_first_on(s: Seq<AgentInfo>, p: Point, r: Option<usize>)
    requires
        r is Some ==> (r->0 as int) < s.len() && s[r->0 as int].current_pos == p,
        r is Some ==> forall|k: int| 0 <= k < r->0 ==> s[k].current_pos != p,
        r is None ==> forall|k: int| 0 <= k < s.len() ==> s[k].current_pos != p,
    ensures
        first_on(s, p) == (match r {
            Some(j) => Some(j as int),
            None => None,
        }),
{
    match r {
        Some(j) => {
            let c = choose|c: int| 0 <= c < s.len() && s[c].current_pos == p && forall|k: int| 0 <= k < c ==> s[k].current_pos != p;
            if c < j as int {
            } else if c > j as int {
                assert(s[j as int].current_pos != p);
            }
        },
        None => {},
    }
}

/// Some vertex sits at cell `p`.
pub open spec fn has_node(nodes: Seq<Node>, p: Point) -> bool {
    exists|i: int| 0 <= i < nodes.len() && nodes[i].pos == p
}

fn find_node(nodes: &[Node], p: Point) -> (r: usize)
    requires
        has_node(nodes@, p),
    ensures
        (r as int) < nodes@.len(),
        nodes@[r as int].pos == p,
{
    let mut k: usize = 0;
    while k < nodes.len()
        invariant
            has_node(nodes@, p),
            k <= nodes@.len(),
            forall|j: int| 0 <= j < k ==> nodes@[j].pos != p,
        decreases nodes@.len() - k,
    {
        if nodes[k].pos.0 == p.0 && nodes[k].pos.1 == p.1 {
            return k;
        }
        k = k + 1;
    }
    proof {
        let j = choose|j: int| 0 <= j < nodes@.len() && nodes@[j].pos == p;
        assert(nodes@[j].pos == p);
    }
    0
}

/// The first peer standing on cell `p`.
fn agent_at(agents: &[AgentInfo], p: Point) -> (r: Option<usize>)
    ensures
        r is Some ==> (r->0 as int) < agents@.len() && agents@[r->0 as int].current_pos == p,
        r is Some ==> forall|k: int| 0 <= k < r->0 ==> agents@[k].current_pos != p,
        r is None ==> forall|k: int| 0 <= k < agents@.len() ==> agents@[k].current_pos != p,
{
    let mut k: usize = 0;
    while k < agents.len()
        invariant
            k <= agents@.len(),
            forall|j: int| 0 <= j < k ==> agents@[j].current_pos != p,
        decreases agents@.len() - k,
    {
        if agents[k].current_pos.0 == p.0 && agents[k].current_pos.1 == p.1 {
            return Some(k);
        }
        k = k + 1;
    }
    None
}

/// The first peer on a cell other than `p` and at most one step from it.
fn agent_beside(agents: &[AgentInfo], p: Point) -> (r: Option<usize>)
    ensures
        r is Some ==> (r->0 as int) < agents@.len() && agents@[r->0 as int].current_pos != p,
{
    let mut k: usize = 0;
    while k < agents.len()
        invariant
            k <= agents@.len(),
        decreases agents@.len() - k,
    {
        let q = agents[k].current_pos;
        if !(q.0 == p.0 && q.1 == p.1) && manhattan_wide(p, q) <= 1 {
            return Some(k);
        }
        k = k + 1;
    }
    None
}

fn holds_cell(v: &Vec<Point>, p: Point) -> (r: bool)
    ensures
        r == v@.contains(p),
{
    let mut k: usize = 0;
    while k < v.len()
        invariant
            k <= v@.len(),
            forall|j: int| 0 <= j < k ==> v@[j] != p,
        decreases v@.len() - k,
    {
        if v[k].0 == p.0 && v[k].1 == p.1 {
            return true;
        }
        k = k + 1;
    }
    false
}

/// A sequence without repetition whose elements all occur in `t` is no longer
/// than `t`.
proof fn lemma_distinct_within(s: Seq<Point>, t: Seq<Point>)
    requires
        s.no_duplicates(),
        forall|k: int| 0 <= k < s.len() ==> t.contains(#[trigger] s[k]),
    ensures
        s.len() <= t.len(),
{
    s.unique_seq_to_set();
    t.lemma_cardinality_of_set();
    assert(s.to_set().subset_of(t.to_set())) by {
        assert forall|x: Point| s.to_set().contains(x) implies t.to_set().contains(x) by {
            let k = choose|k: int| 0 <= k < s.len() && s[k] == x;
        }
    }
    vstd::set_lib::lemma_len_subset(s.to_set(), t.to_set());
}


/// `idx` lists reports in `s` forming a blocking cycle back to cell `me`:
/// each peer's next cell (`next_cell`) is the cell of the next one, and the
/// last one's next cell is `me`.
pub open spec fn blocking_cycle(nodes: Seq<Node>, s: Seq<AgentInfo>, idx: Seq<int>, me: Point) -> bool {
    &&& idx.len() >= 1
    &&& idx.no_duplicates()
    &&& forall|k: int| 0 <= k < idx.len() ==> 0 <= #[trigger] idx[k] < s.len()
    &&& forall|k: int|
        0 <= k < idx.len() - 1 ==> next_cell(nodes, s[#[trigger] idx[k]].current_pos, s[idx[k]].goal_pos)
            == Some(s[idx[k + 1]].current_pos)
    &&& next_cell(nodes, s[idx.last()].current_pos, s[idx.last()].goal_pos) == Some(me)
}

/// A rotation request for cycle `idx`: this agent first, then the peers
/// against the blocking direction, so that each adopts the goal of the one
/// listed after it.
pub open spec fn rotation_of(
    s: Seq<AgentInfo>,
    idx: Seq<int>,
    me_id: Seq<char>,
    me_goal: Point,
    ps: Seq<String>,
    gs: Seq<Point>,
) -> bool {
    &&& ps.len() == idx.len() + 1
    &&& gs.len() == idx.len() + 1
    &&& ps[0]@ == me_id
    &&& gs[0] == me_goal
    &&& forall|k: int|
        1 <= k < ps.len() ==> (#[trigger] ps[k])@ == s[idx[idx.len() - k]].peer_id@ && gs[k] == s[idx[idx.len() - k]].goal_pos
}

/// The vertex at cell `p`, if any.
fn node_at_cell(nodes: &[Node], p: Point) -> (r: Option<usize>)
    requires
        grid_graph(nodes@),
    ensures
        r is Some ==> (r->0 as int) < nodes@.len() && nodes@[r->0 as int].pos == p && node_index(nodes@, p) == r->0,
        r is None ==> !has_node(nodes@, p),
{
    let mut k: usize = 0;
    while k < nodes.len()
        invariant
            grid_graph(nodes@),
            k <= nodes@.len(),
            forall|j: int| 0 <= j < k ==> nodes@[j].pos != p,
        decreases nodes@.len() - k,
    {
        if nodes[k].pos.0 == p.0 && nodes[k].pos.1 == p.1 {
            proof {
                lemma_node_index(nodes@, p, k as int);
            }
            return Some(k);
        }
        k = k + 1;
    }
    None
}


/// A peer's next cell, when its cell and goal are vertices of the graph.
pub open spec fn peer_next(nodes: Seq<Node>, pos: Point, goal: Point) -> Option<Point> {
    if has_node(nodes, pos) && has_node(nodes, goal) {
        next_cell(nodes, pos, goal)
    } else {
        None
    }
}

/// Rule 4's chain walk from one agent's view, at blocker `cur` with `seen`
/// walked so far: the chain when the blockers' next cells lead back to cell
/// `me`; none when a blocker repeats, rests at its goal, has no next cell, or
/// its next cell is empty.
#[verifier::opaque]
pub open spec fn closing_chain(
    nodes: Seq<Node>,
    s: Seq<AgentInfo>,
    me: Point,
    cur: int,
    seen: Seq<int>,
    fuel: int,
) -> Option<Seq<int>>
    decreases fuel,
{
    if fuel <= 0 || !(0 <= cur < s.len()) || seen.contains(cur) || s[cur].current_pos == s[cur].goal_pos {
        None
    } else {
        match peer_next(nodes, s[cur].current_pos, s[cur].goal_pos) {
            None => None,
            Some(w) => if w == me {
                Some(seen.push(cur))
            } else {
                match first_on(s, w) {
                    None => None,
                    Some(c) => closing_chain(nodes, s, me, c, seen.push(cur), fuel - 1),
                }
            },
        }
    }
}


/// One step of `closing_chain`.
proof fn lemma_closing_chain_step(nodes: Seq<Node>, s: Seq<AgentInfo>, me: Point, cur: int, seen: Seq<int>, fuel: int)
    requires
        fuel > 0,
        0 <= cur < s.len(),
    ensures
        closing_chain(nodes, s, me, cur, seen, fuel) == if seen.contains(cur) || s[cur].current_pos == s[cur].goal_pos {
            None
        } else {
            match peer_next(nodes, s[cur].current_pos, s[cur].goal_pos) {
                None => None,
                Some(w) => if w == me {
                    Some(seen.push(cur))
                } else {
                    match first_on(s, w) {
                        None => None,
                        Some(c) => closing_chain(nodes, s, me, c, seen.push(cur), fuel - 1),
                    }
                },
            }
        },
{
    reveal(closing_chain);
}

/// The cell a peer on `pos` heading for `goal` steps to next, when both are
/// vertices of the graph.
fn peer_next_cell(nodes: &[Node], pos: Point, goal: Point) -> (r: Option<Point>)
    requires
        grid_graph(nodes@),
    ensures
        r == peer_next(nodes@, pos, goal),
        r is Some ==> next_cell(nodes@, pos, goal) == r,
{
    match (node_at_cell(nodes, pos), node_at_cell(nodes, goal)) {
        (Some(a), Some(g)) => match crate::tswap::desired_next(a, g, nodes) {
            Some(n) => Some(nodes[n].pos),
            None => None,
        },
        _ => None,
    }
}

/// Rule 4 from one agent's view, blocked by peer `b`: follows each blocker's
/// next cell to the peer standing there. When the chain comes back to this
/// agent's cell it asks the cycle for a goal rotation; when a blocker is at its
/// goal, has no next cell, or its next cell is empty or repeats, it waits.
#[verifier::rlimit(100)]
#[verifier::spinoff_prover]
fn rotation_request(
    my_pos: Point,
    my_goal: Point,
    my_peer_id: &str,
    nearby_agents: &[AgentInfo],
    b: usize,
    nodes: &[Node],
) -> (act: TswapAction)
    requires
        grid_graph(nodes@),
        b < nearby_agents@.len(),
    ensures
        act is WaitForRotation || act is Wait,
        act is WaitForRotation <==> closing_chain(nodes@, nearby_agents@, my_pos, b as int, Seq::empty(), nearby_agents@.len() + 1int) is Some,
        act is WaitForRotation ==> exists|idx: Seq<int>|
            #[trigger] blocking_cycle(nodes@, nearby_agents@, idx, my_pos) && idx[0] == b && rotation_of(
                nearby_agents@,
                idx,
                my_peer_id@,
                my_goal,
                act->WaitForRotation_0@,
                act->WaitForRotation_1@,
            ),
{
    let n = nearby_agents.len();
    let mut seen: Vec<usize> = Vec::new();
    let ghost mut idx: Seq<int> = Seq::empty();
    let mut cur: usize = b;
    loop
        invariant
            grid_graph(nodes@),
            n == nearby_agents@.len(),
            cur < n,
            seen@.len() == idx.len(),
            forall|k: int| 0 <= k < idx.len() ==> #[trigger] idx[k] == seen@[k] as int,
            idx.len() <= n,
            idx.no_duplicates(),
            forall|k: int| 0 <= k < idx.len() ==> 0 <= #[trigger] idx[k] < n,
            idx.len() > 0 ==> idx[0] == b,
            idx.len() == 0 ==> cur == b,
            forall|k: int|
                0 <= k < idx.len() - 1 ==> next_cell(nodes@, nearby_agents@[#[trigger] idx[k]].current_pos, nearby_agents@[idx[k]].goal_pos)
                    == Some(nearby_agents@[idx[k + 1]].current_pos),
            idx.len() > 0 ==> next_cell(nodes@, nearby_agents@[idx.last()].current_pos, nearby_agents@[idx.last()].goal_pos)
                == Some(nearby_agents@[cur as int].current_pos),
            closing_chain(nodes@, nearby_agents@, my_pos, cur as int, idx, n + 1 - idx.len())
                == closing_chain(nodes@, nearby_agents@, my_pos, b as int, Seq::empty(), n + 1),
        decreases n - idx.len(),
    {
        proof {
            lemma_closing_chain_step(nodes@, nearby_agents@, my_pos, cur as int, idx, n + 1 - idx.len());
            assert(seen@.len() == idx.len());
            assert(idx.contains(cur as int) ==> seen@.contains(cur)) by {
                if idx.contains(cur as int) {
                    let k = choose|k: int| 0 <= k < idx.len() && idx[k] == cur as int;
                    assert(seen@[k] == cur);
                }
            }
        }
        if crate::tswap::holds_index(&seen, cur) {
            assert(idx.contains(cur as int)) by {
                let j = choose|j: int| 0 <= j < seen@.len() && seen@[j] == cur;
                assert(idx[j] == cur as int);
            }
            return TswapAction::Wait;
        }
        let peer_pos = nearby_agents[cur].current_pos;
        let peer_goal = nearby_agents[cur].goal_pos;
        if peer_pos.0 == peer_goal.0 && peer_pos.1 == peer_goal.1 {
            return TswapAction::Wait;
        }
        assert(!idx.contains(cur as int)) by {
            if idx.contains(cur as int) {
                let j = choose|j: int| 0 <= j < idx.len() && idx[j] == cur as int;
                assert(seen@[j] == cur);
            }
        }
        let w = match peer_next_cell(nodes, peer_pos, peer_goal) {
            Some(w) => w,
            None => {
                return TswapAction::Wait;
            },
        };
        let ghost old_idx = idx;
        let ghost fuel0 = n + 1 - idx.len();
        seen.push(cur);
        proof {
            idx = idx.push(cur as int);
            assert forall|x: int, y: int| 0 <= x < idx.len() && 0 <= y < idx.len() && x != y implies idx[x] != idx[y] by {
                if x < old_idx.len() && y < old_idx.len() {
                    assert(idx[x] == old_idx[x] && idx[y] == old_idx[y]);
                } else if x < old_idx.len() {
                    assert(idx[x] == seen@[x] as int);
                } else if y < old_idx.len() {
                    assert(idx[y] == seen@[y] as int);
                }
            }
            assert forall|k: int| 0 <= k < idx.len() - 1 implies next_cell(nodes@, nearby_agents@[#[trigger] idx[k]].current_pos, nearby_agents@[idx[k]].goal_pos)
                == Some(nearby_agents@[idx[k + 1]].current_pos) by {
                assert(idx[k] == old_idx[k]);
                if k + 1 < old_idx.len() {
                    assert(idx[k + 1] == old_idx[k + 1]);
                }
            }
            let s2 = Seq::new(idx.len(), |k: int| idx[k] as usize);
            assert(s2.no_duplicates());
            crate::graph::lemma_distinct_bounded(s2, n as int);
        }
        if w.0 == my_pos.0 && w.1 == my_pos.1 {
            // the chain closes on this agent: this agent, then the peers backwards
            let mut participants: Vec<String> = Vec::new();
            let mut goals: Vec<Point> = Vec::new();
            participants.push(String::from_str(my_peer_id));
            goals.push(my_goal);
            let mut j: usize = seen.len();
            while j > 0
                invariant
                    j <= seen@.len(),
                    seen@.len() == idx.len(),
                    forall|k: int| 0 <= k < idx.len() ==> #[trigger] idx[k] == seen@[k] as int,
                    forall|k: int| 0 <= k < idx.len() ==> 0 <= #[trigger] idx[k] < n,
                    n == nearby_agents@.len(),
                    participants@.len() == goals@.len(),
                    participants@.len() == idx.len() - j + 1,
                    participants@[0]@ == my_peer_id@,
                    goals@[0] == my_goal,
                    forall|k: int|
                        1 <= k < participants@.len() ==> (#[trigger] participants@[k])@ == nearby_agents@[idx[idx.len() - k]].peer_id@
                            && goals@[k] == nearby_agents@[idx[idx.len() - k]].goal_pos,
                decreases j,
            {
                j = j - 1;
                assert(idx[j as int] == seen@[j as int] as int);
                let a = &nearby_agents[seen[j]];
                let ghost pp = participants@;
                let ghost gg = goals@;
                participants.push(a.peer_id.clone());
                goals.push(a.goal_pos);
                proof {
                    assert forall|k: int|
                        1 <= k < participants@.len() implies (#[trigger] participants@[k])@ == nearby_agents@[idx[idx.len() - k]].peer_id@
                            && goals@[k] == nearby_agents@[idx[idx.len() - k]].goal_pos by {
                        if k < pp.len() {
                            assert(participants@[k] == pp[k] && goals@[k] == gg[k]);
                        }
                    }
                }
            }
            proof {
                assert(blocking_cycle(nodes@, nearby_agents@, idx, my_pos));
                assert(rotation_of(nearby_agents@, idx, my_peer_id@, my_goal, participants@, goals@));
                assert(closing_chain(nodes@, nearby_agents@, my_pos, b as int, Seq::empty(), n + 1) == Some(idx));
            }
            return TswapAction::WaitForRotation(participants, goals);
        }
        let found = agent_at(nearby_agents, w);
        proof {
            lemma_first_on(nearby_agents@, w, found);
        }
        let c = match found {
            Some(c) => c,
            None => {
                return TswapAction::Wait;
            },
        };
        assert(closing_chain(nodes@, nearby_agents@, my_pos, c as int, idx, n + 1 - idx.len())
            == closing_chain(nodes@, nearby_agents@, my_pos, b as int, Seq::empty(), n + 1));
        cur = c;
    }
}

/// TSWAP from one agent's view. At its goal it stays. Otherwise it looks at
/// its next cell (`next_cell`; without one it stays): when no peer stands
/// there it moves there; when a peer resting at its goal stands there it asks
/// that peer for a goal swap; else it follows each blocker's next cell to the
/// peer on it and, when that chain comes back to its own cell, asks the cycle
/// for a goal rotation; otherwise it waits.
pub fn compute_next_move_with_tswap(
    my_pos: Point,
    my_goal: Point,
    my_peer_id: &str,
    nearby_agents: &[AgentInfo],
    nodes: &[Node],
) -> (act: TswapAction)
    requires
        grid_graph(nodes@),
        has_node(nodes@, my_pos),
        has_node(nodes@, my_goal),
    ensures
        my_pos == my_goal ==> act == TswapAction::Move(my_pos),
        my_pos != my_goal ==> match next_cell(nodes@, my_pos, my_goal) {
            None => act == TswapAction::Move(my_pos),
            Some(q) => match first_on(nearby_agents@, q) {
                None => act == TswapAction::Move(q),
                Some(b) => if nearby_agents@[b].current_pos == nearby_agents@[b].goal_pos {
                    act is WaitForGoalSwap && act->WaitForGoalSwap_0@ == nearby_agents@[b].peer_id@
                } else {
                    (act is WaitForRotation || act is Wait) && (act is WaitForRotation <==> closing_chain(
                        nodes@,
                        nearby_agents@,
                        my_pos,
                        b,
                        Seq::empty(),
                        nearby_agents@.len() + 1int,
                    ) is Some)
                },
            },
        },
        act is Move ==> act->Move_0 == my_pos || (manhattan(my_pos, act->Move_0) == 1 && forall|k: int|
            0 <= k < nearby_agents@.len() ==> #[trigger] nearby_agents@[k].current_pos != act->Move_0),
        act is WaitForGoalSwap ==> exists|k: int|
            0 <= k < nearby_agents@.len() && #[trigger] nearby_agents@[k].peer_id@ == act->WaitForGoalSwap_0@
                && nearby_agents@[k].current_pos == nearby_agents@[k].goal_pos && manhattan(
                my_pos,
                nearby_agents@[k].current_pos,
            ) == 1,
        act is WaitForRotation ==> exists|idx: Seq<int>|
            #[trigger] blocking_cycle(nodes@, nearby_agents@, idx, my_pos) && rotation_of(
                nearby_agents@,
                idx,
                my_peer_id@,
                my_goal,
                act->WaitForRotation_0@,
                act->WaitForRotation_1@,
            ) && next_cell(nodes@, my_pos, my_goal) == Some(nearby_agents@[idx[0]].current_pos),
{
    if my_pos.0 == my_goal.0 && my_pos.1 == my_goal.1 {
        return TswapAction::Move(my_pos);
    }
    let from = find_node(nodes, my_pos);
    let to = find_node(nodes, my_goal);
    proof {
        lemma_node_index(nodes@, my_pos, from as int);
        lemma_node_index(nodes@, my_goal, to as int);
    }
    let next = match crate::tswap::desired_next(from, to, nodes) {
        Some(next) => next,
        None => {
            return TswapAction::Move(my_pos);
        },
    };
    let next_pos = nodes[next].pos;
    assert(manhattan(my_pos, next_pos) == 1) by {
        assert(adjacent(nodes@, from as int, next as int));
    }
    let blocking = agent_at(nearby_agents, next_pos);
    proof {
        lemma_first_on(nearby_agents@, next_pos, blocking);
    }
    match blocking {
        None => TswapAction::Move(next_pos),
        Some(b) => {
            let blocker = &nearby_agents[b];
            if blocker.current_pos.0 == blocker.goal_pos.0 && blocker.current_pos.1 == blocker.goal_pos.1 {
                let id = blocker.peer_id.clone();
                assert(nearby_agents@[b as int].peer_id@ == id@);
                return TswapAction::WaitForGoalSwap(id);
            }
            rotation_request(my_pos, my_goal, my_peer_id, nearby_agents, b, nodes)
        },
    }
}

/// One decision of a decentralized agent at `now`: first every report older
/// than `max_age` seconds is evicted, then TSWAP runs on the remaining peers
/// within `radius`. No stale report survives, and none is used.
pub fn plan_move(
    table: &mut NearbyAgents,
    now: u64,
    max_age: u64,
    my_pos: Point,
    my_goal: Point,
    my_peer_id: &str,
    radius: usize,
    nodes: &[Node],
) -> (r: (TswapAction, Vec<AgentInfo>))
    requires
        old(table).wf(),
        grid_graph(nodes@),
        has_node(nodes@, my_pos),
        has_node(nodes@, my_goal),
    ensures
        final(table).wf(),
        final(table).agents@ == fresh_of(old(table).agents@, now, max_age),
        forall|k: int| 0 <= k < final(table).agents@.len() ==> fresh(#[trigger] final(table).agents@[k], now, max_age),
        r.1@ == nearby_of(final(table).agents@, my_pos, radius, my_peer_id@),
        my_pos == my_goal ==> r.0 == TswapAction::Move(my_pos),
        my_pos != my_goal ==> match next_cell(nodes@, my_pos, my_goal) {
            None => r.0 == TswapAction::Move(my_pos),
            Some(q) => match first_on(r.1@, q) {
                None => r.0 == TswapAction::Move(q),
                Some(b) => if r.1@[b].current_pos == r.1@[b].goal_pos {
                    r.0 is WaitForGoalSwap && r.0->WaitForGoalSwap_0@ == r.1@[b].peer_id@
                } else {
                    (r.0 is WaitForRotation || r.0 is Wait) && (r.0 is WaitForRotation <==> closing_chain(
                        nodes@,
                        r.1@,
                        my_pos,
                        b,
                        Seq::empty(),
                        r.1@.len() + 1int,
                    ) is Some)
                },
            },
        },
{
    table.prune_stale(now, max_age);
    let near = table.get_nearby(my_pos, radius, my_peer_id);
    let act = compute_next_move_with_tswap(my_pos, my_goal, my_peer_id, &near, nodes);
    (act, near)
}

} // verus!
