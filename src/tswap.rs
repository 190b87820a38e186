use vstd::prelude::*;
use crate::graph::{
    adjacent, best_step, build_graph, canon_next, fallback_path, graph_wf, grid_graph,
    lemma_distinct_bounded, next_step, reachable, walk_between, Node,
};
use crate::grid::{
    cell_free, coord_ok, free_cells, grid_fits, grid_view, lemma_free_cells, manhattan,
    manhattan_distance, Point,
};
use crate::tasks::Task;

verus! {

broadcast use vstd::seq_lib::group_to_multiset_ensures;

/// An agent of the TSWAP planner: its index, current vertex and goal vertex.
#[derive(Clone, Copy, Debug, PartialEq, Eq, PartialOrd, Ord)]
pub struct Agent {
    pub id: usize,
    pub v: usize,
    pub g: usize,
}

/// Current vertices of the agents, in order.
pub open spec fn positions(a: Seq<Agent>) -> Seq<usize> {
    Seq::new(a.len(), |i: int| a[i].v)
}

/// Goal vertices of the agents, in order.
pub open spec fn goals(a: Seq<Agent>) -> Seq<usize> {
    Seq::new(a.len(), |i: int| a[i].g)
}

/// No two agents share a vertex.
pub open spec fn collision_free(a: Seq<Agent>) -> bool {
    forall|i: int, j: int| 0 <= i < a.len() && 0 <= j < a.len() && i != j ==> a[i].v != a[j].v
}

/// Every agent stands on and aims at a vertex of a graph with `n` vertices.
pub open spec fn agents_in_graph(a: Seq<Agent>, n: int) -> bool {
    forall|i: int| 0 <= i < a.len() ==> (#[trigger] a[i]).v < n && a[i].g < n
}

/// `s` with the values at `i` and `j` exchanged.
pub open spec fn swapped<A>(s: Seq<A>, i: int, j: int) -> Seq<A> {
    s.update(i, s[j]).update(j, s[i])
}

proof fn lemma_update_multiset(s: Seq<usize>, i: int, x: usize)
    requires
        0 <= i < s.len(),
    ensures
        s.update(i, x).to_multiset() =~= s.to_multiset().remove(s[i]).insert(x),
{
    let t = s.update(i, x);
    assert(t.remove(i) =~= s.remove(i));
    assert(t[i] == x);
    assert(t.to_multiset().count(x) > 0) by {
        assert(t.contains(x));
    }
    assert(t.to_multiset().remove(x) =~= s.to_multiset().remove(s[i]));
}

/// Exchanging two entries keeps the multiset of a sequence.
pub proof fn lemma_swap_multiset(s: Seq<usize>, i: int, j: int)
    requires
        0 <= i < s.len(),
        0 <= j < s.len(),
    ensures
        swapped(s, i, j).to_multiset() =~= s.to_multiset(),
{
    if i != j {
        let u = s.update(i, s[j]);
        lemma_update_multiset(s, i, s[j]);
        lemma_update_multiset(u, j, s[i]);
        assert(u[j] == s[j]);
        assert(s.to_multiset().count(s[i]) > 0) by {
            assert(s.contains(s[i]));
        }
        assert(s.to_multiset().remove(s[i]).insert(s[j]).count(s[j]) > 0);
    } else {
        assert(swapped(s, i, j) =~= s);
    }
}

/// Rule 3: agents `i` and `j` exchange goals. Nothing else changes, so the
/// multiset of goals is unchanged.
pub fn swap_goals(agents: &mut Vec<Agent>, i: usize, j: usize)
    requires
        i < old(agents)@.len(),
        j < old(agents)@.len(),
    ensures
        final(agents)@.len() == old(agents)@.len(),
        goals(final(agents)@) == swapped(goals(old(agents)@), i as int, j as int),
        goals(final(agents)@).to_multiset() == goals(old(agents)@).to_multiset(),
        positions(final(agents)@) == positions(old(agents)@),
        forall|k: int| 0 <= k < final(agents)@.len() ==> #[trigger] final(agents)@[k].id == old(agents)@[k].id,
{
    let ghost s = goals(agents@);
    let gi = agents[i].g;
    let gj = agents[j].g;
    let mut ai = agents[i];
    ai.g = gj;
    agents.set(i, ai);
    let mut aj = agents[j];
    aj.g = gi;
    agents.set(j, aj);
    assert(goals(agents@) =~= swapped(s, i as int, j as int));
    assert(positions(agents@) =~= positions(old(agents)@));
    proof {
        lemma_swap_multiset(s, i as int, j as int);
    }
}

/// Goals along `cycle` after one rotation step: the first agent takes the last
/// one's goal and every other agent its predecessor's.
pub open spec fn rotated_goals(g: Seq<usize>, cycle: Seq<usize>) -> Seq<usize> {
    Seq::new(
        g.len(),
        |a: int|
            if exists|k: int| 0 <= k < cycle.len() && cycle[k] as int == a {
                let k = choose|k: int| 0 <= k < cycle.len() && cycle[k] as int == a;
                if k == 0 {
                    g[cycle.last() as int]
                } else {
                    g[cycle[k - 1] as int]
                }
            } else {
                g[a]
            },
    )
}

/// Goals after the swaps that move `cycle[m..]` one step: entry `cycle[k]` for
/// `k > m` holds its predecessor's goal, `cycle[m]` holds the last one's.
spec fn partial_rotation(g: Seq<usize>, cycle: Seq<usize>, m: int) -> Seq<usize> {
    Seq::new(
        g.len(),
        |a: int|
            if exists|k: int| m <= k < cycle.len() && cycle[k] as int == a {
                let k = choose|k: int| m <= k < cycle.len() && cycle[k] as int == a;
                if k == m {
                    g[cycle.last() as int]
                } else {
                    g[cycle[k - 1] as int]
                }
            } else {
                g[a]
            },
    )
}

/// Rule 4: rotates goals one step around `cycle` (distinct agent indices).
/// The multiset of goals is unchanged, and where neighbouring agents on the
/// cycle held different goals, every agent on it ends with a new goal.
pub fn rotate_goals(agents: &mut Vec<Agent>, cycle: &Vec<usize>)
    requires
        cycle@.len() >= 2,
        cycle@.no_duplicates(),
        forall|k: int| 0 <= k < cycle@.len() ==> (#[trigger] cycle@[k] as int) < old(agents)@.len(),
    ensures
        final(agents)@.len() == old(agents)@.len(),
        goals(final(agents)@) == rotated_goals(goals(old(agents)@), cycle@),
        goals(final(agents)@).to_multiset() == goals(old(agents)@).to_multiset(),
        positions(final(agents)@) == positions(old(agents)@),
        forall|k: int| 0 <= k < final(agents)@.len() ==> #[trigger] final(agents)@[k].id == old(agents)@[k].id,
        (forall|k: int|
            0 < k < cycle@.len() ==> old(agents)@[cycle@[k - 1] as int].g != old(agents)@[#[trigger] cycle@[k] as int].g)
            && old(agents)@[cycle@.last() as int].g != old(agents)@[cycle@[0] as int].g
            ==> forall|k: int|
            0 <= k < cycle@.len() ==> final(agents)@[#[trigger] cycle@[k] as int].g != old(agents)@[cycle@[k] as int].g,
{
    let ghost g0 = goals(agents@);
    let ghost c = cycle@;
    let len = cycle.len();
    let mut m: usize = len - 1;
    assert(goals(agents@) =~= partial_rotation(g0, c, (len - 1) as int)) by {
        assert forall|a: int| 0 <= a < g0.len() implies #[trigger] goals(agents@)[a] == partial_rotation(
            g0,
            c,
            (len - 1) as int,
        )[a] by {
            if exists|k: int| len - 1 <= k < c.len() && c[k] as int == a {
                let k = choose|k: int| len - 1 <= k < c.len() && c[k] as int == a;
                assert(k == len - 1);
            }
        }
    }
    while m > 0
        invariant
            0 <= m < len,
            len == c.len(),
            c == cycle@,
            c.len() >= 2,
            c.no_duplicates(),
            forall|k: int| 0 <= k < c.len() ==> (#[trigger] c[k] as int) < g0.len(),
            agents@.len() == g0.len(),
            g0 == goals(old(agents)@),
            goals(agents@) == partial_rotation(g0, c, m as int),
            goals(agents@).to_multiset() == g0.to_multiset(),
            positions(agents@) == positions(old(agents)@),
            forall|k: int| 0 <= k < agents@.len() ==> #[trigger] agents@[k].id == old(agents)@[k].id,
        decreases m,
    {
        let ghost before = goals(agents@);
        let a = cycle[m];
        let b = cycle[m - 1];
        swap_goals(agents, a, b);
        proof {
            let after = goals(agents@);
            assert forall|x: int| 0 <= x < g0.len() implies #[trigger] after[x] == partial_rotation(
                g0,
                c,
                m - 1,
            )[x] by {
                if x == b as int {
                    assert(exists|k: int| m - 1 <= k < c.len() && c[k] as int == x) by {
                        assert(c[m - 1] as int == x);
                    }
                    let k = choose|k: int| m - 1 <= k < c.len() && c[k] as int == x;
                    assert(k == m - 1);
                    assert(exists|k: int| m <= k < c.len() && c[k] as int == a as int) by {
                        assert(c[m as int] as int == a as int);
                    }
                    let k2 = choose|k2: int| m <= k2 < c.len() && c[k2] as int == a as int;
                    assert(k2 == m);
                } else if x == a as int {
                    assert(exists|k: int| m - 1 <= k < c.len() && c[k] as int == x) by {
                        assert(c[m as int] as int == x);
                    }
                    let k = choose|k: int| m - 1 <= k < c.len() && c[k] as int == x;
                    assert(k == m);
                    assert(!exists|k: int| m <= k < c.len() && c[k] as int == b as int);
                } else {
                    if exists|k: int| m - 1 <= k < c.len() && c[k] as int == x {
                        let k = choose|k: int| m - 1 <= k < c.len() && c[k] as int == x;
                        assert(k > m);
                        assert(exists|k: int| m <= k < c.len() && c[k] as int == x);
                        let k2 = choose|k2: int| m <= k2 < c.len() && c[k2] as int == x;
                        assert(k2 == k);
                    } else {
                        assert(!exists|k: int| m <= k < c.len() && c[k] as int == x);
                    }
                }
            }
            assert(after =~= partial_rotation(g0, c, m - 1));
        }
        m = m - 1;
    }
    proof {
        assert(goals(agents@) =~= rotated_goals(g0, c));
        assert forall|k: int| 0 <= k < c.len() implies #[trigger] rotated_goals(g0, c)[c[k] as int] == (if k
            == 0 {
            g0[c.last() as int]
        } else {
            g0[c[k - 1] as int]
        }) by {
            assert(exists|k2: int| 0 <= k2 < c.len() && c[k2] as int == c[k] as int);
            let k2 = choose|k2: int| 0 <= k2 < c.len() && c[k2] as int == c[k] as int;
            assert(k2 == k);
        }
        assert forall|k: int| 0 <= k < c.len() implies #[trigger] agents@[c[k] as int].g == (if k == 0 {
            g0[c.last() as int]
        } else {
            g0[c[k - 1] as int]
        }) by {
            assert(goals(agents@)[c[k] as int] == rotated_goals(g0, c)[c[k] as int]);
        }
    }
}

proof fn lemma_best_step(nodes: Seq<Node>, start: int, goal: int, k: int)
    requires
        graph_wf(nodes),
        0 <= start < nodes.len(),
        1 <= k <= nodes[start].neighbors@.len(),
    ensures
        adjacent(
            nodes,
            start,
            best_step(nodes, start, goal, k) as int,
        ),
    decreases k,
{
    let nb = nodes[start].neighbors@[k - 1];
    assert(nodes[start].neighbors@.contains(nb));
    assert(nodes[start].neighbors@.contains(nodes[start].neighbors@[0]));
    if k > 1 {
        lemma_best_step(nodes, start, goal, k - 1);
    }
}

/// The fallback step is one of the neighbours of `start`.
pub proof fn lemma_best_step_public(nodes: Seq<Node>, start: int, goal: int)
    requires
        graph_wf(nodes),
        0 <= start < nodes.len(),
        nodes[start].neighbors@.len() > 0,
    ensures
        adjacent(
            nodes,
            start,
            best_step(nodes, start, goal, nodes[start].neighbors@.len() as int) as int,
        ),
{
    lemma_best_step(nodes, start, goal, nodes[start].neighbors@.len() as int);
}

/// The vertex an agent on `v` heading for `g` steps to next (`canon_next`):
/// the least-id neighbour on a shortest walk, or the fallback step.
pub fn desired_next(v: usize, g: usize, nodes: &[Node]) -> (r: Option<usize>)
    requires
        grid_graph(nodes@),
        v < nodes@.len(),
        g < nodes@.len(),
    ensures
        r == canon_next(nodes@, v, g),
        r is Some ==> (r->0 as int) < nodes@.len() && adjacent(nodes@, v as int, r->0 as int),
        v == g ==> r is None,
{
    next_step(v, g, nodes)
}

/// The lowest-indexed agent standing on vertex `u`.
pub fn occupant(agents: &Vec<Agent>, u: usize) -> (r: Option<usize>)
    ensures
        r is Some ==> (r->0 as int) < agents@.len() && agents@[r->0 as int].v == u && forall|k: int|
            0 <= k < r->0 ==> #[trigger] agents@[k].v != u,
        r is None ==> forall|k: int| 0 <= k < agents@.len() ==> #[trigger] agents@[k].v != u,
{
    let mut k: usize = 0;
    while k < agents.len()
        invariant
            k <= agents@.len(),
            forall|j: int| 0 <= j < k ==> #[trigger] agents@[j].v != u,
        decreases agents@.len() - k,
    {
        if agents[k].v == u {
            return Some(k);
        }
        k = k + 1;
    }
    None
}

pub(crate) fn holds_index(v: &Vec<usize>, x: usize) -> (r: bool)
    ensures
        r == v@.contains(x),
{
    let mut k: usize = 0;
    while k < v.len()
        invariant
            k <= v@.len(),
            forall|j: int| 0 <= j < k ==> v@[j] != x,
        decreases v@.len() - k,
    {
        if v[k] == x {
            return true;
        }
        k = k + 1;
    }
    false
}


/// Rule 4's chain walk as a function: from blocker `cur`, with `chain` walked
/// so far, follow each blocker's desired next vertex to the agent on it. The
/// result is the chain when it closes back on `i`, and empty when a blocker
/// is at its goal, has no next vertex, its next vertex is free, or it repeats.
pub open spec fn chain_from(
    nodes: Seq<Node>,
    pos: Seq<usize>,
    gl: Seq<usize>,
    i: int,
    cur: int,
    chain: Seq<usize>,
    fuel: int,
) -> Seq<usize>
    decreases fuel,
{
    if fuel <= 0 || !(0 <= cur < pos.len()) || pos[cur] == gl[cur] {
        Seq::empty()
    } else {
        match canon_next(nodes, pos[cur], gl[cur]) {
            None => Seq::empty(),
            Some(w) => match occupant_of(pos, w) {
                None => Seq::empty(),
                Some(c) => if chain.contains(cur as usize) {
                    Seq::empty()
                } else if c == i {
                    chain.push(cur as usize)
                } else {
                    chain_from(nodes, pos, gl, i, c, chain.push(cur as usize), fuel - 1)
                },
            },
        }
    }
}

/// The goal rule for agent `i` (cells `pos` do not change in this phase).
pub open spec fn goal_step(nodes: Seq<Node>, pos: Seq<usize>, gl: Seq<usize>, i: int) -> Seq<usize> {
    if pos[i] == gl[i] {
        gl
    } else {
        match canon_next(nodes, pos[i], gl[i]) {
            None => gl,
            Some(u) => match occupant_of(pos, u) {
                None => gl,
                Some(j) => if j == i {
                    gl
                } else if pos[j] == gl[j] {
                    swapped(gl, i, j)
                } else {
                    let c = chain_from(nodes, pos, gl, i, j, seq![i as usize], pos.len() as int);
                    if c.len() > 1 {
                        rotated_goals(gl, c)
                    } else {
                        gl
                    }
                },
            },
        }
    }
}

/// The goal rule applied to agents `0..k` in index order.
pub open spec fn goal_scan(nodes: Seq<Node>, pos: Seq<usize>, gl: Seq<usize>, k: int) -> Seq<usize>
    decreases k,
{
    if k <= 0 {
        gl
    } else {
        goal_step(nodes, pos, goal_scan(nodes, pos, gl, k - 1), k - 1)
    }
}

/// Goals after the goal phase.
pub open spec fn phase_a(nodes: Seq<Node>, a: Seq<Agent>) -> Seq<usize> {
    goal_scan(nodes, positions(a), goals(a), a.len() as int)
}

/// The agents with the goals of the goal phase.
pub open spec fn after_phase_a(nodes: Seq<Node>, a: Seq<Agent>) -> Seq<Agent> {
    Seq::new(a.len(), |k: int| Agent { id: a[k].id, v: a[k].v, g: phase_a(nodes, a)[k] })
}

/// Rule 4's chain walk from agent `i`, blocked by agent `j`: follows each
/// blocker's desired next vertex to the agent on it. Returns the agents of the
/// chain, starting with `i`, when it closes back on `i`; otherwise an empty
/// vector (a blocker at its goal, a free next vertex, or a loop not through `i`).
#[verifier::rlimit(100)]
#[verifier::spinoff_prover]
pub fn find_cycle(agents: &Vec<Agent>, i: usize, j: usize, nodes: &[Node]) -> (cycle: Vec<usize>)
    requires
        grid_graph(nodes@),
        agents_in_graph(agents@, nodes@.len() as int),
        i < agents@.len(),
        j < agents@.len(),
    ensures
        cycle@ == chain_from(nodes@, positions(agents@), goals(agents@), i as int, j as int, seq![i], agents@.len() as int),
        cycle@.len() == 0 || (cycle@.len() >= 2 && cycle@[0] == i),
        cycle@.no_duplicates(),
        forall|k: int| 0 <= k < cycle@.len() ==> (#[trigger] cycle@[k] as int) < agents@.len(),
{
    let n = agents.len();
    let mut chain: Vec<usize> = Vec::new();
    chain.push(i);
    let mut cur: usize = j;
    loop
        invariant
            n == agents@.len(),
            grid_graph(nodes@),
            agents_in_graph(agents@, nodes@.len() as int),
            i < n,
            cur < n,
            chain@.len() >= 1,
            chain@[0] == i,
            chain@.no_duplicates(),
            chain@.len() <= n,
            forall|k: int| 0 <= k < chain@.len() ==> (#[trigger] chain@[k] as int) < n,
            chain_from(nodes@, positions(agents@), goals(agents@), i as int, cur as int, chain@, n + 1 - chain@.len())
                == chain_from(nodes@, positions(agents@), goals(agents@), i as int, j as int, seq![i], n as int),
        decreases n - chain@.len(),
    {
        let b = agents[cur];
        let ghost fuel = n + 1 - chain@.len();
        proof {
            assert(positions(agents@)[cur as int] == b.v && goals(agents@)[cur as int] == b.g);
        }
        if b.v == b.g {
            return Vec::new();
        }
        let w = match desired_next(b.v, b.g, nodes) {
            Some(w) => w,
            None => {
                return Vec::new();
            },
        };
        let occ = occupant(agents, w);
        proof {
            lemma_occupant(agents@, w, occ);
        }
        let c = match occ {
            Some(c) => c,
            None => {
                return Vec::new();
            },
        };
        if holds_index(&chain, cur) {
            return Vec::new();
        }
        let ghost prev = chain@;
        chain.push(cur);
        proof {
            assert forall|x: int, y: int|
                0 <= x < chain@.len() && 0 <= y < chain@.len() && x != y implies chain@[x]
                != chain@[y] by {
                if x < prev.len() && y < prev.len() {
                    assert(chain@[x] == prev[x] && chain@[y] == prev[y]);
                } else if x < prev.len() {
                    assert(chain@[x] == prev[x]);
                } else if y < prev.len() {
                    assert(chain@[y] == prev[y]);
                }
            }
            lemma_distinct_bounded(chain@, n as int);
            assert(chain@ == prev.push(cur));
        }
        cur = c;
        if cur == i {
            return chain;
        }
    }
}

/// Goal phase of a TSWAP step: for each agent not at its goal whose desired
/// next vertex is taken by another agent, apply Rule 3 when that agent rests at
/// its goal, else Rule 4 along the blocking cycle if there is one. Only goals
/// change, and their multiset is kept.
pub fn resolve_goals(agents: &mut Vec<Agent>, nodes: &[Node])
    requires
        grid_graph(nodes@),
        agents_in_graph(old(agents)@, nodes@.len() as int),
    ensures
        final(agents)@.len() == old(agents)@.len(),
        agents_in_graph(final(agents)@, nodes@.len() as int),
        positions(final(agents)@) == positions(old(agents)@),
        goals(final(agents)@).to_multiset() == goals(old(agents)@).to_multiset(),
        forall|k: int| 0 <= k < final(agents)@.len() ==> #[trigger] final(agents)@[k].id == old(agents)@[k].id,
        goals(final(agents)@) == phase_a(nodes@, old(agents)@),
{
    let n = agents.len();
    let mut i: usize = 0;
    while i < n
        invariant
            grid_graph(nodes@),
            n == agents@.len(),
            n == old(agents)@.len(),
            i <= n,
            agents_in_graph(agents@, nodes@.len() as int),
            positions(agents@) == positions(old(agents)@),
            goals(agents@).to_multiset() == goals(old(agents)@).to_multiset(),
            forall|k: int| 0 <= k < n ==> #[trigger] agents@[k].id == old(agents)@[k].id,
            goals(agents@) == goal_scan(nodes@, positions(old(agents)@), goals(old(agents)@), i as int),
        decreases n - i,
    {
        let a = agents[i];
        let ghost gl_prev = goals(agents@);
        proof {
            assert(positions(agents@)[i as int] == a.v && gl_prev[i as int] == a.g);
            assert(goal_scan(nodes@, positions(old(agents)@), goals(old(agents)@), i + 1)
                == goal_step(nodes@, positions(old(agents)@), gl_prev, i as int));
        }
        if a.v != a.g {
            if let Some(u) = desired_next(a.v, a.g, nodes) {
                let occ = occupant(agents, u);
                proof {
                    lemma_occupant(agents@, u, occ);
                }
                if let Some(j) = occ {
                    if j != i {
                        let ghost before = agents@;
                        proof {
                            assert(positions(agents@)[j as int] == agents@[j as int].v);
                            assert(gl_prev[j as int] == agents@[j as int].g);
                        }
                        if agents[j].v == agents[j].g {
                            swap_goals(agents, i, j);
                        } else {
                            let cycle = find_cycle(agents, i, j, nodes);
                            if cycle.len() > 1 {
                                rotate_goals(agents, &cycle);
                            }
                        }
                        proof {
                            assert forall|k: int| 0 <= k < n implies (#[trigger] agents@[k]).v
                                < nodes@.len() && agents@[k].g < nodes@.len() by {
                                assert(positions(agents@)[k] == positions(before)[k]);
                                assert(goals(agents@).to_multiset().count(agents@[k].g) > 0) by {
                                    assert(goals(agents@)[k] == agents@[k].g);
                                    assert(goals(agents@).contains(agents@[k].g));
                                }
                                assert(goals(before).contains(agents@[k].g));
                                let t = choose|t: int|
                                    0 <= t < n && goals(before)[t] == agents@[k].g;
                                assert(before[t].g < nodes@.len());
                            }
                        }
                    }
                }
            }
        }
        proof {
            assert(goals(agents@) =~= goal_step(nodes@, positions(old(agents)@), gl_prev, i as int));
        }
        i = i + 1;
    }
}


/// The lowest index of an agent on vertex `u`, if any.
pub open spec fn occupant_of(pos: Seq<usize>, u: usize) -> Option<int> {
    if exists|j: int| 0 <= j < pos.len() && pos[j] == u {
        Some(choose|j: int| 0 <= j < pos.len() && pos[j] == u && forall|k: int| 0 <= k < j ==> pos[k] != u)
    } else {
        None
    }
}

/// Every agent's desired next vertex.
pub open spec fn desired(nodes: Seq<Node>, a: Seq<Agent>) -> Seq<Option<usize>> {
    Seq::new(a.len(), |i: int| canon_next(nodes, a[i].v, a[i].g))
}

/// Movement rule for agent `i`, on cells `pos` with moved flags `moved`: an
/// agent that has not moved and is not at its goal goes to its desired next
/// vertex when nobody stands there; when the agent there has not moved and
/// wants this agent's cell, the two exchange cells; otherwise it stays.
pub open spec fn move_one(
    pos: Seq<usize>,
    moved: Seq<bool>,
    goals: Seq<usize>,
    nx: Seq<Option<usize>>,
    i: int,
) -> (Seq<usize>, Seq<bool>) {
    if moved[i] || pos[i] == goals[i] {
        (pos, moved)
    } else {
        match nx[i] {
            None => (pos, moved),
            Some(u) => match occupant_of(pos, u) {
                None => (pos.update(i, u), moved.update(i, true)),
                Some(j) => if j != i && !moved[j] && nx[j] == Some(pos[i]) {
                    (pos.update(i, pos[j]).update(j, pos[i]), moved.update(i, true).update(j, true))
                } else {
                    (pos, moved)
                },
            },
        }
    }
}

/// The movement rule applied to agents `0..k` in index order.
pub open spec fn move_scan(
    pos: Seq<usize>,
    moved: Seq<bool>,
    goals: Seq<usize>,
    nx: Seq<Option<usize>>,
    k: int,
) -> (Seq<usize>, Seq<bool>)
    decreases k,
{
    if k <= 0 {
        (pos, moved)
    } else {
        let (p, m) = move_scan(pos, moved, goals, nx, k - 1);
        move_one(p, m, goals, nx, k - 1)
    }
}


proof fn lemma_goal_scan_home(nodes: Seq<Node>, pos: Seq<usize>, gl: Seq<usize>, k: int)
    requires
        pos.len() == gl.len(),
        forall|i: int| 0 <= i < pos.len() ==> pos[i] == gl[i],
        0 <= k <= pos.len(),
    ensures
        goal_scan(nodes, pos, gl, k) == gl,
    decreases k,
{
    if k > 0 {
        lemma_goal_scan_home(nodes, pos, gl, k - 1);
    }
}

proof fn lemma_move_scan_home(
    pos: Seq<usize>,
    moved: Seq<bool>,
    gls: Seq<usize>,
    nx: Seq<Option<usize>>,
    k: int,
)
    requires
        pos.len() == gls.len(),
        forall|i: int| 0 <= i < pos.len() ==> pos[i] == gls[i],
        0 <= k <= pos.len(),
    ensures
        move_scan(pos, moved, gls, nx, k) == (pos, moved),
    decreases k,
{
    if k > 0 {
        lemma_move_scan_home(pos, moved, gls, nx, k - 1);
    }
}

/// Cells after the movement phase, desired next vertices taken at its start.
pub open spec fn phase_b(nodes: Seq<Node>, a: Seq<Agent>) -> Seq<usize> {
    move_scan(
        positions(a),
        Seq::new(a.len(), |x: int| false),
        goals(a),
        desired(nodes, a),
        a.len() as int,
    ).0
}

proof fn lemma_occupant(a: Seq<Agent>, u: usize, r: Option<usize>)
    requires
        r is Some ==> (r->0 as int) < a.len() && a[r->0 as int].v == u && forall|k: int|
            0 <= k < r->0 ==> #[trigger] a[k].v != u,
        r is None ==> forall|k: int| 0 <= k < a.len() ==> #[trigger] a[k].v != u,
    ensures
        occupant_of(positions(a), u) == (match r {
            Some(j) => Some(j as int),
            None => None,
        }),
{
    let pos = positions(a);
    match r {
        Some(j) => {
            assert(pos[j as int] == u);
            let c = choose|c: int| 0 <= c < pos.len() && pos[c] == u && forall|k: int| 0 <= k < c ==> pos[k] != u;
            if c < j {
                assert(a[c].v != u);
            } else if c > j {
                assert(pos[j as int] != u);
            }
        },
        None => {
            assert(!exists|j: int| 0 <= j < pos.len() && pos[j] == u) by {
                assert forall|j: int| 0 <= j < pos.len() implies pos[j] != u by {
                    assert(a[j].v != u);
                }
            }
        },
    }
}

/// Every agent's desired next vertex, computed once.
fn desired_all(agents: &Vec<Agent>, nodes: &[Node]) -> (nx: Vec<Option<usize>>)
    requires
        grid_graph(nodes@),
        agents_in_graph(agents@, nodes@.len() as int),
    ensures
        nx@ == desired(nodes@, agents@),
        forall|i: int|
            0 <= i < nx@.len() && #[trigger] nx@[i] is Some ==> (nx@[i]->0 as int) < nodes@.len()
                && adjacent(nodes@, agents@[i].v as int, nx@[i]->0 as int),
{
    let mut nx: Vec<Option<usize>> = Vec::new();
    let mut i: usize = 0;
    while i < agents.len()
        invariant
            grid_graph(nodes@),
            agents_in_graph(agents@, nodes@.len() as int),
            i <= agents@.len(),
            nx@.len() == i,
            forall|k: int| 0 <= k < i ==> #[trigger] nx@[k] == canon_next(nodes@, agents@[k].v, agents@[k].g),
            forall|k: int|
                0 <= k < i && #[trigger] nx@[k] is Some ==> (nx@[k]->0 as int) < nodes@.len()
                    && adjacent(nodes@, agents@[k].v as int, nx@[k]->0 as int),
        decreases agents@.len() - i,
    {
        let a = agents[i];
        nx.push(desired_next(a.v, a.g, nodes));
        i = i + 1;
    }
    assert(nx@ =~= desired(nodes@, agents@));
    nx
}

/// Each agent either stays or steps along one edge.
pub open spec fn single_steps(nodes: Seq<Node>, before: Seq<Agent>, after: Seq<Agent>) -> bool {
    forall|i: int|
        0 <= i < after.len() ==> #[trigger] after[i].v == before[i].v || adjacent(
            nodes,
            before[i].v as int,
            after[i].v as int,
        )
}

/// Each recorded pair `(a, b)` is two distinct agents that exchanged vertices.
pub open spec fn swaps_exchanged(
    swaps: Seq<(usize, usize)>,
    before: Seq<Agent>,
    after: Seq<Agent>,
) -> bool {
    forall|k: int|
        0 <= k < swaps.len() ==> {
            let (a, b) = #[trigger] swaps[k];
            &&& a != b
            &&& (a as int) < after.len()
            &&& (b as int) < after.len()
            &&& after[a as int].v == before[b as int].v
            &&& after[b as int].v == before[a as int].v
        }
}

/// Two agents that ended on each other's vertices did so by a recorded swap.
pub open spec fn exchanges_recorded(
    swaps: Seq<(usize, usize)>,
    before: Seq<Agent>,
    after: Seq<Agent>,
) -> bool {
    forall|a: int, b: int|
        0 <= a < after.len() && 0 <= b < after.len() && a != b && #[trigger] after[a].v
            == before[b].v && #[trigger] after[b].v == before[a].v ==> swaps.contains(
            (a as usize, b as usize),
        ) || swaps.contains((b as usize, a as usize))
}

/// Movement phase of a TSWAP step, agents taken in index order. An agent not
/// at its goal moves to its desired next vertex when that vertex is empty; when
/// the agent there wants this agent's vertex, the two exchange vertices. An
/// agent moves at most once per step. Returns the exchanging pairs.
#[verifier::rlimit(100)]
#[verifier::spinoff_prover]
pub fn move_agents(agents: &mut Vec<Agent>, nodes: &[Node]) -> (swaps: Vec<(usize, usize)>)
    requires
        grid_graph(nodes@),
        agents_in_graph(old(agents)@, nodes@.len() as int),
    ensures
        final(agents)@.len() == old(agents)@.len(),
        agents_in_graph(final(agents)@, nodes@.len() as int),
        goals(final(agents)@) == goals(old(agents)@),
        forall|k: int| 0 <= k < final(agents)@.len() ==> #[trigger] final(agents)@[k].id == old(agents)@[k].id,
        collision_free(old(agents)@) ==> collision_free(final(agents)@),
        single_steps(nodes@, old(agents)@, final(agents)@),
        swaps_exchanged(swaps@, old(agents)@, final(agents)@),
        collision_free(old(agents)@) ==> exchanges_recorded(swaps@, old(agents)@, final(agents)@),
        positions(final(agents)@) == phase_b(nodes@, old(agents)@),
        forall|k: int|
            0 <= k < swaps@.len() ==> {
                let (a, b) = #[trigger] swaps@[k];
                &&& desired(nodes@, old(agents)@)[a as int] == Some(old(agents)@[b as int].v)
                &&& desired(nodes@, old(agents)@)[b as int] == Some(old(agents)@[a as int].v)
            },
{
    let ghost s0 = agents@;
    let ghost cf = collision_free(s0);
    let nx = desired_all(agents, nodes);
    let n = agents.len();
    let mut moved: Vec<bool> = Vec::new();
    let mut k: usize = 0;
    while k < n
        invariant
            k <= n,
            moved@ == Seq::new(k as nat, |x: int| false),
        decreases n - k,
    {
        moved.push(false);
        k = k + 1;
    }
    let mut swaps: Vec<(usize, usize)> = Vec::new();
    let mut i: usize = 0;
    while i < n
        invariant
            grid_graph(nodes@),
            n == s0.len(),
            agents_in_graph(s0, nodes@.len() as int),
            cf == collision_free(s0),
            agents@.len() == n,
            moved@.len() == n,
            i <= n,
            agents_in_graph(agents@, nodes@.len() as int),
            goals(agents@) == goals(s0),
            forall|a: int| 0 <= a < n ==> #[trigger] agents@[a].id == s0[a].id,
            cf ==> collision_free(agents@),
            forall|a: int| 0 <= a < n && !moved@[a] ==> #[trigger] agents@[a].v == s0[a].v,
            single_steps(nodes@, s0, agents@),
            swaps_exchanged(swaps@, s0, agents@),
            forall|k: int|
                0 <= k < swaps@.len() ==> moved@[(#[trigger] swaps@[k]).0 as int] && moved@[swaps@[k].1 as int],
            cf ==> exchanges_recorded(swaps@, s0, agents@),
            nx@ == desired(nodes@, s0),
            forall|x: int|
                0 <= x < n && #[trigger] nx@[x] is Some ==> (nx@[x]->0 as int) < nodes@.len()
                    && adjacent(nodes@, s0[x].v as int, nx@[x]->0 as int),
            (positions(agents@), moved@) == move_scan(positions(s0), Seq::new(n as nat, |x: int| false), goals(s0), nx@, i as int),
            forall|k: int|
                0 <= k < swaps@.len() ==> {
                    let (a, b) = #[trigger] swaps@[k];
                    &&& nx@[a as int] == Some(s0[b as int].v)
                    &&& nx@[b as int] == Some(s0[a as int].v)
                },
        decreases n - i,
    {
        let a = agents[i];
        let ghost pos_prev = positions(agents@);
        let ghost mv_prev = moved@;
        let ghost sw_prev = swaps@;
        proof {
            assert(goals(agents@)[i as int] == goals(s0)[i as int]);
        }
        if !moved[i] && a.v != a.g {
            if let Some(u) = nx[i] {
                let occ = occupant(agents, u);
                proof {
                    lemma_occupant(agents@, u, occ);
                }
                match occ {
                    None => {
                        let ghost before = agents@;
                        let mut ai = a;
                        ai.v = u;
                        agents.set(i, ai);
                        moved.set(i, true);
                        proof {
                            assert(goals(agents@) =~= goals(before));
                            if cf {
                            assert forall|x: int, y: int|
                                0 <= x < n && 0 <= y < n && x != y implies agents@[x].v
                                != agents@[y].v by {
                                if x == i {
                                    assert(before[y].v != u);
                                } else if y == i {
                                    assert(before[x].v != u);
                                } else {
                                    assert(before[x].v != before[y].v);
                                }
                            }
                            assert forall|x: int, y: int|
                                0 <= x < n && 0 <= y < n && x != y && #[trigger] agents@[x].v
                                    == s0[y].v && #[trigger] agents@[y].v == s0[x].v implies swaps@.contains(
                                (x as usize, y as usize),
                            ) || swaps@.contains((y as usize, x as usize)) by {
                                if x == i {
                                    assert(before[i as int].v == s0[i as int].v);
                                    assert(before[y].v != before[i as int].v);
                                } else if y == i {
                                    assert(before[i as int].v == s0[i as int].v);
                                    assert(before[x].v != before[i as int].v);
                                } else {
                                    assert(before[x].v == s0[y].v && before[y].v == s0[x].v);
                                }
                            }
                            }
                            assert forall|k: int| 0 <= k < swaps@.len() implies {
                                let (p, q) = #[trigger] swaps@[k];
                                &&& p != q
                                &&& (p as int) < n
                                &&& (q as int) < n
                                &&& agents@[p as int].v == s0[q as int].v
                                &&& agents@[q as int].v == s0[p as int].v
                            } by {
                                let (p, q) = swaps@[k];
                                assert(p != i && q != i);
                            }
                        }
                    },
                    Some(j) => {
                        if j != i && !moved[j] {
                            let b = agents[j];
                            if let Some(w) = nx[j] {
                                if w == a.v {
                                    let ghost before = agents@;
                                    let ghost swaps_before = swaps@;
                                    let mut ai = a;
                                    ai.v = b.v;
                                    agents.set(i, ai);
                                    let mut bj = b;
                                    bj.v = a.v;
                                    agents.set(j, bj);
                                    moved.set(i, true);
                                    moved.set(j, true);
                                    swaps.push((i, j));
                                    proof {
                                        assert(goals(agents@) =~= goals(before));
                                        assert(swaps@[swaps_before.len() as int] == (i, j));
                                        if cf {
                                        assert forall|x: int, y: int|
                                            0 <= x < n && 0 <= y < n && x != y implies agents@[x].v
                                            != agents@[y].v by {
                                            if x != i && x != j && y != i && y != j {
                                                assert(before[x].v != before[y].v);
                                            } else if x == i && y != j {
                                                assert(before[y].v != before[j as int].v);
                                            } else if x == j && y != i {
                                                assert(before[y].v != before[i as int].v);
                                            } else if y == i && x != j {
                                                assert(before[x].v != before[j as int].v);
                                            } else if y == j && x != i {
                                                assert(before[x].v != before[i as int].v);
                                            }
                                        }
                                        assert forall|x: int, y: int|
                                            0 <= x < n && 0 <= y < n && x != y && #[trigger] agents@[x].v
                                                == s0[y].v && #[trigger] agents@[y].v == s0[x].v implies swaps@.contains(
                                            (x as usize, y as usize),
                                        ) || swaps@.contains((y as usize, x as usize)) by {
                                            if (x == i && y == j) || (x == j && y == i) {
                                            } else if x == i || x == j || y == i || y == j {
                                                assert(s0[i as int].v != s0[j as int].v);
                                                if x == i {
                                                    assert(s0[y].v != s0[j as int].v);
                                                } else if x == j {
                                                    assert(s0[y].v != s0[i as int].v);
                                                } else if y == i {
                                                    assert(s0[x].v != s0[j as int].v);
                                                } else {
                                                    assert(s0[x].v != s0[i as int].v);
                                                }
                                            } else {
                                                assert(before[x].v == s0[y].v && before[y].v
                                                    == s0[x].v);
                                                if swaps_before.contains((x as usize, y as usize)) {
                                                    let t = choose|t: int|
                                                        0 <= t < swaps_before.len()
                                                            && swaps_before[t] == (
                                                            x as usize,
                                                            y as usize,
                                                        );
                                                    assert(swaps@[t] == (x as usize, y as usize));
                                                } else {
                                                    let t = choose|t: int|
                                                        0 <= t < swaps_before.len()
                                                            && swaps_before[t] == (
                                                            y as usize,
                                                            x as usize,
                                                        );
                                                    assert(swaps@[t] == (y as usize, x as usize));
                                                }
                                            }
                                        }
                                        }
                                        assert forall|k: int| 0 <= k < swaps@.len() implies {
                                            let (p, q) = #[trigger] swaps@[k];
                                            &&& p != q
                                            &&& (p as int) < n
                                            &&& (q as int) < n
                                            &&& agents@[p as int].v == s0[q as int].v
                                            &&& agents@[q as int].v == s0[p as int].v
                                        } by {
                                            if k < swaps_before.len() {
                                                assert(swaps@[k] == swaps_before[k]);
                                                let (p, q) = swaps@[k];
                                                assert(p != i && q != i && p != j && q != j);
                                            }
                                        }
                                        assert forall|k: int| 0 <= k < swaps@.len() implies moved@[(
                                        #[trigger] swaps@[k]).0 as int] && moved@[swaps@[k].1 as int] by {
                                            if k < swaps_before.len() {
                                                assert(swaps@[k] == swaps_before[k]);
                                            }
                                        }
                                    }
                                }
                            }
                        }
                    },
                }
            }
        }
        proof {
            assert(move_scan(positions(s0), Seq::new(n as nat, |x: int| false), goals(s0), nx@, i + 1)
                == move_one(pos_prev, mv_prev, goals(s0), nx@, i as int));
            let (pp, mm) = move_one(pos_prev, mv_prev, goals(s0), nx@, i as int);
            assert(positions(agents@) =~= pp);
            assert(moved@ =~= mm);
            assert forall|k: int| 0 <= k < swaps@.len() implies {
                let (a, b) = #[trigger] swaps@[k];
                &&& nx@[a as int] == Some(s0[b as int].v)
                &&& nx@[b as int] == Some(s0[a as int].v)
            } by {
                if k < sw_prev.len() {
                    assert(swaps@[k] == sw_prev[k]);
                }
            }
        }
        i = i + 1;
    }
    proof {
        assert(positions(agents@) == phase_b(nodes@, s0));
    }
    swaps
}

/// One TSWAP step: the goal phase, then the movement phase. Goals are only
/// swapped or rotated among agents, agents stay or step along one edge, no two
/// agents end on one vertex, and two agents end on each other's vertices only
/// through a recorded mutual swap.
pub fn tswap_step(agents: &mut Vec<Agent>, nodes: &[Node]) -> (swaps: Vec<(usize, usize)>)
    requires
        grid_graph(nodes@),
        agents_in_graph(old(agents)@, nodes@.len() as int),
    ensures
        final(agents)@.len() == old(agents)@.len(),
        agents_in_graph(final(agents)@, nodes@.len() as int),
        forall|k: int| 0 <= k < final(agents)@.len() ==> #[trigger] final(agents)@[k].id == old(agents)@[k].id,
        goals(final(agents)@).to_multiset() == goals(old(agents)@).to_multiset(),
        collision_free(old(agents)@) ==> collision_free(final(agents)@),
        single_steps(nodes@, old(agents)@, final(agents)@),
        swaps_exchanged(swaps@, old(agents)@, final(agents)@),
        collision_free(old(agents)@) ==> exchanges_recorded(swaps@, old(agents)@, final(agents)@),
        goals(final(agents)@) == phase_a(nodes@, old(agents)@),
        positions(final(agents)@) == phase_b(nodes@, after_phase_a(nodes@, old(agents)@)),
        (forall|k: int| 0 <= k < old(agents)@.len() ==> #[trigger] old(agents)@[k].v == old(agents)@[k].g)
            ==> final(agents)@ == old(agents)@,
        forall|k: int|
            0 <= k < swaps@.len() ==> {
                let (a, b) = #[trigger] swaps@[k];
                let mid = after_phase_a(nodes@, old(agents)@);
                &&& desired(nodes@, mid)[a as int] == Some(old(agents)@[b as int].v)
                &&& desired(nodes@, mid)[b as int] == Some(old(agents)@[a as int].v)
            },
{
    let ghost s0 = agents@;
    resolve_goals(agents, nodes);
    let ghost s1 = agents@;
    assert(s1 =~= after_phase_a(nodes@, s0)) by {
        assert forall|k: int| 0 <= k < s1.len() implies #[trigger] s1[k] == after_phase_a(nodes@, s0)[k] by {
            assert(positions(s1)[k] == positions(s0)[k]);
            assert(goals(s1)[k] == phase_a(nodes@, s0)[k]);
            assert(s1[k].id == s0[k].id);
            let e = after_phase_a(nodes@, s0)[k];
            assert(e.id == s0[k].id && e.v == s0[k].v && e.g == phase_a(nodes@, s0)[k]);
        }
    }
    assert forall|i: int| 0 <= i < s1.len() implies s1[i].v == s0[i].v by {
        assert(positions(s1)[i] == positions(s0)[i]);
    }
    assert(collision_free(s1) == collision_free(s0));
    let swaps = move_agents(agents, nodes);
    assert(single_steps(nodes@, s0, agents@)) by {
        assert forall|i: int| 0 <= i < agents@.len() implies #[trigger] agents@[i].v == s0[i].v
            || adjacent(nodes@, s0[i].v as int, agents@[i].v as int) by {
            assert(s1[i].v == s0[i].v);
        }
    }
    assert(collision_free(s0) ==> exchanges_recorded(swaps@, s0, agents@)) by {
        if collision_free(s0) {
        assert forall|a: int, b: int|
            0 <= a < agents@.len() && 0 <= b < agents@.len() && a != b && #[trigger] agents@[a].v
                == s0[b].v && #[trigger] agents@[b].v == s0[a].v implies swaps@.contains(
            (a as usize, b as usize),
        ) || swaps@.contains((b as usize, a as usize)) by {
            assert(s1[a].v == s0[a].v && s1[b].v == s0[b].v);
        }
        }
    }
    assert forall|k: int| 0 <= k < swaps@.len() implies {
        let (a, b) = #[trigger] swaps@[k];
        let mid = after_phase_a(nodes@, s0);
        &&& desired(nodes@, mid)[a as int] == Some(s0[b as int].v)
        &&& desired(nodes@, mid)[b as int] == Some(s0[a as int].v)
    } by {
        let (a, b) = swaps@[k];
        assert(s1[a as int].v == s0[a as int].v && s1[b as int].v == s0[b as int].v);
    }
    proof {
        if forall|k: int| 0 <= k < s0.len() ==> #[trigger] s0[k].v == s0[k].g {
            lemma_goal_scan_home(nodes@, positions(s0), goals(s0), s0.len() as int);
            assert(phase_a(nodes@, s0) == goals(s0));
            let mid = after_phase_a(nodes@, s0);
            assert(mid =~= s0) by {
                assert forall|k: int| 0 <= k < s0.len() implies #[trigger] mid[k] == s0[k] by {
                    assert(goals(s0)[k] == s0[k].g);
                }
            }
            lemma_move_scan_home(positions(mid), Seq::new(mid.len(), |x: int| false), goals(mid), desired(nodes@, mid), mid.len() as int);
            assert(phase_b(nodes@, mid) == positions(s0));
            assert forall|k: int| 0 <= k < s0.len() implies #[trigger] agents@[k] == s0[k] by {
                assert(positions(agents@)[k] == positions(s0)[k]);
                assert(goals(agents@)[k] == goals(s0)[k]);
                assert(agents@[k].id == s0[k].id);
            }
            assert(agents@ =~= s0);
        }
    }
    assert(swaps_exchanged(swaps@, s0, agents@)) by {
        assert forall|k: int| 0 <= k < swaps@.len() implies {
            let (a, b) = #[trigger] swaps@[k];
            &&& a != b
            &&& (a as int) < agents@.len()
            &&& (b as int) < agents@.len()
            &&& agents@[a as int].v == s0[b as int].v
            &&& agents@[b as int].v == s0[a as int].v
        } by {
            let (a, b) = swaps@[k];
            assert(s1[a as int].v == s0[a as int].v && s1[b as int].v == s0[b as int].v);
        }
    }
    swaps
}

/// What an agent is doing at a recorded tick.
#[allow(non_camel_case_types)]
#[derive(Clone, Copy, Debug, PartialEq, Eq, Structural)]
pub enum AgentState {
    PICKING,
    CARRYING,
    DELIVERED,
    IDLE,
}

/// Where an agent of the offline run is in its task.
#[derive(Clone, Copy, PartialEq, Eq, Structural)]
pub enum Phase {
    Idle,
    ToPickup,
    ToDelivery,
}


/// The unused task (among the first `k`) whose pickup is nearest to `at`, the
/// first such on ties.
pub open spec fn nearest_upto(tasks: Seq<Task>, used: Seq<bool>, at: Point, k: int) -> Option<int>
    decreases k,
{
    if k <= 0 {
        None
    } else {
        let r = nearest_upto(tasks, used, at, k - 1);
        if used[k - 1] {
            r
        } else {
            match r {
                None => Some(k - 1),
                Some(b) => if manhattan(at, tasks[k - 1].pickup) < manhattan(at, tasks[b].pickup) {
                    Some(k - 1)
                } else {
                    r
                },
            }
        }
    }
}

/// The state of an offline run: agents, phases, assigned task indices, and
/// which tasks are taken.
pub type RunState = (Seq<Agent>, Seq<Phase>, Seq<usize>, Seq<bool>);

/// Task bookkeeping for agent `i`: at its goal, an agent heading for its pickup
/// heads for the delivery, one heading for its delivery becomes idle; an idle
/// agent takes the nearest unused task and heads for its pickup.
pub open spec fn keep_one(nodes: Seq<Node>, tasks: Seq<Task>, st: RunState, i: int) -> RunState {
    let (a, ph, asg, used) = st;
    let ag = a[i];
    let p1 = if ag.v == ag.g && ph[i] == Phase::ToPickup {
        Phase::ToDelivery
    } else if ag.v == ag.g && ph[i] == Phase::ToDelivery {
        Phase::Idle
    } else {
        ph[i]
    };
    let g1 = if ag.v == ag.g && ph[i] == Phase::ToPickup {
        crate::neighbors::node_index(nodes, tasks[asg[i] as int].delivery) as usize
    } else {
        ag.g
    };
    if p1 == Phase::Idle {
        match nearest_upto(tasks, used, nodes[ag.v as int].pos, tasks.len() as int) {
            Some(t) => (
                a.update(i, Agent { id: ag.id, v: ag.v, g: crate::neighbors::node_index(nodes, tasks[t].pickup) as usize }),
                ph.update(i, Phase::ToPickup),
                asg.update(i, t as usize),
                used.update(t, true),
            ),
            None => (a.update(i, Agent { id: ag.id, v: ag.v, g: g1 }), ph.update(i, p1), asg, used),
        }
    } else {
        (a.update(i, Agent { id: ag.id, v: ag.v, g: g1 }), ph.update(i, p1), asg, used)
    }
}

/// Task bookkeeping for agents `0..k` in index order.
pub open spec fn keep_scan(nodes: Seq<Node>, tasks: Seq<Task>, st: RunState, k: int) -> RunState
    decreases k,
{
    if k <= 0 {
        st
    } else {
        keep_one(nodes, tasks, keep_scan(nodes, tasks, st, k - 1), k - 1)
    }
}

/// The agents after one TSWAP step.
pub open spec fn stepped(nodes: Seq<Node>, a: Seq<Agent>) -> Seq<Agent> {
    Seq::new(
        a.len(),
        |k: int| Agent { id: a[k].id, v: phase_b(nodes, after_phase_a(nodes, a))[k], g: phase_a(nodes, a)[k] },
    )
}

/// One tick of the run: bookkeeping for every agent, then one TSWAP step.
pub open spec fn run_tick(nodes: Seq<Node>, tasks: Seq<Task>, st: RunState) -> RunState {
    let kept = keep_scan(nodes, tasks, st, st.0.len() as int);
    (stepped(nodes, kept.0), kept.1, kept.2, kept.3)
}

/// What an agent in phase `ph` is doing; `at_goal` tells whether it stands
/// on its goal.
pub open spec fn state_word(ph: Phase, at_goal: bool) -> AgentState {
    if ph == Phase::Idle {
        AgentState::IDLE
    } else if ph == Phase::ToPickup {
        AgentState::PICKING
    } else if at_goal {
        AgentState::DELIVERED
    } else {
        AgentState::CARRYING
    }
}

/// The recorded cells and states of a tick.
pub open spec fn frame_of(nodes: Seq<Node>, st: RunState) -> Seq<(Point, AgentState)> {
    Seq::new(st.0.len(), |k: int| (nodes[st.0[k].v as int].pos, state_word(st.1[k], st.0[k].v == st.0[k].g)))
}

/// Every task is taken and every agent idle.
pub open spec fn run_done(st: RunState) -> bool {
    (forall|k: int| 0 <= k < st.3.len() ==> #[trigger] st.3[k]) && (forall|k: int|
        0 <= k < st.1.len() ==> #[trigger] st.1[k] == Phase::Idle)
}

/// The frames recorded from state `st` after tick `t`, until every task is
/// done or 2001 ticks have passed.
pub open spec fn sim(nodes: Seq<Node>, tasks: Seq<Task>, st: RunState, t: int, fuel: int) -> Seq<Seq<(Point, AgentState)>>
    decreases fuel,
{
    if fuel <= 0 {
        Seq::empty()
    } else {
        let nx = run_tick(nodes, tasks, st);
        if run_done(nx) || t + 1 > 2000 {
            seq![frame_of(nodes, nx)]
        } else {
            seq![frame_of(nodes, nx)] + sim(nodes, tasks, nx, t + 1, fuel - 1)
        }
    }
}

/// The start of a run: every agent idle on the vertex of its start cell, aiming
/// at it, no task taken.
pub open spec fn run_start(nodes: Seq<Node>, starts: Seq<Point>, ntasks: int) -> RunState {
    (
        Seq::new(starts.len(), |k: int| {
            let v = crate::neighbors::node_index(nodes, starts[k]) as usize;
            Agent { id: k as usize, v, g: v }
        }),
        Seq::new(starts.len(), |k: int| Phase::Idle),
        Seq::new(starts.len(), |k: int| 0usize),
        Seq::new(ntasks as nat, |k: int| false),
    )
}

/// The recorded frames, as sequences.
pub open spec fn frame_views(frames: Seq<Vec<(Point, AgentState)>>) -> Seq<Seq<(Point, AgentState)>> {
    Seq::new(frames.len(), |k: int| frames[k]@)
}

/// The frames of a whole offline run.
pub open spec fn run_frames(nodes: Seq<Node>, tasks: Seq<Task>, starts: Seq<Point>) -> Seq<Seq<(Point, AgentState)>> {
    sim(nodes, tasks, run_start(nodes, starts, tasks.len() as int), 0, 2001)
}

/// Vertex `i` of `nodes` is the `i`-th free cell of `g`, and vertices are
/// neighbours exactly when their cells are 4-adjacent.
pub open spec fn graph_of_grid(nodes: Seq<Node>, g: Seq<Seq<char>>) -> bool {
    &&& grid_graph(nodes)
    &&& nodes.len() == free_cells(g).len()
    &&& forall|i: int| 0 <= i < nodes.len() ==> (#[trigger] nodes[i]).pos == free_cells(g)[i]
    &&& forall|i: int, j: int|
        0 <= i < nodes.len() && 0 <= j < nodes.len() ==> (adjacent(nodes, i, j) <==> manhattan(
            nodes[i].pos,
            nodes[j].pos,
        ) == 1)
}

proof fn lemma_free_coord(g: Seq<Seq<char>>, p: Point)
    requires
        grid_fits(g),
        cell_free(g, p),
    ensures
        coord_ok(p),
{
}

/// The vertex of free cell `p`.
fn node_at(nodes: &Vec<Node>, p: Point, Ghost(g): Ghost<Seq<Seq<char>>>) -> (r: usize)
    requires
        graph_of_grid(nodes@, g),
        grid_fits(g),
        cell_free(g, p),
    ensures
        (r as int) < nodes@.len(),
        nodes@[r as int].pos == p,
        r as int == crate::neighbors::node_index(nodes@, p),
{
    proof {
        lemma_free_cells(g);
    }
    let mut k: usize = 0;
    while k < nodes.len()
        invariant
            graph_of_grid(nodes@, g),
            k <= nodes@.len(),
            free_cells(g).contains(p),
            forall|j: int| 0 <= j < k ==> nodes@[j].pos != p,
        decreases nodes@.len() - k,
    {
        if nodes[k].pos.0 == p.0 && nodes[k].pos.1 == p.1 {
            proof {
                crate::neighbors::lemma_node_index(nodes@, p, k as int);
            }
            return k;
        }
        k = k + 1;
    }
    proof {
        let j = choose|j: int| 0 <= j < free_cells(g).len() && free_cells(g)[j] == p;
        assert(nodes@[j].pos == p);
    }
    0
}

/// Index of the unused task whose pickup is nearest (Manhattan) to `at`, the
/// first such on ties.
fn nearest_unused(tasks: &[Task], used: &Vec<bool>, at: Point, Ghost(g): Ghost<Seq<Seq<char>>>) -> (r: Option<usize>)
    requires
        used@.len() == tasks@.len(),
        coord_ok(at),
        grid_fits(g),
        forall|k: int| 0 <= k < tasks@.len() ==> cell_free(g, (#[trigger] tasks@[k]).pickup),
    ensures
        r is None <==> forall|k: int| 0 <= k < used@.len() ==> #[trigger] used@[k],
        r is Some ==> (r->0 as int) < tasks@.len() && !used@[r->0 as int],
        nearest_upto(tasks@, used@, at, tasks@.len() as int) == (match r {
            Some(t) => Some(t as int),
            None => None,
        }),
{
    let mut best: Option<usize> = None;
    let mut best_d: usize = 0;
    let mut k: usize = 0;
    while k < tasks.len()
        invariant
            used@.len() == tasks@.len(),
            coord_ok(at),
            grid_fits(g),
            forall|j: int| 0 <= j < tasks@.len() ==> cell_free(g, (#[trigger] tasks@[j]).pickup),
            k <= tasks@.len(),
            best is None <==> forall|j: int| 0 <= j < k ==> #[trigger] used@[j],
            best is Some ==> (best->0 as int) < k && !used@[best->0 as int],
            nearest_upto(tasks@, used@, at, k as int) == (match best {
                Some(t) => Some(t as int),
                None => None,
            }),
            best is Some ==> best_d == manhattan(at, tasks@[best->0 as int].pickup),
        decreases tasks@.len() - k,
    {
        if !used[k] {
            proof {
                lemma_free_coord(g, tasks@[k as int].pickup);
            }
            let d = manhattan_distance(at, tasks[k].pickup);
            match best {
                None => {
                    best = Some(k);
                    best_d = d;
                },
                Some(_) => {
                    if d < best_d {
                        best = Some(k);
                        best_d = d;
                    }
                },
            }
        }
        k = k + 1;
    }
    best
}

/// Offline TSWAP run over a task list. Each tick, an agent that reached its
/// pickup heads for the delivery, one that reached its delivery becomes idle,
/// and an idle agent takes the unused task with the nearest pickup; then one
/// TSWAP step moves everyone. It stops once every task is taken and every agent
/// idle, or after 2001 ticks. The result holds, for each agent, its cell and
/// state after every tick: at each tick no two agents share a cell, and from one
/// tick to the next each agent stays or moves to a 4-adjacent cell.
#[verifier::rlimit(100)]
#[verifier::spinoff_prover]
pub fn tswap_mapd(grid: &[Vec<char>], initial_positions: Vec<Point>, tasks: &[Task]) -> (paths: Vec<
    Vec<(Point, AgentState)>,
>)
    requires
        grid_fits(grid_view(grid@)),
        initial_positions@.no_duplicates(),
        forall|k: int| 0 <= k < initial_positions@.len() ==> cell_free(grid_view(grid@), #[trigger] initial_positions@[k]),
        forall|k: int|
            0 <= k < tasks@.len() ==> cell_free(grid_view(grid@), (#[trigger] tasks@[k]).pickup)
                && cell_free(grid_view(grid@), tasks@[k].delivery),
    ensures
        paths@.len() == initial_positions@.len(),
        paths@.len() > 0 ==> 1 <= paths@[0]@.len() <= 2001,
        forall|i: int| 0 <= i < paths@.len() ==> (#[trigger] paths@[i])@.len() == paths@[0]@.len(),
        forall|i: int, j: int, s: int|
            0 <= i < paths@.len() && 0 <= j < paths@.len() && i != j && 0 <= s < paths@[i]@.len()
                ==> (#[trigger] paths@[i]@[s]).0 != (#[trigger] paths@[j]@[s]).0,
        forall|i: int, s: int|
            0 <= i < paths@.len() && 0 < s < paths@[i]@.len() ==> {
                let a = (#[trigger] paths@[i]@[s]).0;
                let b = paths@[i]@[s - 1].0;
                a == b || manhattan(a, b) == 1
            },
        forall|i: int|
            0 <= i < paths@.len() && paths@[i]@.len() > 0 ==> {
                let a = (#[trigger] paths@[i]@[0]).0;
                a == initial_positions@[i] || manhattan(a, initial_positions@[i]) == 1
            },
        forall|i: int|
            0 <= i < paths@.len() && paths@[i]@.len() < 2001 ==> (#[trigger] paths@[i]@.last()).1
                == AgentState::IDLE,
        forall|i: int, s: int|
            0 <= i < paths@.len() && 0 <= s < paths@[i]@.len() ==> cell_free(grid_view(grid@), (#[trigger] paths@[i]@[s]).0),
        tasks@.len() == 0 ==> forall|i: int|
            0 <= i < paths@.len() ==> (#[trigger] paths@[i])@ == seq![(initial_positions@[i], AgentState::IDLE)],
        exists|ns: Seq<Node>|
            #[trigger] graph_of_grid(ns, grid_view(grid@)) && forall|i: int, s: int|
                0 <= i < paths@.len() && 0 <= s < run_frames(ns, tasks@, initial_positions@).len() ==> paths@[i]@.len()
                    == run_frames(ns, tasks@, initial_positions@).len() && #[trigger] paths@[i]@[s]
                    == run_frames(ns, tasks@, initial_positions@)[s][i],
{
    let ghost g = grid_view(grid@);
    let nodes = build_graph(grid);
    proof {
        lemma_free_cells(g);
    }
    let n = initial_positions.len();
    let mut agents: Vec<Agent> = Vec::new();
    let mut phase: Vec<Phase> = Vec::new();
    let mut assigned: Vec<usize> = Vec::new();
    let mut i: usize = 0;
    while i < n
        invariant
            graph_of_grid(nodes@, g),
            grid_fits(g),
            n == initial_positions@.len(),
            initial_positions@.no_duplicates(),
            forall|k: int| 0 <= k < n ==> cell_free(g, #[trigger] initial_positions@[k]),
            i <= n,
            agents@.len() == i,
            phase@.len() == i,
            assigned@.len() == i,
            agents_in_graph(agents@, nodes@.len() as int),
            forall|k: int| 0 <= k < i ==> nodes@[(#[trigger] agents@[k]).v as int].pos == initial_positions@[k],
            forall|k: int| 0 <= k < i ==> #[trigger] phase@[k] == Phase::Idle,
            forall|k: int| 0 <= k < i ==> (#[trigger] agents@[k]).v == agents@[k].g,
            forall|k: int| 0 <= k < i ==> #[trigger] agents@[k] == run_start(nodes@, initial_positions@, tasks@.len() as int).0[k],
            forall|k: int| 0 <= k < i ==> #[trigger] assigned@[k] == 0,
        decreases n - i,
    {
        let v = node_at(&nodes, initial_positions[i], Ghost(g));
        agents.push(Agent { id: i, v, g: v });
        phase.push(Phase::Idle);
        assigned.push(0);
        i = i + 1;
    }
    assert(collision_free(agents@)) by {
        assert forall|a: int, b: int| 0 <= a < n && 0 <= b < n && a != b implies agents@[a].v
            != agents@[b].v by {
            assert(initial_positions@[a] != initial_positions@[b]);
        }
    }
    let mut used: Vec<bool> = Vec::new();
    let mut k: usize = 0;
    while k < tasks.len()
        invariant
            k <= tasks@.len(),
            used@ == Seq::new(k as nat, |x: int| false),
        decreases tasks@.len() - k,
    {
        used.push(false);
        k = k + 1;
    }
    let mut frames: Vec<Vec<(Point, AgentState)>> = Vec::new();
    let mut timestep: usize = 0;
    let mut finished = false;
    let ghost all = run_frames(nodes@, tasks@, initial_positions@);
    proof {
        let st0 = run_start(nodes@, initial_positions@, tasks@.len() as int);
        assert(agents@ =~= st0.0);
        assert(phase@ =~= st0.1);
        assert(assigned@ =~= st0.2);
        assert(used@ =~= st0.3);
        assert(frame_views(frames@) + sim(nodes@, tasks@, (agents@, phase@, assigned@, used@), 0, 2001) =~= all);
    }
    while !finished
        invariant
            all == run_frames(nodes@, tasks@, initial_positions@),
            !finished ==> frame_views(frames@) + sim(nodes@, tasks@, (agents@, phase@, assigned@, used@), timestep as int, 2001 - timestep) == all,
            finished ==> frame_views(frames@) == all,
            finished ==> timestep >= 1,
            !finished ==> timestep <= 2000,
            tasks@.len() == 0 ==> forall|a: int| 0 <= a < n ==> (#[trigger] agents@[a]).v == agents@[a].g && phase@[a] == Phase::Idle,
            tasks@.len() == 0 ==> (finished <==> timestep >= 1),
            tasks@.len() == 0 ==> timestep <= 1,
            tasks@.len() == 0 && timestep >= 1 ==> forall|a: int| 0 <= a < n ==> #[trigger] frames@[0]@[a] == (initial_positions@[a], AgentState::IDLE),
            finished && timestep < 2001 ==> forall|a: int| 0 <= a < n ==> (#[trigger] frames@[timestep - 1]@[a]).1
                == AgentState::IDLE,
            graph_of_grid(nodes@, g),
            grid_fits(g),
            n == initial_positions@.len(),
            agents@.len() == n,
            phase@.len() == n,
            assigned@.len() == n,
            used@.len() == tasks@.len(),
            forall|k: int|
                0 <= k < tasks@.len() ==> cell_free(g, (#[trigger] tasks@[k]).pickup) && cell_free(
                    g,
                    tasks@[k].delivery,
                ),
            forall|k: int| 0 <= k < n && phase@[k] != Phase::Idle ==> (#[trigger] assigned@[k] as int) < tasks@.len(),
            agents_in_graph(agents@, nodes@.len() as int),
            collision_free(agents@),
            timestep <= 2001,
            frames@.len() == timestep,
            forall|s: int| 0 <= s < timestep ==> (#[trigger] frames@[s])@.len() == n,
            forall|s: int, a: int, b: int|
                0 <= s < timestep && 0 <= a < n && 0 <= b < n && a != b ==> (#[trigger] frames@[s]@[a]).0
                    != (#[trigger] frames@[s]@[b]).0,
            forall|s: int, a: int| 0 <= s < timestep && 0 <= a < n ==> cell_free(g, (#[trigger] frames@[s]@[a]).0),
            forall|s: int, a: int|
                0 < s < timestep && 0 <= a < n ==> {
                    let p = (#[trigger] frames@[s]@[a]).0;
                    let q = frames@[s - 1]@[a].0;
                    p == q || manhattan(p, q) == 1
                },
            timestep > 0 ==> forall|a: int| 0 <= a < n ==> #[trigger] frames@[timestep - 1]@[a].0 == nodes@[agents@[a].v as int].pos,
            timestep == 0 ==> forall|a: int| 0 <= a < n ==> #[trigger] nodes@[agents@[a].v as int].pos == initial_positions@[a],
            timestep > 0 ==> forall|a: int|
                0 <= a < n ==> {
                    let p = (#[trigger] frames@[0]@[a]).0;
                    p == initial_positions@[a] || manhattan(p, initial_positions@[a]) == 1
                },
        decreases 2001 - timestep,
    {
        // task bookkeeping
        let mut i: usize = 0;
        let ghost start_agents = agents@;
        let ghost pos0 = positions(agents@);
        let ghost st_prev: RunState = (agents@, phase@, assigned@, used@);
        while i < n
            invariant
                graph_of_grid(nodes@, g),
                grid_fits(g),
                agents@.len() == n,
                phase@.len() == n,
                assigned@.len() == n,
                used@.len() == tasks@.len(),
                forall|k: int|
                    0 <= k < tasks@.len() ==> cell_free(g, (#[trigger] tasks@[k]).pickup) && cell_free(
                        g,
                        tasks@[k].delivery,
                    ),
                forall|k: int| 0 <= k < n && phase@[k] != Phase::Idle ==> (#[trigger] assigned@[k] as int) < tasks@.len(),
                agents_in_graph(agents@, nodes@.len() as int),
                positions(agents@) == pos0,
                i <= n,
                tasks@.len() == 0 ==> forall|a: int| 0 <= a < n ==> (#[trigger] agents@[a]).v == agents@[a].g && phase@[a] == Phase::Idle,
                (agents@, phase@, assigned@, used@) == keep_scan(nodes@, tasks@, st_prev, i as int),
            decreases n - i,
        {
            let ghost cur_st: RunState = (agents@, phase@, assigned@, used@);
            let a = agents[i];
            if a.v == a.g {
                if phase[i] == Phase::ToPickup {
                    phase.set(i, Phase::ToDelivery);
                    let d = node_at(&nodes, tasks[assigned[i]].delivery, Ghost(g));
                    agents.set(i, Agent { id: a.id, v: a.v, g: d });
                } else if phase[i] == Phase::ToDelivery {
                    phase.set(i, Phase::Idle);
                }
            }
            if phase[i] == Phase::Idle {
                let here = nodes[agents[i].v].pos;
                match nearest_unused(tasks, &used, here, Ghost(g)) {
                    Some(t) => {
                        used.set(t, true);
                        assigned.set(i, t);
                        phase.set(i, Phase::ToPickup);
                        let p = node_at(&nodes, tasks[t].pickup, Ghost(g));
                        let cur = agents[i];
                        agents.set(i, Agent { id: cur.id, v: cur.v, g: p });
                    },
                    None => {},
                }
            }
            assert(positions(agents@) =~= pos0);
            proof {
                let e = keep_one(nodes@, tasks@, cur_st, i as int);
                assert(agents@ =~= e.0);
                assert(phase@ =~= e.1);
                assert(assigned@ =~= e.2);
                assert(used@ =~= e.3);
                assert(keep_scan(nodes@, tasks@, st_prev, i + 1) == e);
            }
            i = i + 1;
        }
        let ghost kept: RunState = (agents@, phase@, assigned@, used@);
        assert forall|a: int| 0 <= a < n implies agents@[a].v == start_agents[a].v by {
            assert(positions(agents@)[a] == pos0[a]);
            assert(pos0[a] == start_agents[a].v);
        }
        assert(collision_free(agents@)) by {
            assert forall|a: int, b: int| 0 <= a < n && 0 <= b < n && a != b implies agents@[a].v
                != agents@[b].v by {
                assert(start_agents[a].v != start_agents[b].v);
            }
        }
        let ghost before = agents@;
        assert(forall|a: int| 0 <= a < n ==> #[trigger] before[a].v == start_agents[a].v);
        tswap_step(&mut agents, &nodes);
        proof {
            assert(agents@ =~= stepped(nodes@, before)) by {
                assert forall|k: int| 0 <= k < n implies #[trigger] agents@[k] == stepped(nodes@, before)[k] by {
                    assert(positions(agents@)[k] == phase_b(nodes@, after_phase_a(nodes@, before))[k]);
                    assert(goals(agents@)[k] == phase_a(nodes@, before)[k]);
                    assert(agents@[k].id == before[k].id);
                    let e = stepped(nodes@, before)[k];
                    assert(e.id == before[k].id && e.v == phase_b(nodes@, after_phase_a(nodes@, before))[k]
                        && e.g == phase_a(nodes@, before)[k]);
                }
            }
            assert(before == kept.0);
            assert(kept == keep_scan(nodes@, tasks@, st_prev, n as int));
            assert((agents@, phase@, assigned@, used@) == run_tick(nodes@, tasks@, st_prev));
        }
        let ghost nx_st: RunState = (agents@, phase@, assigned@, used@);
        // record the tick
        let mut frame: Vec<(Point, AgentState)> = Vec::new();
        let mut i: usize = 0;
        while i < n
            invariant
                graph_of_grid(nodes@, g),
                agents@.len() == n,
                phase@.len() == n,
                agents_in_graph(agents@, nodes@.len() as int),
                i <= n,
                frame@.len() == i,
                forall|a: int| 0 <= a < i ==> #[trigger] frame@[a].0 == nodes@[agents@[a].v as int].pos,
                forall|a: int| 0 <= a < i ==> (#[trigger] frame@[a].1 == AgentState::IDLE <==> phase@[a] == Phase::Idle),
                forall|a: int| 0 <= a < i ==> #[trigger] frame@[a] == (nodes@[agents@[a].v as int].pos, state_word(phase@[a], agents@[a].v == agents@[a].g)),
                nx_st == (agents@, phase@, assigned@, used@),
            decreases n - i,
        {
            let a = agents[i];
            let state = if phase[i] == Phase::Idle {
                AgentState::IDLE
            } else if phase[i] == Phase::ToPickup {
                AgentState::PICKING
            } else if a.v == a.g {
                AgentState::DELIVERED
            } else {
                AgentState::CARRYING
            };
            frame.push((nodes[a.v].pos, state));
            i = i + 1;
        }
        proof {
            lemma_free_cells(g);
            assert forall|a: int, b: int| 0 <= a < n && 0 <= b < n && a != b implies frame@[a].0
                != frame@[b].0 by {
                assert(agents@[a].v != agents@[b].v);
                assert(nodes@[agents@[a].v as int].pos == free_cells(g)[agents@[a].v as int]);
                assert(nodes@[agents@[b].v as int].pos == free_cells(g)[agents@[b].v as int]);
            }
            assert forall|a: int| 0 <= a < n implies {
                let p = #[trigger] frame@[a].0;
                let q = nodes@[before[a].v as int].pos;
                p == q || manhattan(p, q) == 1
            } by {
                assert(agents@[a].v == before[a].v || adjacent(nodes@, before[a].v as int, agents@[a].v as int));
            }
        }
        proof {
            if tasks@.len() == 0 {
                assert(agents@ == before);
                assert forall|a: int| 0 <= a < n implies #[trigger] frame@[a] == (initial_positions@[a], AgentState::IDLE) by {
                    if timestep == 0 {
                        assert(before[a].v == start_agents[a].v);
                        assert(nodes@[start_agents[a].v as int].pos == initial_positions@[a]);
                        assert(frame@[a].0 == nodes@[agents@[a].v as int].pos);
                        assert(phase@[a] == Phase::Idle);
                        assert(frame@[a].1 == AgentState::IDLE);
                    }
                }
            }
        }
        let ghost frames_before = frames@;
        frames.push(frame);
        proof {
            if tasks@.len() == 0 && timestep == 0 {
                assert(frames@[0] == frame);
            } else if tasks@.len() == 0 {
                assert(frames@[0] == frames_before[0]);
            }
            assert forall|a: int| 0 <= a < n implies {
                let p = (#[trigger] frames@[0]@[a]).0;
                p == initial_positions@[a] || manhattan(p, initial_positions@[a]) == 1
            } by {
                if timestep > 0 {
                    assert(frames@[0] == frames_before[0]);
                } else {
                    assert(before[a].v == start_agents[a].v);
                    assert(nodes@[start_agents[a].v as int].pos == initial_positions@[a]);
                }
            }
            assert forall|s: int, a: int| 0 <= s < timestep + 1 && 0 <= a < n implies cell_free(g, (#[trigger] frames@[s]@[a]).0) by {
                if s < timestep {
                    assert(frames@[s] == frames_before[s]);
                } else {
                    assert(frame@[a].0 == nodes@[agents@[a].v as int].pos);
                    assert(nodes@[agents@[a].v as int].pos == free_cells(g)[agents@[a].v as int]);
                    assert(cell_free(g, free_cells(g)[agents@[a].v as int]));
                }
            }
            assert forall|s: int| 0 <= s < timestep + 1 implies (#[trigger] frames@[s])@.len() == n by {
                if s < timestep {
                    assert(frames@[s] == frames_before[s]);
                }
            }
            assert forall|s: int, a: int, b: int|
                0 <= s < timestep + 1 && 0 <= a < n && 0 <= b < n && a != b implies (
                #[trigger] frames@[s]@[a]).0 != (#[trigger] frames@[s]@[b]).0 by {
                if s < timestep {
                    assert(frames@[s] == frames_before[s]);
                }
            }
            assert forall|s: int, a: int| 0 < s < timestep + 1 && 0 <= a < n implies {
                let p = (#[trigger] frames@[s]@[a]).0;
                let q = frames@[s - 1]@[a].0;
                p == q || manhattan(p, q) == 1
            } by {
                assert(frames@[s - 1] == frames_before[s - 1]);
                if s < timestep {
                    assert(frames@[s] == frames_before[s]);
                } else {
                    assert(frames_before[timestep - 1]@[a].0 == nodes@[before[a].v as int].pos);
                }
            }
        }
        timestep = timestep + 1;
        let mut done = true;
        let mut k: usize = 0;
        while k < used.len()
            invariant
                k <= used@.len(),
                used@.len() == 0 ==> done,
                done == forall|j: int| 0 <= j < k ==> #[trigger] used@[j],
                nx_st == (agents@, phase@, assigned@, used@),
            decreases used@.len() - k,
        {
            if !used[k] {
                done = false;
            }
            k = k + 1;
        }
        let mut k: usize = 0;
        while k < phase.len()
            invariant
                k <= phase@.len(),
                done ==> forall|a: int| 0 <= a < k ==> #[trigger] phase@[a] == Phase::Idle,
                used@.len() == 0 && (forall|a: int| 0 <= a < phase@.len() ==> #[trigger] phase@[a] == Phase::Idle) ==> done,
                used@.len() == tasks@.len(),
                done == ((forall|j: int| 0 <= j < used@.len() ==> #[trigger] used@[j]) && forall|a: int|
                    0 <= a < k ==> #[trigger] phase@[a] == Phase::Idle),
                nx_st == (agents@, phase@, assigned@, used@),
            decreases phase@.len() - k,
        {
            if phase[k] != Phase::Idle {
                done = false;
            }
            k = k + 1;
        }
        proof {
            if done {
                assert forall|a: int| 0 <= a < n implies (#[trigger] frames@[timestep - 1]@[a]).1 == AgentState::IDLE by {
                    assert(frames@[timestep - 1] == frame);
                    assert(phase@[a] == Phase::Idle);
                }
            }
        }
        proof {
            if tasks@.len() == 0 {
                assert forall|a: int| 0 <= a < phase@.len() implies #[trigger] phase@[a] == Phase::Idle by {
                    assert(before[a].v == before[a].g);
                }
                assert(done);
                assert forall|a: int| 0 <= a < n implies (#[trigger] agents@[a]).v == agents@[a].g && phase@[a] == Phase::Idle by {
                    assert(agents@[a] == before[a]);
                }
            }
        }
        finished = done || timestep > 2000;
        proof {
            let nx: RunState = (agents@, phase@, assigned@, used@);
            assert(nx == nx_st);
            assert(nx == run_tick(nodes@, tasks@, st_prev));
            assert(frame@ =~= frame_of(nodes@, nx));
            if done {
                assert forall|j: int| 0 <= j < nx.3.len() implies #[trigger] nx.3[j] by {
                    assert(used@[j]);
                }
                assert forall|j: int| 0 <= j < nx.1.len() implies #[trigger] nx.1[j] == Phase::Idle by {
                    assert(phase@[j] == Phase::Idle);
                }
            }
            if run_done(nx) {
                assert forall|j: int| 0 <= j < used@.len() implies #[trigger] used@[j] by {
                    assert(nx.3[j]);
                }
                assert forall|j: int| 0 <= j < phase@.len() implies #[trigger] phase@[j] == Phase::Idle by {
                    assert(nx.1[j] == Phase::Idle);
                }
            }
            assert(done == run_done(nx));
            let t0 = timestep - 1;
            assert(frame_views(frames@) =~= frame_views(frames_before).push(frame@));
            if finished {
                assert(frame_views(frames@) =~= frame_views(frames_before) + seq![frame_of(nodes@, nx)]);
            } else {
                assert(frame_views(frames@) + sim(nodes@, tasks@, nx, timestep as int, 2001 - timestep) =~= frame_views(frames_before) + (
                seq![frame_of(nodes@, nx)] + sim(nodes@, tasks@, nx, t0 + 1, 2001 - t0 - 1)));
            }
        }
    }
    // one trajectory per agent
    let mut paths: Vec<Vec<(Point, AgentState)>> = Vec::new();
    let mut a: usize = 0;
    while a < n
        invariant
            a <= n,
            paths@.len() == a,
            frame_views(frames@) == all,
            all == run_frames(nodes@, tasks@, initial_positions@),
            frames@.len() == timestep,
            forall|s: int| 0 <= s < timestep ==> (#[trigger] frames@[s])@.len() == n,
            forall|x: int| 0 <= x < a ==> (#[trigger] paths@[x])@.len() == timestep,
            forall|x: int, s: int| 0 <= x < a && 0 <= s < timestep ==> #[trigger] paths@[x]@[s] == frames@[s]@[x],
        decreases n - a,
    {
        let mut path: Vec<(Point, AgentState)> = Vec::new();
        let mut s: usize = 0;
        while s < frames.len()
            invariant
                a < n,
                s <= frames@.len(),
                frames@.len() == timestep,
                forall|t: int| 0 <= t < timestep ==> (#[trigger] frames@[t])@.len() == n,
                path@.len() == s,
                forall|t: int| 0 <= t < s ==> #[trigger] path@[t] == frames@[t]@[a as int],
            decreases frames@.len() - s,
        {
            path.push(frames[s][a]);
            s = s + 1;
        }
        let ghost paths_before = paths@;
        paths.push(path);
        proof {
            assert forall|x: int| 0 <= x < a + 1 implies (#[trigger] paths@[x])@.len() == timestep by {
                if x < a {
                    assert(paths@[x] == paths_before[x]);
                }
            }
            assert forall|x: int, s: int| 0 <= x < a + 1 && 0 <= s < timestep implies #[trigger] paths@[x]@[s]
                == frames@[s]@[x] by {
                if x < a {
                    assert(paths@[x] == paths_before[x]);
                }
            }
        }
        a = a + 1;
    }
    proof {
        if tasks@.len() == 0 {
            assert forall|i: int| 0 <= i < paths@.len() implies (#[trigger] paths@[i])@ == seq![(initial_positions@[i], AgentState::IDLE)] by {
                assert(paths@[i]@.len() == 1);
                assert(paths@[i]@[0] == frames@[0]@[i]);
                assert(paths@[i]@ =~= seq![(initial_positions@[i], AgentState::IDLE)]);
            }
        }
    }
    proof {
        assert(graph_of_grid(nodes@, grid_view(grid@)));
        assert forall|i: int, s: int|
            0 <= i < paths@.len() && 0 <= s < all.len() implies paths@[i]@.len() == all.len() && #[trigger] paths@[i]@[s]
                == all[s][i] by {
            assert(frame_views(frames@)[s] == frames@[s]@);
            assert(frames@.len() == all.len());
        }
    }
    paths
}

} // verus!
