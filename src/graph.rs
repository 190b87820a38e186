use vstd::prelude::*;
use vstd::set_lib::*;
use crate::grid::{
    cell_free, coord_ok, free_cells, free_cells_upto, grid_fits, grid_view, heuristic,
    lemma_free_cells, manhattan, row_free_cells, Point,
};

verus! {

/// A free cell of the grid as a graph vertex.
pub struct Node {
    pub id: usize,
    pub pos: Point,
    pub neighbors: Vec<usize>,
}

/// Every vertex knows its own index, sits at representable coordinates,
/// and lists only existing vertices, each once, as neighbours.
pub open spec fn graph_wf(nodes: Seq<Node>) -> bool {
    forall|i: int|
        0 <= i < nodes.len() ==> {
            &&& (#[trigger] nodes[i]).id == i
            &&& coord_ok(nodes[i].pos)
            &&& nodes[i].neighbors@.no_duplicates()
            &&& forall|k: int|
                0 <= k < nodes[i].neighbors@.len() ==> (#[trigger] nodes[i].neighbors@[k] as int)
                    < nodes.len()
        }
}

/// A well-formed graph of grid cells: distinct positions, and listed
/// neighbours are 4-adjacent.
pub open spec fn grid_graph(nodes: Seq<Node>) -> bool {
    &&& graph_wf(nodes)
    &&& forall|i: int, j: int|
        0 <= i < nodes.len() && 0 <= j < nodes.len() && i != j ==> nodes[i].pos != nodes[j].pos
    &&& forall|i: int, j: int| #[trigger] adjacent(nodes, i, j) ==> manhattan(nodes[i].pos, nodes[j].pos) == 1
}

/// `b` is listed as a neighbour of `a`.
pub open spec fn adjacent(nodes: Seq<Node>, a: int, b: int) -> bool {
    &&& 0 <= a < nodes.len()
    &&& 0 <= b < nodes.len()
    &&& nodes[a].neighbors@.contains(b as usize)
}

/// `w` is a non-empty walk along listed edges.
pub open spec fn is_walk(nodes: Seq<Node>, w: Seq<usize>) -> bool {
    &&& w.len() >= 1
    &&& forall|k: int| 0 <= k < w.len() ==> (#[trigger] w[k] as int) < nodes.len()
    &&& forall|k: int| 0 <= k < w.len() - 1 ==> adjacent(nodes, #[trigger] w[k] as int, w[k + 1] as int)
}

/// `w` is a walk from `a` to `b`.
pub open spec fn walk_between(nodes: Seq<Node>, w: Seq<usize>, a: usize, b: usize) -> bool {
    &&& is_walk(nodes, w)
    &&& w[0] == a
    &&& w.last() == b
}

/// Some walk leads from `a` to `b`.
pub open spec fn reachable(nodes: Seq<Node>, a: usize, b: usize) -> bool {
    exists|w: Seq<usize>| walk_between(nodes, w, a, b)
}

/// Manhattan distance from vertex `v` to vertex `goal`.
pub open spec fn node_h(nodes: Seq<Node>, v: int, goal: int) -> int {
    manhattan(nodes[v].pos, nodes[goal].pos)
}

/// Among the first `k >= 1` neighbours of `start`, the first one with the
/// least Manhattan distance to `goal`.
pub open spec fn best_step(nodes: Seq<Node>, start: int, goal: int, k: int) -> usize
    decreases k,
{
    if k <= 1 {
        nodes[start].neighbors@[0]
    } else {
        let b = best_step(nodes, start, goal, k - 1);
        let nb = nodes[start].neighbors@[k - 1];
        if node_h(nodes, nb as int, goal) < node_h(nodes, b as int, goal) {
            nb
        } else {
            b
        }
    }
}

/// The path returned when `goal` cannot be reached from `start`.
pub open spec fn fallback_path(nodes: Seq<Node>, start: usize, goal: usize) -> Seq<usize> {
    let nbrs = nodes[start as int].neighbors@;
    if nbrs.len() == 0 {
        seq![start]
    } else {
        seq![start, best_step(nodes, start as int, goal as int, nbrs.len() as int)]
    }
}

/// A sequence of distinct indices below `n` has at most `n` elements.
pub proof fn lemma_distinct_bounded(s: Seq<usize>, n: int)
    requires
        s.no_duplicates(),
        forall|k: int| 0 <= k < s.len() ==> (#[trigger] s[k] as int) < n,
        0 <= n,
    ensures
        s.len() <= n,
{
    let t = s.map_values(|x: usize| x as int);
    assert(t.no_duplicates()) by {
        assert forall|i: int, j: int| 0 <= i < t.len() && 0 <= j < t.len() && i != j implies t[i]
            != t[j] by {
            assert(s[i] != s[j]);
        }
    }
    t.unique_seq_to_set();
    lemma_int_range(0, n);
    assert(t.to_set().subset_of(set_int_range(0, n))) by {
        assert forall|x: int| t.to_set().contains(x) implies set_int_range(0, n).contains(x) by {
            let k = choose|k: int| 0 <= k < t.len() && t[k] == x;
            assert(s[k] as int == x);
        }
    }
    lemma_len_subset(t.to_set(), set_int_range(0, n));
}

/// A set of vertices that holds `a` and every neighbour of each of its members
/// holds every vertex reachable from `a`.
pub proof fn lemma_closed_set_holds_reachable(
    nodes: Seq<Node>,
    member: spec_fn(usize) -> bool,
    a: usize,
    w: Seq<usize>,
)
    requires
        member(a),
        forall|v: usize, u: usize|
            member(v) && #[trigger] adjacent(nodes, v as int, u as int) ==> #[trigger] member(u),
        is_walk(nodes, w),
        w[0] == a,
    ensures
        member(w.last()),
    decreases w.len(),
{
    if w.len() > 1 {
        let w1 = w.drop_last();
        assert(is_walk(nodes, w1)) by {
            assert forall|k: int| 0 <= k < w1.len() - 1 implies adjacent(
                nodes,
                #[trigger] w1[k] as int,
                w1[k + 1] as int,
            ) by {
                assert(w1[k] == w[k] && w1[k + 1] == w[k + 1]);
            }
        }
        lemma_closed_set_holds_reachable(nodes, member, a, w1);
        let k = w.len() - 2;
        assert(adjacent(nodes, w[k] as int, w[k + 1] as int));
        assert(w1.last() == w[k]);
    }
}

/// A vector of `n` copies of `x`.
fn filled<T: Copy>(x: T, n: usize) -> (v: Vec<T>)
    ensures
        v@ == Seq::new(n as nat, |i: int| x),
{
    let mut v: Vec<T> = Vec::new();
    let mut i: usize = 0;
    while i < n
        invariant
            i <= n,
            v@ == Seq::new(i as nat, |j: int| x),
        decreases n - i,
    {
        v.push(x);
        i = i + 1;
    }
    v
}



/// Every expanded vertex's `g` is at most the number of steps of any walk from
/// `start` to it.
pub open spec fn expanded_optimal(nodes: Seq<Node>, start: usize, g: Seq<usize>, status: Seq<u8>) -> bool {
    forall|c: int, w: Seq<usize>|
        0 <= c < nodes.len() && status[c] == 2 && #[trigger] walk_between(nodes, w, start, c as usize)
            ==> g[c] + 1 <= w.len()
}

/// A prefix of a walk is a walk to its last vertex.
pub proof fn lemma_walk_prefix(nodes: Seq<Node>, w: Seq<usize>, a: usize, b: usize, m: int)
    requires
        walk_between(nodes, w, a, b),
        0 <= m < w.len(),
    ensures
        walk_between(nodes, w.subrange(0, m + 1), a, w[m]),
{
    let p = w.subrange(0, m + 1);
    assert forall|k: int| 0 <= k < p.len() - 1 implies adjacent(nodes, #[trigger] p[k] as int, p[k + 1] as int) by {
        assert(p[k] == w[k] && p[k + 1] == w[k + 1]);
    }
    assert forall|k: int| 0 <= k < p.len() implies (#[trigger] p[k] as int) < nodes.len() by {
        assert(p[k] == w[k]);
    }
}

/// Along a walk of a grid graph, the Manhattan distance to a cell shrinks by
/// at most one per step.
pub proof fn lemma_h_along_walk(nodes: Seq<Node>, w: Seq<usize>, j: int, target: int)
    requires
        grid_graph(nodes),
        is_walk(nodes, w),
        0 <= j < w.len(),
        0 <= target < nodes.len(),
    ensures
        node_h(nodes, w[j] as int, target) <= (w.len() - 1 - j) + node_h(nodes, w.last() as int, target),
    decreases w.len() - j,
{
    if j < w.len() - 1 {
        lemma_h_along_walk(nodes, w, j + 1, target);
        assert(adjacent(nodes, w[j] as int, w[j + 1] as int));
        assert(manhattan(nodes[w[j] as int].pos, nodes[w[j + 1] as int].pos) == 1);
    }
}

/// On a walk from `start` to a vertex not yet expanded, whose `k`-th vertex is
/// seen with `g` at most `k`, some later vertex is open with `g` at most its
/// index.
proof fn lemma_walk_meets_open(
    nodes: Seq<Node>,
    start: usize,
    g: Seq<usize>,
    status: Seq<u8>,
    w: Seq<usize>,
    v: usize,
    k: int,
) -> (j: int)
    requires
        graph_wf(nodes),
        status.len() == nodes.len(),
        g.len() == nodes.len(),
        forall|x: int| 0 <= x < nodes.len() ==> #[trigger] status[x] <= 2,
        expanded_optimal(nodes, start, g, status),
        forall|p: int, u: int|
            0 <= p < nodes.len() && status[p] == 2 && #[trigger] adjacent(nodes, p, u) && status[u] != 2
                ==> g[u] <= g[p] + 1,
        forall|x: int, u: int|
            0 <= x < nodes.len() && status[x] == 2 && #[trigger] adjacent(nodes, x, u) ==> status[u] != 0,
        walk_between(nodes, w, start, v),
        status[v as int] != 2,
        0 <= k < w.len(),
        status[w[k] as int] != 0,
        g[w[k] as int] <= k,
    ensures
        k <= j < w.len(),
        status[w[j] as int] == 1,
        g[w[j] as int] <= j,
    decreases w.len() - k,
{
    if status[w[k] as int] == 1 {
        k
    } else {
        assert(k < w.len() - 1);
        assert(adjacent(nodes, w[k] as int, w[k + 1] as int));
        let u = w[k + 1];
        if status[u as int] == 2 {
            lemma_walk_prefix(nodes, w, start, v, k + 1);
            assert(walk_between(nodes, w.subrange(0, k + 2), start, u));
        }
        lemma_walk_meets_open(nodes, start, g, status, w, v, k + 1)
    }
}

/// The path from `start` back-linked through `parent`, ending at `end`.
fn trace_back(
    start: usize,
    end: usize,
    parent: &Vec<usize>,
    g: &Vec<usize>,
    status: &Vec<u8>,
    nodes: &[Node],
) -> (path: Vec<usize>)
    requires
        graph_wf(nodes@),
        start < nodes@.len(),
        end < nodes@.len(),
        parent@.len() == nodes@.len(),
        g@.len() == nodes@.len(),
        status@.len() == nodes@.len(),
        status@[end as int] != 0,
        g@[start as int] == 0,
        forall|v: int|
            0 <= v < nodes@.len() && status@[v] != 0 && v != start ==> {
                &&& (#[trigger] parent@[v] as int) < nodes@.len()
                &&& status@[parent@[v] as int] != 0
                &&& g@[v] == g@[parent@[v] as int] + 1
                &&& adjacent(nodes@, parent@[v] as int, v)
            },
    ensures
        walk_between(nodes@, path@, start, end),
        path@.len() == g@[end as int] + 1,
{
    let mut path: Vec<usize> = Vec::new();
    path.push(end);
    let mut c: usize = end;
    while c != start
        invariant
            graph_wf(nodes@),
            start < nodes@.len(),
            parent@.len() == nodes@.len(),
            g@.len() == nodes@.len(),
            status@.len() == nodes@.len(),
            forall|v: int|
                0 <= v < nodes@.len() && status@[v] != 0 && v != start ==> {
                    &&& (#[trigger] parent@[v] as int) < nodes@.len()
                    &&& status@[parent@[v] as int] != 0
                    &&& g@[v] == g@[parent@[v] as int] + 1
                    &&& adjacent(nodes@, parent@[v] as int, v)
                },
            c < nodes@.len(),
            status@[c as int] != 0,
            is_walk(nodes@, path@),
            path@[0] == c,
            path@.last() == end,
            g@[start as int] == 0,
            path@.len() == g@[end as int] - g@[c as int] + 1,
        decreases g@[c as int],
    {
        let p = parent[c];
        let ghost old_path = path@;
        path.insert(0, p);
        assert(path@ == seq![p] + old_path);
        assert(is_walk(nodes@, path@)) by {
            assert forall|k: int| 0 <= k < path@.len() - 1 implies adjacent(
                nodes@,
                #[trigger] path@[k] as int,
                path@[k + 1] as int,
            ) by {
                if k > 0 {
                    assert(path@[k] == old_path[k - 1]);
                    assert(path@[k + 1] == old_path[k]);
                }
            }
        }
        c = p;
    }
    path
}

/// The first listed neighbour of `start` strictly closer to `goal` than every
/// earlier candidate, `start` itself when there is none.
fn best_neighbor(start: usize, goal: usize, nodes: &[Node]) -> (best: usize)
    requires
        graph_wf(nodes@),
        start < nodes@.len(),
        goal < nodes@.len(),
        nodes@[start as int].neighbors@.len() > 0,
    ensures
        best == best_step(
            nodes@,
            start as int,
            goal as int,
            nodes@[start as int].neighbors@.len() as int,
        ),
{
    let nbrs = &nodes[start].neighbors;
    let mut best: usize = nbrs[0];
    let mut best_h: usize = heuristic(nodes[best].pos, nodes[goal].pos);
    let mut k: usize = 1;
    while k < nbrs.len()
        invariant
            graph_wf(nodes@),
            start < nodes@.len(),
            goal < nodes@.len(),
            nbrs@ == nodes@[start as int].neighbors@,
            1 <= k <= nbrs@.len(),
            best == best_step(nodes@, start as int, goal as int, k as int),
            (best as int) < nodes@.len(),
            best_h == node_h(nodes@, best as int, goal as int),
        decreases nbrs@.len() - k,
    {
        let nb = nbrs[k];
        let h = heuristic(nodes[nb].pos, nodes[goal].pos);
        if h < best_h {
            best = nb;
            best_h = h;
        }
        k = k + 1;
    }
    best
}

/// Static A* over the vertex graph with the Manhattan heuristic, used for
/// distances (`get_path` fixes which shortest walk is returned). Among open
/// vertices the one with the lowest `f`, then the highest `g`, then the lowest
/// id is expanded first. The result is a shortest walk from `start` to `goal`
/// when `goal` can be reached; otherwise it is `[start, best]`, `best` being the neighbour that
/// `best_step` picks, or `[start]` when `start` has no neighbour.
#[verifier::rlimit(50)]
pub fn astar_path(start: usize, goal: usize, nodes: &[Node]) -> (path: Vec<usize>)
    requires
        grid_graph(nodes@),
        start < nodes@.len(),
        goal < nodes@.len(),
    ensures
        start == goal ==> path@ == seq![start],
        reachable(nodes@, start, goal) ==> walk_between(nodes@, path@, start, goal),
        reachable(nodes@, start, goal) ==> forall|w: Seq<usize>|
            #[trigger] walk_between(nodes@, w, start, goal) ==> path@.len() <= w.len(),
        !reachable(nodes@, start, goal) ==> path@ == fallback_path(nodes@, start, goal),
{
    if start == goal {
        let mut path: Vec<usize> = Vec::new();
        path.push(start);
        assert(walk_between(nodes@, path@, start, goal));
        assert forall|w: Seq<usize>| #[trigger] walk_between(nodes@, w, start, goal) implies path@.len()
            <= w.len() by {}
        return path;
    }
    let n = nodes.len();
    let mut g: Vec<usize> = filled(0usize, n);
    let mut parent: Vec<usize> = filled(start, n);
    // 0: never seen, 1: open, 2: expanded
    let mut status: Vec<u8> = filled(0u8, n);
    let mut open: Vec<usize> = Vec::new();
    let ghost mut opened: Seq<usize> = seq![start];
    status.set(start, 1);
    open.push(start);
    proof {
        assert forall|v: int| 0 <= v < n implies (#[trigger] status@[v] != 0 <==> opened.contains(
            v as usize,
        )) by {
            if v == start {
                assert(opened[0] == start);
            }
        }
        assert(open@[0] == start);
    }
    while open.len() > 0
        invariant
            graph_wf(nodes@),
            n == nodes@.len(),
            start < n,
            goal < n,
            start != goal,
            g@.len() == n,
            parent@.len() == n,
            status@.len() == n,
            opened.no_duplicates(),
            opened.len() <= n,
            forall|k: int| 0 <= k < opened.len() ==> (#[trigger] opened[k] as int) < n,
            forall|v: int| 0 <= v < n ==> (#[trigger] status@[v] != 0 <==> opened.contains(v as usize)),
            forall|v: int| 0 <= v < n ==> #[trigger] status@[v] <= 2,
            open@.no_duplicates(),
            forall|k: int|
                0 <= k < open@.len() ==> (#[trigger] open@[k] as int) < n && status@[open@[k] as int]
                    == 1,
            forall|v: int| 0 <= v < n && #[trigger] status@[v] == 1 ==> open@.contains(v as usize),
            status@[start as int] != 0,
            g@[start as int] == 0,
            forall|v: int| 0 <= v < n && status@[v] != 0 ==> (#[trigger] g@[v] as int) < opened.len(),
            forall|v: int|
                0 <= v < n && status@[v] != 0 && v != start ==> {
                    &&& (#[trigger] parent@[v] as int) < n
                    &&& status@[parent@[v] as int] == 2
                    &&& g@[v] == g@[parent@[v] as int] + 1
                    &&& adjacent(nodes@, parent@[v] as int, v)
                },
            forall|v: int, u: int|
                0 <= v < n && status@[v] == 2 && #[trigger] adjacent(nodes@, v, u) ==> status@[u]
                    != 0,
            status@[goal as int] != 2,
            grid_graph(nodes@),
            expanded_optimal(nodes@, start, g@, status@),
            forall|p: int, u: int|
                0 <= p < n && status@[p] == 2 && #[trigger] adjacent(nodes@, p, u) && status@[u] != 2
                    ==> g@[u] <= g@[p] + 1,
        decreases (n - opened.len()) + open@.len(),
    {
        let mut bi: usize = 0;
        let mut k: usize = 1;
        while k < open.len()
            invariant
                graph_wf(nodes@),
                n == nodes@.len(),
                goal < n,
                g@.len() == n,
                bi < open@.len(),
                1 <= k <= open@.len(),
                forall|j: int| 0 <= j < open@.len() ==> (#[trigger] open@[j] as int) < n,
                forall|j: int|
                    0 <= j < k ==> g@[open@[bi as int] as int] + node_h(nodes@, open@[bi as int] as int, goal as int)
                        <= g@[#[trigger] open@[j] as int] + node_h(nodes@, open@[j] as int, goal as int),
            decreases open@.len() - k,
        {
            let a = open[k];
            let b = open[bi];
            let fa: u128 = g[a] as u128 + heuristic(nodes[a].pos, nodes[goal].pos) as u128;
            let fb: u128 = g[b] as u128 + heuristic(nodes[b].pos, nodes[goal].pos) as u128;
            if fa < fb || (fa == fb && (g[a] > g[b] || (g[a] == g[b] && a < b))) {
                bi = k;
            }
            k = k + 1;
        }
        proof {
            let v = open@[bi as int];
            assert forall|w: Seq<usize>| #[trigger] walk_between(nodes@, w, start, v) implies g@[v as int] + 1
                <= w.len() by {
                let j = lemma_walk_meets_open(nodes@, start, g@, status@, w, v, 0);
                let u = w[j];
                assert(open@.contains(u));
                let t = choose|t: int| 0 <= t < open@.len() && open@[t] == u;
                assert(g@[v as int] + node_h(nodes@, v as int, goal as int) <= g@[open@[t] as int] + node_h(
                    nodes@,
                    open@[t] as int,
                    goal as int,
                ));
                lemma_h_along_walk(nodes@, w, j, goal as int);
            }
        }
        let ghost open_before = open@;
        let cur = open.remove(bi);
        proof {
            open_before.remove_ensures(bi as int);
            assert forall|j: int| 0 <= j < open@.len() implies #[trigger] open@[j] == (if j
                < bi {
                open_before[j]
            } else {
                open_before[j + 1]
            }) by {}
            assert forall|j: int| 0 <= j < open@.len() implies #[trigger] open@[j] != cur by {
                if j < bi {
                    assert(open@[j] == open_before[j]);
                } else {
                    assert(open@[j] == open_before[j + 1]);
                }
            }
            assert(open@.no_duplicates()) by {
                assert forall|i: int, j: int|
                    0 <= i < open@.len() && 0 <= j < open@.len() && i != j implies open@[i]
                    != open@[j] by {
                    let i2 = if i < bi { i } else { i + 1 };
                    let j2 = if j < bi { j } else { j + 1 };
                    assert(open@[i] == open_before[i2]);
                    assert(open@[j] == open_before[j2]);
                }
            }
        }
        if cur == goal {
            let path = trace_back(start, goal, &parent, &g, &status, nodes);
            assert(forall|w: Seq<usize>| #[trigger] walk_between(nodes@, w, start, goal) ==> g@[goal as int] + 1
                <= w.len());
            return path;
        }
        let ghost st0 = status@;
        status.set(cur, 2);
        proof {
            assert forall|c: int, w: Seq<usize>|
                0 <= c < n && status@[c] == 2 && #[trigger] walk_between(nodes@, w, start, c as usize)
                    implies g@[c] + 1 <= w.len() by {
                if c != cur {
                    assert(st0[c] == 2);
                }
            }
            assert forall|p: int, u: int|
                0 <= p < n && p != cur && status@[p] == 2 && #[trigger] adjacent(nodes@, p, u) && status@[u]
                    != 2 implies g@[u] <= g@[p] + 1 by {
                assert(st0[p] == 2);
            }
            assert forall|v: int, u: int|
                0 <= v < n && v != cur && status@[v] == 2 && #[trigger] adjacent(nodes@, v, u)
                    implies status@[u] != 0 by {
                assert(st0[v] == 2);
                assert(st0[u] != 0);
            }
            assert forall|v: int| 0 <= v < n && #[trigger] status@[v] == 1 implies open@.contains(
                v as usize,
            ) by {
                let j = choose|j: int| 0 <= j < open_before.len() && open_before[j] == v as usize;
                assert(j != bi);
                if j < bi {
                    assert(open@[j] == open_before[j]);
                } else {
                    assert(open@[j - 1] == open_before[j]);
                }
            }
        }
        let ghost measure = (n - opened.len()) + open@.len();
        let nbrs = &nodes[cur].neighbors;
        let mut k: usize = 0;
        while k < nbrs.len()
            invariant
                graph_wf(nodes@),
                n == nodes@.len(),
                start < n,
                goal < n,
                start != goal,
                cur < n,
                cur != goal,
                nbrs@ == nodes@[cur as int].neighbors@,
                k <= nbrs@.len(),
                g@.len() == n,
                parent@.len() == n,
                status@.len() == n,
                status@[cur as int] == 2,
                opened.no_duplicates(),
                opened.len() <= n,
                (n - opened.len()) + open@.len() == measure,
                forall|j: int| 0 <= j < opened.len() ==> (#[trigger] opened[j] as int) < n,
                forall|v: int|
                    0 <= v < n ==> (#[trigger] status@[v] != 0 <==> opened.contains(v as usize)),
                forall|v: int| 0 <= v < n ==> #[trigger] status@[v] <= 2,
                open@.no_duplicates(),
                forall|j: int|
                    0 <= j < open@.len() ==> (#[trigger] open@[j] as int) < n && status@[open@[j] as int]
                        == 1,
                forall|v: int| 0 <= v < n && #[trigger] status@[v] == 1 ==> open@.contains(v as usize),
                status@[start as int] != 0,
                g@[start as int] == 0,
                forall|v: int|
                    0 <= v < n && status@[v] != 0 ==> (#[trigger] g@[v] as int) < opened.len(),
                forall|v: int|
                    0 <= v < n && status@[v] != 0 && v != start ==> {
                        &&& (#[trigger] parent@[v] as int) < n
                        &&& status@[parent@[v] as int] == 2
                        &&& g@[v] == g@[parent@[v] as int] + 1
                        &&& adjacent(nodes@, parent@[v] as int, v)
                    },
                forall|v: int, u: int|
                    0 <= v < n && v != cur && status@[v] == 2 && #[trigger] adjacent(nodes@, v, u)
                        ==> status@[u] != 0,
                forall|j: int| 0 <= j < k ==> status@[#[trigger] nbrs@[j] as int] != 0,
                status@[goal as int] != 2,
                grid_graph(nodes@),
                expanded_optimal(nodes@, start, g@, status@),
                forall|p: int, u: int|
                    0 <= p < n && p != cur && status@[p] == 2 && #[trigger] adjacent(nodes@, p, u)
                        && status@[u] != 2 ==> g@[u] <= g@[p] + 1,
                forall|j: int|
                    0 <= j < k && status@[#[trigger] nbrs@[j] as int] != 2 ==> g@[nbrs@[j] as int] <= g@[cur as int] + 1,
            decreases nbrs@.len() - k,
        {
            let nb = nbrs[k];
            assert(adjacent(nodes@, cur as int, nb as int)) by {
                assert(nodes@[cur as int].neighbors@[k as int] == nb);
            }
            if status[nb] != 2 {
                let tg = g[cur] + 1;
                if status[nb] == 0 {
                    g.set(nb, tg);
                    parent.set(nb, cur);
                    status.set(nb, 1);
                    let ghost open_prev = open@;
                    let ghost opened_prev = opened;
                    open.push(nb);
                    proof {
                        assert(!opened.contains(nb));
                        assert(!open_prev.contains(nb));
                        opened = opened.push(nb);
                        assert forall|v: int| 0 <= v < n implies (#[trigger] status@[v] != 0
                            <==> opened.contains(v as usize)) by {
                            if opened_prev.contains(v as usize) {
                                let j = choose|j: int|
                                    0 <= j < opened_prev.len() && opened_prev[j] == v as usize;
                                assert(opened[j] == v as usize);
                            }
                            if v == nb {
                                assert(opened[opened.len() - 1] == nb);
                            }
                            if opened.contains(v as usize) && v != nb {
                                let j = choose|j: int| 0 <= j < opened.len() && opened[j] == v as usize;
                                assert(j < opened_prev.len());
                                assert(opened_prev[j] == v as usize);
                            }
                        }
                        assert forall|v: int| 0 <= v < n && #[trigger] status@[v] == 1 implies open@.contains(
                            v as usize,
                        ) by {
                            if v == nb {
                                assert(open@[open@.len() - 1] == nb);
                            } else {
                                let j = choose|j: int|
                                    0 <= j < open_prev.len() && open_prev[j] == v as usize;
                                assert(open@[j] == v as usize);
                            }
                        }
                        lemma_distinct_bounded(opened, n as int);
                        assert(open@.no_duplicates()) by {
                            assert forall|i: int, j: int|
                                0 <= i < open@.len() && 0 <= j < open@.len() && i != j implies open@[i]
                                != open@[j] by {
                                if i < open_prev.len() && j < open_prev.len() {
                                    assert(open@[i] == open_prev[i] && open@[j] == open_prev[j]);
                                } else if i < open_prev.len() {
                                    assert(open@[i] == open_prev[i]);
                                } else if j < open_prev.len() {
                                    assert(open@[j] == open_prev[j]);
                                }
                            }
                        }
                    }
                } else if tg < g[nb] {
                    g.set(nb, tg);
                    parent.set(nb, cur);
                }
            }
            k = k + 1;
        }
        proof {
            assert forall|v: int, u: int|
                0 <= v < n && status@[v] == 2 && #[trigger] adjacent(nodes@, v, u) implies status@[u]
                != 0 by {
                if v == cur {
                    let j = choose|j: int| 0 <= j < nbrs@.len() && nbrs@[j] == u as usize;
                    assert(status@[nbrs@[j] as int] != 0);
                }
            }
            assert forall|p: int, u: int|
                0 <= p < n && status@[p] == 2 && #[trigger] adjacent(nodes@, p, u) && status@[u] != 2
                    implies g@[u] <= g@[p] + 1 by {
                if p == cur {
                    let j = choose|j: int| 0 <= j < nbrs@.len() && nbrs@[j] == u as usize;
                    assert(status@[nbrs@[j] as int] != 2);
                }
            }
        }
    }
    proof {
        let st = status@;
        let member = |v: usize| (v as int) < n && st[v as int] != 0;
        assert forall|v: usize, u: usize|
            member(v) && #[trigger] adjacent(nodes@, v as int, u as int) implies #[trigger] member(u) by {
            assert(st[v as int] == 2);
            let j = choose|j: int| 0 <= j < nodes@[v as int].neighbors@.len()
                && nodes@[v as int].neighbors@[j] == u;
            assert((nodes@[v as int].neighbors@[j] as int) < n);
        }
        assert forall|w: Seq<usize>| !walk_between(nodes@, w, start, goal) by {
            if walk_between(nodes@, w, start, goal) {
                lemma_closed_set_holds_reachable(nodes@, member, start, w);
            }
        }
    }
    let mut path: Vec<usize> = Vec::new();
    path.push(start);
    if nodes[start].neighbors.len() > 0 {
        let best = best_neighbor(start, goal, nodes);
        path.push(best);
    }
    path
}


/// Vertex index of each cell, row by row: `Some(i)` exactly for free cells.
pub open spec fn index_table_ok(
    g: Seq<Seq<char>>,
    ids: Seq<Vec<Option<usize>>>,
    cells: Seq<Point>,
    rows: int,
) -> bool {
    &&& ids.len() == rows
    &&& forall|y: int| 0 <= y < rows ==> (#[trigger] ids[y])@.len() == g[y].len()
    &&& forall|y: int, x: int|
        0 <= y < rows && 0 <= x < g[y].len() ==> {
            let e = (#[trigger] ids[y]@[x]);
            &&& (e is Some <==> cell_free(g, (x as usize, y as usize)))
            &&& (e is Some ==> (e->0 as int) < cells.len() && cells[e->0 as int] == (
                x as usize,
                y as usize,
            ))
        }
}

/// The vertex at cell `(x, y)`, if that cell is free.
fn lookup(ids: &Vec<Vec<Option<usize>>>, x: usize, y: usize) -> (r: Option<usize>)
    ensures
        r == (if (y as int) < ids@.len() && (x as int) < ids@[y as int]@.len() {
            ids@[y as int]@[x as int]
        } else {
            None
        }),
{
    if y < ids.len() && x < ids[y].len() {
        ids[y][x]
    } else {
        None
    }
}

/// Appends the vertex at `(x, y)` to `nbrs` when that cell is free.
fn push_if_free(
    nbrs: &mut Vec<usize>,
    ids: &Vec<Vec<Option<usize>>>,
    x: usize,
    y: usize,
    Ghost(g): Ghost<Seq<Seq<char>>>,
    Ghost(cells): Ghost<Seq<Point>>,
    Ghost(center): Ghost<Point>,
)
    requires
        index_table_ok(g, ids@, cells, g.len() as int),
        manhattan((x, y), center) == 1,
        forall|j: int|
            0 <= j < old(nbrs)@.len() ==> manhattan(cells[#[trigger] old(nbrs)@[j] as int], center) == 1,
        old(nbrs)@.no_duplicates(),
        forall|j: int|
            0 <= j < old(nbrs)@.len() ==> (#[trigger] old(nbrs)@[j] as int) < cells.len()
                && cells[old(nbrs)@[j] as int] != (x, y),
    ensures
        final(nbrs)@.no_duplicates(),
        forall|j: int| 0 <= j < final(nbrs)@.len() ==> (#[trigger] final(nbrs)@[j] as int) < cells.len(),
        cell_free(g, (x, y)) ==> final(nbrs)@ == old(nbrs)@.push(
            ids@[y as int]@[x as int]->0,
        ),
        cell_free(g, (x, y)) ==> cells[ids@[y as int]@[x as int]->0 as int] == (x, y),
        !cell_free(g, (x, y)) ==> final(nbrs)@ == old(nbrs)@,
        cell_free(g, (x, y)) ==> final(nbrs)@.contains(ids@[y as int]@[x as int]->0),
        forall|e: usize| old(nbrs)@.contains(e) ==> final(nbrs)@.contains(e),
        forall|j: int|
            0 <= j < final(nbrs)@.len() ==> manhattan(cells[#[trigger] final(nbrs)@[j] as int], center) == 1,
{
    match lookup(ids, x, y) {
        Some(i) => {
            assert(ids@[y as int]@[x as int] is Some);
            let ghost prev = nbrs@;
            nbrs.push(i);
            assert(nbrs@[prev.len() as int] == i);
            assert forall|e: usize| prev.contains(e) implies nbrs@.contains(e) by {
                let j = choose|j: int| 0 <= j < prev.len() && prev[j] == e;
                assert(nbrs@[j] == e);
            }
            assert(nbrs@.no_duplicates()) by {
                assert forall|a: int, b: int|
                    0 <= a < nbrs@.len() && 0 <= b < nbrs@.len() && a != b implies nbrs@[a]
                    != nbrs@[b] by {
                    if a < prev.len() && b < prev.len() {
                        assert(nbrs@[a] == prev[a] && nbrs@[b] == prev[b]);
                    } else if a < prev.len() {
                        assert(nbrs@[a] == prev[a]);
                        assert(cells[prev[a] as int] != (x, y));
                    } else if b < prev.len() {
                        assert(nbrs@[b] == prev[b]);
                        assert(cells[prev[b] as int] != (x, y));
                    }
                }
            }
        },
        None => {},
    }
}

/// The graph of the grid's free cells: vertex `i` is the `i`-th free cell in
/// row-major order, and two vertices are neighbours exactly when their cells
/// are 4-adjacent. Neighbours are listed below, right, above, left.
pub fn build_graph(grid: &[Vec<char>]) -> (nodes: Vec<Node>)
    requires
        grid_fits(grid_view(grid@)),
    ensures
        graph_wf(nodes@),
        grid_graph(nodes@),
        nodes@.len() == free_cells(grid_view(grid@)).len(),
        forall|i: int| 0 <= i < nodes@.len() ==> (#[trigger] nodes@[i]).pos == free_cells(grid_view(grid@))[i],
        forall|i: int, j: int|
            0 <= i < nodes@.len() && 0 <= j < nodes@.len() ==> (adjacent(nodes@, i, j) <==> manhattan(
                nodes@[i].pos,
                nodes@[j].pos,
            ) == 1),
{
    let ghost g = grid_view(grid@);
    proof {
        lemma_free_cells(g);
    }
    let mut cells: Vec<Point> = Vec::new();
    let mut ids: Vec<Vec<Option<usize>>> = Vec::new();
    let mut y: usize = 0;
    while y < grid.len()
        invariant
            g == grid_view(grid@),
            grid_fits(g),
            y <= grid@.len(),
            cells@ == free_cells_upto(g, y as int),
            index_table_ok(g, ids@, cells@, y as int),
        decreases grid@.len() - y,
    {
        let row = &grid[y];
        assert(row@ == g[y as int]);
        let ghost before = cells@;
        let mut row_ids: Vec<Option<usize>> = Vec::new();
        let mut x: usize = 0;
        while x < row.len()
            invariant
                g == grid_view(grid@),
                grid_fits(g),
                y < grid@.len(),
                row@ == g[y as int],
                x <= row@.len(),
                cells@ == before + row_free_cells(row@, y as int, x as int),
                before.len() <= cells@.len(),
                index_table_ok(g, ids@, before, y as int),
                row_ids@.len() == x,
                forall|xx: int|
                    0 <= xx < x ==> {
                        let e = (#[trigger] row_ids@[xx]);
                        &&& (e is Some <==> cell_free(g, (xx as usize, y)))
                        &&& (e is Some ==> (e->0 as int) < cells@.len() && cells@[e->0 as int] == (
                            xx as usize,
                            y,
                        ))
                    },
            decreases row@.len() - x,
        {
            if row[x] == '.' {
                row_ids.push(Some(cells.len()));
                cells.push((x, y));
            } else {
                row_ids.push(None);
            }
            assert(row_free_cells(row@, y as int, (x + 1) as int) == if row@[x as int] == '.' {
                row_free_cells(row@, y as int, x as int).push((x, y))
            } else {
                row_free_cells(row@, y as int, x as int)
            });
            x = x + 1;
        }
        let ghost ids_prev = ids@;
        ids.push(row_ids);
        proof {
            assert(cells@ == free_cells_upto(g, (y + 1) as int));
            assert forall|yy: int, xx: int|
                0 <= yy < y + 1 && 0 <= xx < g[yy].len() implies {
                    let e = (#[trigger] ids@[yy]@[xx]);
                    &&& (e is Some <==> cell_free(g, (xx as usize, yy as usize)))
                    &&& (e is Some ==> (e->0 as int) < cells@.len() && cells@[e->0 as int] == (
                        xx as usize,
                        yy as usize,
                    ))
                } by {
                if yy < y {
                    assert(ids@[yy] == ids_prev[yy]);
                    let e = ids@[yy]@[xx];
                    if e is Some {
                        assert(cells@[e->0 as int] == before[e->0 as int]);
                    }
                } else {
                    assert(ids@[yy] == row_ids);
                }
            }
            assert forall|yy: int| 0 <= yy < y + 1 implies (#[trigger] ids@[yy])@.len()
                == g[yy].len() by {
                if yy < y {
                    assert(ids@[yy] == ids_prev[yy]);
                }
            }
        }
        y = y + 1;
    }
    assert(cells@ == free_cells(g));
    let mut nodes: Vec<Node> = Vec::new();
    let mut k: usize = 0;
    while k < cells.len()
        invariant
            g == grid_view(grid@),
            grid_fits(g),
            cells@ == free_cells(g),
            index_table_ok(g, ids@, cells@, g.len() as int),
            k <= cells@.len(),
            nodes@.len() == k,
            forall|i: int|
                0 <= i < k ==> {
                    &&& (#[trigger] nodes@[i]).id == i
                    &&& nodes@[i].pos == cells@[i]
                    &&& nodes@[i].neighbors@.no_duplicates()
                    &&& forall|j: int|
                        0 <= j < nodes@[i].neighbors@.len() ==> (#[trigger] nodes@[i].neighbors@[j]
                            as int) < cells@.len()
                    &&& forall|j: int|
                        0 <= j < cells@.len() ==> (nodes@[i].neighbors@.contains(j as usize)
                            <==> manhattan(cells@[i], #[trigger] cells@[j]) == 1)
                },
        decreases cells@.len() - k,
    {
        let (x, y) = cells[k];
        proof {
            lemma_free_cells(g);
        }
        assert(cell_free(g, free_cells(g)[k as int]));
        let mut nbrs: Vec<usize> = Vec::new();
        push_if_free(&mut nbrs, &ids, x, y + 1, Ghost(g), Ghost(cells@), Ghost((x, y)));
        push_if_free(&mut nbrs, &ids, x + 1, y, Ghost(g), Ghost(cells@), Ghost((x, y)));
        if y > 0 {
            push_if_free(&mut nbrs, &ids, x, y - 1, Ghost(g), Ghost(cells@), Ghost((x, y)));
        }
        if x > 0 {
            push_if_free(&mut nbrs, &ids, x - 1, y, Ghost(g), Ghost(cells@), Ghost((x, y)));
        }
        proof {
            let c = cells@;
            assert forall|j: int| 0 <= j < c.len() implies (nbrs@.contains(j as usize)
                <==> manhattan(c[k as int], #[trigger] c[j]) == 1) by {
                if nbrs@.contains(j as usize) {
                    let t = choose|t: int| 0 <= t < nbrs@.len() && nbrs@[t] == j as usize;
                    assert(c[nbrs@[t] as int] == c[j]);
                }
                if manhattan(c[k as int], c[j]) == 1 {
                    let p = c[j];
                    assert(p == (x, (y + 1) as usize) || p == ((x + 1) as usize, y) || (y > 0 && p == (
                        x,
                        (y - 1) as usize,
                    )) || (x > 0 && p == ((x - 1) as usize, y)));
                    assert(cell_free(g, free_cells(g)[j]));
                    let e = ids@[p.1 as int]@[p.0 as int];
                    assert(e is Some);
                    assert(c[e->0 as int] == p);
                    assert(e->0 == j as usize) by {
                        assert(c.no_duplicates());
                    }
                }
            }
        }
        nodes.push(Node { id: k, pos: (x, y), neighbors: nbrs });
        k = k + 1;
    }
    proof {
        lemma_free_cells(g);
        assert forall|i: int, j: int|
            0 <= i < nodes@.len() && 0 <= j < nodes@.len() && i != j implies nodes@[i].pos
            != nodes@[j].pos by {
            assert(nodes@[i].pos == cells@[i] && nodes@[j].pos == cells@[j]);
        }
        assert forall|i: int, j: int| #[trigger] adjacent(nodes@, i, j) implies manhattan(
            nodes@[i].pos,
            nodes@[j].pos,
        ) == 1 by {
            assert(nodes@[j].pos == cells@[j]);
        }
        assert forall|i: int| 0 <= i < nodes@.len() implies coord_ok(#[trigger] nodes@[i].pos) by {
            assert(cell_free(g, free_cells(g)[i]));
        }
        assert forall|i: int, j: int|
            0 <= i < nodes@.len() && 0 <= j < nodes@.len() implies (adjacent(nodes@, i, j)
                <==> manhattan(nodes@[i].pos, nodes@[j].pos) == 1) by {
            assert(nodes@[j].pos == cells@[j]);
        }
    }
    nodes
}

/// `d` is the number of steps of a shortest walk from `a` to `b`.
pub open spec fn is_dist(nodes: Seq<Node>, a: usize, b: usize, d: int) -> bool {
    &&& exists|w: Seq<usize>| #[trigger] walk_between(nodes, w, a, b) && w.len() == d + 1
    &&& forall|w: Seq<usize>| #[trigger] walk_between(nodes, w, a, b) ==> d + 1 <= w.len()
}

/// Steps of a shortest walk from `a` to `b` (meaningful when `b` is reachable).
#[verifier::opaque]
pub open spec fn dist(nodes: Seq<Node>, a: usize, b: usize) -> int {
    choose|d: int| is_dist(nodes, a, b, d)
}

/// `u` is a neighbour of `v` from which a shortest walk to `g` is one step
/// shorter than from `v`.
pub open spec fn on_shortest(nodes: Seq<Node>, v: usize, g: usize, u: usize) -> bool {
    &&& adjacent(nodes, v as int, u as int)
    &&& reachable(nodes, u, g)
    &&& dist(nodes, u, g) + 1 == dist(nodes, v, g)
}

/// The vertex an agent on `v` heading for `g` steps to next: none at the goal;
/// when `g` is reachable, the least-id neighbour on a shortest walk; otherwise
/// the fallback step, or none without neighbours.
pub open spec fn canon_next(nodes: Seq<Node>, v: usize, g: usize) -> Option<usize> {
    if v == g {
        None
    } else if reachable(nodes, v, g) {
        Some(
            choose|u: usize|
                on_shortest(nodes, v, g, u) && forall|u2: usize| on_shortest(nodes, v, g, u2) ==> u <= u2,
        )
    } else if nodes[v as int].neighbors@.len() == 0 {
        None
    } else {
        Some(best_step(nodes, v as int, g as int, nodes[v as int].neighbors@.len() as int))
    }
}

proof fn lemma_dist_of_path(nodes: Seq<Node>, p: Seq<usize>, a: usize, b: usize)
    requires
        walk_between(nodes, p, a, b),
        forall|w: Seq<usize>| #[trigger] walk_between(nodes, w, a, b) ==> p.len() <= w.len(),
    ensures
        dist(nodes, a, b) == p.len() - 1,
        reachable(nodes, a, b),
{
    reveal(dist);
    assert(is_dist(nodes, a, b, p.len() - 1));
    let d = dist(nodes, a, b);
    assert(is_dist(nodes, a, b, d));
    let w = choose|w: Seq<usize>| #[trigger] walk_between(nodes, w, a, b) && w.len() == d + 1;
    assert(p.len() <= w.len());
}

/// Prefixing a neighbour to a walk gives a walk.
proof fn lemma_walk_cons(nodes: Seq<Node>, v: usize, w: Seq<usize>, u: usize, g: usize)
    requires
        adjacent(nodes, v as int, u as int),
        walk_between(nodes, w, u, g),
    ensures
        walk_between(nodes, seq![v] + w, v, g),
{
    let x = seq![v] + w;
    assert forall|k: int| 0 <= k < x.len() - 1 implies adjacent(nodes, #[trigger] x[k] as int, x[k + 1] as int) by {
        if k > 0 {
            assert(x[k] == w[k - 1] && x[k + 1] == w[k]);
        }
    }
    assert forall|k: int| 0 <= k < x.len() implies (#[trigger] x[k] as int) < nodes.len() by {
        if k > 0 {
            assert(x[k] == w[k - 1]);
        }
    }
}



/// A fallback path never ends at the goal it could not reach.
proof fn lemma_unreachable_shape(nodes: Seq<Node>, u: usize, g: usize, q: Seq<usize>)
    requires
        graph_wf(nodes),
        (u as int) < nodes.len(),
        (g as int) < nodes.len(),
        !reachable(nodes, u, g) ==> q == fallback_path(nodes, u, g),
    ensures
        !reachable(nodes, u, g) ==> q.last() != g,
{
    if !reachable(nodes, u, g) {
        if u == g {
            assert(walk_between(nodes, seq![u], u, g));
        }
        if nodes[u as int].neighbors@.len() > 0 {
            crate::tswap::lemma_best_step_public(nodes, u as int, g as int);
            let b = best_step(nodes, u as int, g as int, nodes[u as int].neighbors@.len() as int);
            if b == g {
                assert(walk_between(nodes, seq![u, g], u, g));
            }
        }
    }
}

/// The number of vertices of a shortest walk from `u` to `g`, or `None` when
/// `g` cannot be reached.
fn shortest_len(u: usize, g: usize, nodes: &[Node]) -> (r: Option<usize>)
    requires
        grid_graph(nodes@),
        u < nodes@.len(),
        g < nodes@.len(),
    ensures
        r is Some <==> reachable(nodes@, u, g),
        r is Some ==> dist(nodes@, u, g) == r->0 - 1,
{
    let q = astar_path(u, g, nodes);
    proof {
        lemma_unreachable_shape(nodes@, u, g, q@);
        if reachable(nodes@, u, g) {
            lemma_dist_of_path(nodes@, q@, u, g);
        }
    }
    if q[q.len() - 1] == g {
        Some(q.len())
    } else {
        None
    }
}

/// Whether neighbour `u` of `v` lies on a shortest walk to `g`, given that a
/// shortest walk from `v` has `total` vertices.
fn on_shortest_exec(v: usize, g: usize, u: usize, total: usize, nodes: &[Node]) -> (ok: bool)
    requires
        grid_graph(nodes@),
        v < nodes@.len(),
        g < nodes@.len(),
        dist(nodes@, v, g) == total - 1,
        adjacent(nodes@, v as int, u as int),
    ensures
        ok == on_shortest(nodes@, v, g, u),
{
    match shortest_len(u, g, nodes) {
        Some(l) => total > 0 && l == total - 1,
        None => false,
    }
}

/// The next vertex from `v` towards `g` (see `canon_next`).
pub fn next_step(v: usize, g: usize, nodes: &[Node]) -> (r: Option<usize>)
    requires
        grid_graph(nodes@),
        v < nodes@.len(),
        g < nodes@.len(),
    ensures
        r == canon_next(nodes@, v, g),
        r is Some ==> adjacent(nodes@, v as int, r->0 as int),
        v != g && reachable(nodes@, v, g) ==> r is Some && on_shortest(nodes@, v, g, r->0),
{
    if v == g {
        return None;
    }
    let path = astar_path(v, g, nodes);
    let reach = path[path.len() - 1] == g;
    proof {
        lemma_unreachable_shape(nodes@, v, g, path@);
        if reachable(nodes@, v, g) {
            assert(walk_between(nodes@, path@, v, g));
        } else if nodes@[v as int].neighbors@.len() > 0 {
            crate::tswap::lemma_best_step_public(nodes@, v as int, g as int);
        }
    }
    if !reach {
        if nodes[v].neighbors.len() == 0 {
            return None;
        }
        return Some(path[1]);
    }
    proof {
        lemma_dist_of_path(nodes@, path@, v, g);
    }
    let total = path.len();
    let nbrs = &nodes[v].neighbors;
    let mut best: Option<usize> = None;
    let mut k: usize = 0;
    while k < nbrs.len()
        invariant
            grid_graph(nodes@),
            v < nodes@.len(),
            g < nodes@.len(),
            v != g,
            reachable(nodes@, v, g),
            dist(nodes@, v, g) == total - 1,
            nbrs@ == nodes@[v as int].neighbors@,
            k <= nbrs@.len(),
            best is Some ==> on_shortest(nodes@, v, g, best->0),
            forall|j: int| 0 <= j < k && #[trigger] on_shortest(nodes@, v, g, nbrs@[j]) ==> best is Some && best->0 <= nbrs@[j],
        decreases nbrs@.len() - k,
    {
        let u = nbrs[k];
        assert(adjacent(nodes@, v as int, u as int)) by {
            assert(nodes@[v as int].neighbors@[k as int] == u);
        }
        let ok = on_shortest_exec(v, g, u, total, nodes);
        if ok {
            match best {
                None => {
                    best = Some(u);
                },
                Some(b) => {
                    if u < b {
                        best = Some(u);
                    }
                },
            }
        }
        k = k + 1;
    }
    proof {
        // the second vertex of the shortest path lies on a shortest walk
        let u1 = path@[1];
        assert(adjacent(nodes@, v as int, u1 as int));
        let rest = path@.subrange(1, path@.len() as int);
        assert(walk_between(nodes@, rest, u1, g)) by {
            assert forall|j: int| 0 <= j < rest.len() - 1 implies adjacent(nodes@, #[trigger] rest[j] as int, rest[j + 1] as int) by {
                assert(rest[j] == path@[j + 1] && rest[j + 1] == path@[j + 2]);
            }
            assert forall|j: int| 0 <= j < rest.len() implies (#[trigger] rest[j] as int) < nodes@.len() by {
                assert(rest[j] == path@[j + 1]);
            }
        }
        let du = dist(nodes@, u1, g);
        assert(is_dist(nodes@, u1, g, du)) by {
            let dd = rest.len() - 1;
            // a shortest walk from u1 exists: take any minimal one via dist's witness
            lemma_dist_exists(nodes@, u1, g, rest);
        }
        let wu = choose|w: Seq<usize>| #[trigger] walk_between(nodes@, w, u1, g) && w.len() == du + 1;
        lemma_walk_cons(nodes@, v, wu, u1, g);
        assert(walk_between(nodes@, seq![v] + wu, v, g));
        assert(total <= (seq![v] + wu).len());
        assert(du + 1 <= rest.len());
        assert(on_shortest(nodes@, v, g, u1));
        let j1 = choose|j: int| 0 <= j < nbrs@.len() && nbrs@[j] == u1;
        assert(on_shortest(nodes@, v, g, nbrs@[j1]));
        let b = best->0;
        assert forall|u2: usize| on_shortest(nodes@, v, g, u2) implies b <= u2 by {
            let j2 = choose|j: int| 0 <= j < nbrs@.len() && nbrs@[j] == u2;
            assert(on_shortest(nodes@, v, g, nbrs@[j2]));
        }
        let c = choose|u: usize| on_shortest(nodes@, v, g, u) && forall|u2: usize| on_shortest(nodes@, v, g, u2) ==> u <= u2;
        assert(c <= b && b <= c);
    }
    best
}

/// Some walk from `a` to `b` exists, so a shortest one does and `dist` names it.
pub proof fn lemma_dist_exists(nodes: Seq<Node>, a: usize, b: usize, w0: Seq<usize>)
    requires
        walk_between(nodes, w0, a, b),
    ensures
        is_dist(nodes, a, b, dist(nodes, a, b)),
    decreases w0.len(),
{
    reveal(dist);
    if forall|w: Seq<usize>| #[trigger] walk_between(nodes, w, a, b) ==> w0.len() <= w.len() {
        assert(is_dist(nodes, a, b, w0.len() - 1));
    } else {
        let w1 = choose|w: Seq<usize>| #[trigger] walk_between(nodes, w, a, b) && !(w0.len() <= w.len());
        lemma_dist_exists(nodes, a, b, w1);
    }
}

/// The canonical walk of `f` steps from `v` towards `g`: each step goes to
/// `canon_next`, the least-id neighbour on a shortest walk.
pub open spec fn canon_path(nodes: Seq<Node>, v: usize, g: usize, f: int) -> Seq<usize>
    decreases f,
{
    if f <= 0 {
        seq![v]
    } else {
        seq![v] + canon_path(nodes, canon_next(nodes, v, g)->0, g, f - 1)
    }
}

proof fn lemma_dist_zero(nodes: Seq<Node>, v: usize, g: usize)
    requires
        reachable(nodes, v, g),
    ensures
        dist(nodes, v, g) >= 0,
        dist(nodes, v, g) == 0 ==> v == g,
        forall|w: Seq<usize>| #[trigger] walk_between(nodes, w, v, g) ==> dist(nodes, v, g) + 1 <= w.len(),
{
    let w = choose|w: Seq<usize>| walk_between(nodes, w, v, g);
    lemma_dist_exists(nodes, v, g, w);
    let d = dist(nodes, v, g);
    let w2 = choose|w2: Seq<usize>| #[trigger] walk_between(nodes, w2, v, g) && w2.len() == d + 1;
}


proof fn lemma_canon_step(
    nodes: Seq<Node>,
    cur: usize,
    goal: usize,
    u: usize,
    old_path: Seq<usize>,
    start: usize,
    total: int,
)
    requires
        graph_wf(nodes),
        old_path.len() >= 1,
        old_path.last() == cur,
        is_walk(nodes, old_path),
        on_shortest(nodes, cur, goal, u),
        canon_next(nodes, cur, goal) == Some(u),
        dist(nodes, cur, goal) > 0,
        old_path.len() - 1 + dist(nodes, cur, goal) == total,
        old_path.drop_last() + canon_path(nodes, cur, goal, dist(nodes, cur, goal)) == canon_path(nodes, start, goal, total),
    ensures
        is_walk(nodes, old_path.push(u)),
        old_path.push(u).len() - 1 + dist(nodes, u, goal) == total,
        old_path.push(u).drop_last() + canon_path(nodes, u, goal, dist(nodes, u, goal)) == canon_path(nodes, start, goal, total),
{
    let d = dist(nodes, cur, goal);
    let p = old_path.push(u);
    assert(canon_path(nodes, cur, goal, d) == seq![cur] + canon_path(nodes, u, goal, d - 1));
    assert(old_path =~= old_path.drop_last().push(cur));
    assert(p.drop_last() =~= old_path);
    assert(p.drop_last() + canon_path(nodes, u, goal, d - 1) =~= old_path.drop_last() + canon_path(nodes, cur, goal, d));
    assert forall|k: int| 0 <= k < p.len() - 1 implies adjacent(nodes, #[trigger] p[k] as int, p[k + 1] as int) by {
        if k < old_path.len() - 1 {
            assert(p[k] == old_path[k] && p[k + 1] == old_path[k + 1]);
        } else {
            assert(p[k] == cur && p[k + 1] == u);
        }
    }
    assert forall|k: int| 0 <= k < p.len() implies (#[trigger] p[k] as int) < nodes.len() by {
        if k < old_path.len() {
            assert(p[k] == old_path[k]);
        }
    }
}

/// The path from `start` to `goal` that TSWAP replicas agree on. When `goal`
/// can be reached it is the canonical shortest walk (`canon_path`): from each
/// vertex the least-id neighbour on a shortest walk. Otherwise it is the A*
/// fallback: `[start, best]`, `best` being the neighbour nearest (Manhattan)
/// to `goal`, the first listed on ties, or `[start]` without neighbours.
#[verifier::rlimit(50)]
pub fn get_path(start: usize, goal: usize, nodes: &[Node]) -> (path: Vec<usize>)
    requires
        grid_graph(nodes@),
        start < nodes@.len(),
        goal < nodes@.len(),
    ensures
        start == goal ==> path@ == seq![start],
        reachable(nodes@, start, goal) ==> path@ == canon_path(nodes@, start, goal, dist(nodes@, start, goal)),
        reachable(nodes@, start, goal) ==> walk_between(nodes@, path@, start, goal),
        reachable(nodes@, start, goal) ==> forall|w: Seq<usize>|
            #[trigger] walk_between(nodes@, w, start, goal) ==> path@.len() <= w.len(),
        !reachable(nodes@, start, goal) ==> path@ == fallback_path(nodes@, start, goal),
{
    let first = astar_path(start, goal, nodes);
    proof {
        lemma_unreachable_shape(nodes@, start, goal, first@);
    }
    if first[first.len() - 1] != goal {
        return first;
    }
    assert(reachable(nodes@, start, goal));
    let ghost total = dist(nodes@, start, goal);
    proof {
        lemma_dist_zero(nodes@, start, goal);
    }
    let mut path: Vec<usize> = Vec::new();
    path.push(start);
    let mut cur: usize = start;
    assert(path@.drop_last() =~= Seq::<usize>::empty());
    while cur != goal
        invariant
            grid_graph(nodes@),
            start < nodes@.len(),
            goal < nodes@.len(),
            cur < nodes@.len(),
            reachable(nodes@, cur, goal),
            dist(nodes@, cur, goal) >= 0,
            path@.len() >= 1,
            path@[0] == start,
            path@.last() == cur,
            is_walk(nodes@, path@),
            path@.len() - 1 + dist(nodes@, cur, goal) == total,
            path@.drop_last() + canon_path(nodes@, cur, goal, dist(nodes@, cur, goal)) == canon_path(nodes@, start, goal, total),
        decreases dist(nodes@, cur, goal),
    {
        proof {
            lemma_dist_zero(nodes@, cur, goal);
        }
        let u = match next_step(cur, goal, nodes) {
            Some(u) => u,
            None => {
                assert(false);
                cur
            },
        };
        let ghost d = dist(nodes@, cur, goal);
        let ghost old_path = path@;
        path.push(u);
        proof {
            lemma_canon_step(nodes@, cur, goal, u, old_path, start, total);
            lemma_dist_zero(nodes@, u, goal);
        }
        cur = u;
    }
    proof {
        lemma_dist_zero(nodes@, goal, goal);
        assert(walk_between(nodes@, seq![goal], goal, goal));
        assert(dist(nodes@, goal, goal) == 0);
        assert(canon_path(nodes@, goal, goal, 0) == seq![goal]);
        assert(path@ =~= path@.drop_last() + seq![goal]);
        lemma_dist_zero(nodes@, start, goal);
    }
    path
}

} // verus!
