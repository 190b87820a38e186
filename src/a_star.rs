use vstd::prelude::*;
use vstd::set_lib::*;
use crate::grid::{
    cell_free, free_cells, get_free_cells, grid_fits, grid_view, lemma_free_cells, manhattan,
    manhattan_wide, Point,
};

verus! {

/// Cells forbidden at a time: `((x, y), t)`.
pub type NodeReservation = Vec<(Point, usize)>;

/// Directed moves forbidden when arriving at a time: `((from, to), t)`.
pub type EdgeReservation = Vec<((Point, Point), usize)>;

/// A wait or a step to one of the four neighbouring cells.
pub open spec fn move_ok(p: Point, q: Point) -> bool {
    p == q || manhattan(p, q) == 1
}

/// Moving from `pos` at time `t` to `np` at `t + 1` breaks no rule: `np` is a
/// free cell, neither `np` nor `pos` is reserved at `t + 1`, the edge is not
/// reserved in either direction at `t + 1`, and it is no head-on swap with a
/// traversal reserved at `t`.
pub open spec fn step_allowed(
    g: Seq<Seq<char>>,
    nres: Seq<(Point, usize)>,
    eres: Seq<((Point, Point), usize)>,
    pos: Point,
    np: Point,
    t: int,
) -> bool {
    &&& cell_free(g, np)
    &&& !nres.contains((np, (t + 1) as usize))
    &&& !eres.contains(((pos, np), (t + 1) as usize))
    &&& !eres.contains(((np, pos), (t + 1) as usize))
    &&& !nres.contains((pos, (t + 1) as usize))
    &&& !(eres.contains(((np, pos), t as usize)) && eres.contains(((pos, np), (t + 1) as usize)))
}

/// `path` starts at `start` at time `t0`; entry `k` is occupied at `t0 + k`;
/// every transition is a legal move that breaks no reservation.
pub open spec fn feasible(
    g: Seq<Seq<char>>,
    nres: Seq<(Point, usize)>,
    eres: Seq<((Point, Point), usize)>,
    path: Seq<Point>,
    start: Point,
    t0: int,
) -> bool {
    &&& path.len() >= 1
    &&& path[0] == start
    &&& 0 <= t0
    &&& t0 + path.len() <= usize::MAX
    &&& forall|k: int|
        0 <= k < path.len() - 1 ==> move_ok(#[trigger] path[k], path[k + 1]) && step_allowed(
            g,
            nres,
            eres,
            path[k],
            path[k + 1],
            t0 + k,
        )
}

/// Latest time named by any reservation, or `t0` if later.
pub open spec fn latest_time(
    nres: Seq<(Point, usize)>,
    eres: Seq<((Point, Point), usize)>,
    t0: int,
) -> int
    decreases nres.len() + eres.len(),
{
    if nres.len() > 0 {
        let rest = latest_time(nres.drop_last(), eres, t0);
        if nres.last().1 > rest {
            nres.last().1 as int
        } else {
            rest
        }
    } else if eres.len() > 0 {
        let rest = latest_time(nres, eres.drop_last(), t0);
        if eres.last().1 > rest {
            eres.last().1 as int
        } else {
            rest
        }
    } else {
        t0
    }
}

/// The last time the search looks at: the latest reserved time plus one step
/// for each free cell and one more (capped below `usize::MAX`). After the last
/// reservation the grid no longer changes, so waiting longer gains nothing.
pub open spec fn search_horizon(
    g: Seq<Seq<char>>,
    nres: Seq<(Point, usize)>,
    eres: Seq<((Point, Point), usize)>,
    t0: int,
) -> int {
    let h = latest_time(nres, eres, t0) + free_cells(g).len() + 1;
    if h < usize::MAX {
        h
    } else {
        usize::MAX - 1
    }
}

fn node_reserved(nres: &NodeReservation, p: Point, t: usize) -> (r: bool)
    ensures
        r == nres@.contains((p, t)),
{
    let mut k: usize = 0;
    while k < nres.len()
        invariant
            k <= nres@.len(),
            forall|j: int| 0 <= j < k ==> nres@[j] != (p, t),
        decreases nres@.len() - k,
    {
        let e = nres[k];
        if e.0.0 == p.0 && e.0.1 == p.1 && e.1 == t {
            assert(nres@[k as int] == (p, t));
            return true;
        }
        k = k + 1;
    }
    false
}

fn edge_reserved(eres: &EdgeReservation, a: Point, b: Point, t: usize) -> (r: bool)
    ensures
        r == eres@.contains(((a, b), t)),
{
    let mut k: usize = 0;
    while k < eres.len()
        invariant
            k <= eres@.len(),
            forall|j: int| 0 <= j < k ==> eres@[j] != ((a, b), t),
        decreases eres@.len() - k,
    {
        let e = eres[k];
        if e.0.0.0 == a.0 && e.0.0.1 == a.1 && e.0.1.0 == b.0 && e.0.1.1 == b.1 && e.1 == t {
            assert(eres@[k as int] == ((a, b), t));
            return true;
        }
        k = k + 1;
    }
    false
}

fn is_free(grid: &[Vec<char>], p: Point) -> (r: bool)
    ensures
        r == cell_free(grid_view(grid@), p),
{
    p.1 < grid.len() && p.0 < grid[p.1].len() && grid[p.1][p.0] == '.'
}

/// Whether the move from `pos` at `t` to `np` at `t + 1` breaks no rule.
fn allowed(
    grid: &[Vec<char>],
    nres: &NodeReservation,
    eres: &EdgeReservation,
    pos: Point,
    np: Point,
    t: usize,
) -> (r: bool)
    requires
        t < usize::MAX,
    ensures
        r == step_allowed(grid_view(grid@), nres@, eres@, pos, np, t as int),
{
    let next = t + 1;
    is_free(grid, np) && !node_reserved(nres, np, next) && !edge_reserved(eres, pos, np, next)
        && !edge_reserved(eres, np, pos, next) && !node_reserved(nres, pos, next) && !(
    edge_reserved(eres, np, pos, t) && edge_reserved(eres, pos, np, next))
}

fn latest_reserved(nres: &NodeReservation, eres: &EdgeReservation, t0: usize) -> (r: usize)
    ensures
        r == latest_time(nres@, eres@, t0 as int),
{
    let mut best: usize = t0;
    let mut k: usize = 0;
    while k < eres.len()
        invariant
            k <= eres@.len(),
            best == latest_time(Seq::empty(), eres@.subrange(0, k as int), t0 as int),
        decreases eres@.len() - k,
    {
        assert(eres@.subrange(0, k + 1).drop_last() == eres@.subrange(0, k as int));
        if eres[k].1 > best {
            best = eres[k].1;
        }
        k = k + 1;
    }
    assert(eres@.subrange(0, eres@.len() as int) == eres@);
    assert(nres@.subrange(0, 0) == Seq::<(Point, usize)>::empty());
    let mut k: usize = 0;
    while k < nres.len()
        invariant
            k <= nres@.len(),
            best == latest_time(nres@.subrange(0, k as int), eres@, t0 as int),
        decreases nres@.len() - k,
    {
        assert(nres@.subrange(0, k + 1).drop_last() == nres@.subrange(0, k as int));
        if nres[k].1 > best {
            best = nres[k].1;
        }
        k = k + 1;
    }
    assert(nres@.subrange(0, nres@.len() as int) == nres@);
    best
}

/// States `(cell, t)` with the cell in `cells` and `lo <= t < hi`.
pub open spec fn state_box(cells: Set<Point>, lo: int, hi: int) -> Set<(Point, usize)> {
    Set::new(|s: (Point, usize)| cells.contains(s.0) && lo <= s.1 < hi)
}

proof fn lemma_state_box_len(cells: Set<Point>, lo: int, hi: int)
    requires
        cells.finite(),
        0 <= lo <= hi,
        hi <= usize::MAX + 1,
    ensures
        state_box(cells, lo, hi).finite(),
        state_box(cells, lo, hi).len() == cells.len() * (hi - lo),
    decreases hi - lo,
{
    if lo == hi {
        assert(state_box(cells, lo, hi) =~= Set::empty());
    } else {
        lemma_state_box_len(cells, lo, hi - 1);
        let t = (hi - 1) as usize;
        let f = |p: Point| (p, t);
        let layer = cells.map(f);
        lemma_map_size(cells, layer, f);
        assert(state_box(cells, lo, hi) =~= state_box(cells, lo, hi - 1) + layer) by {
            assert forall|s: (Point, usize)| #[trigger] state_box(cells, lo, hi).contains(s) implies (
            state_box(cells, lo, hi - 1) + layer).contains(s) by {
                if s.1 == t {
                    assert(f(s.0) == s);
                }
            }
        }
        assert(state_box(cells, lo, hi - 1).disjoint(layer));
        lemma_set_disjoint_lens(state_box(cells, lo, hi - 1), layer);
        assert(cells.len() * (hi - 1 - lo) + cells.len() == cells.len() * (hi - lo))
            by (nonlinear_arith);
    }
}

proof fn lemma_latest_time_ge(nres: Seq<(Point, usize)>, eres: Seq<((Point, Point), usize)>, t0: int)
    ensures
        latest_time(nres, eres, t0) >= t0,
        latest_time(nres, eres, t0) <= usize::MAX || t0 > usize::MAX,
    decreases nres.len() + eres.len(),
{
    if nres.len() > 0 {
        lemma_latest_time_ge(nres.drop_last(), eres, t0);
    } else if eres.len() > 0 {
        lemma_latest_time_ge(nres, eres.drop_last(), t0);
    }
}

/// The `d`-th move from `pos`: right, left, down, up, wait.
pub open spec fn candidate(pos: Point, d: int) -> Option<Point> {
    if d == 0 {
        if pos.0 < usize::MAX { Some(((pos.0 + 1) as usize, pos.1)) } else { None }
    } else if d == 1 {
        if pos.0 > 0 { Some(((pos.0 - 1) as usize, pos.1)) } else { None }
    } else if d == 2 {
        if pos.1 < usize::MAX { Some((pos.0, (pos.1 + 1) as usize)) } else { None }
    } else if d == 3 {
        if pos.1 > 0 { Some((pos.0, (pos.1 - 1) as usize)) } else { None }
    } else if d == 4 {
        Some(pos)
    } else {
        None
    }
}

fn next_candidate(pos: Point, d: usize) -> (r: Option<Point>)
    ensures
        r == candidate(pos, d as int),
{
    if d == 0 {
        if pos.0 < usize::MAX { Some((pos.0 + 1, pos.1)) } else { None }
    } else if d == 1 {
        if pos.0 > 0 { Some((pos.0 - 1, pos.1)) } else { None }
    } else if d == 2 {
        if pos.1 < usize::MAX { Some((pos.0, pos.1 + 1)) } else { None }
    } else if d == 3 {
        if pos.1 > 0 { Some((pos.0, pos.1 - 1)) } else { None }
    } else if d == 4 {
        Some(pos)
    } else {
        None
    }
}

proof fn lemma_candidates_cover(pos: Point, q: Point)
    requires
        move_ok(pos, q),
    ensures
        exists|d: int| 0 <= d < 5 && candidate(pos, d) == Some(q),
{
    if q == pos {
        assert(candidate(pos, 4) == Some(q));
    } else if q.0 > pos.0 {
        assert(candidate(pos, 0) == Some(q));
    } else if q.0 < pos.0 {
        assert(candidate(pos, 1) == Some(q));
    } else if q.1 > pos.1 {
        assert(candidate(pos, 2) == Some(q));
    } else {
        assert(candidate(pos, 3) == Some(q));
    }
}

/// The bookkeeping of the search: an arena of distinct states `(spos[a], st[a])`,
/// each reached from an expanded parent by an allowed move; the open list holds
/// exactly the states not yet expanded; every expanded state before the horizon
/// has all its allowed successors in the arena; no expanded state is at `goal`.
pub open spec fn search_inv(
    g: Seq<Seq<char>>,
    nres: Seq<(Point, usize)>,
    eres: Seq<((Point, Point), usize)>,
    start: Point,
    goal: Point,
    t0: int,
    horizon: int,
    cells: Set<Point>,
    spos: Seq<Point>,
    st: Seq<usize>,
    spar: Seq<usize>,
    closed: Seq<bool>,
    open: Seq<usize>,
    pending: int,
) -> bool {
    &&& spos.len() >= 1
    &&& st.len() == spos.len()
    &&& spar.len() == spos.len()
    &&& closed.len() == spos.len()
    &&& spos[0] == start
    &&& st[0] == t0
    &&& forall|a: int, b: int|
        0 <= a < spos.len() && 0 <= b < spos.len() && a != b && #[trigger] spos[a] == #[trigger] spos[b]
            ==> st[a] != st[b]
    &&& forall|a: int|
        0 <= a < spos.len() ==> cells.contains(#[trigger] spos[a]) && t0 <= st[a] <= horizon
    &&& forall|a: int|
        0 < a < spos.len() ==> {
            let p = #[trigger] spar[a] as int;
            &&& p < a
            &&& closed[p]
            &&& st[a] == st[p] + 1
            &&& move_ok(spos[p], spos[a])
            &&& step_allowed(g, nres, eres, spos[p], spos[a], st[p] as int)
        }
    &&& open.no_duplicates()
    &&& forall|k: int| 0 <= k < open.len() ==> (#[trigger] open[k] as int) < spos.len() && !closed[open[k] as int]
    &&& forall|a: int| 0 <= a < spos.len() && !(#[trigger] closed[a]) ==> open.contains(a as usize)
    &&& forall|a: int, np: Point|
        0 <= a < spos.len() && a != pending && closed[a] && st[a] < horizon && move_ok(spos[a], np) && #[trigger] step_allowed(
            g,
            nres,
            eres,
            spos[a],
            np,
            st[a] as int,
        ) ==> exists|b: int| 0 <= b < spos.len() && spos[b] == np && st[b] == st[a] + 1
    &&& forall|a: int| 0 <= a < spos.len() && #[trigger] closed[a] ==> spos[a] != goal
}

/// Along a feasible path to `goal` arriving by the horizon, whose `k`-th state
/// is in the arena, some state from `k` on is in the arena and not expanded.
proof fn lemma_open_on_path(
    g: Seq<Seq<char>>,
    nres: Seq<(Point, usize)>,
    eres: Seq<((Point, Point), usize)>,
    start: Point,
    goal: Point,
    t0: int,
    horizon: int,
    cells: Set<Point>,
    spos: Seq<Point>,
    st: Seq<usize>,
    spar: Seq<usize>,
    closed: Seq<bool>,
    open: Seq<usize>,
    path: Seq<Point>,
    k: int,
    a: int,
) -> (r: (int, int))
    requires
        search_inv(g, nres, eres, start, goal, t0, horizon, cells, spos, st, spar, closed, open, -1),
        feasible(g, nres, eres, path, start, t0),
        path.last() == goal,
        t0 + path.len() - 1 <= horizon,
        0 <= k < path.len(),
        0 <= a < spos.len(),
        spos[a] == path[k],
        st[a] == t0 + k,
    ensures
        k <= r.0 < path.len(),
        0 <= r.1 < spos.len(),
        spos[r.1] == path[r.0],
        st[r.1] == t0 + r.0,
        !closed[r.1],
    decreases path.len() - k,
{
    if !closed[a] {
        (k, a)
    } else {
        assert(spos[a] != goal);
        assert(k < path.len() - 1);
        assert(move_ok(path[k], path[k + 1]));
        assert(step_allowed(g, nres, eres, spos[a], path[k + 1], st[a] as int));
        let b = choose|b: int| 0 <= b < spos.len() && spos[b] == path[k + 1] && st[b] == st[a] + 1;
        lemma_open_on_path(
            g,
            nres,
            eres,
            start,
            goal,
            t0,
            horizon,
            cells,
            spos,
            st,
            spar,
            closed,
            open,
            path,
            k + 1,
            b,
        )
    }
}

/// The Manhattan distance to the end of a feasible path never exceeds the
/// number of moves left on it.
proof fn lemma_admissible(
    g: Seq<Seq<char>>,
    nres: Seq<(Point, usize)>,
    eres: Seq<((Point, Point), usize)>,
    path: Seq<Point>,
    start: Point,
    t0: int,
    k: int,
)
    requires
        feasible(g, nres, eres, path, start, t0),
        0 <= k < path.len(),
    ensures
        manhattan(path[k], path.last()) <= path.len() - 1 - k,
    decreases path.len() - k,
{
    if k < path.len() - 1 {
        lemma_admissible(g, nres, eres, path, start, t0, k + 1);
        assert(move_ok(path[k], path[k + 1]));
    }
}

fn find_state(spos: &Vec<Point>, st: &Vec<usize>, p: Point, t: usize) -> (r: Option<usize>)
    requires
        st@.len() == spos@.len(),
    ensures
        r is Some ==> (r->0 as int) < spos@.len() && spos@[r->0 as int] == p && st@[r->0 as int] == t,
        r is None ==> forall|b: int| 0 <= b < spos@.len() ==> !(spos@[b] == p && st@[b] == t),
{
    let mut k: usize = 0;
    while k < spos.len()
        invariant
            st@.len() == spos@.len(),
            k <= spos@.len(),
            forall|b: int| 0 <= b < k ==> !(spos@[b] == p && st@[b] == t),
        decreases spos@.len() - k,
    {
        let q = spos[k];
        if q.0 == p.0 && q.1 == p.1 && st[k] == t {
            return Some(k);
        }
        k = k + 1;
    }
    None
}



proof fn lemma_candidate_moves(pos: Point, d: int)
    requires
        candidate(pos, d) is Some,
    ensures
        move_ok(pos, candidate(pos, d)->0),
{
}

/// Appending a new successor of an expanded state keeps the bookkeeping.
proof fn lemma_push_state(
    g: Seq<Seq<char>>,
    nres: Seq<(Point, usize)>,
    eres: Seq<((Point, Point), usize)>,
    start: Point,
    goal: Point,
    t0: int,
    horizon: int,
    cells: Set<Point>,
    spos: Seq<Point>,
    st: Seq<usize>,
    spar: Seq<usize>,
    closed: Seq<bool>,
    open: Seq<usize>,
    pending: int,
    np: Point,
    par: int,
    fresh: usize,
)
    requires
        fresh == spos.len(),
        horizon < usize::MAX,
        search_inv(g, nres, eres, start, goal, t0, horizon, cells, spos, st, spar, closed, open, pending),
        0 <= par < spos.len(),
        closed[par],
        st[par] < horizon,
        move_ok(spos[par], np),
        step_allowed(g, nres, eres, spos[par], np, st[par] as int),
        cells.contains(np),
        forall|b: int| 0 <= b < spos.len() ==> !(spos[b] == np && st[b] == st[par] + 1),
    ensures
        search_inv(
            g,
            nres,
            eres,
            start,
            goal,
            t0,
            horizon,
            cells,
            spos.push(np),
            st.push((st[par] + 1) as usize),
            spar.push(par as usize),
            closed.push(false),
            open.push(fresh),
            pending,
        ),
{
    let n = spos.len() as int;
    let spos2 = spos.push(np);
    let st2 = st.push((st[par] + 1) as usize);
    let spar2 = spar.push(par as usize);
    let closed2 = closed.push(false);
    let open2 = open.push(fresh);
    assert forall|a: int, b: int|
        0 <= a < spos2.len() && 0 <= b < spos2.len() && a != b && #[trigger] spos2[a]
            == #[trigger] spos2[b] implies st2[a] != st2[b] by {
        if a < n && b < n {
            assert(spos2[a] == spos[a] && spos2[b] == spos[b]);
        } else if a < n {
            assert(spos2[a] == spos[a] && st2[a] == st[a]);
        } else {
            assert(spos2[b] == spos[b] && st2[b] == st[b]);
        }
    }
    assert forall|a: int| 0 <= a < spos2.len() implies cells.contains(#[trigger] spos2[a]) && t0
        <= st2[a] <= horizon by {
        if a < n {
            assert(spos2[a] == spos[a]);
        } else {
            assert(spos2[a] == np);
        }
    }
    assert forall|a: int| 0 < a < spos2.len() implies {
        let p = #[trigger] spar2[a] as int;
        &&& p < a
        &&& closed2[p]
        &&& st2[a] == st2[p] + 1
        &&& move_ok(spos2[p], spos2[a])
        &&& step_allowed(g, nres, eres, spos2[p], spos2[a], st2[p] as int)
    } by {
        if a < n {
            assert(spar2[a] == spar[a]);
        }
    }
    assert(open2.no_duplicates()) by {
        assert forall|i: int, j: int|
            0 <= i < open2.len() && 0 <= j < open2.len() && i != j implies open2[i] != open2[j] by {
            if i < open.len() && j < open.len() {
                assert(open2[i] == open[i] && open2[j] == open[j]);
            } else if i < open.len() {
                assert(open2[i] == open[i]);
            } else if j < open.len() {
                assert(open2[j] == open[j]);
            }
        }
    }
    assert forall|k: int| 0 <= k < open2.len() implies (#[trigger] open2[k] as int) < spos2.len()
        && !closed2[open2[k] as int] by {
        if k < open.len() {
            assert(open2[k] == open[k]);
        }
    }
    assert forall|a: int| 0 <= a < spos2.len() && !(#[trigger] closed2[a]) implies open2.contains(
        a as usize,
    ) by {
        if a < n {
            let j = choose|j: int| 0 <= j < open.len() && open[j] == a as usize;
            assert(open2[j] == a as usize);
        } else {
            assert(open2[open.len() as int] == a as usize);
        }
    }
    assert forall|a: int, q: Point|
        0 <= a < spos2.len() && a != pending && closed2[a] && st2[a] < horizon && move_ok(spos2[a], q)
            && #[trigger] step_allowed(g, nres, eres, spos2[a], q, st2[a] as int) implies exists|b: int|
        0 <= b < spos2.len() && spos2[b] == q && st2[b] == st2[a] + 1 by {
        assert(a < n);
        assert(spos2[a] == spos[a] && st2[a] == st[a]);
        assert(step_allowed(g, nres, eres, spos[a], q, st[a] as int));
        let b = choose|b: int| 0 <= b < spos.len() && spos[b] == q && st[b] == st[a] + 1;
        assert(spos2[b] == q && st2[b] == st2[a] + 1);
    }
    assert forall|a: int| 0 <= a < spos2.len() && #[trigger] closed2[a] implies spos2[a] != goal by {
        assert(a < n);
        assert(closed[a]);
    }
}

/// Follows parent links from arena state `end` back to the start state.
fn trace_path(
    spos: &Vec<Point>,
    st: &Vec<usize>,
    spar: &Vec<usize>,
    end: usize,
    Ghost(g): Ghost<Seq<Seq<char>>>,
    Ghost(nres): Ghost<Seq<(Point, usize)>>,
    Ghost(eres): Ghost<Seq<((Point, Point), usize)>>,
    Ghost(start): Ghost<Point>,
    Ghost(t0): Ghost<int>,
) -> (path: Vec<Point>)
    requires
        st@.len() == spos@.len(),
        spar@.len() == spos@.len(),
        (end as int) < spos@.len(),
        spos@[0] == start,
        st@[0] == t0,
        0 <= t0,
        st@[end as int] < usize::MAX,
        forall|a: int|
            0 < a < spos@.len() ==> {
                let p = #[trigger] spar@[a] as int;
                &&& p < a
                &&& st@[a] == st@[p] + 1
                &&& move_ok(spos@[p], spos@[a])
                &&& step_allowed(g, nres, eres, spos@[p], spos@[a], st@[p] as int)
            },
    ensures
        feasible(g, nres, eres, path@, start, t0),
        path@.last() == spos@[end as int],
        path@.len() == st@[end as int] - t0 + 1,
{
    let mut path: Vec<Point> = Vec::new();
    path.push(spos[end]);
    let mut c: usize = end;
    while c != 0
        invariant
            st@.len() == spos@.len(),
            spar@.len() == spos@.len(),
            (end as int) < spos@.len(),
            (c as int) < spos@.len(),
            forall|a: int|
                0 < a < spos@.len() ==> {
                    let p = #[trigger] spar@[a] as int;
                    &&& p < a
                    &&& st@[a] == st@[p] + 1
                    &&& move_ok(spos@[p], spos@[a])
                    &&& step_allowed(g, nres, eres, spos@[p], spos@[a], st@[p] as int)
                },
            path@.len() >= 1,
            path@[0] == spos@[c as int],
            path@.last() == spos@[end as int],
            st@[c as int] <= st@[end as int],
            path@.len() == st@[end as int] - st@[c as int] + 1,
            forall|k: int|
                0 <= k < path@.len() - 1 ==> move_ok(#[trigger] path@[k], path@[k + 1])
                    && step_allowed(g, nres, eres, path@[k], path@[k + 1], st@[c as int] + k),
        decreases c,
    {
        let p = spar[c];
        let ghost old_path = path@;
        path.insert(0, spos[p]);
        assert(path@ == seq![spos@[p as int]] + old_path);
        assert forall|k: int| 0 <= k < path@.len() - 1 implies move_ok(#[trigger] path@[k], path@[k + 1])
            && step_allowed(g, nres, eres, path@[k], path@[k + 1], st@[p as int] + k) by {
            if k > 0 {
                assert(path@[k] == old_path[k - 1]);
                assert(path@[k + 1] == old_path[k]);
            }
        }
        c = p;
    }
    path
}

/// Time-expanded A* from `start` at `start_time` to `goal`. States are
/// `(cell, time)`; moves are the four steps and a wait, each taking one time
/// unit; the heuristic is the Manhattan distance. The open state with the lowest
/// `f = time + h`, then the latest time, is expanded first. A returned path is
/// feasible (it never enters a reserved cell at its reserved time, nor crosses a
/// reserved edge in either direction at its time) and arrives no later than any
/// other feasible path. `None` means no feasible path arrives by the search
/// horizon.
pub fn astar_with_reservation(
    grid: &[Vec<char>],
    start: Point,
    goal: Point,
    node_res: &NodeReservation,
    edge_res: &EdgeReservation,
    start_time: usize,
) -> (r: Option<Vec<Point>>)
    requires
        grid_fits(grid_view(grid@)),
        start_time < usize::MAX,
    ensures
        r is Some ==> feasible(grid_view(grid@), node_res@, edge_res@, r->0@, start, start_time as int)
            && r->0@.last() == goal,
        r is Some ==> forall|p: Seq<Point>|
            feasible(grid_view(grid@), node_res@, edge_res@, p, start, start_time as int) && p.last()
                == goal ==> r->0@.len() <= p.len(),
        r is None ==> forall|p: Seq<Point>|
            feasible(grid_view(grid@), node_res@, edge_res@, p, start, start_time as int) && p.last()
                == goal ==> start_time + p.len() - 1 > search_horizon(
                grid_view(grid@),
                node_res@,
                edge_res@,
                start_time as int,
            ),
{
    let ghost g = grid_view(grid@);
    let ghost nres = node_res@;
    let ghost eres = edge_res@;
    let ghost t0 = start_time as int;
    let free = get_free_cells(grid);
    let latest = latest_reserved(node_res, edge_res, start_time);
    proof {
        lemma_latest_time_ge(nres, eres, t0);
    }
    let wide: u128 = latest as u128 + free.len() as u128 + 1;
    let horizon: usize = if wide < usize::MAX as u128 {
        wide as usize
    } else {
        usize::MAX - 1
    };
    assert(horizon == search_horizon(g, nres, eres, t0));
    let ghost cells = free@.to_set().insert(start);
    let ghost bound = cells.len() * (horizon + 1 - t0);
    proof {
        lemma_free_cells(g);
        lemma_state_box_len(cells, t0, horizon + 1);
        assert(cells.contains(start));
        vstd::set::axiom_set_insert_finite(free@.to_set(), start);
        lemma_len_subset(set![start], cells);
        assert(set![start].len() == 1) by {
            assert(set![start] =~= Set::<Point>::empty().insert(start));
        }
        assert(bound >= 1) by (nonlinear_arith)
            requires
                cells.len() >= 1,
                horizon + 1 - t0 >= 1,
                bound == cells.len() * (horizon + 1 - t0),
        ;
    }
    let mut spos: Vec<Point> = Vec::new();
    let mut st: Vec<usize> = Vec::new();
    let mut spar: Vec<usize> = Vec::new();
    let mut closed: Vec<bool> = Vec::new();
    let mut open: Vec<usize> = Vec::new();
    spos.push(start);
    st.push(start_time);
    spar.push(0);
    closed.push(false);
    open.push(0);
    assert(open@[0] == 0);
    while open.len() > 0
        invariant
            g == grid_view(grid@),
            nres == node_res@,
            eres == edge_res@,
            t0 == start_time,
            t0 <= horizon < usize::MAX,
            horizon == search_horizon(g, nres, eres, t0),
            grid_fits(g),
            cells == free@.to_set().insert(start),
            free@ == free_cells(g),
            state_box(cells, t0, horizon + 1).finite(),
            state_box(cells, t0, horizon + 1).len() == bound,
            search_inv(
                g,
                nres,
                eres,
                start,
                goal,
                t0,
                horizon as int,
                cells,
                spos@,
                st@,
                spar@,
                closed@,
                open@,
                -1,
            ),
            spos@.len() <= bound,
        decreases bound - spos@.len() + open@.len(),
    {
        // choose the open state with the least f, then the latest time
        let mut bi: usize = 0;
        let mut k: usize = 1;
        while k < open.len()
            invariant
                bi < open@.len(),
                1 <= k <= open@.len(),
                st@.len() == spos@.len(),
                forall|j: int| 0 <= j < open@.len() ==> (#[trigger] open@[j] as int) < spos@.len(),
                forall|j: int|
                    0 <= j < k ==> st@[open@[bi as int] as int] + manhattan(
                        spos@[open@[bi as int] as int],
                        goal,
                    ) <= st@[#[trigger] open@[j] as int] + manhattan(spos@[open@[j] as int], goal),
            decreases open@.len() - k,
        {
            let a = open[k];
            let b = open[bi];
            let fa: u128 = st[a] as u128 + manhattan_wide(spos[a], goal);
            let fb: u128 = st[b] as u128 + manhattan_wide(spos[b], goal);
            if fa < fb || (fa == fb && st[a] > st[b]) {
                bi = k;
            }
            k = k + 1;
        }
        let idx = open[bi];
        let pos = spos[idx];
        let t = st[idx];
        if pos.0 == goal.0 && pos.1 == goal.1 {
            proof {
                assert forall|p: Seq<Point>|
                    feasible(g, nres, eres, p, start, t0) && p.last() == goal implies t - t0 + 1
                    <= p.len() by {
                    if t0 + p.len() - 1 < t {
                        let r = lemma_open_on_path(
                            g,
                            nres,
                            eres,
                            start,
                            goal,
                            t0,
                            horizon as int,
                            cells,
                            spos@,
                            st@,
                            spar@,
                            closed@,
                            open@,
                            p,
                            0,
                            0,
                        );
                        lemma_admissible(g, nres, eres, p, start, t0, r.0);
                        let j = choose|j: int| 0 <= j < open@.len() && open@[j] == r.1 as usize;
                        assert(st@[open@[j] as int] + manhattan(spos@[open@[j] as int], goal) >= t);
                    }
                }
            }
            return Some(trace_path(&spos, &st, &spar, idx, Ghost(g), Ghost(nres), Ghost(eres), Ghost(start), Ghost(t0)));
        }
        let ghost open_before = open@;
        let ghost closed_before = closed@;
        open.remove(bi);
        closed.set(idx, true);
        proof {
            assert(spos@[idx as int] != goal);
            open_before.remove_ensures(bi as int);
            assert forall|j: int| 0 <= j < open@.len() implies #[trigger] open@[j] == (if j < bi {
                open_before[j]
            } else {
                open_before[j + 1]
            }) by {}
            assert(open@.no_duplicates()) by {
                assert forall|i: int, j: int|
                    0 <= i < open@.len() && 0 <= j < open@.len() && i != j implies open@[i]
                    != open@[j] by {
                    let i2 = if i < bi { i } else { i + 1 };
                    let j2 = if j < bi { j } else { j + 1 };
                    assert(open@[i] == open_before[i2]);
                    assert(open@[j] == open_before[j2]);
                }
            }
            assert forall|j: int| 0 <= j < open@.len() implies (#[trigger] open@[j] as int)
                < spos@.len() && !closed@[open@[j] as int] by {
                let j2 = if j < bi { j } else { j + 1 };
                assert(open@[j] == open_before[j2]);
                assert(j2 != bi);
            }
            assert forall|a: int| 0 <= a < spos@.len() && !(#[trigger] closed@[a]) implies open@.contains(
                a as usize,
            ) by {
                assert(!closed_before[a]);
                let j = choose|j: int| 0 <= j < open_before.len() && open_before[j] == a as usize;
                assert(j != bi);
                if j < bi {
                    assert(open@[j] == open_before[j]);
                } else {
                    assert(open@[j - 1] == open_before[j]);
                }
            }
        }
        let ghost measure = bound - spos@.len() + open@.len();
        if t < horizon {
            let mut d: usize = 0;
            while d < 5
                invariant
                    g == grid_view(grid@),
                    nres == node_res@,
                    eres == edge_res@,
                    t0 == start_time,
                    t0 <= t < horizon < usize::MAX,
                    grid_fits(g),
                    cells == free@.to_set().insert(start),
                    free@ == free_cells(g),
                    state_box(cells, t0, horizon + 1).finite(),
                    state_box(cells, t0, horizon + 1).len() == bound,
                    spos@.len() <= bound,
                    bound - spos@.len() + open@.len() == measure,
                    0 <= d <= 5,
                    (idx as int) < spos@.len(),
                    closed@[idx as int],
                    spos@[idx as int] == pos,
                    st@[idx as int] == t,
                    pos != goal,
                    search_inv(
                        g,
                        nres,
                        eres,
                        start,
                        goal,
                        t0,
                        horizon as int,
                        cells,
                        spos@,
                        st@,
                        spar@,
                        closed@,
                        open@,
                        idx as int,
                    ),
                    forall|dd: int, q: Point|
                        0 <= dd < d && #[trigger] candidate(pos, dd) == Some(q) && #[trigger] step_allowed(
                            g,
                            nres,
                            eres,
                            pos,
                            q,
                            t as int,
                        ) ==> exists|b: int| 0 <= b < spos@.len() && spos@[b] == q && st@[b] == t + 1,
                decreases 5 - d,
            {
                let ghost mut witness: int = -1;
                let ghost spos_before = spos@;
                let ghost st_before = st@;
                if let Some(np) = next_candidate(pos, d) {
                    if allowed(grid, node_res, edge_res, pos, np, t) {
                        match find_state(&spos, &st, np, t + 1) {
                            Some(b) => {
                                proof {
                                    witness = b as int;
                                }
                            },
                            None => {
                                let nb = spos.len();
                                proof {
                                    lemma_free_cells(g);
                                    lemma_candidate_moves(pos, d as int);
                                    assert(cell_free(g, np));
                                    assert(free_cells(g).contains(np));
                                    assert(cells.contains(np));
                                    lemma_push_state(
                                        g,
                                        nres,
                                        eres,
                                        start,
                                        goal,
                                        t0,
                                        horizon as int,
                                        cells,
                                        spos@,
                                        st@,
                                        spar@,
                                        closed@,
                                        open@,
                                        idx as int,
                                        np,
                                        idx as int,
                                        nb,
                                    );
                                }
                                spos.push(np);
                                st.push(t + 1);
                                spar.push(idx);
                                closed.push(false);
                                open.push(nb);
                                proof {
                                    witness = nb as int;
                                    // the arena stays inside the state box
                                    let states = Seq::new(spos@.len(), |a: int| (spos@[a], st@[a]));
                                    assert(states.no_duplicates());
                                    states.unique_seq_to_set();
                                    assert(states.to_set().subset_of(state_box(cells, t0, horizon + 1)));
                                    lemma_len_subset(states.to_set(), state_box(cells, t0, horizon + 1));
                                }
                            },
                        }
                    }
                }
                proof {
                    assert forall|dd: int, q: Point|
                        0 <= dd < d + 1 && #[trigger] candidate(pos, dd) == Some(q) && #[trigger] step_allowed(
                            g,
                            nres,
                            eres,
                            pos,
                            q,
                            t as int,
                        ) implies exists|b: int| 0 <= b < spos@.len() && spos@[b] == q && st@[b] == t + 1 by {
                        if dd < d {
                            let b = choose|b: int|
                                0 <= b < spos_before.len() && spos_before[b] == q && st_before[b] == t + 1;
                            assert(spos@[b] == q && st@[b] == t + 1);
                        } else {
                            assert(spos@[witness] == q && st@[witness] == t + 1);
                        }
                    }
                }
                d = d + 1;
            }
            proof {
                assert forall|a: int, np: Point|
                    0 <= a < spos@.len() && closed@[a] && st@[a] < horizon && move_ok(spos@[a], np)
                        && #[trigger] step_allowed(g, nres, eres, spos@[a], np, st@[a] as int) implies exists|
                    b: int,
                | 0 <= b < spos@.len() && spos@[b] == np && st@[b] == st@[a] + 1 by {
                    if a == idx {
                        lemma_candidates_cover(pos, np);
                        let dd = choose|dd: int| 0 <= dd < 5 && candidate(pos, dd) == Some(np);
                        assert(candidate(pos, dd) == Some(np));
                    }
                }
            }
        }
    }
    proof {
        assert forall|p: Seq<Point>|
            feasible(g, nres, eres, p, start, t0) && p.last() == goal implies start_time + p.len()
            - 1 > horizon by {
            if start_time + p.len() - 1 <= horizon {
                let r = lemma_open_on_path(
                    g,
                    nres,
                    eres,
                    start,
                    goal,
                    t0,
                    horizon as int,
                    cells,
                    spos@,
                    st@,
                    spar@,
                    closed@,
                    open@,
                    p,
                    0,
                    0,
                );
                assert(open@.contains(r.1 as usize));
            }
        }
    }
    None
}

} // verus!
