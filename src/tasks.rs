use vstd::prelude::*;
use rand::seq::SliceRandom;
use crate::grid::{cell_free, free_cells, get_free_cells, grid_fits, grid_view, lemma_free_cells, Point};

verus! {

broadcast use vstd::seq_lib::group_to_multiset_ensures;

/// A transport job: go to `pickup`, then to `delivery`. The manager stamps the
/// assigned agent and a task id on dispatch.
#[derive(Debug)]
pub struct Task {
    pub pickup: Point,
    pub delivery: Point,
    pub peer_id: Option<String>,
    pub task_id: Option<u64>,
}

impl Clone for Task {
    fn clone(&self) -> (r: Task)
        ensures
            r.pickup == self.pickup,
            r.delivery == self.delivery,
            r.task_id == self.task_id,
            r.peer_id is Some <==> self.peer_id is Some,
            r.peer_id is Some ==> r.peer_id->0@ == self.peer_id->0@,
    {
        let peer_id = match &self.peer_id {
            Some(p) => Some(p.clone()),
            None => None,
        };
        Task { pickup: self.pickup, delivery: self.delivery, peer_id, task_id: self.task_id }
    }
}

/// Relies on rand's `SliceRandom::shuffle` with `thread_rng`: it only swaps
/// entries, so the result is a permutation of the input.
#[verifier::external_body]
fn shuffle_cells(cells: &mut Vec<Point>)
    ensures
        final(cells)@.len() == old(cells)@.len(),
        final(cells)@.to_multiset() == old(cells)@.to_multiset(),
{
    cells.shuffle(&mut rand::thread_rng());
}

/// Relies on rand's `SliceRandom::choose` with `thread_rng`: one entry of
/// `cells`, `None` exactly when it is empty.
#[verifier::external_body]
pub(crate) fn choose_cell(cells: &Vec<Point>) -> (r: Option<Point>)
    ensures
        r is None <==> cells@.len() == 0,
        r is Some ==> cells@.contains(r->0),
{
    cells.choose(&mut rand::thread_rng()).copied()
}

/// A permutation of a sequence without repetition has none either, and holds
/// the same elements.
pub proof fn lemma_permutation_distinct(s: Seq<Point>, t: Seq<Point>)
    requires
        s.no_duplicates(),
        t.to_multiset() == s.to_multiset(),
    ensures
        t.no_duplicates(),
        forall|x: Point| t.contains(x) <==> s.contains(x),
{
    s.lemma_multiset_has_no_duplicates();
    t.lemma_multiset_has_no_duplicates_conv();
    t.to_multiset_ensures();
    s.to_multiset_ensures();
    assert forall|x: Point| t.contains(x) <==> s.contains(x) by {
        assert(t.contains(x) <==> t.to_multiset().count(x) > 0);
        assert(s.contains(x) <==> s.to_multiset().count(x) > 0);
        assert(t.to_multiset().count(x) == s.to_multiset().count(x));
    }
}

/// The grid's free cells in random order.
fn shuffled_free_cells(map: &[Vec<char>]) -> (cells: Vec<Point>)
    requires
        grid_fits(grid_view(map@)),
    ensures
        cells@.len() == free_cells(grid_view(map@)).len(),
        cells@.no_duplicates(),
        forall|k: int| 0 <= k < cells@.len() ==> cell_free(grid_view(map@), #[trigger] cells@[k]),
{
    let mut cells = get_free_cells(map);
    let ghost before = cells@;
    shuffle_cells(&mut cells);
    proof {
        lemma_free_cells(grid_view(map@));
        lemma_permutation_distinct(before, cells@);
        assert forall|k: int| 0 <= k < cells@.len() implies cell_free(
            grid_view(map@),
            #[trigger] cells@[k],
        ) by {
            assert(cells@.contains(cells@[k]));
            let j = choose|j: int| 0 <= j < before.len() && before[j] == cells@[k];
            assert(cell_free(grid_view(map@), free_cells(grid_view(map@))[j]));
        }
    }
    cells
}

/// Up to `agent_count` start/goal pairs: consecutive pairs of the shuffled free
/// cells, so that all cells handed out are distinct free cells.
pub fn generate_start_goal_pairs(map: &[Vec<char>], agent_count: usize) -> (pairs: Vec<(Point, Point)>)
    requires
        grid_fits(grid_view(map@)),
    ensures
        pairs@.len() == if agent_count < free_cells(grid_view(map@)).len() / 2 {
            agent_count as int
        } else {
            (free_cells(grid_view(map@)).len() / 2) as int
        },
        forall|k: int|
            0 <= k < pairs@.len() ==> cell_free(grid_view(map@), (#[trigger] pairs@[k]).0)
                && cell_free(grid_view(map@), pairs@[k].1) && pairs@[k].0 != pairs@[k].1,
        forall|k: int, j: int|
            0 <= k < pairs@.len() && 0 <= j < pairs@.len() && k != j ==> {
                let a = #[trigger] pairs@[k];
                let b = #[trigger] pairs@[j];
                &&& a.0 != b.0
                &&& a.0 != b.1
                &&& a.1 != b.0
                &&& a.1 != b.1
            },
{
    let cells = shuffled_free_cells(map);
    let mut pairs: Vec<(Point, Point)> = Vec::new();
    let mut k: usize = 0;
    while k < agent_count && k < cells.len() / 2
        invariant
            k <= agent_count,
            2 * k <= cells@.len(),
            pairs@.len() == k,
            cells@.no_duplicates(),
            forall|i: int| 0 <= i < k ==> (#[trigger] pairs@[i]) == (cells@[2 * i], cells@[2 * i + 1]),
        decreases agent_count - k,
    {
        pairs.push((cells[2 * k], cells[2 * k + 1]));
        k = k + 1;
    }
    proof {
        assert forall|i: int, j: int|
            0 <= i < pairs@.len() && 0 <= j < pairs@.len() && i != j implies {
                let a = #[trigger] pairs@[i];
                let b = #[trigger] pairs@[j];
                &&& a.0 != b.0
                &&& a.0 != b.1
                &&& a.1 != b.0
                &&& a.1 != b.1
            } by {
            assert(pairs@[i] == (cells@[2 * i], cells@[2 * i + 1]));
            assert(pairs@[j] == (cells@[2 * j], cells@[2 * j + 1]));
        }
        assert forall|i: int| 0 <= i < pairs@.len() implies cell_free(grid_view(map@), (
        #[trigger] pairs@[i]).0) && cell_free(grid_view(map@), pairs@[i].1) && pairs@[i].0
            != pairs@[i].1 by {
            assert(pairs@[i] == (cells@[2 * i], cells@[2 * i + 1]));
        }
    }
    pairs
}

/// Two distinct free cells picked at random.
pub fn generate_start_goal_pair(map: &[Vec<char>]) -> (pair: (Point, Point))
    requires
        grid_fits(grid_view(map@)),
        free_cells(grid_view(map@)).len() >= 2,
    ensures
        cell_free(grid_view(map@), pair.0),
        cell_free(grid_view(map@), pair.1),
        pair.0 != pair.1,
{
    let cells = shuffled_free_cells(map);
    (cells[0], cells[1])
}

/// Up to `agent_count` distinct free cells picked at random.
pub fn generate_start_positions(grid: &[Vec<char>], agent_count: usize) -> (starts: Vec<Point>)
    requires
        grid_fits(grid_view(grid@)),
    ensures
        starts@.len() == if agent_count < free_cells(grid_view(grid@)).len() {
            agent_count as int
        } else {
            free_cells(grid_view(grid@)).len() as int
        },
        starts@.no_duplicates(),
        forall|k: int| 0 <= k < starts@.len() ==> cell_free(grid_view(grid@), #[trigger] starts@[k]),
{
    let cells = shuffled_free_cells(grid);
    let mut starts: Vec<Point> = Vec::new();
    let mut k: usize = 0;
    while k < agent_count && k < cells.len()
        invariant
            k <= agent_count,
            k <= cells@.len(),
            starts@ == cells@.subrange(0, k as int),
        decreases agent_count - k,
    {
        starts.push(cells[k]);
        k = k + 1;
    }
    starts
}

/// Random task source over the free cells of a grid.
pub struct TaskGeneratorAgent {
    pub free_cells: Vec<Point>,
}

impl TaskGeneratorAgent {
    pub open spec fn wf(&self) -> bool {
        self.free_cells@.no_duplicates()
    }

    /// A source over the free cells of `grid`.
    pub fn new(grid: &[Vec<char>]) -> (agent: TaskGeneratorAgent)
        requires
            grid_fits(grid_view(grid@)),
        ensures
            agent.wf(),
            agent.free_cells@ == free_cells(grid_view(grid@)),
    {
        proof {
            lemma_free_cells(grid_view(grid@));
        }
        TaskGeneratorAgent { free_cells: get_free_cells(grid) }
    }

    /// A task between two distinct free cells picked at random, not yet
    /// assigned nor numbered; `None` exactly when there are fewer than two
    /// free cells.
    pub fn generate_task(&mut self) -> (t: Option<Task>)
        requires
            old(self).wf(),
        ensures
            final(self).wf(),
            final(self).free_cells@.to_multiset() == old(self).free_cells@.to_multiset(),
            t is None <==> old(self).free_cells@.len() < 2,
            t is Some ==> {
                let task = t->0;
                &&& old(self).free_cells@.contains(task.pickup)
                &&& old(self).free_cells@.contains(task.delivery)
                &&& task.pickup != task.delivery
                &&& task.peer_id is None
                &&& task.task_id is None
            },
    {
        if self.free_cells.len() < 2 {
            return None;
        }
        let ghost before = self.free_cells@;
        shuffle_cells(&mut self.free_cells);
        proof {
            lemma_permutation_distinct(before, self.free_cells@);
            assert(self.free_cells@.contains(self.free_cells@[0]));
            assert(self.free_cells@.contains(self.free_cells@[1]));
        }
        Some(Task { pickup: self.free_cells[0], delivery: self.free_cells[1], peer_id: None, task_id: None })
    }

    /// Up to `count` tasks as `generate_task` makes them; none when there are
    /// fewer than two free cells.
    pub fn generate_multiple_tasks(&mut self, count: usize) -> (tasks: Vec<Task>)
        requires
            old(self).wf(),
        ensures
            final(self).wf(),
            final(self).free_cells@.to_multiset() == old(self).free_cells@.to_multiset(),
            tasks@.len() == if old(self).free_cells@.len() < 2 {
                0
            } else {
                count as int
            },
            forall|k: int|
                0 <= k < tasks@.len() ==> {
                    let task = #[trigger] tasks@[k];
                    &&& old(self).free_cells@.contains(task.pickup)
                    &&& old(self).free_cells@.contains(task.delivery)
                    &&& task.pickup != task.delivery
                    &&& task.peer_id is None
                    &&& task.task_id is None
                },
    {
        let ghost cells0 = self.free_cells@;
        let mut tasks: Vec<Task> = Vec::new();
        let mut k: usize = 0;
        while k < count
            invariant
                self.wf(),
                cells0 == old(self).free_cells@,
                self.free_cells@.to_multiset() == cells0.to_multiset(),
                cells0.no_duplicates(),
                k <= count,
                tasks@.len() == k,
                k > 0 ==> cells0.len() >= 2,
                forall|j: int|
                    0 <= j < tasks@.len() ==> {
                        let task = #[trigger] tasks@[j];
                        &&& cells0.contains(task.pickup)
                        &&& cells0.contains(task.delivery)
                        &&& task.pickup != task.delivery
                        &&& task.peer_id is None
                        &&& task.task_id is None
                    },
            decreases count - k,
        {
            let ghost cur = self.free_cells@;
            match self.generate_task() {
                Some(task) => {
                    proof {
                        lemma_permutation_distinct(cells0, cur);
                    }
                    tasks.push(task);
                },
                None => {
                    proof {
                        assert(cur.len() == cur.to_multiset().len());
                        assert(cells0.len() == cells0.to_multiset().len());
                    }
                    return tasks;
                },
            }
            k = k + 1;
        }
        proof {
            if count > 0 {
                assert(cells0.len() >= 2);
            } else if cells0.len() < 2 {
            }
        }
        tasks
    }
}

} // verus!
