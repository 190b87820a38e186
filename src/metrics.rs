use vstd::prelude::*;
use crate::text::{chars_of, decimal, push_chars, push_decimal, text_of};

verus! {

/// Where a dispatched task is in its lifecycle.
#[derive(Clone, Copy, Debug, PartialEq, Eq, Structural)]
pub enum TaskStatus {
    Pending,
    Sent,
    Received,
    Running,
    Completed,
    Failed,
}

/// Ledger row of one task; times are wall-clock milliseconds.
#[derive(Clone, Debug)]
pub struct TaskMetric {
    pub task_id: u64,
    pub peer_id: String,
    pub sent_time: u64,
    pub received_time: Option<u64>,
    pub start_time: Option<u64>,
    pub completion_time: Option<u64>,
    pub status: TaskStatus,
}

/// Relies on `SystemTime::elapsed` of the Unix epoch: the wall-clock time in
/// milliseconds, 0 when the clock is set before the epoch.
#[verifier::external_body]
pub fn now_millis() -> (r: u64) {
    std::time::UNIX_EPOCH.elapsed().map(|d| d.as_millis() as u64).unwrap_or(0)
}

/// Milliseconds from `from` to `to`; 0 when the clock went backwards.
pub open spec fn span(from: u64, to: u64) -> u64 {
    if to >= from {
        (to - from) as u64
    } else {
        0
    }
}

/// Completed or failed: the row no longer changes.
pub open spec fn is_final(s: TaskStatus) -> bool {
    s == TaskStatus::Completed || s == TaskStatus::Failed
}

impl TaskMetric {
    /// Total time: completion minus sending.
    pub open spec fn total_time(&self) -> Option<u64> {
        match self.completion_time {
            Some(c) => Some(span(self.sent_time, c)),
            None => None,
        }
    }

    /// Processing time: completion minus start.
    pub open spec fn processing_time(&self) -> Option<u64> {
        match (self.start_time, self.completion_time) {
            (Some(s), Some(c)) => Some(span(s, c)),
            _ => None,
        }
    }

    /// Startup latency: start minus sending.
    pub open spec fn startup_latency(&self) -> Option<u64> {
        match self.start_time {
            Some(s) => Some(span(self.sent_time, s)),
            None => None,
        }
    }

    /// A completed row has all four times, in lifecycle order.
    pub open spec fn lifecycle_closed(&self) -> bool {
        self.status == TaskStatus::Completed ==> {
            &&& self.received_time is Some
            &&& self.start_time is Some
            &&& self.completion_time is Some
            &&& self.sent_time <= self.received_time->0
            &&& self.received_time->0 <= self.start_time->0
            &&& self.start_time->0 <= self.completion_time->0
        }
    }

    /// A row for a task sent now.
    pub fn new(task_id: u64, peer_id: String) -> (m: TaskMetric)
        ensures
            m.task_id == task_id,
            m.peer_id@ == peer_id@,
            m.received_time is None,
            m.start_time is None,
            m.completion_time is None,
            m.status == TaskStatus::Sent,
    {
        TaskMetric::new_at(task_id, peer_id, now_millis())
    }

    /// A row for a task sent at `sent_time`.
    pub fn new_at(task_id: u64, peer_id: String, sent_time: u64) -> (m: TaskMetric)
        ensures
            m.task_id == task_id,
            m.peer_id@ == peer_id@,
            m.sent_time == sent_time,
            m.received_time is None,
            m.start_time is None,
            m.completion_time is None,
            m.status == TaskStatus::Sent,
    {
        TaskMetric {
            task_id,
            peer_id,
            sent_time,
            received_time: None,
            start_time: None,
            completion_time: None,
            status: TaskStatus::Sent,
        }
    }

    pub fn get_total_time(&self) -> (r: Option<u64>)
        ensures
            r == self.total_time(),
    {
        match self.completion_time {
            Some(c) => Some(c.saturating_sub(self.sent_time)),
            None => None,
        }
    }

    pub fn get_agent_processing_time(&self) -> (r: Option<u64>)
        ensures
            r == self.processing_time(),
    {
        match (self.start_time, self.completion_time) {
            (Some(s), Some(c)) => Some(c.saturating_sub(s)),
            _ => None,
        }
    }

    pub fn get_startup_latency(&self) -> (r: Option<u64>)
        ensures
            r == self.startup_latency(),
    {
        match self.start_time {
            Some(s) => Some(s.saturating_sub(self.sent_time)),
            None => None,
        }
    }
}

/// The row after a receipt report at `now` (a final row is kept).
pub open spec fn mark_received(m: TaskMetric, now: u64) -> TaskMetric {
    if is_final(m.status) {
        m
    } else {
        TaskMetric { received_time: Some(now), status: TaskStatus::Received, ..m }
    }
}

/// The row after a start report at `now` (a final row is kept).
pub open spec fn mark_started(m: TaskMetric, now: u64) -> TaskMetric {
    if is_final(m.status) {
        m
    } else {
        TaskMetric { start_time: Some(now), status: TaskStatus::Running, ..m }
    }
}

/// The row was received and then started, in time order, no later than `now`.
pub open spec fn completable(m: TaskMetric, now: u64) -> bool {
    &&& m.received_time is Some
    &&& m.start_time is Some
    &&& m.sent_time <= m.received_time->0
    &&& m.received_time->0 <= m.start_time->0
    &&& m.start_time->0 <= now
}

pub open spec fn later(a: u64, b: u64) -> u64 {
    if a >= b {
        a
    } else {
        b
    }
}

/// Receipt time of a completed row: the reported one, or the sending time when
/// the receipt report has not arrived (never before sending).
pub open spec fn closing_received(m: TaskMetric) -> u64 {
    match m.received_time {
        Some(r) => later(r, m.sent_time),
        None => m.sent_time,
    }
}

/// Start time of a completed row: the reported one, or the receipt time when
/// the start report has not arrived (never before receipt).
pub open spec fn closing_start(m: TaskMetric) -> u64 {
    match m.start_time {
        Some(st) => later(st, closing_received(m)),
        None => closing_received(m),
    }
}

/// The row after a completion report at `now`: a row that is not final
/// becomes Completed at `now` (never before its start), with receipt and start
/// times filled in order when their reports have not arrived (the overlay may
/// reorder reports). A final row is kept.
pub open spec fn mark_completed(m: TaskMetric, now: u64) -> TaskMetric {
    if is_final(m.status) {
        m
    } else {
        TaskMetric {
            received_time: Some(closing_received(m)),
            start_time: Some(closing_start(m)),
            completion_time: Some(later(now, closing_start(m))),
            status: TaskStatus::Completed,
            ..m
        }
    }
}

/// The row after a failure report (a final row is kept).
pub open spec fn mark_failed(m: TaskMetric) -> TaskMetric {
    if is_final(m.status) {
        m
    } else {
        TaskMetric { status: TaskStatus::Failed, ..m }
    }
}

/// A completion report always closes a row that is not final; when the row
/// was received and started in order by `now`, its times are kept and it
/// completes at `now`.
pub proof fn lemma_completion_closes_lifecycle(m: TaskMetric, now: u64)
    requires
        !is_final(m.status),
    ensures
        mark_completed(m, now).lifecycle_closed(),
        mark_completed(m, now).status == TaskStatus::Completed,
        completable(m, now) ==> {
            &&& mark_completed(m, now).received_time == m.received_time
            &&& mark_completed(m, now).start_time == m.start_time
            &&& mark_completed(m, now).completion_time == Some(now)
        },
{
}

/// In a well-formed ledger every completed row has all four times, in
/// lifecycle order (sent, received, started, completed).
pub proof fn lemma_completed_rows_closed(c: TaskMetricsCollector, id: u64)
    requires
        c.wf(),
        c.row(id) is Some,
        c.row(id)->0.status == TaskStatus::Completed,
    ensures
        c.row(id)->0.received_time is Some,
        c.row(id)->0.start_time is Some,
        c.row(id)->0.completion_time is Some,
        c.row(id)->0.sent_time <= c.row(id)->0.received_time->0,
        c.row(id)->0.received_time->0 <= c.row(id)->0.start_time->0,
        c.row(id)->0.start_time->0 <= c.row(id)->0.completion_time->0,
{
    let s = c.metrics@;
    let i = choose|i: int| 0 <= i < s.len() && s[i].task_id == id;
    assert(s[i].lifecycle_closed());
}

/// The row of task `id` in a ledger, if there is one.
pub open spec fn lookup(s: Seq<TaskMetric>, id: u64) -> Option<TaskMetric> {
    if exists|i: int| 0 <= i < s.len() && s[i].task_id == id {
        Some(s[choose|i: int| 0 <= i < s.len() && s[i].task_id == id])
    } else {
        None
    }
}

/// Rows are ordered by strictly increasing task id.
pub open spec fn ids_increasing(s: Seq<TaskMetric>) -> bool {
    forall|i: int, j: int| 0 <= i < j < s.len() ==> s[i].task_id < s[j].task_id
}

proof fn lemma_lookup_at(s: Seq<TaskMetric>, i: int)
    requires
        ids_increasing(s),
        0 <= i < s.len(),
    ensures
        lookup(s, s[i].task_id) == Some(s[i]),
{
    let id = s[i].task_id;
    assert(exists|k: int| 0 <= k < s.len() && s[k].task_id == id);
    let k = choose|k: int| 0 <= k < s.len() && s[k].task_id == id;
    if k < i {
        assert(s[k].task_id < s[i].task_id);
    } else if k > i {
        assert(s[i].task_id < s[k].task_id);
    }
}

/// Per-task ledger, keyed by task id.
pub struct TaskMetricsCollector {
    pub metrics: Vec<TaskMetric>,
}

impl TaskMetricsCollector {
    /// Rows are ordered by task id, and every completed row has all four
    /// times in lifecycle order.
    pub open spec fn wf(&self) -> bool {
        &&& ids_increasing(self.metrics@)
        &&& forall|i: int| 0 <= i < self.metrics@.len() ==> (#[trigger] self.metrics@[i]).lifecycle_closed()
    }

    /// The row of task `id`.
    pub open spec fn row(&self, id: u64) -> Option<TaskMetric> {
        lookup(self.metrics@, id)
    }

    pub fn new() -> (c: TaskMetricsCollector)
        ensures
            c.wf(),
            c.metrics@.len() == 0,
            forall|id: u64| c.row(id) is None,
    {
        TaskMetricsCollector { metrics: Vec::new() }
    }

    /// Index of the row of task `id`.
    fn position(&self, id: u64) -> (r: Option<usize>)
        ensures
            r is Some ==> (r->0 as int) < self.metrics@.len() && self.metrics@[r->0 as int].task_id == id,
            r is None ==> forall|i: int| 0 <= i < self.metrics@.len() ==> self.metrics@[i].task_id != id,
    {
        let mut k: usize = 0;
        while k < self.metrics.len()
            invariant
                k <= self.metrics@.len(),
                forall|i: int| 0 <= i < k ==> self.metrics@[i].task_id != id,
            decreases self.metrics@.len() - k,
        {
            if self.metrics[k].task_id == id {
                return Some(k);
            }
            k = k + 1;
        }
        None
    }

    /// Records `metric` as the row of its task, unless the task already has a
    /// row (the first one wins).
    #[verifier::rlimit(50)]
    pub fn add_metric(&mut self, metric: TaskMetric)
        requires
            old(self).wf(),
            metric.lifecycle_closed(),
        ensures
            final(self).wf(),
            old(self).row(metric.task_id) is Some ==> final(self).metrics@ == old(self).metrics@,
            old(self).row(metric.task_id) is None ==> forall|id: u64| #[trigger] final(self).row(id)
                == if id == metric.task_id {
                Some(metric)
            } else {
                old(self).row(id)
            },
            final(self).metrics@.len() == old(self).metrics@.len() + if old(self).row(
                metric.task_id,
            ) is None {
                1int
            } else {
                0int
            },
    {
        let ghost s = self.metrics@;
        let id = metric.task_id;
        match self.position(id) {
            Some(i) => {
                proof {
                    lemma_lookup_at(s, i as int);
                }
            },
            None => {
                let mut k: usize = 0;
                while k < self.metrics.len() && self.metrics[k].task_id < id
                    invariant
                        self.metrics@ == s,
                        k <= s.len(),
                        forall|j: int| 0 <= j < k ==> s[j].task_id < id,
                    decreases s.len() - k,
                {
                    k = k + 1;
                }
                self.metrics.insert(k, metric);
                proof {
                    let s2 = self.metrics@;
                    assert(s2 == s.insert(k as int, metric));
                    s.insert_ensures(k as int, metric);
                    assert forall|j: int| 0 <= j < s2.len() implies (#[trigger] s2[j]).lifecycle_closed() by {
                        if j < k {
                            assert(s2[j] == s[j]);
                        } else if j > k {
                            assert(s2[j] == s[j - 1]);
                        }
                    }
                    assert(forall|j: int| k <= j < s.len() ==> s[j].task_id > id) by {
                        assert forall|j: int| k <= j < s.len() implies s[j].task_id > id by {
                            assert(s[k as int].task_id >= id);
                            assert(s[k as int].task_id != id);
                            if j > k {
                                assert(s[k as int].task_id < s[j].task_id);
                            }
                        }
                    }
                    assert(ids_increasing(s2)) by {
                        assert forall|a: int, b: int| 0 <= a < b < s2.len() implies s2[a].task_id
                            < s2[b].task_id by {
                            if b < k {
                            } else if b == k {
                            } else if a < k {
                                assert(s2[b] == s[b - 1]);
                            } else if a == k {
                                assert(s2[b] == s[b - 1]);
                            } else {
                                assert(s2[a] == s[a - 1] && s2[b] == s[b - 1]);
                            }
                        }
                    }
                    lemma_lookup_at(s2, k as int);
                    assert(lookup(s, id) is None);
                    assert forall|x: u64| #[trigger] lookup(s2, x) == if x == id {
                        Some(metric)
                    } else {
                        lookup(s, x)
                    } by {
                        if x != id {
                            if exists|j: int| 0 <= j < s.len() && s[j].task_id == x {
                                let j = choose|j: int| 0 <= j < s.len() && s[j].task_id == x;
                                lemma_lookup_at(s, j);
                                if j < k {
                                    assert(s2[j] == s[j]);
                                    lemma_lookup_at(s2, j);
                                } else {
                                    assert(s2[j + 1] == s[j]);
                                    lemma_lookup_at(s2, j + 1);
                                }
                            } else {
                                assert forall|j: int| 0 <= j < s2.len() implies s2[j].task_id != x by {
                                    if j < k {
                                        assert(s2[j] == s[j]);
                                    } else if j > k {
                                        assert(s2[j] == s[j - 1]);
                                    }
                                }
                            }
                        }
                    }
                }
            },
        }
    }

    /// Applies report `how` (see `apply_report`) to the row of task `id`, if
    /// there is one.
    fn update_row(&mut self, id: u64, how: u8, now: u64)
        requires
            old(self).wf(),
            how < 4,
        ensures
            final(self).wf(),
            final(self).metrics@.len() == old(self).metrics@.len(),
            forall|x: u64| #[trigger] final(self).row(x) == if x == id && old(self).row(x) is Some {
                Some(apply_report(old(self).row(x)->0, how, now))
            } else {
                old(self).row(x)
            },
    {
        let ghost s = self.metrics@;
        match self.position(id) {
            Some(i) => {
                let m = &self.metrics[i];
                let fin = m.status == TaskStatus::Completed || m.status == TaskStatus::Failed;
                if fin {
                    proof {
                        lemma_lookup_at(s, i as int);
                        assert(apply_report(s[i as int], how, now) == s[i as int]);
                    }
                    return;
                }
                let r: u64 = match m.received_time {
                    Some(x) => if x >= m.sent_time { x } else { m.sent_time },
                    None => m.sent_time,
                };
                let st: u64 = match m.start_time {
                    Some(x) => if x >= r { x } else { r },
                    None => r,
                };
                let done_at: u64 = if now >= st { now } else { st };
                let updated = TaskMetric {
                    task_id: m.task_id,
                    peer_id: m.peer_id.clone(),
                    sent_time: m.sent_time,
                    received_time: if how == 0 {
                        Some(now)
                    } else if how == 2 {
                        Some(r)
                    } else {
                        m.received_time
                    },
                    start_time: if how == 1 {
                        Some(now)
                    } else if how == 2 {
                        Some(st)
                    } else {
                        m.start_time
                    },
                    completion_time: if how == 2 {
                        Some(done_at)
                    } else {
                        m.completion_time
                    },
                    status: if how == 0 {
                        TaskStatus::Received
                    } else if how == 1 {
                        TaskStatus::Running
                    } else if how == 2 {
                        TaskStatus::Completed
                    } else {
                        TaskStatus::Failed
                    },
                };
                assert(updated == apply_report(s[i as int], how, now));
                self.metrics.set(i, updated);
                proof {
                    let s2 = self.metrics@;
                    assert(ids_increasing(s2));
                    assert forall|j: int| 0 <= j < s2.len() implies (#[trigger] s2[j]).lifecycle_closed() by {
                        if j != i {
                            assert(s2[j] == s[j]);
                        }
                    }
                    lemma_lookup_at(s, i as int);
                    lemma_lookup_at(s2, i as int);
                    assert forall|x: u64| #[trigger] lookup(s2, x) == if x == id && lookup(s, x) is Some {
                        Some(apply_report(lookup(s, x)->0, how, now))
                    } else {
                        lookup(s, x)
                    } by {
                        if x != id {
                            if exists|k: int| 0 <= k < s.len() && s[k].task_id == x {
                                let k = choose|k: int| 0 <= k < s.len() && s[k].task_id == x;
                                lemma_lookup_at(s, k);
                                lemma_lookup_at(s2, k);
                            } else {
                                assert forall|k: int| 0 <= k < s2.len() implies s2[k].task_id != x by {
                                    if k != i {
                                        assert(s2[k] == s[k]);
                                    }
                                }
                            }
                        }
                    }
                }
            },
            None => {
                assert forall|x: u64| #[trigger] lookup(s, x) == if x == id && lookup(s, x) is Some {
                    Some(apply_report(lookup(s, x)->0, how, now))
                } else {
                    lookup(s, x)
                } by {}
            },
        }
    }

    /// Records that the agent received task `task_id` now.
    pub fn update_received(&mut self, task_id: u64)
        requires
            old(self).wf(),
        ensures
            final(self).wf(),
            final(self).metrics@.len() == old(self).metrics@.len(),
            forall|x: u64| x != task_id ==> #[trigger] final(self).row(x) == old(self).row(x),
            old(self).row(task_id) is None ==> final(self).row(task_id) is None,
            old(self).row(task_id) is Some ==> exists|now: u64| final(self).row(task_id) == Some(
                mark_received(old(self).row(task_id)->0, now),
            ),
    {
        let now = now_millis();
        self.update_received_at(task_id, now);
    }

    /// Records that the agent received task `task_id` at `now`.
    pub fn update_received_at(&mut self, task_id: u64, now: u64)
        requires
            old(self).wf(),
        ensures
            final(self).wf(),
            final(self).metrics@.len() == old(self).metrics@.len(),
            forall|x: u64| #[trigger] final(self).row(x) == if x == task_id && old(self).row(x) is Some {
                Some(mark_received(old(self).row(x)->0, now))
            } else {
                old(self).row(x)
            },
    {
        self.update_row(task_id, 0, now);
    }

    /// Records that the agent started task `task_id` now.
    pub fn update_started(&mut self, task_id: u64)
        requires
            old(self).wf(),
        ensures
            final(self).wf(),
            final(self).metrics@.len() == old(self).metrics@.len(),
            forall|x: u64| x != task_id ==> #[trigger] final(self).row(x) == old(self).row(x),
            old(self).row(task_id) is None ==> final(self).row(task_id) is None,
            old(self).row(task_id) is Some ==> exists|now: u64| final(self).row(task_id) == Some(
                mark_started(old(self).row(task_id)->0, now),
            ),
    {
        let now = now_millis();
        self.update_started_at(task_id, now);
    }

    /// Records that the agent started task `task_id` at `now`.
    pub fn update_started_at(&mut self, task_id: u64, now: u64)
        requires
            old(self).wf(),
        ensures
            final(self).wf(),
            final(self).metrics@.len() == old(self).metrics@.len(),
            forall|x: u64| #[trigger] final(self).row(x) == if x == task_id && old(self).row(x) is Some {
                Some(mark_started(old(self).row(x)->0, now))
            } else {
                old(self).row(x)
            },
    {
        self.update_row(task_id, 1, now);
    }

    /// Records that the agent completed task `task_id` now.
    pub fn update_completed(&mut self, task_id: u64)
        requires
            old(self).wf(),
        ensures
            final(self).wf(),
            final(self).metrics@.len() == old(self).metrics@.len(),
            forall|x: u64| x != task_id ==> #[trigger] final(self).row(x) == old(self).row(x),
            old(self).row(task_id) is None ==> final(self).row(task_id) is None,
            old(self).row(task_id) is Some ==> exists|now: u64| final(self).row(task_id) == Some(
                mark_completed(old(self).row(task_id)->0, now),
            ),
    {
        let now = now_millis();
        self.update_completed_at(task_id, now);
    }

    /// Records that the agent completed task `task_id` at `now`.
    pub fn update_completed_at(&mut self, task_id: u64, now: u64)
        requires
            old(self).wf(),
        ensures
            final(self).wf(),
            final(self).metrics@.len() == old(self).metrics@.len(),
            forall|x: u64| #[trigger] final(self).row(x) == if x == task_id && old(self).row(x) is Some {
                Some(mark_completed(old(self).row(x)->0, now))
            } else {
                old(self).row(x)
            },
    {
        self.update_row(task_id, 2, now);
    }

    /// Marks task `task_id` failed.
    pub fn update_failed(&mut self, task_id: u64)
        requires
            old(self).wf(),
        ensures
            final(self).wf(),
            final(self).metrics@.len() == old(self).metrics@.len(),
            forall|x: u64| #[trigger] final(self).row(x) == if x == task_id && old(self).row(x) is Some {
                Some(mark_failed(old(self).row(x)->0))
            } else {
                old(self).row(x)
            },
    {
        self.update_row(task_id, 3, 0);
    }
}

/// The row after report `how` (0 received, 1 started, 2 completed, 3 failed).
pub open spec fn apply_report(m: TaskMetric, how: u8, now: u64) -> TaskMetric {
    if how == 0 {
        mark_received(m, now)
    } else if how == 1 {
        mark_started(m, now)
    } else if how == 2 {
        mark_completed(m, now)
    } else {
        mark_failed(m)
    }
}

/// One duration of a completed row: 0 total, 1 processing, 2 startup latency.
pub open spec fn sample_of(m: TaskMetric, which: u8) -> Option<u64> {
    if m.status != TaskStatus::Completed {
        None
    } else if which == 0 {
        m.total_time()
    } else if which == 1 {
        m.processing_time()
    } else {
        m.startup_latency()
    }
}

/// Number of rows with status `st`.
pub open spec fn count_status(s: Seq<TaskMetric>, st: TaskStatus) -> nat
    decreases s.len(),
{
    if s.len() == 0 {
        0
    } else {
        count_status(s.drop_last(), st) + if s.last().status == st {
            1nat
        } else {
            0nat
        }
    }
}

/// Number of completed rows that have duration `which`.
pub open spec fn sample_count(s: Seq<TaskMetric>, which: u8) -> nat
    decreases s.len(),
{
    if s.len() == 0 {
        0
    } else {
        sample_count(s.drop_last(), which) + if sample_of(s.last(), which) is Some {
            1nat
        } else {
            0nat
        }
    }
}

/// Sum of duration `which` over completed rows.
pub open spec fn sample_sum(s: Seq<TaskMetric>, which: u8) -> nat
    decreases s.len(),
{
    if s.len() == 0 {
        0
    } else {
        sample_sum(s.drop_last(), which) + match sample_of(s.last(), which) {
            Some(v) => v as nat,
            None => 0nat,
        }
    }
}

/// Least duration `which` over completed rows, 0 when there is none.
pub open spec fn sample_min(s: Seq<TaskMetric>, which: u8) -> u64
    decreases s.len(),
{
    if s.len() == 0 {
        0
    } else {
        let rest = sample_min(s.drop_last(), which);
        match sample_of(s.last(), which) {
            Some(v) => if sample_count(s.drop_last(), which) == 0 || v < rest {
                v
            } else {
                rest
            },
            None => rest,
        }
    }
}

/// Greatest duration `which` over completed rows, 0 when there is none.
pub open spec fn sample_max(s: Seq<TaskMetric>, which: u8) -> u64
    decreases s.len(),
{
    if s.len() == 0 {
        0
    } else {
        let rest = sample_max(s.drop_last(), which);
        match sample_of(s.last(), which) {
            Some(v) => if sample_count(s.drop_last(), which) == 0 || v > rest {
                v
            } else {
                rest
            },
            None => rest,
        }
    }
}

/// Mean (rounded down) of duration `which` over completed rows, 0 when none.
pub open spec fn sample_avg(s: Seq<TaskMetric>, which: u8) -> int {
    if sample_count(s, which) == 0 {
        0
    } else {
        sample_sum(s, which) as int / sample_count(s, which) as int
    }
}

/// Counts and duration statistics over the completed rows of the ledger.
pub struct TaskStatistics {
    pub total_tasks: usize,
    pub completed_tasks: usize,
    pub failed_tasks: usize,
    pub avg_total_time: u64,
    pub avg_processing_time: u64,
    pub avg_startup_latency: u64,
    pub min_total_time: u64,
    pub max_total_time: u64,
    pub min_processing_time: u64,
    pub max_processing_time: u64,
}

fn sample_value(m: &TaskMetric, which: u8) -> (r: Option<u64>)
    ensures
        r == sample_of(*m, which),
{
    if m.status != TaskStatus::Completed {
        None
    } else if which == 0 {
        m.get_total_time()
    } else if which == 1 {
        m.get_agent_processing_time()
    } else {
        m.get_startup_latency()
    }
}

/// Count, sum, least and greatest of duration `which` over the completed rows.
fn summarize(s: &Vec<TaskMetric>, which: u8) -> (r: (usize, u128, u64, u64))
    ensures
        r.0 == sample_count(s@, which),
        r.1 == sample_sum(s@, which),
        r.2 == sample_min(s@, which),
        r.3 == sample_max(s@, which),
{
    let mut count: usize = 0;
    let mut sum: u128 = 0;
    let mut lo: u64 = 0;
    let mut hi: u64 = 0;
    let mut i: usize = 0;
    while i < s.len()
        invariant
            i <= s@.len(),
            count == sample_count(s@.subrange(0, i as int), which),
            count <= i,
            sum == sample_sum(s@.subrange(0, i as int), which),
            sum <= i * 0xFFFF_FFFF_FFFF_FFFFu128,
            lo == sample_min(s@.subrange(0, i as int), which),
            hi == sample_max(s@.subrange(0, i as int), which),
        decreases s@.len() - i,
    {
        assert(s@.subrange(0, i + 1).drop_last() == s@.subrange(0, i as int));
        assert(s@.subrange(0, i + 1).last() == s@[i as int]);
        match sample_value(&s[i], which) {
            Some(v) => {
                if count == 0 || v < lo {
                    lo = v;
                }
                if count == 0 || v > hi {
                    hi = v;
                }
                assert(sum + v <= (i + 1) * 0xFFFF_FFFF_FFFF_FFFFu128) by (nonlinear_arith)
                    requires
                        sum <= i * 0xFFFF_FFFF_FFFF_FFFFu128,
                        v <= 0xFFFF_FFFF_FFFF_FFFFu64,
                ;
                assert((i + 1) * 0xFFFF_FFFF_FFFF_FFFFu128 <= 0xFFFF_FFFF_FFFF_FFFF_FFFF_FFFF_FFFF_FFFFu128)
                    by (nonlinear_arith)
                    requires
                        i < 0x1_0000_0000_0000_0000u128,
                ;
                sum = sum + v as u128;
                count = count + 1;
            },
            None => {
                assert(i * 0xFFFF_FFFF_FFFF_FFFFu128 <= (i + 1) * 0xFFFF_FFFF_FFFF_FFFFu128)
                    by (nonlinear_arith);
            },
        }
        i = i + 1;
    }
    assert(s@.subrange(0, s@.len() as int) == s@);
    (count, sum, lo, hi)
}

fn status_count(s: &Vec<TaskMetric>, st: TaskStatus) -> (r: usize)
    ensures
        r == count_status(s@, st),
{
    let mut count: usize = 0;
    let mut i: usize = 0;
    while i < s.len()
        invariant
            i <= s@.len(),
            count == count_status(s@.subrange(0, i as int), st),
            count <= i,
        decreases s@.len() - i,
    {
        assert(s@.subrange(0, i + 1).drop_last() == s@.subrange(0, i as int));
        if s[i].status == st {
            count = count + 1;
        }
        i = i + 1;
    }
    assert(s@.subrange(0, s@.len() as int) == s@);
    count
}

fn mean(sum: u128, count: usize) -> (r: u64)
    requires
        sum <= count * 0xFFFF_FFFF_FFFF_FFFFu128,
    ensures
        r == if count == 0 {
            0
        } else {
            sum as int / count as int
        },
{
    if count == 0 {
        0
    } else {
        let q = sum / count as u128;
        assert(q <= 0xFFFF_FFFF_FFFF_FFFFu128) by (nonlinear_arith)
            requires
                q == sum / count as u128,
                sum <= count * 0xFFFF_FFFF_FFFF_FFFFu128,
                count > 0,
        ;
        q as u64
    }
}

proof fn lemma_sample_bounds(s: Seq<TaskMetric>, which: u8)
    ensures
        sample_count(s, which) <= s.len(),
        sample_sum(s, which) <= sample_count(s, which) * 0xFFFF_FFFF_FFFF_FFFFu128,
    decreases s.len(),
{
    if s.len() > 0 {
        lemma_sample_bounds(s.drop_last(), which);
        let c = sample_count(s.drop_last(), which);
        let t = sample_sum(s.drop_last(), which);
        assert(t + 0xFFFF_FFFF_FFFF_FFFFu128 <= (c + 1) * 0xFFFF_FFFF_FFFF_FFFFu128) by (nonlinear_arith)
            requires
                t <= c * 0xFFFF_FFFF_FFFF_FFFFu128,
        ;
    }
}

impl TaskMetricsCollector {
    /// Counts of all, completed and failed rows, and mean, least and greatest
    /// durations over the completed rows (0 where there are none).
    pub fn get_statistics(&self) -> (r: TaskStatistics)
        ensures
            r.total_tasks == self.metrics@.len(),
            r.completed_tasks == count_status(self.metrics@, TaskStatus::Completed),
            r.failed_tasks == count_status(self.metrics@, TaskStatus::Failed),
            r.avg_total_time == sample_avg(self.metrics@, 0),
            r.avg_processing_time == sample_avg(self.metrics@, 1),
            r.avg_startup_latency == sample_avg(self.metrics@, 2),
            r.min_total_time == sample_min(self.metrics@, 0),
            r.max_total_time == sample_max(self.metrics@, 0),
            r.min_processing_time == sample_min(self.metrics@, 1),
            r.max_processing_time == sample_max(self.metrics@, 1),
    {
        let total = summarize(&self.metrics, 0);
        let processing = summarize(&self.metrics, 1);
        let startup = summarize(&self.metrics, 2);
        proof {
            lemma_sample_bounds(self.metrics@, 0);
            lemma_sample_bounds(self.metrics@, 1);
            lemma_sample_bounds(self.metrics@, 2);
        }
        TaskStatistics {
            total_tasks: self.metrics.len(),
            completed_tasks: status_count(&self.metrics, TaskStatus::Completed),
            failed_tasks: status_count(&self.metrics, TaskStatus::Failed),
            avg_total_time: mean(total.1, total.0),
            avg_processing_time: mean(processing.1, processing.0),
            avg_startup_latency: mean(startup.1, startup.0),
            min_total_time: total.2,
            max_total_time: total.3,
            min_processing_time: processing.2,
            max_processing_time: processing.3,
        }
    }
}

/// Name of a status in exported rows.
pub open spec fn status_word(st: TaskStatus) -> Seq<char> {
    match st {
        TaskStatus::Pending => "pending"@,
        TaskStatus::Sent => "sent"@,
        TaskStatus::Received => "received"@,
        TaskStatus::Running => "running"@,
        TaskStatus::Completed => "completed"@,
        TaskStatus::Failed => "failed"@,
    }
}

/// A time, or 0 when it is unknown.
pub open spec fn time_or_zero(o: Option<u64>) -> Seq<char> {
    match o {
        Some(v) => decimal(v as nat),
        None => decimal(0),
    }
}

/// A duration, or nothing when it is unknown.
pub open spec fn duration_or_blank(o: Option<u64>) -> Seq<char> {
    match o {
        Some(v) => decimal(v as nat),
        None => Seq::empty(),
    }
}

/// Task id, peer id and sending time of an exported row, each followed by a comma.
pub open spec fn row_head(m: TaskMetric) -> Seq<char> {
    decimal(m.task_id as nat) + seq![','] + m.peer_id@ + seq![','] + decimal(m.sent_time as nat)
        + seq![',']
}

/// Receipt, start and completion times of an exported row, each followed by a comma.
pub open spec fn row_times(m: TaskMetric) -> Seq<char> {
    time_or_zero(m.received_time) + seq![','] + time_or_zero(m.start_time) + seq![',']
        + time_or_zero(m.completion_time) + seq![',']
}

/// The three durations and the status of an exported row, then a newline.
pub open spec fn row_tail(m: TaskMetric) -> Seq<char> {
    duration_or_blank(m.total_time()) + seq![','] + duration_or_blank(m.processing_time()) + seq![
        ',',
    ] + duration_or_blank(m.startup_latency()) + seq![','] + status_word(m.status) + seq!['\n']
}

/// One exported ledger row, ending in a newline.
pub open spec fn csv_row(m: TaskMetric) -> Seq<char> {
    row_head(m) + row_times(m) + row_tail(m)
}

/// The rows of `s`, in order.
pub open spec fn csv_rows(s: Seq<TaskMetric>) -> Seq<char>
    decreases s.len(),
{
    if s.len() == 0 {
        Seq::empty()
    } else {
        csv_rows(s.drop_last()) + csv_row(s.last())
    }
}

/// Header line of the ledger export.
pub open spec fn task_csv_header() -> Seq<char> {
    "task_id,peer_id,sent_time_ms,received_time_ms,start_time_ms,completion_time_ms,total_time_ms,processing_time_ms,startup_latency_ms,status\n"@
}

fn push_text(out: &mut Vec<char>, s: &str)
    ensures
        final(out)@ == old(out)@ + s@,
{
    let cs = chars_of(s);
    push_chars(out, &cs);
}

fn push_time_or_zero(out: &mut Vec<char>, o: Option<u64>)
    ensures
        final(out)@ == old(out)@ + time_or_zero(o),
{
    match o {
        Some(v) => push_decimal(out, v as u128),
        None => push_decimal(out, 0),
    }
}

fn push_duration(out: &mut Vec<char>, o: Option<u64>)
    ensures
        final(out)@ == old(out)@ + duration_or_blank(o),
{
    match o {
        Some(v) => push_decimal(out, v as u128),
        None => {
            assert(old(out)@ + Seq::<char>::empty() == old(out)@);
        },
    }
}

fn push_status(out: &mut Vec<char>, st: TaskStatus)
    ensures
        final(out)@ == old(out)@ + status_word(st),
{
    match st {
        TaskStatus::Pending => push_text(out, "pending"),
        TaskStatus::Sent => push_text(out, "sent"),
        TaskStatus::Received => push_text(out, "received"),
        TaskStatus::Running => push_text(out, "running"),
        TaskStatus::Completed => push_text(out, "completed"),
        TaskStatus::Failed => push_text(out, "failed"),
    }
}

fn push_row_head(out: &mut Vec<char>, m: &TaskMetric)
    ensures
        final(out)@ == old(out)@ + row_head(*m),
{
    let ghost o = out@;
    push_decimal(out, m.task_id as u128);
    out.push(',');
    push_text(out, m.peer_id.as_str());
    out.push(',');
    push_decimal(out, m.sent_time as u128);
    out.push(',');
    assert(out@ =~= o + row_head(*m));
}

fn push_row_times(out: &mut Vec<char>, m: &TaskMetric)
    ensures
        final(out)@ == old(out)@ + row_times(*m),
{
    let ghost o = out@;
    push_time_or_zero(out, m.received_time);
    out.push(',');
    push_time_or_zero(out, m.start_time);
    out.push(',');
    push_time_or_zero(out, m.completion_time);
    out.push(',');
    assert(out@ =~= o + row_times(*m));
}

fn push_row_tail(out: &mut Vec<char>, m: &TaskMetric)
    ensures
        final(out)@ == old(out)@ + row_tail(*m),
{
    let ghost o = out@;
    push_duration(out, m.get_total_time());
    out.push(',');
    push_duration(out, m.get_agent_processing_time());
    out.push(',');
    push_duration(out, m.get_startup_latency());
    out.push(',');
    push_status(out, m.status);
    out.push('\n');
    assert(out@ =~= o + row_tail(*m));
}

fn push_row(out: &mut Vec<char>, m: &TaskMetric)
    ensures
        final(out)@ == old(out)@ + csv_row(*m),
{
    let ghost o = out@;
    push_row_head(out, m);
    push_row_times(out, m);
    push_row_tail(out, m);
    assert(out@ =~= o + csv_row(*m));
}

impl TaskMetricsCollector {
    /// The ledger as CSV: a header line, then one line per task in increasing
    /// task id order.
    pub fn to_csv_string(&self) -> (r: String)
        ensures
            r@ == task_csv_header() + csv_rows(self.metrics@),
    {
        let mut out: Vec<char> = Vec::new();
        push_text(&mut out, "task_id,peer_id,sent_time_ms,received_time_ms,start_time_ms,completion_time_ms,total_time_ms,processing_time_ms,startup_latency_ms,status\n");
        let mut i: usize = 0;
        while i < self.metrics.len()
            invariant
                i <= self.metrics@.len(),
                out@ == task_csv_header() + csv_rows(self.metrics@.subrange(0, i as int)),
            decreases self.metrics@.len() - i,
        {
            assert(self.metrics@.subrange(0, i + 1).drop_last() == self.metrics@.subrange(0, i as int));
            let ghost before = out@;
            push_row(&mut out, &self.metrics[i]);
            assert(out@ =~= task_csv_header() + csv_rows(self.metrics@.subrange(0, i + 1)));
            i = i + 1;
        }
        assert(self.metrics@.subrange(0, self.metrics@.len() as int) == self.metrics@);
        text_of(&out)
    }
}

/// The whole microseconds of a duration.
pub uninterp spec fn micros_of(d: std::time::Duration) -> u128;

/// Relies on `Duration::as_micros`: the whole microseconds of `d`, a function
/// of `d` alone.
#[verifier::external_body]
fn duration_micros(d: std::time::Duration) -> (r: u128)
    ensures
        r == micros_of(d),
{
    d.as_micros()
}

/// Sum of the samples.
pub open spec fn seq_sum(s: Seq<u128>) -> nat
    decreases s.len(),
{
    if s.len() == 0 {
        0
    } else {
        seq_sum(s.drop_last()) + s.last() as nat
    }
}

/// Least sample of a non-empty sequence.
pub open spec fn seq_min(s: Seq<u128>) -> u128
    decreases s.len(),
{
    if s.len() <= 1 {
        s[0]
    } else {
        let rest = seq_min(s.drop_last());
        if s.last() < rest {
            s.last()
        } else {
            rest
        }
    }
}

/// Greatest sample of a non-empty sequence.
pub open spec fn seq_max(s: Seq<u128>) -> u128
    decreases s.len(),
{
    if s.len() <= 1 {
        s[0]
    } else {
        let rest = seq_max(s.drop_last());
        if s.last() > rest {
            s.last()
        } else {
            rest
        }
    }
}

/// Planning-tick durations in microseconds, in the order recorded.
#[derive(Default, Debug, Clone)]
pub struct PathComputationMetrics {
    pub samples: Vec<u128>,
}

/// Sample count, total (saturating at `u128::MAX`), least and greatest sample.
pub struct PathComputationStatistics {
    pub samples: usize,
    pub total_micros: u128,
    pub min_micros: u128,
    pub max_micros: u128,
}

/// Exported line of sample `i` holding `v` microseconds: index, microseconds,
/// and milliseconds with three decimals.
pub open spec fn path_row(i: int, v: u128) -> Seq<char> {
    let r = (v % 1000) as int;
    decimal(i as nat) + seq![','] + decimal(v as nat) + seq![','] + decimal((v / 1000) as nat)
        + seq!['.', crate::text::digit_char(r / 100), crate::text::digit_char((r / 10) % 10), crate::text::digit_char(r % 10)]
        + seq!['\n']
}

/// The lines of all samples of `s`, in order.
pub open spec fn path_rows(s: Seq<u128>) -> Seq<char>
    decreases s.len(),
{
    if s.len() == 0 {
        Seq::empty()
    } else {
        path_rows(s.drop_last()) + path_row(s.len() - 1, s.last())
    }
}

/// Header line of the sample export.
pub open spec fn path_csv_header() -> Seq<char> {
    "sample_index,duration_micros,duration_millis\n"@
}

impl PathComputationMetrics {
    pub fn new() -> (m: PathComputationMetrics)
        ensures
            m.samples@.len() == 0,
    {
        PathComputationMetrics { samples: Vec::new() }
    }

    pub fn clear(&mut self)
        ensures
            final(self).samples@.len() == 0,
    {
        self.samples.clear();
    }

    /// Appends the duration `duration`, in whole microseconds.
    pub fn record_duration(&mut self, duration: std::time::Duration)
        ensures
            final(self).samples@ == old(self).samples@.push(micros_of(duration)),
    {
        let micros = duration_micros(duration);
        self.samples.push(micros);
    }

    /// Appends a sample given in microseconds.
    pub fn record_micros(&mut self, micros: u128)
        ensures
            final(self).samples@ == old(self).samples@.push(micros),
    {
        self.samples.push(micros);
    }

    pub fn is_empty(&self) -> (r: bool)
        ensures
            r == (self.samples@.len() == 0),
    {
        self.samples.len() == 0
    }

    pub fn len(&self) -> (r: usize)
        ensures
            r == self.samples@.len(),
    {
        self.samples.len()
    }

    /// `None` without samples; else their count, total, least and greatest.
    pub fn get_statistics(&self) -> (r: Option<PathComputationStatistics>)
        ensures
            r is None <==> self.samples@.len() == 0,
            r is Some ==> {
                let st = r->0;
                &&& st.samples == self.samples@.len()
                &&& st.total_micros == if seq_sum(self.samples@) <= u128::MAX {
                    seq_sum(self.samples@)
                } else {
                    u128::MAX as nat
                }
                &&& st.min_micros == seq_min(self.samples@)
                &&& st.max_micros == seq_max(self.samples@)
            },
    {
        if self.samples.len() == 0 {
            return None;
        }
        let s = &self.samples;
        let mut total: u128 = s[0];
        let mut lo: u128 = s[0];
        let mut hi: u128 = s[0];
        let mut i: usize = 1;
        assert(s@.subrange(0, 1).drop_last() =~= Seq::<u128>::empty());
        assert(seq_sum(Seq::<u128>::empty()) == 0);
        assert(s@.subrange(0, 1).last() == s@[0]);
        assert(seq_sum(s@.subrange(0, 1)) == s@[0] as nat);
        while i < s.len()
            invariant
                1 <= i <= s@.len(),
                total == if seq_sum(s@.subrange(0, i as int)) <= u128::MAX {
                    seq_sum(s@.subrange(0, i as int))
                } else {
                    u128::MAX as nat
                },
                lo == seq_min(s@.subrange(0, i as int)),
                hi == seq_max(s@.subrange(0, i as int)),
            decreases s@.len() - i,
        {
            assert(s@.subrange(0, i + 1).drop_last() == s@.subrange(0, i as int));
            let v = s[i];
            total = total.saturating_add(v);
            if v < lo {
                lo = v;
            }
            if v > hi {
                hi = v;
            }
            i = i + 1;
        }
        assert(s@.subrange(0, s@.len() as int) == s@);
        Some(PathComputationStatistics { samples: s.len(), total_micros: total, min_micros: lo, max_micros: hi })
    }

    /// The samples as CSV: a header line, then one line per sample.
    pub fn to_csv_string(&self) -> (r: String)
        ensures
            r@ == path_csv_header() + path_rows(self.samples@),
    {
        let mut out: Vec<char> = Vec::new();
        push_text(&mut out, "sample_index,duration_micros,duration_millis\n");
        let mut i: usize = 0;
        while i < self.samples.len()
            invariant
                i <= self.samples@.len(),
                out@ == path_csv_header() + path_rows(self.samples@.subrange(0, i as int)),
            decreases self.samples@.len() - i,
        {
            assert(self.samples@.subrange(0, i + 1).drop_last() == self.samples@.subrange(0, i as int));
            let ghost before = out@;
            let v = self.samples[i];
            push_decimal(&mut out, i as u128);
            out.push(',');
            push_decimal(&mut out, v);
            out.push(',');
            push_decimal(&mut out, v / 1000);
            out.push('.');
            let r = v % 1000;
            out.push(crate::text::digit_of(r / 100));
            out.push(crate::text::digit_of((r / 10) % 10));
            out.push(crate::text::digit_of(r % 10));
            out.push('\n');
            assert(out@ =~= before + path_row(i as int, v));
            assert(out@ =~= path_csv_header() + path_rows(self.samples@.subrange(0, i + 1)));
            i = i + 1;
        }
        assert(self.samples@.subrange(0, self.samples@.len() as int) == self.samples@);
        text_of(&out)
    }
}

} // verus!
