use vstd::prelude::*;
use crate::types::{ClientRequest, RunResult, Schedule, ServerResponse, TaskInfo, TaskSpec};

verus! {

/// A live task: its spec, whether it owns a timer, and its latest result.
#[derive(Debug)]
pub struct TaskEntry {
    pub id: u64,
    pub spec: TaskSpec,
    /// Whether the task owns a timer of its own; dependents own none.
    pub has_timer: bool,
    pub last_result: Option<RunResult>,
}

/// The tasks waiting on one trigger task, in the order they were registered.
#[derive(Debug)]
pub struct Watch {
    pub trigger: u64,
    pub dependents: Vec<u64>,
}

/// One record of the durable state: a task's id and spec.
#[derive(Debug)]
pub struct PersistedTask {
    pub id: u64,
    pub spec: TaskSpec,
}

/// A dependent due to run after its trigger finished.
#[derive(Debug)]
pub struct ChainStep {
    pub id: u64,
    pub spec: TaskSpec,
    pub delay_secs: u64,
}

/// Why a persisted task set cannot be taken up.
#[derive(Debug, Clone, Copy, PartialEq, Eq, Structural)]
pub enum RestoreError {
    /// Two records carry the same id.
    DuplicateId(u64),
}

/// The task table, the dependency index and the id counter of one scheduler.
#[derive(Debug)]
pub struct Scheduler {
    pub tasks: Vec<TaskEntry>,
    pub watchers: Vec<Watch>,
    pub next_id: u64,
}

/// The dependents registered under trigger `t`; the last watch for `t` wins.
pub open spec fn deps_in(ws: Seq<Watch>, t: u64) -> Seq<u64>
    decreases ws.len(),
{
    if ws.len() == 0 {
        seq![]
    } else if ws.last().trigger == t {
        ws.last().dependents@
    } else {
        deps_in(ws.drop_last(), t)
    }
}

/// `s` with every occurrence of `x` taken out, order kept.
pub open spec fn without(s: Seq<u64>, x: u64) -> Seq<u64>
    decreases s.len(),
{
    if s.len() == 0 {
        seq![]
    } else if s.last() == x {
        without(s.drop_last(), x)
    } else {
        without(s.drop_last(), x).push(s.last())
    }
}

/// The schedule of task `id` in `ts`; the last entry for `id` wins.
pub open spec fn schedule_in(ts: Seq<TaskEntry>, id: u64) -> Option<Schedule>
    decreases ts.len(),
{
    if ts.len() == 0 {
        None
    } else if ts.last().id == id {
        Some(ts.last().spec.schedule)
    } else {
        schedule_in(ts.drop_last(), id)
    }
}

/// The dependent list of trigger `t` after task `id` with schedule `s` is registered.
pub open spec fn deps_after_add(d: Seq<u64>, t: u64, s: Schedule, id: u64) -> Seq<u64> {
    match s {
        Schedule::After { task_id, .. } => if task_id == t { d.push(id) } else { d },
        _ => d,
    }
}

/// Schedule `s` waits on task `t`.
pub open spec fn waits(s: Schedule, t: u64) -> bool {
    match s {
        Schedule::After { task_id, .. } => task_id == t,
        _ => false,
    }
}

/// Task `x` of `ts` waits on task `t`.
pub open spec fn waits_on(ts: Seq<TaskEntry>, x: u64, t: u64) -> bool {
    exists|i: int| 0 <= i < ts.len() && ts[i].id == x && waits(ts[i].spec.schedule, t)
}

/// A task as it is first entered: no result yet, a timer unless it is a dependent.
pub open spec fn fresh_entry(id: u64, spec: TaskSpec) -> TaskEntry {
    TaskEntry { id, spec, has_timer: spec.schedule.has_timer(), last_result: None }
}

/// Of the ids in `ds`, those that name a task of `ts` waiting on `t`, each with its delay.
pub open spec fn ready_in(ts: Seq<TaskEntry>, ds: Seq<u64>, t: u64) -> Seq<(u64, u64)>
    decreases ds.len(),
{
    if ds.len() == 0 {
        seq![]
    } else {
        let rest = ready_in(ts, ds.drop_last(), t);
        match schedule_in(ts, ds.last()) {
            Some(Schedule::After { task_id, delay_secs }) =>
                if task_id == t { rest.push((ds.last(), delay_secs)) } else { rest },
            _ => rest,
        }
    }
}

/// The largest id among `recs`, or 0 when there is none.
pub open spec fn max_id(recs: Seq<PersistedTask>) -> u64
    decreases recs.len(),
{
    if recs.len() == 0 {
        0
    } else {
        let m = max_id(recs.drop_last());
        if recs.last().id > m { recs.last().id } else { m }
    }
}

/// The ids of the records that wait on `t`, in record order.
pub open spec fn deps_of_records(recs: Seq<PersistedTask>, t: u64) -> Seq<u64>
    decreases recs.len(),
{
    if recs.len() == 0 {
        seq![]
    } else {
        deps_after_add(deps_of_records(recs.drop_last(), t), t, recs.last().spec.schedule, recs.last().id)
    }
}

/// The view of a queue of steps: each step's id and delay.
pub open spec fn steps_view(q: Seq<ChainStep>) -> Seq<(u64, u64)> {
    q.map_values(|st: ChainStep| (st.id, st.delay_secs))
}

/// Task `id` of `ts` has spec `spec`.
pub open spec fn spec_of(ts: Seq<TaskEntry>, id: u64, spec: TaskSpec) -> bool {
    exists|i: int| 0 <= i < ts.len() && ts[i].id == id && ts[i].spec@ == spec@
}

/// Entry `e` is record `rec` entered afresh.
pub open spec fn restored_entry(e: TaskEntry, rec: PersistedTask) -> bool {
    &&& e.id == rec.id
    &&& e.spec@ == rec.spec@
    &&& e.has_timer == rec.spec.schedule.has_timer()
    &&& e.last_result is None
}

/// `r` is what taking up `recs` gives.
pub open spec fn restored_from(r: Result<Scheduler, RestoreError>, recs: Seq<PersistedTask>) -> bool {
    match r {
        Err(RestoreError::DuplicateId(x)) => {
            &&& !ids_unique(recs)
            &&& exists|i: int, j: int| 0 <= i < j < recs.len() && recs[i].id == x && recs[j].id == x
        },
        Ok(s) => {
            &&& ids_unique(recs)
            &&& s.wf()
            &&& s.tasks@.len() == recs.len()
            &&& forall|i: int| 0 <= i < recs.len() ==> restored_entry(s.tasks@[i], recs[i])
            &&& s.next_id == if max_id(recs) == u64::MAX { u64::MAX } else { (max_id(recs) + 1) as u64 }
            &&& forall|t: u64| s.deps(t) == deps_of_records(recs, t)
        },
    }
}

/// `recs` holds each task of `s` by id and spec, in table order.
pub open spec fn is_snapshot_of(recs: Seq<PersistedTask>, s: Scheduler) -> bool {
    &&& recs.len() == s.tasks@.len()
    &&& forall|i: int| 0 <= i < recs.len() ==> recs[i].id == s.tasks@[i].id && recs[i].spec@ == s.tasks@[i].spec@
}

pub open spec fn ids_unique(recs: Seq<PersistedTask>) -> bool {
    forall|i: int, j: int| 0 <= i < j < recs.len() ==> recs[i].id != recs[j].id
}

proof fn lemma_deps_update(ws: Seq<Watch>, i: int, w: Watch, t: u64)
    requires
        0 <= i < ws.len(),
        w.trigger == ws[i].trigger,
        forall|a: int, b: int| 0 <= a < b < ws.len() ==> ws[a].trigger != ws[b].trigger,
    ensures
        deps_in(ws.update(i, w), t) == if t == w.trigger { w.dependents@ } else { deps_in(ws, t) },
    decreases ws.len(),
{
    let u = ws.update(i, w);
    if i < ws.len() - 1 {
        assert(u.drop_last() =~= ws.drop_last().update(i, w));
        lemma_deps_update(ws.drop_last(), i, w, t);
    } else {
        assert(u.drop_last() =~= ws.drop_last());
    }
}

proof fn lemma_deps_absent(ws: Seq<Watch>, t: u64)
    requires
        forall|a: int| 0 <= a < ws.len() ==> ws[a].trigger != t,
    ensures
        deps_in(ws, t) == Seq::<u64>::empty(),
    decreases ws.len(),
{
    if ws.len() > 0 {
        lemma_deps_absent(ws.drop_last(), t);
    }
}

proof fn lemma_deps_pruned(ws: Seq<Watch>, nw: Seq<Watch>, x: u64, t: u64)
    requires
        ws.len() == nw.len(),
        forall|a: int| 0 <= a < ws.len() ==> nw[a].trigger == ws[a].trigger
            && nw[a].dependents@ == without(ws[a].dependents@, x),
    ensures
        deps_in(nw, t) == without(deps_in(ws, t), x),
    decreases ws.len(),
{
    if ws.len() > 0 {
        lemma_deps_pruned(ws.drop_last(), nw.drop_last(), x, t);
    }
}

proof fn lemma_schedule_at(ts: Seq<TaskEntry>, i: int)
    requires
        0 <= i < ts.len(),
        forall|a: int, b: int| 0 <= a < b < ts.len() ==> ts[a].id != ts[b].id,
    ensures
        schedule_in(ts, ts[i].id) == Some(ts[i].spec.schedule),
    decreases ts.len(),
{
    if i < ts.len() - 1 {
        lemma_schedule_at(ts.drop_last(), i);
    }
}

proof fn lemma_schedule_absent(ts: Seq<TaskEntry>, id: u64)
    requires
        forall|a: int| 0 <= a < ts.len() ==> ts[a].id != id,
    ensures
        schedule_in(ts, id) is None,
    decreases ts.len(),
{
    if ts.len() > 0 {
        lemma_schedule_absent(ts.drop_last(), id);
    }
}

fn copy_result(r: &Option<RunResult>) -> (c: Option<RunResult>)
    ensures
        c == *r,
{
    match r {
        Some(x) => Some(x.clone()),
        None => None,
    }
}

impl Scheduler {
    /// Whether a task with this id is live.
    pub open spec fn contains(self, id: u64) -> bool {
        exists|i: int| 0 <= i < self.tasks@.len() && self.tasks@[i].id == id
    }

    /// The dependents registered under trigger `t`.
    pub open spec fn deps(self, t: u64) -> Seq<u64> {
        deps_in(self.watchers@, t)
    }

    /// The live dependents of `t` that wait on it, with their delays, in registration order.
    pub open spec fn ready(self, t: u64) -> Seq<(u64, u64)> {
        ready_in(self.tasks@, self.deps(t), t)
    }

    /// The dependency index holds, under each trigger `t`, each live task that
    /// waits on `t` exactly once, and nothing else.
    pub open spec fn index_exact(self) -> bool {
        forall|t: u64|
            #![trigger self.deps(t)]
            self.deps(t).no_duplicates() && forall|x: u64|
                self.deps(t).contains(x) <==> waits_on(self.tasks@, x, t)
    }

    pub open spec fn wf(self) -> bool {
        self.wf_base() && self.index_exact()
    }

    /// Ids unique and below the counter, timers on every task but dependents,
    /// one watch per trigger.
    pub open spec fn wf_base(self) -> bool {
        &&& forall|i: int, j: int|
            0 <= i < j < self.tasks@.len() ==> self.tasks@[i].id != self.tasks@[j].id
        &&& forall|i: int|
            0 <= i < self.tasks@.len() ==> (self.tasks@[i].id < self.next_id || self.next_id
                == u64::MAX)
        &&& forall|i: int|
            0 <= i < self.tasks@.len() ==> self.tasks@[i].has_timer
                == self.tasks@[i].spec.schedule.has_timer()
        &&& forall|i: int, j: int|
            0 <= i < j < self.watchers@.len() ==> self.watchers@[i].trigger
                != self.watchers@[j].trigger
        &&& self.next_id >= 1
    }

    /// An empty scheduler whose first id is 1.
    pub fn new() -> (r: Scheduler)
        ensures
            r.wf(),
            r.tasks@.len() == 0,
            r.next_id == 1,
            forall|t: u64| r.deps(t) == Seq::<u64>::empty(),
    {
        Scheduler { tasks: Vec::new(), watchers: Vec::new(), next_id: 1 }
    }

    /// Position of the task with this id.
    pub fn find(&self, id: u64) -> (r: Option<usize>)
        ensures
            match r {
                Some(i) => i < self.tasks@.len() && self.tasks@[i as int].id == id,
                None => !self.contains(id),
            },
    {
        let mut i: usize = 0;
        while i < self.tasks.len()
            invariant
                i <= self.tasks@.len(),
                forall|a: int| 0 <= a < i ==> self.tasks@[a].id != id,
            decreases self.tasks@.len() - i,
        {
            if self.tasks[i].id == id {
                return Some(i);
            }
            i = i + 1;
        }
        None
    }

    fn find_watch(&self, t: u64) -> (r: Option<usize>)
        ensures
            match r {
                Some(i) => i < self.watchers@.len() && self.watchers@[i as int].trigger == t,
                None => forall|a: int| 0 <= a < self.watchers@.len() ==> self.watchers@[a].trigger != t,
            },
    {
        let mut i: usize = 0;
        while i < self.watchers.len()
            invariant
                i <= self.watchers@.len(),
                forall|a: int| 0 <= a < i ==> self.watchers@[a].trigger != t,
            decreases self.watchers@.len() - i,
        {
            if self.watchers[i].trigger == t {
                return Some(i);
            }
            i = i + 1;
        }
        None
    }

    /// Adds `id` to the dependents of `trigger`.
    fn register(&mut self, trigger: u64, id: u64)
        requires
            old(self).wf_base(),
        ensures
            final(self).wf_base(),
            final(self).tasks == old(self).tasks,
            final(self).next_id == old(self).next_id,
            forall|t: u64|
                final(self).deps(t) == if t == trigger { old(self).deps(t).push(id) } else {
                    old(self).deps(t)
                },
    {
        match self.find_watch(trigger) {
            Some(i) => {
                let ghost ws = self.watchers@;
                let mut d: Vec<u64> = Vec::new();
                let mut k: usize = 0;
                while k < self.watchers[i].dependents.len()
                    invariant
                        i < self.watchers@.len(),
                        k <= self.watchers@[i as int].dependents@.len(),
                        d@ == self.watchers@[i as int].dependents@.take(k as int),
                    decreases self.watchers@[i as int].dependents@.len() - k,
                {
                    d.push(self.watchers[i].dependents[k]);
                    k = k + 1;
                    assert(d@ =~= self.watchers@[i as int].dependents@.take(k as int));
                }
                assert(d@ =~= ws[i as int].dependents@);
                d.push(id);
                let w = Watch { trigger, dependents: d };
                proof {
                    assert forall|t: u64|
                        deps_in(ws.update(i as int, w), t) == if t == trigger {
                            deps_in(ws, t).push(id)
                        } else {
                            deps_in(ws, t)
                        } by {
                        lemma_deps_update(ws, i as int, w, t);
                        lemma_deps_update(ws, i as int, ws[i as int], t);
                        assert(ws.update(i as int, ws[i as int]) =~= ws);
                    }
                }
                self.watchers.set(i, w);
            },
            None => {
                let ghost ws = self.watchers@;
                let mut d: Vec<u64> = Vec::new();
                d.push(id);
                self.watchers.push(Watch { trigger, dependents: d });
                proof {
                    assert(self.watchers@.drop_last() =~= ws);
                    lemma_deps_absent(ws, trigger);
                }
            },
        }
    }

    /// Enters a new task under the next id. A dependent is registered under its
    /// trigger; every other task gets a timer. Gives `None`, changing nothing,
    /// once the ids are used up.
    pub fn add_task(&mut self, spec: TaskSpec) -> (r: Option<u64>)
        requires
            old(self).wf(),
        ensures
            final(self).wf(),
            old(self).next_id == u64::MAX ==> r is None && *final(self) == *old(self),
            old(self).next_id < u64::MAX ==> {
                &&& r == Some(old(self).next_id)
                &&& !old(self).contains(old(self).next_id)
                &&& final(self).next_id == old(self).next_id + 1
                &&& final(self).tasks@ == old(self).tasks@.push(fresh_entry(old(self).next_id, spec))
                &&& forall|t: u64|
                    final(self).deps(t) == deps_after_add(
                        old(self).deps(t),
                        t,
                        spec.schedule,
                        old(self).next_id,
                    )
            },
    {
        if self.next_id == u64::MAX {
            return None;
        }
        let id = self.next_id;
        self.next_id = id + 1;
        assert(forall|t: u64| self.deps(t) == old(self).deps(t));
        self.enter(id, spec);
        Some(id)
    }

    /// Enters a fresh task under an unused id below the counter.
    fn enter(&mut self, id: u64, spec: TaskSpec)
        requires
            old(self).wf(),
            !old(self).contains(id),
            id < old(self).next_id || old(self).next_id == u64::MAX,
        ensures
            final(self).wf(),
            final(self).next_id == old(self).next_id,
            final(self).tasks@ == old(self).tasks@.push(fresh_entry(id, spec)),
            forall|t: u64|
                final(self).deps(t) == deps_after_add(old(self).deps(t), t, spec.schedule, id),
    {
        match spec.schedule {
            Schedule::After { task_id, .. } => {
                self.register(task_id, id);
            },
            _ => {},
        }
        let has_timer = match spec.schedule {
            Schedule::After { .. } => false,
            _ => true,
        };
        let ghost mid = *self;
        let ghost before = self.tasks@;
        let ghost sp = spec;
        self.tasks.push(TaskEntry { id, spec, has_timer, last_result: None });
        assert(self.tasks@ == before.push(fresh_entry(id, sp)));
        proof {
            assert forall|t: u64|
                self.deps(t) == deps_after_add(old(self).deps(t), t, sp.schedule, id) by {
                match sp.schedule {
                    Schedule::After { task_id, .. } => {
                        assert(self.deps(t) == mid.deps(t));
                        if t == task_id {
                            assert(self.deps(t) == old(self).deps(t).push(id));
                        } else {
                            assert(self.deps(t) == old(self).deps(t));
                        }
                    },
                    _ => {
                        assert(self.watchers == old(self).watchers);
                    },
                }
            }
            let ts = self.tasks@;
            let n = before.len() as int;
            assert forall|t: u64| #[trigger] self.deps(t).no_duplicates() && forall|x: u64|
                self.deps(t).contains(x) <==> waits_on(ts, x, t) by {
                let od = old(self).deps(t);
                assert(od.no_duplicates());
                assert(!od.contains(id)) by {
                    if od.contains(id) {
                        assert(waits_on(before, id, t));
                        let i = choose|i: int| 0 <= i < before.len() && before[i].id == id && waits(before[i].spec.schedule, t);
                        assert(old(self).contains(id));
                    }
                }
                assert forall|x: u64| self.deps(t).contains(x) <==> waits_on(ts, x, t) by {
                    if waits_on(before, x, t) {
                        let i = choose|i: int| 0 <= i < before.len() && before[i].id == x && waits(before[i].spec.schedule, t);
                        assert(ts[i] == before[i]);
                    }
                    if waits_on(ts, x, t) {
                        let i = choose|i: int| 0 <= i < ts.len() && ts[i].id == x && waits(ts[i].spec.schedule, t);
                        if i < n {
                            assert(ts[i] == before[i]);
                            assert(waits_on(before, x, t));
                        } else {
                            assert(x == id && waits(sp.schedule, t));
                        }
                    }
                    if x == id && waits(sp.schedule, t) {
                        assert(ts[n].id == id);
                        assert(waits_on(ts, x, t));
                    }
                    if waits(sp.schedule, t) {
                        assert(self.deps(t) == od.push(id));
                        if self.deps(t).contains(x) && x != id {
                            let k = choose|k: int| 0 <= k < self.deps(t).len() && self.deps(t)[k] == x;
                            assert(od[k] == x);
                        }
                        if od.contains(x) {
                            let k = choose|k: int| 0 <= k < od.len() && od[k] == x;
                            assert(self.deps(t)[k] == x);
                        }
                        assert(self.deps(t)[od.len() as int] == id);
                    } else {
                        assert(self.deps(t) == od);
                    }
                }
                if waits(sp.schedule, t) {
                    assert(self.deps(t) == od.push(id));
                    assert forall|a: int, b: int| 0 <= a < b < self.deps(t).len() implies
                        self.deps(t)[a] != self.deps(t)[b] by {
                        if b == od.len() {
                            assert(od[a] == self.deps(t)[a]);
                        } else {
                            assert(od[a] == self.deps(t)[a] && od[b] == self.deps(t)[b]);
                        }
                    }
                }
            }
        }
    }

    /// Drops task `id`: its entry goes, and it leaves every dependent list. The
    /// list kept under `id` as a trigger stays; nothing can fire it again.
    /// Gives whether the task was there; the caller cancels its timer.
    pub fn remove_task(&mut self, id: u64) -> (r: bool)
        requires
            old(self).wf(),
        ensures
            final(self).wf(),
            r == old(self).contains(id),
            !final(self).contains(id),
            !r ==> *final(self) == *old(self),
            r ==> exists|i: int|
                0 <= i < old(self).tasks@.len() && old(self).tasks@[i].id == id
                    && final(self).tasks@ == old(self).tasks@.remove(i),
            r ==> forall|t: u64| final(self).deps(t) == without(old(self).deps(t), id),
            r ==> forall|t: u64| !final(self).deps(t).contains(id),
            final(self).next_id == old(self).next_id,
    {
        let i = match self.find(id) {
            Some(i) => i,
            None => return false,
        };
        let ghost old_tasks = self.tasks@;
        assert(old_tasks == old(self).tasks@);
        self.tasks.remove(i);
        assert(old_tasks.remove(i as int) == self.tasks@);
        assert forall|a: int| 0 <= a < self.tasks@.len() implies self.tasks@[a].id != id by {
            if a < i {
                assert(self.tasks@[a] == old_tasks[a]);
            } else {
                assert(self.tasks@[a] == old_tasks[a + 1]);
            }
        }
        let ghost ws = self.watchers@;
        assert(ws == old(self).watchers@);
        let mut nw: Vec<Watch> = Vec::new();
        let mut j: usize = 0;
        while j < self.watchers.len()
            invariant
                ws == self.watchers@,
                j <= ws.len(),
                nw@.len() == j,
                forall|a: int| 0 <= a < j ==> nw@[a].trigger == ws[a].trigger
                    && nw@[a].dependents@ == without(ws[a].dependents@, id),
            decreases ws.len() - j,
        {
            let src = &self.watchers[j].dependents;
            let mut kept: Vec<u64> = Vec::new();
            let mut k: usize = 0;
            while k < src.len()
                invariant
                    k <= src@.len(),
                    kept@ == without(src@.take(k as int), id),
                decreases src@.len() - k,
            {
                assert(src@.take(k + 1).drop_last() =~= src@.take(k as int));
                if src[k] != id {
                    kept.push(src[k]);
                }
                k = k + 1;
            }
            assert(src@.take(k as int) =~= src@);
            nw.push(Watch { trigger: self.watchers[j].trigger, dependents: kept });
            j = j + 1;
        }
        self.watchers = nw;
        proof {
            assert forall|a: int, b: int| 0 <= a < b < self.tasks@.len() implies
                self.tasks@[a].id != self.tasks@[b].id by {
                let oa = if a < i { a } else { a + 1 };
                let ob = if b < i { b } else { b + 1 };
                assert(self.tasks@[a] == old_tasks[oa]);
                assert(self.tasks@[b] == old_tasks[ob]);
            }
            assert forall|a: int, b: int| 0 <= a < b < self.watchers@.len() implies
                self.watchers@[a].trigger != self.watchers@[b].trigger by {
                assert(self.watchers@[a].trigger == ws[a].trigger);
                assert(self.watchers@[b].trigger == ws[b].trigger);
            }
            assert forall|a: int| 0 <= a < self.tasks@.len() implies
                (self.tasks@[a].id < self.next_id || self.next_id == u64::MAX)
                && self.tasks@[a].has_timer == self.tasks@[a].spec.schedule.has_timer() by {
                let oa = if a < i { a } else { a + 1 };
                assert(self.tasks@[a] == old_tasks[oa]);
            }
            assert forall|t: u64| self.deps(t) == without(deps_in(ws, t), id) by {
                lemma_deps_pruned(ws, self.watchers@, id, t);
            }
            assert forall|t: u64| !self.deps(t).contains(id) by {
                lemma_deps_pruned(ws, self.watchers@, id, t);
                lemma_without_excludes(deps_in(ws, t), id);
            }
            let ts = self.tasks@;
            assert forall|t: u64| #[trigger] self.deps(t).no_duplicates() && forall|x: u64|
                self.deps(t).contains(x) <==> waits_on(ts, x, t) by {
                lemma_deps_pruned(ws, self.watchers@, id, t);
                lemma_without_facts(deps_in(ws, t), id);
                assert(old(self).deps(t) == deps_in(ws, t));
                assert(old(self).deps(t).no_duplicates());
                assert forall|x: u64| self.deps(t).contains(x) <==> waits_on(ts, x, t) by {
                    assert(old(self).deps(t).contains(x) <==> waits_on(old_tasks, x, t));
                    if waits_on(old_tasks, x, t) && x != id {
                        let k = choose|k: int| 0 <= k < old_tasks.len() && old_tasks[k].id == x && waits(old_tasks[k].spec.schedule, t);
                        assert(k != i);
                        let kk = if k < i { k } else { k - 1 };
                        assert(ts[kk] == old_tasks[k]);
                    }
                    if waits_on(ts, x, t) {
                        let k = choose|k: int| 0 <= k < ts.len() && ts[k].id == x && waits(ts[k].spec.schedule, t);
                        let ok = if k < i { k } else { k + 1 };
                        assert(ts[k] == old_tasks[ok]);
                        assert(waits_on(old_tasks, x, t));
                        assert(x != id);
                    }
                }
            }
        }
        true
    }

    /// Stores `result` as the latest result of task `id`, if it is still live.
    pub fn record_result(&mut self, id: u64, result: RunResult) -> (r: bool)
        requires
            old(self).wf(),
        ensures
            final(self).wf(),
            r == old(self).contains(id),
            !r ==> *final(self) == *old(self),
            r ==> exists|i: int|
                0 <= i < old(self).tasks@.len() && old(self).tasks@[i].id == id
                    && final(self).tasks@ == old(self).tasks@.update(
                    i,
                    TaskEntry {
                        id,
                        spec: old(self).tasks@[i].spec,
                        has_timer: old(self).tasks@[i].has_timer,
                        last_result: Some(result),
                    },
                ),
            final(self).watchers == old(self).watchers,
            final(self).next_id == old(self).next_id,
    {
        match self.find(id) {
            Some(i) => {
                self.tasks[i].last_result = Some(result);
                proof {
                    lemma_waits_same(old(self).tasks@, self.tasks@);
                    assert(forall|t: u64| self.deps(t) == old(self).deps(t));
                }
                true
            },
            None => false,
        }
    }

    /// Every live task with its spec and latest result, in the order they were entered.
    pub fn list_tasks(&self) -> (r: Vec<TaskInfo>)
        ensures
            r@.len() == self.tasks@.len(),
            forall|i: int|
                0 <= i < r@.len() ==> r@[i].id == self.tasks@[i].id && r@[i].spec@
                    == self.tasks@[i].spec@ && r@[i].last_result == self.tasks@[i].last_result,
    {
        let mut out: Vec<TaskInfo> = Vec::new();
        let mut i: usize = 0;
        while i < self.tasks.len()
            invariant
                i <= self.tasks@.len(),
                out@.len() == i,
                forall|a: int|
                    0 <= a < i ==> out@[a].id == self.tasks@[a].id && out@[a].spec@
                        == self.tasks@[a].spec@ && out@[a].last_result
                        == self.tasks@[a].last_result,
            decreases self.tasks@.len() - i,
        {
            let e = &self.tasks[i];
            out.push(TaskInfo { id: e.id, spec: e.spec.clone(), last_result: copy_result(&e.last_result) });
            i = i + 1;
        }
        out
    }

    /// The durable part of the state: each live task's id and spec, results left out.
    pub fn snapshot(&self) -> (r: Vec<PersistedTask>)
        ensures
            is_snapshot_of(r@, *self),
    {
        let mut out: Vec<PersistedTask> = Vec::new();
        let mut i: usize = 0;
        while i < self.tasks.len()
            invariant
                i <= self.tasks@.len(),
                out@.len() == i,
                forall|a: int|
                    0 <= a < i ==> out@[a].id == self.tasks@[a].id && out@[a].spec@
                        == self.tasks@[a].spec@,
            decreases self.tasks@.len() - i,
        {
            out.push(PersistedTask { id: self.tasks[i].id, spec: self.tasks[i].spec.clone() });
            i = i + 1;
        }
        out
    }

    /// Answers one client request: an add enters the task and names its id (or
    /// reports that the ids are used up), a remove says whether the id was live,
    /// a list gives every task with its latest result.
    pub fn apply_request(&mut self, req: ClientRequest) -> (r: ServerResponse)
        requires
            old(self).wf(),
        ensures
            final(self).wf(),
            final(self).next_id >= old(self).next_id,
            match req {
                ClientRequest::AddTask(spec) => if old(self).next_id == u64::MAX {
                    &&& r is Error
                    &&& *final(self) == *old(self)
                } else {
                    &&& r == (ServerResponse::Added { id: old(self).next_id })
                    &&& final(self).next_id == old(self).next_id + 1
                    &&& final(self).tasks@ == old(self).tasks@.push(fresh_entry(old(self).next_id, spec))
                    &&& forall|t: u64| final(self).deps(t) == deps_after_add(
                        old(self).deps(t), t, spec.schedule, old(self).next_id)
                },
                ClientRequest::RemoveTask { id } => {
                    &&& r == (ServerResponse::Removed { ok: old(self).contains(id) })
                    &&& !final(self).contains(id)
                    &&& !old(self).contains(id) ==> *final(self) == *old(self)
                    &&& old(self).contains(id) ==> exists|i: int|
                        0 <= i < old(self).tasks@.len() && old(self).tasks@[i].id == id
                            && final(self).tasks@ == old(self).tasks@.remove(i)
                    &&& old(self).contains(id) ==> forall|t: u64|
                        final(self).deps(t) == without(old(self).deps(t), id)
                },
                ClientRequest::ListTasks => {
                    &&& *final(self) == *old(self)
                    &&& r matches ServerResponse::Tasks(l) && l@.len() == old(self).tasks@.len()
                        && forall|i: int| 0 <= i < l@.len() ==> l@[i].id == old(self).tasks@[i].id
                            && l@[i].spec@ == old(self).tasks@[i].spec@
                            && l@[i].last_result == old(self).tasks@[i].last_result
                },
            },
    {
        match req {
            ClientRequest::AddTask(spec) => match self.add_task(spec) {
                Some(id) => ServerResponse::Added { id },
                None => ServerResponse::Error(String::from_str("task ids exhausted")),
            },
            ClientRequest::RemoveTask { id } => ServerResponse::Removed { ok: self.remove_task(id) },
            ClientRequest::ListTasks => ServerResponse::Tasks(self.list_tasks()),
        }
    }

    /// The live dependents waiting on `trigger`, each with its spec and delay, in
    /// the order they were registered.
    pub fn dependents_of(&self, trigger: u64) -> (r: Vec<ChainStep>)
        requires
            self.wf(),
        ensures
            steps_view(r@) == self.ready(trigger),
            forall|k: int| 0 <= k < r@.len() ==> spec_of(self.tasks@, r@[k].id, r@[k].spec),
    {
        let ghost ws = self.watchers@;
        let mut out: Vec<ChainStep> = Vec::new();
        let wi = self.find_watch(trigger);
        if wi.is_none() {
            proof {
                lemma_deps_absent(ws, trigger);
                assert(steps_view(out@) =~= self.ready(trigger));
            }
            return out;
        }
        let i = wi.unwrap();
        proof {
            lemma_deps_update(ws, i as int, ws[i as int], trigger);
            assert(ws.update(i as int, ws[i as int]) =~= ws);
        }
        let d = &self.watchers[i].dependents;
        let mut k: usize = 0;
        while k < d.len()
            invariant
                self.wf(),
                d@ == self.deps(trigger),
                k <= d@.len(),
                steps_view(out@) == ready_in(self.tasks@, d@.take(k as int), trigger),
                forall|a: int| 0 <= a < out@.len() ==> spec_of(self.tasks@, out@[a].id, out@[a].spec),
            decreases d@.len() - k,
        {
            let dk = d[k];
            assert(d@.take(k + 1).drop_last() =~= d@.take(k as int));
            assert(d@.take(k + 1).last() == dk);
            match self.find(dk) {
                Some(j) => {
                    proof {
                        lemma_schedule_at(self.tasks@, j as int);
                    }
                    match self.tasks[j].spec.schedule {
                        Schedule::After { task_id, delay_secs } => {
                            if task_id == trigger {
                                let ghost before = out@;
                                out.push(ChainStep { id: dk, spec: self.tasks[j].spec.clone(), delay_secs });
                                assert(steps_view(out@) =~= steps_view(before).push((dk, delay_secs)));
                            }
                        },
                        _ => {},
                    }
                },
                None => {
                    proof {
                        lemma_schedule_absent(self.tasks@, dk);
                    }
                },
            }
            k = k + 1;
        }
        assert(d@.take(k as int) =~= d@);
        out
    }

    /// Takes up a persisted task set: each task is entered afresh, with no result,
    /// a timer unless it is a dependent, and its dependency registered; the next
    /// id is one past the largest id seen. Two records with one id are refused.
    pub fn restore(records: &Vec<PersistedTask>) -> (r: Result<Scheduler, RestoreError>)
        ensures
            restored_from(r, records@),
    {
        let mut i: usize = 0;
        while i < records.len()
            invariant
                i <= records@.len(),
                forall|a: int, b: int| 0 <= a < b < i ==> records@[a].id != records@[b].id,
            decreases records@.len() - i,
        {
            let mut j: usize = 0;
            while j < i
                invariant
                    i < records@.len(),
                    j <= i,
                    forall|a: int| 0 <= a < j ==> records@[a].id != records@[i as int].id,
                decreases i - j,
            {
                if records[j].id == records[i].id {
                    return Err(RestoreError::DuplicateId(records[i].id));
                }
                j = j + 1;
            }
            i = i + 1;
        }
        let mut m: u64 = 0;
        let mut i: usize = 0;
        while i < records.len()
            invariant
                i <= records@.len(),
                m == max_id(records@.take(i as int)),
                forall|a: int| 0 <= a < i ==> records@[a].id <= m,
            decreases records@.len() - i,
        {
            assert(records@.take(i + 1).drop_last() =~= records@.take(i as int));
            if records[i].id > m {
                m = records[i].id;
            }
            i = i + 1;
        }
        assert(records@.take(i as int) =~= records@);
        let next = if m == u64::MAX { u64::MAX } else { m + 1 };
        let mut s = Scheduler { tasks: Vec::new(), watchers: Vec::new(), next_id: next };
        let mut i: usize = 0;
        while i < records.len()
            invariant
                i <= records@.len(),
                ids_unique(records@),
                forall|a: int| 0 <= a < records@.len() ==> records@[a].id <= m,
                next == if m == u64::MAX { u64::MAX } else { (m + 1) as u64 },
                s.wf(),
                s.next_id == next,
                s.tasks@.len() == i,
                forall|a: int| 0 <= a < i ==> restored_entry(s.tasks@[a], records@[a]),
                forall|t: u64| s.deps(t) == deps_of_records(records@.take(i as int), t),
            decreases records@.len() - i,
        {
            let rec = &records[i];
            assert(records@.take(i + 1).drop_last() =~= records@.take(i as int));
            let sp = rec.spec.clone();
            let ghost before = s;
            proof {
                if s.contains(rec.id) {
                    let a = choose|a: int| 0 <= a < s.tasks@.len() && s.tasks@[a].id == rec.id;
                    assert(restored_entry(s.tasks@[a], records@[a]));
                }
            }
            s.enter(rec.id, sp);
            proof {
                assert(sp.schedule == rec.spec.schedule);
                assert forall|t: u64| s.deps(t) == deps_of_records(records@.take(i + 1), t) by {
                    assert(s.deps(t) == deps_after_add(before.deps(t), t, sp.schedule, rec.id));
                }
                assert forall|a: int, b: int| 0 <= a < b < s.tasks@.len() implies
                    s.tasks@[a].id != s.tasks@[b].id by {
                    assert(s.tasks@[a].id == records@[a].id);
                    assert(s.tasks@[b].id == records@[b].id);
                }
                assert forall|a: int| 0 <= a < i + 1 implies restored_entry(s.tasks@[a], records@[a]) by {
                    if a < i {
                        assert(s.tasks@[a] == before.tasks@[a]);
                    }
                }
            }
            i = i + 1;
        }
        assert(records@.take(i as int) =~= records@);
        Ok(s)
    }
}

proof fn lemma_without_facts(s: Seq<u64>, x: u64)
    ensures
        forall|y: u64| without(s, x).contains(y) <==> s.contains(y) && y != x,
        s.no_duplicates() ==> without(s, x).no_duplicates(),
    decreases s.len(),
{
    if s.len() > 0 {
        let p = s.drop_last();
        lemma_without_facts(p, x);
        let w = without(p, x);
        assert forall|y: u64| without(s, x).contains(y) <==> s.contains(y) && y != x by {
            let ws = without(s, x);
            assert(ws == if s.last() == x { w } else { w.push(s.last()) });
            if s.contains(y) && y != x {
                let k = choose|k: int| 0 <= k < s.len() && s[k] == y;
                if k < p.len() {
                    assert(p[k] == y);
                    assert(p.contains(y));
                    assert(w.contains(y));
                    let j = choose|j: int| 0 <= j < w.len() && w[j] == y;
                    assert(ws[j] == y);
                } else {
                    assert(s.last() == y);
                    assert(ws[w.len() as int] == y);
                }
            }
            if ws.contains(y) {
                let k = choose|k: int| 0 <= k < ws.len() && ws[k] == y;
                if k < w.len() {
                    assert(w[k] == y);
                    assert(w.contains(y));
                    assert(p.contains(y));
                    let j = choose|j: int| 0 <= j < p.len() && p[j] == y;
                    assert(s[j] == y);
                } else {
                    assert(s[s.len() - 1] == y);
                }
            }
        }
        if s.no_duplicates() {
            assert(p.no_duplicates()) by {
                assert forall|a: int, b: int| 0 <= a < b < p.len() implies p[a] != p[b] by {
                    assert(s[a] == p[a] && s[b] == p[b]);
                }
            }
            if s.last() != x {
                assert(!p.contains(s.last())) by {
                    if p.contains(s.last()) {
                        let j = choose|j: int| 0 <= j < p.len() && p[j] == s.last();
                        assert(s[j] == s[s.len() - 1]);
                    }
                }
                assert(!w.contains(s.last()));
                let v = w.push(s.last());
                assert forall|a: int, b: int| 0 <= a < b < v.len() implies v[a] != v[b] by {
                    if b == w.len() {
                        assert(v[a] == w[a]);
                    } else {
                        assert(v[a] == w[a] && v[b] == w[b]);
                    }
                }
            }
        }
    }
}

proof fn lemma_waits_same(ts1: Seq<TaskEntry>, ts2: Seq<TaskEntry>)
    requires
        ts1.len() == ts2.len(),
        forall|i: int| 0 <= i < ts1.len() ==> ts1[i].id == ts2[i].id && ts1[i].spec.schedule
            == ts2[i].spec.schedule,
    ensures
        forall|x: u64, t: u64| waits_on(ts1, x, t) == waits_on(ts2, x, t),
{
    assert forall|x: u64, t: u64| waits_on(ts1, x, t) == waits_on(ts2, x, t) by {
        if waits_on(ts1, x, t) {
            let i = choose|i: int| 0 <= i < ts1.len() && ts1[i].id == x && waits(ts1[i].spec.schedule, t);
            assert(ts2[i].id == x && waits(ts2[i].spec.schedule, t));
        }
        if waits_on(ts2, x, t) {
            let i = choose|i: int| 0 <= i < ts2.len() && ts2[i].id == x && waits(ts2[i].spec.schedule, t);
            assert(ts1[i].id == x && waits(ts1[i].spec.schedule, t));
        }
    }
}

proof fn lemma_without_excludes(s: Seq<u64>, x: u64)
    ensures
        !without(s, x).contains(x),
    decreases s.len(),
{
    if s.len() > 0 {
        lemma_without_excludes(s.drop_last(), x);
        let w = without(s.drop_last(), x);
        if s.last() != x {
            assert forall|k: int| 0 <= k < w.push(s.last()).len() implies w.push(s.last())[k] != x by {
                if k < w.len() {
                    assert(w.push(s.last())[k] == w[k]);
                }
            }
        }
    }
}

proof fn lemma_ready_live(ts: Seq<TaskEntry>, ds: Seq<u64>, t: u64, id: u64)
    requires
        forall|a: int| 0 <= a < ts.len() ==> ts[a].id != id,
    ensures
        forall|k: int| 0 <= k < ready_in(ts, ds, t).len() ==> ready_in(ts, ds, t)[k].0 != id,
    decreases ds.len(),
{
    if ds.len() > 0 {
        lemma_ready_live(ts, ds.drop_last(), t, id);
        lemma_schedule_absent(ts, id);
        let rest = ready_in(ts, ds.drop_last(), t);
        let all = ready_in(ts, ds, t);
        assert forall|k: int| 0 <= k < all.len() implies all[k].0 != id by {
            if k < rest.len() {
                if all.len() > rest.len() {
                    assert(all[k] == rest.push(all.last())[k]);
                }
            } else if ds.last() == id {
                assert(schedule_in(ts, ds.last()) is None);
            }
        }
    }
}

/// Once task `id` is gone, no dependent list holds it and no chain walk can
/// queue it: it never runs again through its trigger.
pub proof fn lemma_removed_never_runs(s: Scheduler, id: u64, t: u64)
    requires
        s.wf(),
        !s.contains(id),
    ensures
        forall|k: int| 0 <= k < s.ready(t).len() ==> s.ready(t)[k].0 != id,
{
    lemma_ready_live(s.tasks@, s.deps(t), t, id);
}

/// Every live id is below the counter, so the id that the next add hands out
/// has never been used; the counter only grows, so later ids are larger still.
pub proof fn lemma_issued_id_is_fresh(s: Scheduler)
    requires
        s.wf(),
        s.next_id < u64::MAX,
    ensures
        forall|i: int| 0 <= i < s.tasks@.len() ==> s.tasks@[i].id < s.next_id,
        !s.contains(s.next_id),
{
}

/// Taking up a snapshot gives back the same tasks, id for id and spec for spec,
/// in the same order, all without a result; the counter lies past every id.
pub proof fn lemma_snapshot_round_trip(
    s: Scheduler,
    recs: Seq<PersistedTask>,
    back: Result<Scheduler, RestoreError>,
)
    requires
        s.wf(),
        is_snapshot_of(recs, s),
        restored_from(back, recs),
    ensures
        back matches Ok(b) && {
            &&& b.tasks@.len() == s.tasks@.len()
            &&& forall|i: int| 0 <= i < b.tasks@.len() ==> b.tasks@[i].id == s.tasks@[i].id
                && b.tasks@[i].spec@ == s.tasks@[i].spec@ && b.tasks@[i].last_result is None
            &&& forall|i: int| 0 <= i < b.tasks@.len() ==> b.tasks@[i].id < b.next_id || b.next_id == u64::MAX
        },
{
    assert(ids_unique(recs)) by {
        assert forall|i: int, j: int| 0 <= i < j < recs.len() implies recs[i].id != recs[j].id by {
            assert(recs[i].id == s.tasks@[i].id);
            assert(recs[j].id == s.tasks@[j].id);
        }
    }
    if let Ok(b) = back {
        assert forall|i: int| 0 <= i < b.tasks@.len() implies b.tasks@[i].id == s.tasks@[i].id
            && b.tasks@[i].spec@ == s.tasks@[i].spec@ && b.tasks@[i].last_result is None by {
            assert(restored_entry(b.tasks@[i], recs[i]));
        }
    }
}

/// Under a well-formed scheduler, when `x` is the only live task waiting on `t`,
/// the walk queue after `t` holds exactly one step, for `x`.
pub proof fn lemma_ready_single(s: Scheduler, t: u64, x: u64)
    requires
        s.wf(),
        forall|y: u64| #[trigger] waits_on(s.tasks@, y, t) <==> y == x,
    ensures
        s.ready(t).len() == 1,
        s.ready(t)[0].0 == x,
{
    let d = s.deps(t);
    assert(d.no_duplicates());
    assert(d.contains(x) <==> waits_on(s.tasks@, x, t));
    assert(d.contains(x));
    if d.len() >= 2 {
        assert(d.contains(d[0]) && d.contains(d[1]));
        assert(waits_on(s.tasks@, d[0], t) && waits_on(s.tasks@, d[1], t));
    }
    assert(d.len() == 1);
    assert(d.contains(d[0]));
    assert(waits_on(s.tasks@, d[0], t));
    let i = choose|i: int| 0 <= i < s.tasks@.len() && s.tasks@[i].id == x && waits(s.tasks@[i].spec.schedule, t);
    lemma_schedule_at(s.tasks@, i);
    assert(d.drop_last() =~= Seq::<u64>::empty());
    assert(ready_in(s.tasks@, d.drop_last(), t) == Seq::<(u64, u64)>::empty());
    assert(d.last() == x);
    match s.tasks@[i].spec.schedule {
        Schedule::After { task_id, delay_secs } => {
            assert(task_id == t);
            assert(s.ready(t) == Seq::<(u64, u64)>::empty().push((x, delay_secs)));
        },
        _ => {},
    }
}

/// Under a well-formed scheduler, when no live task waits on `t`, the walk
/// queue after `t` is empty.
pub proof fn lemma_ready_none(s: Scheduler, t: u64)
    requires
        s.wf(),
        forall|y: u64| !#[trigger] waits_on(s.tasks@, y, t),
    ensures
        s.ready(t).len() == 0,
{
    let d = s.deps(t);
    if d.len() > 0 {
        assert(d.contains(d[0]) <==> waits_on(s.tasks@, d[0], t));
        assert(d.contains(d[0]));
    }
}

proof fn lemma_ready_in_waits(ts: Seq<TaskEntry>, ds: Seq<u64>, t: u64)
    ensures
        forall|k: int| 0 <= k < ready_in(ts, ds, t).len() ==> waits_on(ts, #[trigger] ready_in(ts, ds, t)[k].0, t),
    decreases ds.len(),
{
    if ds.len() > 0 {
        lemma_ready_in_waits(ts, ds.drop_last(), t);
        let rest = ready_in(ts, ds.drop_last(), t);
        let all = ready_in(ts, ds, t);
        assert forall|k: int| 0 <= k < all.len() implies waits_on(ts, #[trigger] all[k].0, t) by {
            if k < rest.len() {
                if all.len() > rest.len() {
                    assert(all[k] == rest.push(all.last())[k]);
                }
            } else {
                lemma_schedule_some(ts, ds.last());
            }
        }
    }
}

proof fn lemma_schedule_some(ts: Seq<TaskEntry>, id: u64)
    ensures
        schedule_in(ts, id) matches Some(sc) ==> exists|i: int|
            0 <= i < ts.len() && ts[i].id == id && ts[i].spec.schedule == sc,
    decreases ts.len(),
{
    if ts.len() > 0 {
        lemma_schedule_some(ts.drop_last(), id);
        if ts.last().id != id {
            if let Some(sc) = schedule_in(ts, id) {
                let i = choose|i: int| 0 <= i < ts.len() - 1 && ts.drop_last()[i].id == id
                    && ts.drop_last()[i].spec.schedule == sc;
                assert(ts[i] == ts.drop_last()[i]);
            }
        } else {
            assert(ts[ts.len() - 1].id == id);
        }
    }
}

/// A walk only ever queues live tasks that wait on the task just finished, so a
/// dependent whose trigger never runs is never queued.
pub proof fn lemma_ready_only_waiting(s: Scheduler, t: u64)
    ensures
        forall|k: int| 0 <= k < s.ready(t).len() ==> waits_on(s.tasks@, #[trigger] s.ready(t)[k].0, t),
{
    lemma_ready_in_waits(s.tasks@, s.deps(t), t);
}

} // verus!
