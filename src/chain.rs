use vstd::prelude::*;
use crate::store::{lemma_ready_none, lemma_ready_single, steps_view, spec_of, waits_on, ChainStep, Scheduler};

verus! {

/// One propagation after a task finished: a first-in first-out queue of the
/// dependents still to run. The caller takes a step, waits its delay, runs it,
/// and reports it done, which queues that step's own dependents; no recursion.
#[derive(Debug)]
pub struct ChainWalk {
    pub queue: Vec<ChainStep>,
}

/// The ids run, in order, by a walk over `s` that starts from queue `q`, for at
/// most `fuel` steps.
pub open spec fn walk_order(s: Scheduler, q: Seq<(u64, u64)>, fuel: nat) -> Seq<u64>
    decreases fuel,
{
    if fuel == 0 || q.len() == 0 {
        seq![]
    } else {
        seq![q[0].0] + walk_order(s, q.drop_first() + s.ready(q[0].0), (fuel - 1) as nat)
    }
}

impl ChainWalk {
    /// The ids and delays still queued.
    pub open spec fn pending(self) -> Seq<(u64, u64)> {
        steps_view(self.queue@)
    }

    /// The walk that follows the completion of task `finished`: its live dependents, queued.
    pub fn start(s: &Scheduler, finished: u64) -> (r: ChainWalk)
        requires
            s.wf(),
        ensures
            r.pending() == s.ready(finished),
            forall|k: int| 0 <= k < r.queue@.len() ==> spec_of(s.tasks@, r.queue@[k].id, r.queue@[k].spec),
    {
        ChainWalk { queue: s.dependents_of(finished) }
    }

    /// Takes the step at the front of the queue, if any.
    pub fn next_step(&mut self) -> (r: Option<ChainStep>)
        ensures
            old(self).pending().len() == 0 ==> r is None && final(self).pending() == old(self).pending(),
            old(self).pending().len() > 0 ==> {
                &&& r matches Some(st)
                &&& (st.id, st.delay_secs) == old(self).pending()[0]
                &&& st == old(self).queue@[0]
                &&& final(self).pending() == old(self).pending().drop_first()
                &&& final(self).queue@ == old(self).queue@.drop_first()
            },
    {
        if self.queue.len() == 0 {
            return None;
        }
        let st = self.queue.remove(0);
        assert(self.pending() =~= old(self).pending().drop_first());
        assert(self.queue@ =~= old(self).queue@.drop_first());
        Some(st)
    }

    /// Records that step `id` has run, whatever its outcome: its own live
    /// dependents join the back of the queue.
    pub fn step_done(&mut self, s: &Scheduler, id: u64)
        requires
            s.wf(),
        ensures
            final(self).pending() == old(self).pending() + s.ready(id),
    {
        let mut more = s.dependents_of(id);
        let ghost before = self.queue@;
        let ghost added = more@;
        self.queue.append(&mut more);
        assert(self.queue@ == before + added);
        assert(self.pending() =~= old(self).pending() + s.ready(id));
    }
}

proof fn lemma_chain_tail(s: Scheduler, c: Seq<u64>, k: int, d: u64, fuel: nat)
    requires
        1 <= k < c.len(),
        forall|i: int| 0 <= i < c.len() - 1 ==> #[trigger] s.ready(c[i]).len() == 1 && s.ready(c[i])[0].0 == c[i + 1],
        s.ready(c.last()).len() == 0,
        fuel >= c.len() - k,
    ensures
        walk_order(s, seq![(c[k], d)], fuel) == c.subrange(k, c.len() as int),
    decreases c.len() - k,
{
    let q = seq![(c[k], d)];
    let next = q.drop_first() + s.ready(c[k]);
    assert(q.drop_first() =~= Seq::<(u64, u64)>::empty());
    if k < c.len() - 1 {
        assert(s.ready(c[k]).len() == 1);
        let r = s.ready(c[k]);
        assert(next =~= seq![(c[k + 1], r[0].1)]);
        lemma_chain_tail(s, c, k + 1, r[0].1, (fuel - 1) as nat);
        assert(c.subrange(k, c.len() as int) =~= seq![c[k]] + c.subrange(k + 1, c.len() as int));
    } else {
        assert(next =~= Seq::<(u64, u64)>::empty());
        assert(walk_order(s, next, (fuel - 1) as nat) =~= Seq::<u64>::empty());
        assert(c.subrange(k, c.len() as int) =~= seq![c[k]]);
    }
}

/// Along a chain in which each task has exactly one live dependent, the next link,
/// and the last has none, the walk started when the first finishes runs every later
/// link exactly once, in chain order, whatever the chain's length.
pub proof fn lemma_chain_runs_in_order(s: Scheduler, c: Seq<u64>, extra: nat)
    requires
        c.len() >= 1,
        forall|i: int| 0 <= i < c.len() - 1 ==> #[trigger] s.ready(c[i]).len() == 1 && s.ready(c[i])[0].0 == c[i + 1],
        s.ready(c.last()).len() == 0,
    ensures
        walk_order(s, s.ready(c[0]), (c.len() - 1 + extra) as nat) == c.drop_first(),
{
    if c.len() == 1 {
        assert(s.ready(c[0]).len() == 0);
        assert(c.drop_first() =~= Seq::<u64>::empty());
    } else {
        let r = s.ready(c[0]);
        assert(r.len() == 1);
        assert(r =~= seq![(c[1], r[0].1)]);
        lemma_chain_tail(s, c, 1, r[0].1, (c.len() - 1 + extra) as nat);
        assert(c.subrange(1, c.len() as int) =~= c.drop_first());
    }
}

/// In a chain of tasks where link `i + 1` is the only live task waiting on link
/// `i`, and none waits on the last, the walk started when the first link
/// finishes runs every later link exactly once, in chain order, whatever the
/// chain's length.
pub proof fn lemma_chain_from_schedules(s: Scheduler, c: Seq<u64>, extra: nat)
    requires
        s.wf(),
        c.len() >= 1,
        forall|i: int, y: u64| 0 <= i < c.len() - 1 ==> (#[trigger] waits_on(s.tasks@, y, c[i]) <==> y == c[i + 1]),
        forall|y: u64| !waits_on(s.tasks@, y, c.last()),
    ensures
        walk_order(s, s.ready(c[0]), (c.len() - 1 + extra) as nat) == c.drop_first(),
{
    assert forall|i: int| 0 <= i < c.len() - 1 implies #[trigger] s.ready(c[i]).len() == 1 && s.ready(c[i])[0].0
        == c[i + 1] by {
        assert(forall|y: u64| #[trigger] waits_on(s.tasks@, y, c[i]) <==> y == c[i + 1]);
        lemma_ready_single(s, c[i], c[i + 1]);
    }
    lemma_ready_none(s, c.last());
    lemma_chain_runs_in_order(s, c, extra);
}

} // verus!
