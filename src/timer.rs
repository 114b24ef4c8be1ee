use vstd::prelude::*;
use crate::time::{NANOS_PER_SEC, duration_to, local_now, next_daily_at, next_daily_spec, wait_secs, Timestamp};
use crate::types::Schedule;

verus! {

impl Schedule {
    /// A one-off instant lies within the range a timestamp can take.
    pub open spec fn wf(self) -> bool {
        self matches Schedule::Once(t) ==> t.wf()
    }
}

/// When a task's own timer next fires, seen from `now`.
pub open spec fn next_fire_spec(schedule: Schedule, now: Timestamp) -> Option<Timestamp> {
    match schedule {
        Schedule::Once(t) => Some(t),
        Schedule::Daily { hour, minute } =>
            if hour <= 23 && minute <= 59 { Some(next_daily_spec(hour, minute, now)) } else { None },
        Schedule::After { .. } => None,
    }
}

/// When a task's own timer next fires, seen from `now`: a one-off at its instant,
/// a daily task at its next local `hour:minute`. A dependent has no timer, and a
/// daily time outside the clock's range never comes.
pub fn next_fire(schedule: Schedule, now: Timestamp) -> (r: Option<Timestamp>)
    requires
        now.wf(),
        now.nanos < NANOS_PER_SEC,
    ensures
        r == next_fire_spec(schedule, now),
{
    match schedule {
        Schedule::Once(t) => Some(t),
        Schedule::Daily { hour, minute } => {
            if hour <= 23 && minute <= 59 {
                Some(next_daily_at(hour, minute, now))
            } else {
                None
            }
        },
        Schedule::After { .. } => None,
    }
}

/// Seconds a task's timer sleeps, seen from `now`, before it fires; `None` where
/// it never fires. A one-off already past fires at once.
pub fn timer_wait(schedule: Schedule, now: Timestamp) -> (r: Option<u64>)
    requires
        schedule.wf(),
        now.wf(),
        now.nanos < NANOS_PER_SEC,
    ensures
        r == match next_fire_spec(schedule, now) {
            Some(t) => Some(wait_secs(t, now) as u64),
            None => None,
        },
        schedule matches Schedule::Once(t) && t.instant() <= now.instant() ==> r == Some(0u64),
{
    match next_fire(schedule, now) {
        Some(t) => {
            Some(duration_to(t, now))
        },
        None => None,
    }
}

/// Seconds a task's timer sleeps from the present moment before it fires;
/// `None` where it never fires. A one-off always gets a wait.
pub fn timer_wait_now(schedule: Schedule) -> (r: Option<u64>)
    requires
        schedule.wf(),
    ensures
        schedule is Once ==> r is Some,
        schedule is After ==> r is None,
        exists|n: Timestamp|
            n.wf() && n.nanos < NANOS_PER_SEC && r == match next_fire_spec(schedule, n) {
                Some(t) => Some(wait_secs(t, n) as u64),
                None => None,
            },
{
    let now = local_now();
    let r = timer_wait(schedule, now);
    assert(now.wf() && now.nanos < NANOS_PER_SEC && r == match next_fire_spec(schedule, now) {
        Some(t) => Some(wait_secs(t, now) as u64),
        None => None,
    });
    r
}

/// Whether a timer goes back to sleep after it fired: a daily task's does, a
/// one-off's ends.
pub fn fires_again(schedule: Schedule) -> (r: bool)
    ensures
        r == schedule is Daily,
{
    match schedule {
        Schedule::Daily { .. } => true,
        _ => false,
    }
}

} // verus!
