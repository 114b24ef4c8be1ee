use vstd::prelude::*;
use vstd::arithmetic::div_mod::{lemma_fundamental_div_mod, lemma_mod_multiples_vanish};

verus! {

/// Seconds in one day.
pub const SECS_PER_DAY: i64 = 86400;

/// Nanoseconds in one second.
pub const NANOS_PER_SEC: i64 = 1_000_000_000;

/// Largest magnitude of `Timestamp::secs`; every instant chrono can hold lies within it.
pub const MAX_ABS_SECS: i64 = 10_000_000_000_000;

/// A multiple of a day larger than `MAX_ABS_SECS` plus one day, used to take
/// a non-negative remainder of a possibly negative local second count.
const DAY_SHIFT: i64 = 86400 * 200_000_000;

/// An instant with the UTC offset it was written in: the value of a
/// timezone-aware timestamp.
#[derive(Clone, Copy, Debug, PartialEq, Eq, Structural)]
pub struct Timestamp {
    /// Whole seconds since the Unix epoch (UTC).
    pub secs: i64,
    /// Nanoseconds past `secs`; a leap second may carry it past one second.
    pub nanos: u32,
    /// Offset of the local wall clock from UTC, in seconds east.
    pub offset_secs: i32,
}

impl Timestamp {
    pub open spec fn wf(self) -> bool {
        &&& -MAX_ABS_SECS <= self.secs <= MAX_ABS_SECS
        &&& self.nanos < 2 * NANOS_PER_SEC
        &&& -SECS_PER_DAY < self.offset_secs < SECS_PER_DAY
    }

    /// The instant in nanoseconds since the epoch.
    pub open spec fn instant(self) -> int {
        self.secs * NANOS_PER_SEC + self.nanos
    }

    /// Seconds since the epoch on the local wall clock.
    pub open spec fn local_secs(self) -> int {
        self.secs + self.offset_secs
    }

    /// Seconds since local midnight.
    pub open spec fn time_of_day(self) -> int {
        self.local_secs() % (SECS_PER_DAY as int)
    }
}

/// Whole seconds to wait from `now` until `at`, rounded up so that the wait
/// never ends before `at`; zero when `at` is not later.
pub open spec fn wait_secs(at: Timestamp, now: Timestamp) -> int {
    let d = at.instant() - now.instant();
    if d <= 0 { 0 } else { (d + NANOS_PER_SEC - 1) / (NANOS_PER_SEC as int) }
}

/// Whole seconds to wait from `now` until `at`: the least whole number of
/// seconds that reaches `at`, and none for an instant already past.
pub fn duration_to(at: Timestamp, now: Timestamp) -> (r: u64)
    requires
        -2 * MAX_ABS_SECS <= at.secs <= 2 * MAX_ABS_SECS,
        at.nanos < 2 * NANOS_PER_SEC,
        now.wf(),
    ensures
        r == wait_secs(at, now),
        at.instant() <= now.instant() ==> r == 0,
        now.instant() + r * NANOS_PER_SEC >= at.instant(),
        at.instant() > now.instant() ==> r * NANOS_PER_SEC < at.instant() - now.instant()
            + NANOS_PER_SEC,
{
    let diff: i128 = at.secs as i128 - now.secs as i128;
    assert(-1_000_000_000_000_000_000_000_000 <= diff * 1_000_000_000 <= 1_000_000_000_000_000_000_000_000)
        by (nonlinear_arith)
        requires -30_000_000_000_000 <= diff <= 30_000_000_000_000,
    {}
    let total: i128 = diff * (NANOS_PER_SEC as i128) + (at.nanos as i128 - now.nanos as i128);
    assert(total == at.instant() - now.instant());
    if total <= 0 {
        0
    } else {
        let q: i128 = (total + (NANOS_PER_SEC as i128) - 1) / (NANOS_PER_SEC as i128);
        assert(q <= 40_000_000_000_001 && q * 1_000_000_000 >= total && q * 1_000_000_000
            < total + 1_000_000_000) by (nonlinear_arith)
            requires q == (total + 999_999_999) / 1_000_000_000, 0 < total <= 40_000_000_000_000_000_000_000,
        {}
        q as u64
    }
}

/// Local seconds of `hour:minute` on the local day of `now`, expressed as a UTC second count.
pub open spec fn daily_candidate(hour: u32, minute: u32, now: Timestamp) -> int {
    now.local_secs() - now.time_of_day() + hour * 3600 + minute * 60 - now.offset_secs
}

/// The next instant at `hour:minute` on the local clock of `now` that is strictly
/// after `now`: today if that time is still ahead, else tomorrow.
pub open spec fn next_daily_spec(hour: u32, minute: u32, now: Timestamp) -> Timestamp {
    let c = daily_candidate(hour, minute, now);
    Timestamp {
        secs: (if c > now.secs { c } else { c + SECS_PER_DAY }) as i64,
        nanos: 0,
        offset_secs: now.offset_secs,
    }
}

/// Next firing of a daily schedule at `hour:minute` local time, seen from `now`.
pub fn next_daily_at(hour: u32, minute: u32, now: Timestamp) -> (r: Timestamp)
    requires
        hour <= 23,
        minute <= 59,
        now.wf(),
        now.nanos < NANOS_PER_SEC,
    ensures
        r == next_daily_spec(hour, minute, now),
        r.nanos == 0,
        r.instant() > now.instant(),
        r.offset_secs == now.offset_secs,
        now.time_of_day() < hour * 3600 + minute * 60 ==>
            r.secs == now.secs + (hour * 3600 + minute * 60 - now.time_of_day()),
        now.time_of_day() >= hour * 3600 + minute * 60 ==>
            r.secs == now.secs + (hour * 3600 + minute * 60 - now.time_of_day()) + SECS_PER_DAY,
{
    let local: i64 = now.secs + now.offset_secs as i64;
    let shifted: u64 = (local + DAY_SHIFT) as u64;
    let tod: i64 = (shifted % 86400) as i64;
    proof {
        lemma_mod_multiples_vanish(200_000_000, local as int, 86400);
        assert(tod == now.time_of_day());
        lemma_fundamental_div_mod(local as int, 86400);
    }
    let today: i64 = local - tod + (hour as i64) * 3600 + (minute as i64) * 60 - now.offset_secs as i64;
    let secs: i64 = if today > now.secs { today } else { today + SECS_PER_DAY };
    assert(secs * NANOS_PER_SEC > now.instant()) by (nonlinear_arith)
        requires
            secs > now.secs,
            now.instant() == now.secs * 1_000_000_000 + now.nanos,
            0 <= now.nanos < 1_000_000_000,
    {}
    Timestamp { secs, nanos: 0, offset_secs: now.offset_secs }
}

/// Once a daily task has fired at its instant, the next firing computed at any
/// moment of the following day on the same clock (outside a leap second) is
/// exactly one day later, to the nanosecond.
pub proof fn lemma_daily_period(hour: u32, minute: u32, prev: Timestamp, now: Timestamp)
    requires
        hour <= 23,
        minute <= 59,
        prev.wf(),
        now.wf(),
        now.nanos < NANOS_PER_SEC,
        now.offset_secs == prev.offset_secs,
        next_daily_spec(hour, minute, prev).instant() <= now.instant(),
        now.instant() < next_daily_spec(hour, minute, prev).instant() + SECS_PER_DAY * NANOS_PER_SEC,
    ensures
        next_daily_spec(hour, minute, now).instant() == next_daily_spec(hour, minute, prev).instant()
            + SECS_PER_DAY * NANOS_PER_SEC,
{
    let fs = next_daily_spec(hour, minute, prev).secs as int;
    assert(fs <= now.secs < fs + SECS_PER_DAY) by (nonlinear_arith)
        requires
            fs * 1_000_000_000 <= now.secs * 1_000_000_000 + now.nanos,
            now.secs * 1_000_000_000 + now.nanos < (fs + 86400) * 1_000_000_000,
            0 <= now.nanos < 1_000_000_000,
    {}
    lemma_daily_period_secs(hour, minute, prev, now);
}

proof fn lemma_daily_period_secs(hour: u32, minute: u32, prev: Timestamp, now: Timestamp)
    requires
        hour <= 23,
        minute <= 59,
        prev.wf(),
        now.wf(),
        now.offset_secs == prev.offset_secs,
        next_daily_spec(hour, minute, prev).secs <= now.secs,
        now.secs < next_daily_spec(hour, minute, prev).secs + SECS_PER_DAY,
    ensures
        next_daily_spec(hour, minute, now).secs == next_daily_spec(hour, minute, prev).secs
            + SECS_PER_DAY,
{
    let f = next_daily_spec(hour, minute, prev).secs as int;
    let target = hour * 3600 + minute * 60;
    let o = prev.offset_secs as int;
    // the firing instant is local midnight of some day plus `target`
    lemma_fundamental_div_mod(prev.local_secs(), 86400);
    lemma_fundamental_div_mod(now.local_secs(), 86400);
    let dp = prev.local_secs() / 86400;
    let k = if daily_candidate(hour, minute, prev) > prev.secs { dp } else { dp + 1 };
    assert(f + o == k * 86400 + target);
    let dn = now.local_secs() / 86400;
    // now lies in [f, f + day), so its local day is k (time >= target) or k + 1 (time < target)
    assert(dn == k || dn == k + 1) by (nonlinear_arith)
        requires
            now.local_secs() == dn * 86400 + now.local_secs() % 86400,
            0 <= now.local_secs() % 86400 < 86400,
            k * 86400 + target <= now.local_secs() < k * 86400 + target + 86400,
            0 <= target < 86400,
    {}
}

/// What chrono reads from an RFC 3339 text: the instant and its offset, or
/// `None` where the text is not RFC 3339.
pub uninterp spec fn rfc3339_of(s: Seq<char>) -> Option<Timestamp>;

impl Timestamp {
    /// Whether the timestamp lies within the ranges chrono can produce.
    pub fn in_range(&self) -> (r: bool)
        ensures
            r == self.wf(),
    {
        -MAX_ABS_SECS <= self.secs && self.secs <= MAX_ABS_SECS && (self.nanos as i64) < 2
            * NANOS_PER_SEC && -SECS_PER_DAY < self.offset_secs as i64 && (self.offset_secs as i64)
            < SECS_PER_DAY
    }
}

/// Relies on chrono's `DateTime::parse_from_rfc3339`, which depends on the text
/// alone, and on chrono's documented ranges: years within about 262,000 of the
/// epoch, offsets under a day, sub-second nanoseconds under two seconds.
#[verifier::external_body]
pub(crate) fn parse_rfc3339(s: &str) -> (r: Option<Timestamp>)
    ensures
        r == rfc3339_of(s@),
        r matches Some(t) ==> t.wf(),
{
    match chrono::DateTime::parse_from_rfc3339(s) {
        Ok(d) => Some(Timestamp {
            secs: d.timestamp(),
            nanos: d.timestamp_subsec_nanos(),
            offset_secs: d.offset().local_minus_utc(),
        }),
        Err(_) => None,
    }
}

/// Relies on chrono's `Local::now`: the present instant with the local UTC
/// offset, which lies within chrono's documented ranges; it is built from
/// `Duration::subsec_nanos`, so its nanoseconds stay under one second.
#[verifier::external_body]
pub(crate) fn local_now() -> (r: Timestamp)
    ensures
        r.wf(),
        r.nanos < NANOS_PER_SEC,
{
    let n = chrono::Local::now();
    Timestamp {
        secs: n.timestamp(),
        nanos: n.timestamp_subsec_nanos(),
        offset_secs: n.offset().local_minus_utc(),
    }
}

} // verus!
