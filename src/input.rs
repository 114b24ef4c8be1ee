use vstd::prelude::*;
use vstd::string::StrSliceExecFns;
use crate::time::{parse_rfc3339, rfc3339_of, Timestamp};
use crate::types::Schedule;

verus! {

/// Why a schedule given on the command line is refused.
#[derive(Debug, Clone, Copy, PartialEq, Eq, Structural)]
pub enum ScheduleError {
    /// None of once, daily and after was given.
    Missing,
    /// More than one of once, daily and after was given.
    Conflicting,
    /// The once time is not RFC 3339.
    BadTimestamp,
    /// The daily time is not two parts around one colon.
    BadDailyFormat,
    /// The hour is not a number.
    BadHour,
    /// The minute is not a number.
    BadMinute,
    /// The hour is over 23 or the minute over 59.
    OutOfRange { hour: u32, minute: u32 },
}

pub open spec fn is_digit(c: char) -> bool {
    '0' <= c <= '9'
}

pub open spec fn all_digits(d: Seq<char>) -> bool {
    forall|i: int| 0 <= i < d.len() ==> is_digit(#[trigger] d[i])
}

/// The number the decimal digits `d` spell.
pub open spec fn digits_value(d: Seq<char>) -> int
    decreases d.len(),
{
    if d.len() == 0 {
        0
    } else {
        digits_value(d.drop_last()) * 10 + (d.last() as int - '0' as int)
    }
}

/// An unsigned 32-bit number in decimal: an optional `+`, then one or more
/// digits whose value fits.
pub open spec fn decimal_u32(s: Seq<char>) -> Option<u32> {
    let d = if s.len() > 0 && s[0] == '+' { s.drop_first() } else { s };
    if d.len() > 0 && all_digits(d) && digits_value(d) <= u32::MAX {
        Some(digits_value(d) as u32)
    } else {
        None
    }
}

pub open spec fn colon_count(s: Seq<char>) -> nat
    decreases s.len(),
{
    if s.len() == 0 {
        0
    } else {
        colon_count(s.drop_last()) + if s.last() == ':' { 1nat } else { 0nat }
    }
}

/// Index of the last colon of `s`, or -1.
pub open spec fn last_colon(s: Seq<char>) -> int
    decreases s.len(),
{
    if s.len() == 0 {
        -1
    } else if s.last() == ':' {
        s.len() - 1
    } else {
        last_colon(s.drop_last())
    }
}

/// A daily time `HH:MM`: exactly one colon, a number on each side, hour at most
/// 23, minute at most 59.
pub open spec fn daily_time(s: Seq<char>) -> Result<(u32, u32), ScheduleError> {
    if colon_count(s) != 1 {
        Err(ScheduleError::BadDailyFormat)
    } else {
        let k = last_colon(s);
        match decimal_u32(s.take(k)) {
            None => Err(ScheduleError::BadHour),
            Some(h) => match decimal_u32(s.skip(k + 1)) {
                None => Err(ScheduleError::BadMinute),
                Some(m) => if h > 23 || m > 59 {
                    Err(ScheduleError::OutOfRange { hour: h, minute: m })
                } else {
                    Ok((h, m))
                },
            },
        }
    }
}

/// The schedule chosen from the three options, with the once time already read.
pub open spec fn schedule_choice(
    once: Option<Option<Timestamp>>,
    daily: Option<Seq<char>>,
    after: Option<u64>,
    delay: u64,
) -> Result<Schedule, ScheduleError> {
    let n = (if once is Some { 1int } else { 0 }) + (if daily is Some { 1int } else { 0 }) + (
    if after is Some { 1int } else { 0 });
    if n == 0 {
        Err(ScheduleError::Missing)
    } else if n > 1 {
        Err(ScheduleError::Conflicting)
    } else {
        match once {
            Some(None) => Err(ScheduleError::BadTimestamp),
            Some(Some(t)) => Ok(Schedule::Once(t)),
            None => match daily {
                Some(d) => match daily_time(d) {
                    Ok((h, m)) => Ok(Schedule::Daily { hour: h, minute: m }),
                    Err(e) => Err(e),
                },
                None => Ok(Schedule::After { task_id: after->0, delay_secs: delay }),
            },
        }
    }
}

pub open spec fn view_opt(o: Option<String>) -> Option<Seq<char>> {
    match o {
        Some(s) => Some(s@),
        None => None,
    }
}

/// Reads the decimal number in `s[from..to]`.
fn parse_u32_in(s: &str, from: usize, to: usize) -> (r: Option<u32>)
    requires
        from <= to <= s@.len(),
    ensures
        r == decimal_u32(s@.subrange(from as int, to as int)),
{
    let ghost part = s@.subrange(from as int, to as int);
    let mut start = from;
    if from < to && s.get_char(from) == '+' {
        start = from + 1;
    }
    let ghost d = s@.subrange(start as int, to as int);
    assert(d == if part.len() > 0 && part[0] == '+' { part.drop_first() } else { part });
    if start == to {
        return None;
    }
    let mut acc: u64 = 0;
    let mut i: usize = start;
    while i < to
        invariant
            from <= start <= i <= to <= s@.len(),
            d == s@.subrange(start as int, to as int),
            d == if part.len() > 0 && part[0] == '+' { part.drop_first() } else { part },
            d.len() > 0,
            part == s@.subrange(from as int, to as int),
            forall|k: int| 0 <= k < i - start ==> is_digit(#[trigger] d[k]),
            acc == if digits_value(d.take(i - start)) < 0x1_0000_0000 {
                digits_value(d.take(i - start))
            } else {
                0x1_0000_0000
            },
        decreases to - i,
    {
        let c = s.get_char(i);
        assert(c == d[i - start]);
        if c < '0' || c > '9' {
            assert(!is_digit(d[i - start]));
            assert(!all_digits(d));
            assert(decimal_u32(part) is None);
            return None;
        }
        let ghost prev = d.take(i - start);
        assert(d.take(i + 1 - start).drop_last() =~= prev);
        assert(digits_value(prev) >= 0) by {
            lemma_digits_nonneg(prev);
        }
        let dig: u64 = (c as u64) - ('0' as u64);
        let next: u64 = acc * 10 + dig;
        acc = if next < 0x1_0000_0000 { next } else { 0x1_0000_0000 };
        i = i + 1;
    }
    assert(d.take(i - start) =~= d);
    if acc <= 0xffff_ffff {
        Some(acc as u32)
    } else {
        None
    }
}

proof fn lemma_digits_nonneg(d: Seq<char>)
    requires
        forall|k: int| 0 <= k < d.len() ==> is_digit(#[trigger] d[k]),
    ensures
        digits_value(d) >= 0,
    decreases d.len(),
{
    if d.len() > 0 {
        lemma_digits_nonneg(d.drop_last());
    }
}

/// Reads a daily time written `HH:MM`.
pub fn parse_daily_hhmm(s: &str) -> (r: Result<(u32, u32), ScheduleError>)
    ensures
        r == daily_time(s@),
{
    let n = s.unicode_len();
    let mut count: usize = 0;
    let mut last: usize = 0;
    let mut i: usize = 0;
    while i < n
        invariant
            n == s@.len(),
            i <= n,
            count == colon_count(s@.take(i as int)),
            count <= i,
            count > 0 ==> last == last_colon(s@.take(i as int)) && last < i,
            count == 0 ==> last_colon(s@.take(i as int)) == -1,
        decreases n - i,
    {
        assert(s@.take(i + 1).drop_last() =~= s@.take(i as int));
        if s.get_char(i) == ':' {
            count = count + 1;
            last = i;
        }
        i = i + 1;
    }
    assert(s@.take(i as int) =~= s@);
    if count != 1 {
        return Err(ScheduleError::BadDailyFormat);
    }
    assert(s@.subrange(0, last as int) =~= s@.take(last as int));
    assert(s@.subrange(last + 1, n as int) =~= s@.skip(last + 1));
    let hour = match parse_u32_in(s, 0, last) {
        Some(h) => h,
        None => return Err(ScheduleError::BadHour),
    };
    let minute = match parse_u32_in(s, last + 1, n) {
        Some(m) => m,
        None => return Err(ScheduleError::BadMinute),
    };
    if hour > 23 || minute > 59 {
        return Err(ScheduleError::OutOfRange { hour, minute });
    }
    Ok((hour, minute))
}

/// Chooses the schedule from the three options, the once time already read
/// (`Some(None)` where it was given but is not RFC 3339): exactly one must be
/// given, and a daily time must be a valid `HH:MM`.
pub fn choose_schedule(
    once: Option<Option<Timestamp>>,
    daily: Option<String>,
    after: Option<u64>,
    delay: u64,
) -> (r: Result<Schedule, ScheduleError>)
    ensures
        r == schedule_choice(once, view_opt(daily), after, delay),
{
    let n: u8 = (if once.is_some() { 1u8 } else { 0 }) + (if daily.is_some() { 1u8 } else { 0 }) + (
    if after.is_some() { 1u8 } else { 0 });
    if n == 0 {
        return Err(ScheduleError::Missing);
    }
    if n > 1 {
        return Err(ScheduleError::Conflicting);
    }
    match once {
        Some(None) => Err(ScheduleError::BadTimestamp),
        Some(Some(t)) => Ok(Schedule::Once(t)),
        None => match daily {
            Some(d) => match parse_daily_hhmm(d.as_str()) {
                Ok((h, m)) => Ok(Schedule::Daily { hour: h, minute: m }),
                Err(e) => Err(e),
            },
            None => match after {
                Some(id) => Ok(Schedule::After { task_id: id, delay_secs: delay }),
                None => Err(ScheduleError::Missing),
            },
        },
    }
}

/// Builds the schedule of a new task from the command line's options: a once
/// time in RFC 3339, a daily time `HH:MM`, or the id of a trigger task with a
/// delay. Exactly one of the three must be given.
pub fn build_schedule(
    once: Option<String>,
    daily: Option<String>,
    after: Option<u64>,
    delay: u64,
) -> (r: Result<Schedule, ScheduleError>)
    ensures
        r == schedule_choice(
            match once {
                Some(s) => Some(rfc3339_of(s@)),
                None => None,
            },
            view_opt(daily),
            after,
            delay,
        ),
        r matches Ok(Schedule::Once(t)) ==> t.wf(),
{
    let parsed = match once {
        Some(s) => Some(parse_rfc3339(s.as_str())),
        None => None,
    };
    choose_schedule(parsed, daily, after, delay)
}

} // verus!
