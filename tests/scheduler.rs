use task_scheduler::chain::ChainWalk;
use task_scheduler::record::{output_record, output_record_at};
use task_scheduler::input::{build_schedule, choose_schedule, parse_daily_hhmm, ScheduleError};
use task_scheduler::store::{PersistedTask, RestoreError, Scheduler};
use task_scheduler::time::{duration_to, next_daily_at, Timestamp};
use task_scheduler::timer::{fires_again, next_fire, timer_wait, timer_wait_now};
use task_scheduler::types::{ClientRequest, RunResult, Schedule, ServerResponse, TaskSpec};

fn spec(cmd: &str, schedule: Schedule) -> TaskSpec {
    TaskSpec {
        cmd: cmd.to_string(),
        args: vec!["hi".to_string()],
        output_path: "out.txt".to_string(),
        append: true,
        schedule,
    }
}

fn at(secs: i64) -> Timestamp {
    Timestamp { secs, nanos: 0, offset_secs: 0 }
}

fn once(secs: i64) -> Schedule {
    Schedule::Once(at(secs))
}

fn after(task_id: u64, delay_secs: u64) -> Schedule {
    Schedule::After { task_id, delay_secs }
}

fn result(status_code: i32) -> RunResult {
    RunResult {
        finished_at: at(100),
        status_code,
        stdout_len: 3,
        stderr_len: 0,
        wrote_to: "out.txt".to_string(),
    }
}

#[test]
fn ids_start_at_one_and_increase() {
    let mut s = Scheduler::new();
    assert_eq!(s.add_task(spec("echo", once(10))), Some(1));
    assert_eq!(s.add_task(spec("echo", once(10))), Some(2));
    assert_eq!(s.add_task(spec("echo", after(1, 0))), Some(3));
}

#[test]
fn ids_not_reused_after_remove() {
    let mut s = Scheduler::new();
    let a = s.add_task(spec("echo", once(10))).unwrap();
    let b = s.add_task(spec("echo", once(10))).unwrap();
    assert!(s.remove_task(b));
    let c = s.add_task(spec("echo", once(10))).unwrap();
    assert!(a < b && b < c);
    assert_eq!(c, 3);
}

#[test]
fn ids_continue_after_restore() {
    let mut s = Scheduler::new();
    for _ in 0..5 {
        s.add_task(spec("echo", once(10)));
    }
    s.remove_task(5);
    s.remove_task(2);
    let snap = s.snapshot();
    let mut back = Scheduler::restore(&snap).unwrap();
    assert!(back.tasks.iter().all(|e| e.id < back.next_id));
    let id = back.add_task(spec("echo", once(10))).unwrap();
    assert_eq!(id, 5);
}

#[test]
fn add_refused_when_ids_exhausted() {
    let recs = vec![PersistedTask { id: u64::MAX, spec: spec("echo", once(1)) }];
    let mut s = Scheduler::restore(&recs).unwrap();
    assert_eq!(s.next_id, u64::MAX);
    assert_eq!(s.add_task(spec("echo", once(1))), None);
    assert_eq!(s.tasks.len(), 1);
}

#[test]
fn dependent_has_no_timer_and_is_registered() {
    let mut s = Scheduler::new();
    let a = s.add_task(spec("a", once(10))).unwrap();
    let b = s.add_task(spec("b", after(a, 7))).unwrap();
    assert!(s.tasks[0].has_timer);
    assert!(!s.tasks[1].has_timer);
    let deps = s.dependents_of(a);
    assert_eq!(deps.len(), 1);
    assert_eq!(deps[0].id, b);
    assert_eq!(deps[0].delay_secs, 7);
    assert_eq!(deps[0].spec.cmd, "b");
}

#[test]
fn remove_unknown_id_is_false() {
    let mut s = Scheduler::new();
    s.add_task(spec("a", once(10)));
    assert!(!s.remove_task(42));
    assert_eq!(s.tasks.len(), 1);
}

#[test]
fn removed_task_leaves_every_dependent_list() {
    let mut s = Scheduler::new();
    let a = s.add_task(spec("a", once(10))).unwrap();
    let b = s.add_task(spec("b", after(a, 0))).unwrap();
    let c = s.add_task(spec("c", after(a, 0))).unwrap();
    assert!(s.remove_task(b));
    let ids: Vec<u64> = s.dependents_of(a).iter().map(|d| d.id).collect();
    assert_eq!(ids, vec![c]);
    for w in s.watchers.iter() {
        assert!(!w.dependents.contains(&b));
    }
    assert!(s.find(b).is_none());
}

#[test]
fn removing_trigger_keeps_dependents_listed() {
    let mut s = Scheduler::new();
    let a = s.add_task(spec("a", once(10))).unwrap();
    let b = s.add_task(spec("b", after(a, 0))).unwrap();
    assert!(s.remove_task(a));
    assert!(s.find(b).is_some());
    assert_eq!(s.list_tasks().len(), 1);
}

#[test]
fn result_recorded_and_listed() {
    let mut s = Scheduler::new();
    let a = s.add_task(spec("echo", once(10))).unwrap();
    assert!(s.list_tasks()[0].last_result.is_none());
    assert!(s.record_result(a, result(0)));
    let list = s.list_tasks();
    assert_eq!(list.len(), 1);
    assert_eq!(list[0].id, a);
    assert_eq!(list[0].last_result.as_ref().unwrap().status_code, 0);
    assert_eq!(list[0].spec.cmd, "echo");
    assert!(s.record_result(a, result(3)));
    assert_eq!(s.list_tasks()[0].last_result.as_ref().unwrap().status_code, 3);
}

#[test]
fn result_of_removed_task_is_dropped() {
    let mut s = Scheduler::new();
    let a = s.add_task(spec("echo", once(10))).unwrap();
    s.remove_task(a);
    assert!(!s.record_result(a, result(0)));
    assert!(s.list_tasks().is_empty());
}

#[test]
fn snapshot_round_trip_drops_results() {
    let mut s = Scheduler::new();
    let a = s.add_task(spec("a", once(10))).unwrap();
    s.add_task(spec("b", Schedule::Daily { hour: 8, minute: 30 }));
    s.add_task(spec("c", after(a, 4)));
    s.record_result(a, result(0));
    let snap = s.snapshot();
    assert_eq!(snap.len(), 3);
    let back = Scheduler::restore(&snap).unwrap();
    assert_eq!(back.tasks.len(), 3);
    for (x, y) in back.tasks.iter().zip(s.tasks.iter()) {
        assert_eq!(x.id, y.id);
        assert_eq!(x.spec.cmd, y.spec.cmd);
        assert_eq!(x.spec.schedule, y.spec.schedule);
        assert_eq!(x.has_timer, y.has_timer);
        assert!(x.last_result.is_none());
    }
    assert_eq!(back.next_id, 4);
    assert_eq!(back.dependents_of(a).len(), 1);
}

#[test]
fn restore_of_empty_set_starts_at_one() {
    let s = Scheduler::restore(&Vec::new()).unwrap();
    assert_eq!(s.next_id, 1);
    assert!(s.tasks.is_empty());
}

#[test]
fn restore_refuses_duplicate_ids() {
    let recs = vec![
        PersistedTask { id: 4, spec: spec("a", once(1)) },
        PersistedTask { id: 4, spec: spec("b", once(1)) },
    ];
    assert_eq!(Scheduler::restore(&recs).err(), Some(RestoreError::DuplicateId(4)));
}

fn run_chain(s: &Scheduler, first: u64) -> Vec<u64> {
    let mut walk = ChainWalk::start(s, first);
    let mut order = Vec::new();
    while let Some(step) = walk.next_step() {
        order.push(step.id);
        walk.step_done(s, step.id);
    }
    order
}

#[test]
fn chain_runs_each_link_once_in_order() {
    let mut s = Scheduler::new();
    let a = s.add_task(spec("a", once(10))).unwrap();
    let b = s.add_task(spec("b", after(a, 0))).unwrap();
    let c = s.add_task(spec("c", after(b, 0))).unwrap();
    assert_eq!(run_chain(&s, a), vec![b, c]);
}

#[test]
fn long_chain_runs_without_recursion() {
    let mut s = Scheduler::new();
    let first = s.add_task(spec("a", once(10))).unwrap();
    let mut prev = first;
    let mut expected = Vec::new();
    for _ in 0..500 {
        prev = s.add_task(spec("x", after(prev, 0))).unwrap();
        expected.push(prev);
    }
    assert_eq!(run_chain(&s, first), expected);
}

#[test]
fn chain_is_breadth_first() {
    let mut s = Scheduler::new();
    let a = s.add_task(spec("a", once(10))).unwrap();
    let b = s.add_task(spec("b", after(a, 0))).unwrap();
    let c = s.add_task(spec("c", after(a, 2))).unwrap();
    let d = s.add_task(spec("d", after(b, 0))).unwrap();
    let walk = ChainWalk::start(&s, a);
    assert_eq!(walk.queue[1].delay_secs, 2);
    assert_eq!(run_chain(&s, a), vec![b, c, d]);
}

#[test]
fn dependent_on_missing_trigger_never_runs() {
    let mut s = Scheduler::new();
    let id = s.add_task(spec("echo", after(9999, 0))).unwrap();
    let x = s.add_task(spec("x", once(10))).unwrap();
    assert!(run_chain(&s, x).is_empty());
    assert_eq!(timer_wait(after(9999, 0), at(0)), None);
    let list = s.list_tasks();
    assert_eq!(list[0].id, id);
    assert!(list[0].last_result.is_none());
}

#[test]
fn once_in_past_waits_zero() {
    assert_eq!(timer_wait(once(100), at(500)), Some(0));
    assert_eq!(timer_wait(once(500), at(500)), Some(0));
}

#[test]
fn once_in_future_waits_difference() {
    assert_eq!(timer_wait(once(501), at(500)), Some(1));
    let when = Timestamp { secs: 510, nanos: 400, offset_secs: 3600 };
    let now = Timestamp { secs: 500, nanos: 500, offset_secs: 0 };
    assert_eq!(duration_to(when, now), 10);
    let half = Timestamp { secs: 501, nanos: 500_000_000, offset_secs: 0 };
    assert_eq!(duration_to(half, at(500)), 2);
    assert_eq!(duration_to(at(502), at(500)), 2);
}

#[test]
fn daily_before_time_fires_today() {
    // 1970-01-02 07:00:00 UTC
    let now = at(86400 + 7 * 3600);
    let next = next_daily_at(8, 30, now);
    assert_eq!(next.secs, 86400 + 8 * 3600 + 30 * 60);
}

#[test]
fn daily_after_time_fires_tomorrow() {
    let now = at(86400 + 9 * 3600);
    let next = next_daily_at(8, 30, now);
    assert_eq!(next.secs, 2 * 86400 + 8 * 3600 + 30 * 60);
    let exact = at(86400 + 8 * 3600 + 30 * 60);
    assert_eq!(next_daily_at(8, 30, exact).secs, exact.secs + 86400);
}

#[test]
fn daily_uses_local_offset() {
    // 23:00 UTC is 01:00 the next day at UTC+2
    let now = Timestamp { secs: 23 * 3600, nanos: 0, offset_secs: 7200 };
    let next = next_daily_at(0, 30, now);
    assert_eq!(next.secs, 23 * 3600 + 23 * 3600 + 30 * 60);
    assert_eq!(next.offset_secs, 7200);
}

#[test]
fn daily_next_after_firing_is_one_day_later() {
    let now = at(86400 + 7 * 3600);
    let first = next_daily_at(8, 30, now);
    let second = next_daily_at(8, 30, Timestamp { secs: first.secs + 1, ..first });
    assert_eq!(second.secs, first.secs + 86400);
}

#[test]
fn daily_fires_on_the_minute() {
    let now = Timestamp { secs: 86400 + 7 * 3600, nanos: 123_456_789, offset_secs: 0 };
    let next = next_daily_at(8, 30, now);
    assert_eq!(next.nanos, 0);
    assert_eq!(next.secs, 86400 + 8 * 3600 + 30 * 60);
    let late = Timestamp { secs: next.secs, nanos: 5, offset_secs: 0 };
    assert_eq!(next_daily_at(8, 30, late).secs, next.secs + 86400);
    assert_eq!(next_daily_at(8, 30, late).nanos, 0);
}

#[test]
fn in_range_matches_chrono_bounds() {
    assert!(at(0).in_range());
    assert!(!Timestamp { secs: 0, nanos: 0, offset_secs: 86400 }.in_range());
    assert!(!Timestamp { secs: 0, nanos: 2_000_000_000, offset_secs: 0 }.in_range());
    assert!(!at(20_000_000_000_000).in_range());
}

#[test]
fn daily_before_epoch() {
    let now = at(-86400 + 3600);
    assert_eq!(next_daily_at(2, 0, now).secs, -86400 + 2 * 3600);
}

#[test]
fn next_fire_per_kind() {
    assert_eq!(next_fire(once(7), at(0)), Some(at(7)));
    assert_eq!(next_fire(after(1, 0), at(0)), None);
    assert_eq!(next_fire(Schedule::Daily { hour: 24, minute: 0 }, at(0)), None);
    assert_eq!(next_fire(Schedule::Daily { hour: 0, minute: 1 }, at(0)), Some(at(60)));
    assert!(fires_again(Schedule::Daily { hour: 1, minute: 1 }));
    assert!(!fires_again(once(1)));
}

#[test]
fn daily_text_parses() {
    assert_eq!(parse_daily_hhmm("08:00"), Ok((8, 0)));
    assert_eq!(parse_daily_hhmm("23:59"), Ok((23, 59)));
    assert_eq!(parse_daily_hhmm("+7:05"), Ok((7, 5)));
}

#[test]
fn daily_text_errors() {
    assert_eq!(parse_daily_hhmm("0800"), Err(ScheduleError::BadDailyFormat));
    assert_eq!(parse_daily_hhmm("08:00:00"), Err(ScheduleError::BadDailyFormat));
    assert_eq!(parse_daily_hhmm(":30"), Err(ScheduleError::BadHour));
    assert_eq!(parse_daily_hhmm("ab:30"), Err(ScheduleError::BadHour));
    assert_eq!(parse_daily_hhmm("08:x"), Err(ScheduleError::BadMinute));
    assert_eq!(parse_daily_hhmm("99999999999:00"), Err(ScheduleError::BadHour));
    assert_eq!(
        parse_daily_hhmm("24:00"),
        Err(ScheduleError::OutOfRange { hour: 24, minute: 0 })
    );
    assert_eq!(
        parse_daily_hhmm("12:60"),
        Err(ScheduleError::OutOfRange { hour: 12, minute: 60 })
    );
}

#[test]
fn schedule_needs_exactly_one_option() {
    assert_eq!(build_schedule(None, None, None, 0), Err(ScheduleError::Missing));
    assert_eq!(
        build_schedule(None, Some("08:00".to_string()), Some(1), 0),
        Err(ScheduleError::Conflicting)
    );
    assert_eq!(
        choose_schedule(Some(Some(at(5))), None, Some(1), 0),
        Err(ScheduleError::Conflicting)
    );
}

#[test]
fn schedule_from_each_option() {
    assert_eq!(build_schedule(None, None, Some(3), 9), Ok(after(3, 9)));
    assert_eq!(
        build_schedule(None, Some("06:15".to_string()), None, 0),
        Ok(Schedule::Daily { hour: 6, minute: 15 })
    );
    assert_eq!(
        build_schedule(None, Some("6h".to_string()), None, 0),
        Err(ScheduleError::BadDailyFormat)
    );
    assert_eq!(choose_schedule(Some(None), None, None, 0), Err(ScheduleError::BadTimestamp));
    assert_eq!(choose_schedule(Some(Some(at(5))), None, None, 0), Ok(once(5)));
}

#[test]
fn once_text_is_read_as_rfc3339() {
    let r = build_schedule(Some("1996-12-19T16:39:57-08:00".to_string()), None, None, 0);
    assert_eq!(
        r,
        Ok(Schedule::Once(Timestamp { secs: 851042397, nanos: 0, offset_secs: -8 * 3600 }))
    );
    assert_eq!(
        build_schedule(Some("yesterday".to_string()), None, None, 0),
        Err(ScheduleError::BadTimestamp)
    );
}

#[test]
fn echo_hi_record_names_task_and_exit_code() {
    let stamp = b"2024-05-01 10:00:00 +00:00".to_vec();
    let r = output_record(&stamp, 1, 0, &b"hi\n".to_vec(), &Vec::new());
    assert_eq!(
        String::from_utf8(r).unwrap(),
        "=== [2024-05-01 10:00:00 +00:00] task 1 exit 0 ===\nhi\n"
    );
}

#[test]
fn record_with_stderr_keeps_bytes_as_captured() {
    let r = output_record(&b"T".to_vec(), 42, -1, &b"out".to_vec(), &b"bad".to_vec());
    assert_eq!(
        String::from_utf8(r).unwrap(),
        "=== [T] task 42 exit -1 ===\nout\n--- stderr ---\nbad"
    );
    let r = output_record(&b"T".to_vec(), 18446744073709551615, i32::MIN, &Vec::new(), &Vec::new());
    assert_eq!(
        String::from_utf8(r).unwrap(),
        "=== [T] task 18446744073709551615 exit -2147483648 ===\n"
    );
}

#[test]
fn record_stamp_is_written_by_chrono() {
    let t = Timestamp { secs: 851042397, nanos: 0, offset_secs: -8 * 3600 };
    let r = output_record_at(t, 7, 0, &b"hi\n".to_vec(), &Vec::new()).unwrap();
    assert_eq!(
        String::from_utf8(r).unwrap(),
        "=== [1996-12-19 16:39:57 -08:00] task 7 exit 0 ===\nhi\n"
    );
    let bad = Timestamp { secs: 0, nanos: 0, offset_secs: 90000 };
    assert!(output_record_at(bad, 7, 0, &Vec::new(), &Vec::new()).is_none());
}

#[test]
fn requests_add_remove_list() {
    let mut s = Scheduler::new();
    let r = s.apply_request(ClientRequest::AddTask(spec("echo", once(10))));
    assert!(matches!(r, ServerResponse::Added { id: 1 }));
    let r = s.apply_request(ClientRequest::AddTask(spec("dep", after(9999, 0))));
    assert!(matches!(r, ServerResponse::Added { id: 2 }));
    match s.apply_request(ClientRequest::ListTasks) {
        ServerResponse::Tasks(l) => {
            assert_eq!(l.len(), 2);
            assert_eq!(l[1].id, 2);
            assert_eq!(l[1].spec.cmd, "dep");
            assert!(l[1].last_result.is_none());
        }
        other => panic!("unexpected {other:?}"),
    }
    assert!(matches!(
        s.apply_request(ClientRequest::RemoveTask { id: 1 }),
        ServerResponse::Removed { ok: true }
    ));
    assert!(matches!(
        s.apply_request(ClientRequest::RemoveTask { id: 1 }),
        ServerResponse::Removed { ok: false }
    ));
    let r = s.apply_request(ClientRequest::AddTask(spec("echo", once(10))));
    assert!(matches!(r, ServerResponse::Added { id: 3 }));
}

#[test]
fn request_add_when_ids_exhausted_is_error() {
    let recs = vec![PersistedTask { id: u64::MAX, spec: spec("echo", once(1)) }];
    let mut s = Scheduler::restore(&recs).unwrap();
    match s.apply_request(ClientRequest::AddTask(spec("echo", once(1)))) {
        ServerResponse::Error(m) => assert_eq!(m, "task ids exhausted"),
        other => panic!("unexpected {other:?}"),
    }
}

#[test]
fn wait_from_present_moment() {
    let w = timer_wait_now(Schedule::Daily { hour: 0, minute: 0 }).unwrap();
    assert!(w <= 86400);
    assert_eq!(timer_wait_now(after(1, 0)), None);
    assert_eq!(timer_wait_now(Schedule::Daily { hour: 25, minute: 0 }), None);
    assert_eq!(timer_wait_now(once(0)), Some(0));
    let far = timer_wait_now(once(4_000_000_000)).unwrap();
    assert!(far > 1_000_000_000);
}
