use pyspy::flamegraph::Flamegraph;
use pyspy::scheduler::{
    RawFlamegraph, RecordDuration, Recorder, SampleOutcome, SchedulerState, StopReason, TickStatus,
};
use pyspy::speedscope::Stats;
use pyspy::stack_trace::{fold_trace, Frame, StackTrace};
use pyspy::trace_filter::{filter_trace, TracePolicy};

fn make_trace(name: &str, active: bool, owns_gil: bool, thread_id: u64) -> StackTrace {
    StackTrace {
        thread_id,
        os_thread_id: None,
        active,
        owns_gil,
        status: String::from("running"),
        frames: vec![Frame {
            name: String::from(name),
            filename: String::from("/prog.py"),
            short_filename: None,
            module: None,
            line: 0,
        }],
    }
}

fn policy(include_idle: bool, gil_only: bool, include_thread_ids: bool) -> TracePolicy {
    TracePolicy { include_idle, gil_only, include_thread_ids }
}

#[test]
fn test_fold_trace_format() {
    let trace = StackTrace {
        thread_id: 1,
        os_thread_id: Some(7),
        active: true,
        owns_gil: true,
        status: String::from("running"),
        frames: vec![
            Frame {
                name: String::from("inner"),
                filename: String::from("/a.py"),
                short_filename: None,
                module: None,
                line: 3,
            },
            Frame {
                name: String::from("outer"),
                filename: String::from("/long/b.py"),
                short_filename: Some(String::from("b.py")),
                module: None,
                line: 7,
            },
        ],
    };
    assert_eq!(fold_trace(&trace, true), String::from("outer (b.py:7);inner (/a.py:3)"));
    assert_eq!(fold_trace(&trace, false), String::from("outer (b.py);inner (/a.py)"));
}

#[test]
fn test_filter_trace_thread_annotation() {
    let t = make_trace("work", true, true, 42);
    let r = filter_trace(&policy(false, false, true), t).unwrap();
    assert_eq!(fold_trace(&r, true), String::from("thread 42 ();work (/prog.py)"));
}

#[test]
fn test_filter_trace_drops() {
    assert!(filter_trace(&policy(false, false, false), make_trace("w", false, true, 1)).is_none());
    assert!(filter_trace(&policy(true, true, false), make_trace("w", true, false, 1)).is_none());
    assert!(filter_trace(&policy(true, false, false), make_trace("w", false, false, 1)).is_some());
}

#[test]
fn test_idle_trace_excluded_and_included() {
    // An idle trace is excluded from all aggregates when idle threads are
    // not included, and included when they are.
    let mut state = SchedulerState::new(1, RecordDuration::Unlimited, policy(false, false, false));
    let mut rec = Recorder::Flamegraph(Flamegraph::new(false));
    let r = state.step(
        &mut rec,
        false,
        false,
        SampleOutcome::Traces(vec![make_trace("idle_fn", false, true, 1)]),
    );
    assert!(matches!(r.status, TickStatus::Running));
    if let Recorder::Flamegraph(fg) = &rec {
        assert!(fg.counts.is_empty());
    } else {
        panic!("recorder changed form");
    }

    let mut state = SchedulerState::new(1, RecordDuration::Unlimited, policy(true, false, false));
    let mut rec = Recorder::Flamegraph(Flamegraph::new(false));
    state.step(
        &mut rec,
        false,
        false,
        SampleOutcome::Traces(vec![make_trace("idle_fn", false, true, 1)]),
    );
    if let Recorder::Flamegraph(fg) = &rec {
        assert_eq!(fg.get_lines(), vec![String::from("idle_fn (/prog.py) 1")]);
    } else {
        panic!("recorder changed form");
    }
}

#[test]
fn test_process_exit_keeps_collected_data() {
    // On process exit mid-run the loop stops with the process-ended reason
    // and every tick processed before the exit stays in the aggregator.
    let mut state = SchedulerState::new(2, RecordDuration::Unlimited, policy(true, false, false));
    let mut rec = Recorder::Flamegraph(Flamegraph::new(false));
    for _ in 0..3 {
        let r = state.step(
            &mut rec,
            false,
            false,
            SampleOutcome::Traces(vec![make_trace("work", true, true, 1)]),
        );
        assert!(matches!(r.status, TickStatus::Running));
    }
    let r = state.step(
        &mut rec,
        false,
        false,
        SampleOutcome::CaptureFailed { process_exited: true },
    );
    assert!(matches!(r.status, TickStatus::Stopped(StopReason::ProcessEnded)));
    assert_eq!(state.samples, 3);
    if let Recorder::Flamegraph(fg) = &rec {
        let all = fg.filter_records(0, u64::MAX);
        assert_eq!(all.get(&String::from("work (/prog.py)")).unwrap_or(0), 3);
    } else {
        panic!("recorder changed form");
    }
}

#[test]
fn test_overrun_warns_but_does_not_stop() {
    // A tick overrun beyond one second is surfaced as a warning without
    // stopping the run, and the time bucket still advances exactly once per
    // sampling_rate processed ticks.
    let mut state = SchedulerState::new(2, RecordDuration::Unlimited, policy(true, false, false));
    let mut rec = Recorder::Flamegraph(Flamegraph::new(false));
    let r = state.step(
        &mut rec,
        false,
        true,
        SampleOutcome::Traces(vec![make_trace("w", true, true, 1)]),
    );
    assert!(r.warn_overrun);
    assert!(matches!(r.status, TickStatus::Running));
    assert_eq!(state.time_stamp, 0);
    assert_eq!(state.sample_counter, 1);
    let r = state.step(
        &mut rec,
        false,
        true,
        SampleOutcome::Traces(vec![make_trace("w", true, true, 1)]),
    );
    assert!(r.warn_overrun);
    assert!(matches!(r.status, TickStatus::Running));
    assert_eq!(state.time_stamp, 1);
    assert_eq!(state.sample_counter, 0);
}

#[test]
fn test_recoverable_error_counts_and_continues() {
    let mut state = SchedulerState::new(2, RecordDuration::Unlimited, policy(true, false, false));
    let mut rec = Recorder::Flamegraph(Flamegraph::new(false));
    let r = state.step(
        &mut rec,
        false,
        false,
        SampleOutcome::CaptureFailed { process_exited: false },
    );
    assert!(matches!(r.status, TickStatus::Running));
    assert_eq!(state.errors, 1);
    assert_eq!(state.samples, 0);
    assert_eq!(state.sample_counter, 1);
}

#[test]
fn test_cancellation_stops() {
    let mut state = SchedulerState::new(1, RecordDuration::Unlimited, policy(true, false, false));
    let mut rec = Recorder::Flamegraph(Flamegraph::new(false));
    let r = state.step(
        &mut rec,
        true,
        false,
        SampleOutcome::Traces(vec![make_trace("w", true, true, 1)]),
    );
    assert!(matches!(r.status, TickStatus::Stopped(StopReason::Cancelled)));
    assert_eq!(state.samples, 0);
}

#[test]
fn test_duration_budget_elapses() {
    let mut state =
        SchedulerState::new(1, RecordDuration::Seconds(2), policy(true, false, false));
    let mut rec = Recorder::Flamegraph(Flamegraph::new(false));
    let r = state.step(
        &mut rec,
        false,
        false,
        SampleOutcome::Traces(vec![make_trace("w", true, true, 1)]),
    );
    assert!(matches!(r.status, TickStatus::Running));
    let r = state.step(
        &mut rec,
        false,
        false,
        SampleOutcome::Traces(vec![make_trace("w", true, true, 1)]),
    );
    assert!(matches!(r.status, TickStatus::Stopped(StopReason::DurationElapsed)));
    assert_eq!(state.samples, 2);
}

#[test]
fn test_buckets_follow_ticks() {
    // With rate 2, six successful ticks spread over buckets 0, 1 and 2.
    let mut state = SchedulerState::new(2, RecordDuration::Unlimited, policy(true, false, false));
    let mut rec = Recorder::Flamegraph(Flamegraph::new(false));
    for _ in 0..6 {
        state.step(
            &mut rec,
            false,
            false,
            SampleOutcome::Traces(vec![make_trace("w", true, true, 1)]),
        );
    }
    if let Recorder::Flamegraph(fg) = &rec {
        let key = String::from("w (/prog.py)");
        assert_eq!(fg.filter_records(0, 1).get(&key).unwrap_or(0), 2);
        assert_eq!(fg.filter_records(1, 2).get(&key).unwrap_or(0), 2);
        assert_eq!(fg.filter_records(2, 3).get(&key).unwrap_or(0), 2);
        assert_eq!(fg.filter_records(3, 4).get(&key).unwrap_or(0), 0);
    } else {
        panic!("recorder changed form");
    }
}

#[test]
fn test_speedscope_records_events() {
    let mut state = SchedulerState::new(1, RecordDuration::Unlimited, policy(false, false, false));
    let mut rec = Recorder::Speedscope(Stats::new(false));
    state.step(
        &mut rec,
        false,
        false,
        SampleOutcome::Traces(vec![
            make_trace("a", true, true, 1),
            make_trace("b", false, true, 2),
            make_trace("c", true, true, 3),
        ]),
    );
    if let Recorder::Speedscope(st) = &rec {
        assert_eq!(st.events.len(), 2);
        assert_eq!(st.events[0].path, String::from("a (/prog.py)"));
        assert_eq!(st.events[0].time_stamp, 0);
        assert_eq!(st.events[1].path, String::from("c (/prog.py)"));
    } else {
        panic!("recorder changed form");
    }
}

#[test]
fn test_raw_recorder_matches_flamegraph() {
    let mut raw = RawFlamegraph::new(true);
    let t = make_trace("w", true, true, 1);
    raw.increment(4, &t).unwrap();
    raw.increment(4, &t).unwrap();
    assert_eq!(raw.0.get_lines(), vec![String::from("w (/prog.py) 2")]);
}

#[test]
fn test_fold_empty_trace() {
    let trace = StackTrace {
        thread_id: 9,
        os_thread_id: None,
        active: true,
        owns_gil: false,
        status: String::from("idle"),
        frames: Vec::new(),
    };
    assert_eq!(fold_trace(&trace, true), String::new());
    assert_eq!(trace.status_str(), String::from("idle"));
    let annotated = filter_trace(&policy(true, false, true), trace).unwrap();
    assert_eq!(fold_trace(&annotated, true), String::from("thread 9 ()"));
}

#[test]
fn test_error_ticks_count_toward_budget() {
    // The duration budget is a budget of processed ticks: recoverable
    // capture failures spend it just as successful captures do.
    let mut state = SchedulerState::new(1, RecordDuration::Seconds(2), policy(true, false, false));
    let mut rec = Recorder::Flamegraph(Flamegraph::new(false));
    let r = state.step(
        &mut rec,
        false,
        false,
        SampleOutcome::Traces(vec![make_trace("w", true, true, 1)]),
    );
    assert!(matches!(r.status, TickStatus::Running));
    let r = state.step(
        &mut rec,
        false,
        false,
        SampleOutcome::CaptureFailed { process_exited: false },
    );
    assert!(matches!(r.status, TickStatus::Stopped(StopReason::DurationElapsed)));
    assert_eq!(state.ticks, 2);
    assert_eq!(state.samples, 1);
    assert_eq!(state.errors, 1);
}

#[test]
fn test_error_only_run_hits_budget() {
    let mut state = SchedulerState::new(2, RecordDuration::Seconds(1), policy(true, false, false));
    let mut rec = Recorder::Flamegraph(Flamegraph::new(false));
    let r = state.step(
        &mut rec,
        false,
        false,
        SampleOutcome::CaptureFailed { process_exited: false },
    );
    assert!(matches!(r.status, TickStatus::Running));
    let r = state.step(
        &mut rec,
        false,
        false,
        SampleOutcome::CaptureFailed { process_exited: false },
    );
    assert!(matches!(r.status, TickStatus::Stopped(StopReason::DurationElapsed)));
    assert_eq!(state.samples, 0);
    assert_eq!(state.errors, 2);
}
