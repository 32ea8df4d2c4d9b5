//! The sampling scheduler's per-tick decisions: outcome classification,
//! trace filtering, aggregation and stop conditions. The surrounding loop —
//! the timer, the capture call, the cancellation signal and the progress
//! display — lives outside the library and feeds each tick's events in.

use vstd::prelude::*;

use crate::flamegraph::{
    bucket_count, lookup_buckets, sum_counts, Flamegraph, RecordError,
};
use crate::speedscope::Stats;
use crate::stack_trace::{folded_path, StackTrace};
use crate::trace_filter::{annotated_path, filter_trace, retained, TracePolicy};

verus! {

/// The raw-snapshot aggregator: aggregates exactly like the flame-graph
/// form, but is exported as a lossless snapshot instead of being rendered.
pub struct RawFlamegraph(pub Flamegraph);

/// One aggregator, selected at configuration time.
pub enum Recorder {
    /// Per-path, per-bucket counters rendered as a flame graph.
    Flamegraph(Flamegraph),
    /// An event log for an event-log style viewer.
    Speedscope(Stats),
    /// Per-path, per-bucket counters persisted losslessly.
    Raw(RawFlamegraph),
}

/// How many of the traces the policy retains and folds to path `p`.
pub open spec fn count_folding(
    traces: Seq<StackTrace>,
    policy: TracePolicy,
    show: bool,
    p: Seq<char>,
) -> int
    decreases traces.len(),
{
    if traces.len() == 0 {
        0
    } else {
        count_folding(traces.drop_last(), policy, show, p) + if retained(policy, traces.last())
            && annotated_path(policy, traces.last(), show) == p {
            1int
        } else {
            0int
        }
    }
}

/// The folded paths of the retained traces, in order.
pub open spec fn retained_paths(traces: Seq<StackTrace>, policy: TracePolicy, show: bool) -> Seq<
    Seq<char>,
>
    decreases traces.len(),
{
    if traces.len() == 0 {
        Seq::empty()
    } else {
        retained_paths(traces.drop_last(), policy, show) + if retained(policy, traces.last()) {
            seq![annotated_path(policy, traces.last(), show)]
        } else {
            Seq::empty()
        }
    }
}

/// How one flame-graph aggregator relates to another after folding in the
/// first `k` of the traces: buckets other than `ts` are untouched, and every
/// path with room for the tick's full contribution carries exactly the
/// retained traces of the processed prefix that fold to it.
pub open spec fn flame_partial(
    f0: Flamegraph,
    f1: Flamegraph,
    traces: Seq<StackTrace>,
    k: int,
    ts: u64,
    policy: TracePolicy,
) -> bool {
    &&& f1.show_linenumbers == f0.show_linenumbers
    &&& forall|q: Seq<char>, u: u64|
        u != ts ==> #[trigger] bucket_count(lookup_buckets(f1.counts@, q), u) == bucket_count(
            lookup_buckets(f0.counts@, q),
            u,
        )
    &&& forall|p: Seq<char>|
        sum_counts(#[trigger] lookup_buckets(f0.counts@, p)) + count_folding(
            traces,
            policy,
            f0.show_linenumbers,
            p,
        ) <= usize::MAX ==> {
            &&& bucket_count(lookup_buckets(f1.counts@, p), ts) == bucket_count(
                lookup_buckets(f0.counts@, p),
                ts,
            ) + count_folding(traces.subrange(0, k), policy, f0.show_linenumbers, p)
            &&& sum_counts(lookup_buckets(f1.counts@, p)) == sum_counts(
                lookup_buckets(f0.counts@, p),
            ) + count_folding(traces.subrange(0, k), policy, f0.show_linenumbers, p)
        }
}

/// How one event log relates to another after folding in the first `k` of
/// the traces: the old events are untouched and one event per retained trace
/// is appended, at bucket `ts`, in order.
pub open spec fn stats_partial(
    s0: Stats,
    s1: Stats,
    traces: Seq<StackTrace>,
    k: int,
    ts: u64,
    policy: TracePolicy,
) -> bool {
    let added = retained_paths(traces.subrange(0, k), policy, s0.show_linenumbers);
    &&& s1.show_linenumbers == s0.show_linenumbers
    &&& s1.events@.len() == s0.events@.len() + added.len()
    &&& forall|x: int|
        0 <= x < s0.events@.len() ==> (#[trigger] s1.events@[x]) == s0.events@[x]
    &&& forall|x: int|
        s0.events@.len() <= x < s1.events@.len() ==> (#[trigger] s1.events@[x]).time_stamp == ts
            && s1.events@[x].path@ == added[x - s0.events@.len()]
}

/// How a recorder relates to its old value after folding in the first `k`
/// of the traces.
pub open spec fn recorder_partial(
    r0: Recorder,
    r1: Recorder,
    traces: Seq<StackTrace>,
    k: int,
    ts: u64,
    policy: TracePolicy,
) -> bool {
    match (r0, r1) {
        (Recorder::Flamegraph(f0), Recorder::Flamegraph(f1)) => flame_partial(
            f0,
            f1,
            traces,
            k,
            ts,
            policy,
        ),
        (Recorder::Raw(g0), Recorder::Raw(g1)) => flame_partial(g0.0, g1.0, traces, k, ts, policy),
        (Recorder::Speedscope(s0), Recorder::Speedscope(s1)) => stats_partial(
            s0,
            s1,
            traces,
            k,
            ts,
            policy,
        ),
        _ => false,
    }
}

/// How a recorder relates to its old value after one tick's traces have been
/// folded in.
pub open spec fn recorder_updated(
    r0: Recorder,
    r1: Recorder,
    traces: Seq<StackTrace>,
    ts: u64,
    policy: TracePolicy,
) -> bool {
    recorder_partial(r0, r1, traces, traces.len() as int, ts, policy)
}

impl RawFlamegraph {
    /// Creates an empty raw aggregator.
    pub fn new(show_linenumbers: bool) -> (r: RawFlamegraph)
        ensures
            r.0.wf(),
            r.0.counts@.len() == 0,
            r.0.show_linenumbers == show_linenumbers,
    {
        RawFlamegraph(Flamegraph::new(show_linenumbers))
    }

    /// Folds one retained trace into the counters, as the flame-graph form
    /// does.
    pub fn increment(&mut self, time_stamp: u64, trace: &StackTrace) -> (r: Result<
        (),
        RecordError,
    >)
        requires
            old(self).0.wf(),
        ensures
            final(self).0.wf(),
            final(self).0.show_linenumbers == old(self).0.show_linenumbers,
            ({
                let p = folded_path(trace.frames@, old(self).0.show_linenumbers);
                match r {
                    Ok(()) => {
                        &&& sum_counts(lookup_buckets(old(self).0.counts@, p)) < usize::MAX
                        &&& sum_counts(lookup_buckets(final(self).0.counts@, p)) == sum_counts(
                            lookup_buckets(old(self).0.counts@, p),
                        ) + 1
                        &&& bucket_count(lookup_buckets(final(self).0.counts@, p), time_stamp)
                            == bucket_count(lookup_buckets(old(self).0.counts@, p), time_stamp) + 1
                        &&& forall|u: u64|
                            u != time_stamp ==> bucket_count(
                                lookup_buckets(final(self).0.counts@, p),
                                u,
                            ) == bucket_count(lookup_buckets(old(self).0.counts@, p), u)
                        &&& forall|q: Seq<char>|
                            q != p ==> #[trigger] lookup_buckets(final(self).0.counts@, q)
                                == lookup_buckets(old(self).0.counts@, q)
                    },
                    Err(e) => {
                        &&& e == RecordError::CountSaturated
                        &&& sum_counts(lookup_buckets(old(self).0.counts@, p)) == usize::MAX
                        &&& final(self).0.counts@ == old(self).0.counts@
                    },
                }
            }),
    {
        self.0.increment(time_stamp, trace)
    }
}

impl Recorder {
    /// The well-formedness of the selected aggregator.
    pub open spec fn wf(self) -> bool {
        match self {
            Recorder::Flamegraph(f) => f.wf(),
            Recorder::Raw(g) => g.0.wf(),
            Recorder::Speedscope(_) => true,
        }
    }
}

/// Why a sampling run stops.
#[derive(PartialEq, Eq, Structural, Clone, Copy, Debug)]
pub enum StopReason {
    /// The cancellation signal was observed.
    Cancelled,
    /// The observed process has exited.
    ProcessEnded,
    /// The configured duration's tick budget is exhausted.
    DurationElapsed,
}

/// Whether the run goes on after a tick.
#[derive(PartialEq, Eq, Structural, Clone, Copy, Debug)]
pub enum TickStatus {
    /// Keep sampling.
    Running,
    /// Stop, for the given reason.
    Stopped(StopReason),
}

/// What one tick decided.
pub struct TickResult {
    /// Surface a warning that the tick overran its interval by more than a
    /// second; the run goes on regardless.
    pub warn_overrun: bool,
    /// Whether the run goes on.
    pub status: TickStatus,
}

/// What the capture collaborator produced for one tick.
pub enum SampleOutcome {
    /// A successful capture: the traces of all threads.
    Traces(Vec<StackTrace>),
    /// A failed capture, and whether the target process has exited.
    CaptureFailed {
        /// The target process is gone; the run ends normally.
        process_exited: bool,
    },
}

/// How long a recording runs.
#[derive(PartialEq, Eq, Structural, Clone, Copy, Debug)]
pub enum RecordDuration {
    /// Sample until cancelled or the process exits.
    Unlimited,
    /// Sample for this many whole seconds.
    Seconds(u64),
}

/// `x + 1`, staying put at the largest value.
pub open spec fn sat_inc(x: u64) -> u64 {
    if x == u64::MAX {
        x
    } else {
        (x + 1) as u64
    }
}

/// The scheduler's per-run state.
pub struct SchedulerState {
    /// Samples per second; at least one.
    pub sampling_rate: u64,
    /// The tick budget: processed ticks — successful and failed captures
    /// alike — to run, when finite.
    pub max_ticks: Option<u64>,
    /// Processed ticks so far: successful captures plus recoverable
    /// failures.
    pub ticks: u64,
    /// Successful capture ticks so far.
    pub samples: u64,
    /// Recoverable capture failures so far.
    pub errors: u64,
    /// The current time bucket: advanced once per `sampling_rate` ticks.
    pub time_stamp: u64,
    /// Ticks processed within the current bucket.
    pub sample_counter: u64,
    /// The trace filter policy of this run.
    pub policy: TracePolicy,
}

impl SchedulerState {
    /// The scheduler's invariant.
    pub open spec fn wf(self) -> bool {
        &&& self.sampling_rate >= 1
        &&& self.sample_counter < self.sampling_rate
    }

    /// Sets up a run: the tick budget of a finite duration is
    /// `seconds * sampling_rate` processed ticks.
    pub fn new(sampling_rate: u64, duration: RecordDuration, policy: TracePolicy) -> (s:
        SchedulerState)
        requires
            sampling_rate >= 1,
            duration matches RecordDuration::Seconds(n) ==> n * sampling_rate <= u64::MAX,
        ensures
            s.wf(),
            s.sampling_rate == sampling_rate,
            s.ticks == 0 && s.samples == 0 && s.errors == 0,
            s.time_stamp == 0 && s.sample_counter == 0,
            s.policy == policy,
            match duration {
                RecordDuration::Unlimited => s.max_ticks is None,
                RecordDuration::Seconds(n) => s.max_ticks == Some((n * sampling_rate) as u64),
            },
    {
        let max_ticks = match duration {
            RecordDuration::Unlimited => None,
            RecordDuration::Seconds(n) => {
                proof {
                    assert(n * sampling_rate <= u64::MAX);
                }
                Some(n * sampling_rate)
            },
        };
        SchedulerState {
            sampling_rate,
            max_ticks,
            ticks: 0,
            samples: 0,
            errors: 0,
            time_stamp: 0,
            sample_counter: 0,
            policy,
        }
    }

    /// Advances the processed-tick count; every `sampling_rate` processed
    /// ticks the time bucket advances by one, regardless of wall-clock time.
    fn advance_tick(&mut self)
        requires
            old(self).wf(),
        ensures
            final(self).wf(),
            final(self).sampling_rate == old(self).sampling_rate,
            final(self).max_ticks == old(self).max_ticks,
            final(self).ticks == sat_inc(old(self).ticks),
            final(self).samples == old(self).samples,
            final(self).errors == old(self).errors,
            final(self).policy == old(self).policy,
            old(self).sample_counter + 1 == old(self).sampling_rate ==> final(self).sample_counter
                == 0 && final(self).time_stamp == sat_inc(old(self).time_stamp),
            old(self).sample_counter + 1 < old(self).sampling_rate ==> final(self).sample_counter
                == old(self).sample_counter + 1 && final(self).time_stamp == old(self).time_stamp,
    {
        if self.ticks < u64::MAX {
            self.ticks = self.ticks + 1;
        }
        if self.sample_counter + 1 == self.sampling_rate {
            self.sample_counter = 0;
            if self.time_stamp < u64::MAX {
                self.time_stamp = self.time_stamp + 1;
            }
        } else {
            self.sample_counter = self.sample_counter + 1;
        }
    }

    /// Whether the processed ticks have reached a finite tick budget.
    fn budget_status(&self) -> (r: TickStatus)
        ensures
            r == (match self.max_ticks {
                Some(m) => if self.ticks >= m {
                    TickStatus::Stopped(StopReason::DurationElapsed)
                } else {
                    TickStatus::Running
                },
                None => TickStatus::Running,
            }),
    {
        match self.max_ticks {
            Some(m) => {
                if self.ticks >= m {
                    TickStatus::Stopped(StopReason::DurationElapsed)
                } else {
                    TickStatus::Running
                }
            },
            None => TickStatus::Running,
        }
    }
}


/// How a recorder relates to its old value after one retained trace was
/// folded in at bucket `ts`. For the counter forms the result reports
/// saturation; the event log always has room.
pub open spec fn recorder_incremented(
    r0: Recorder,
    r1: Recorder,
    ts: u64,
    t2: StackTrace,
    r: Result<(), RecordError>,
) -> bool {
    match (r0, r1) {
        (Recorder::Flamegraph(f0), Recorder::Flamegraph(f1)) => flame_incremented(f0, f1, ts, t2, r),
        (Recorder::Raw(g0), Recorder::Raw(g1)) => flame_incremented(g0.0, g1.0, ts, t2, r),
        (Recorder::Speedscope(s0), Recorder::Speedscope(s1)) => {
            &&& r is Ok
            &&& s1.show_linenumbers == s0.show_linenumbers
            &&& s1.events@.len() == s0.events@.len() + 1
            &&& forall|x: int|
                0 <= x < s0.events@.len() ==> (#[trigger] s1.events@[x]) == s0.events@[x]
            &&& s1.events@.last().time_stamp == ts
            &&& s1.events@.last().path@ == folded_path(t2.frames@, s0.show_linenumbers)
        },
        _ => false,
    }
}

/// How one counter aggregator relates to another after one trace was folded
/// in at bucket `ts`.
pub open spec fn flame_incremented(
    f0: Flamegraph,
    f1: Flamegraph,
    ts: u64,
    t2: StackTrace,
    r: Result<(), RecordError>,
) -> bool {
    let p = folded_path(t2.frames@, f0.show_linenumbers);
    &&& f1.show_linenumbers == f0.show_linenumbers
    &&& match r {
        Ok(()) => {
            &&& sum_counts(lookup_buckets(f0.counts@, p)) < usize::MAX
            &&& sum_counts(lookup_buckets(f1.counts@, p)) == sum_counts(
                lookup_buckets(f0.counts@, p),
            ) + 1
            &&& bucket_count(lookup_buckets(f1.counts@, p), ts) == bucket_count(
                lookup_buckets(f0.counts@, p),
                ts,
            ) + 1
            &&& forall|u: u64|
                u != ts ==> bucket_count(lookup_buckets(f1.counts@, p), u) == bucket_count(
                    lookup_buckets(f0.counts@, p),
                    u,
                )
            &&& forall|q: Seq<char>|
                q != p ==> #[trigger] lookup_buckets(f1.counts@, q) == lookup_buckets(f0.counts@, q)
        },
        Err(e) => {
            &&& e == RecordError::CountSaturated
            &&& sum_counts(lookup_buckets(f0.counts@, p)) == usize::MAX
            &&& f1.counts@ == f0.counts@
        },
    }
}

impl Recorder {
    /// Folds one retained trace into the selected aggregator at bucket
    /// `time_stamp`.
    pub fn increment(&mut self, time_stamp: u64, trace: &StackTrace) -> (r: Result<
        (),
        RecordError,
    >)
        requires
            old(self).wf(),
        ensures
            final(self).wf(),
            recorder_incremented(*old(self), *final(self), time_stamp, *trace, r),
    {
        match self {
            Recorder::Flamegraph(fg) => fg.increment(time_stamp, trace),
            Recorder::Speedscope(st) => {
                st.record(time_stamp, trace);
                Ok(())
            },
            Recorder::Raw(rf) => rf.increment(time_stamp, trace),
        }
    }
}


/// The per-path contribution count is non-negative and grows along prefixes.
proof fn lemma_cf_prefix(
    traces: Seq<StackTrace>,
    k: int,
    policy: TracePolicy,
    show: bool,
    p: Seq<char>,
)
    requires
        0 <= k <= traces.len(),
    ensures
        0 <= count_folding(traces.subrange(0, k), policy, show, p) <= count_folding(
            traces,
            policy,
            show,
            p,
        ),
    decreases traces.len(),
{
    if k == traces.len() {
        assert(traces.subrange(0, k) =~= traces);
        lemma_cf_nonneg(traces, policy, show, p);
    } else {
        assert(traces.drop_last().subrange(0, k) =~= traces.subrange(0, k));
        lemma_cf_prefix(traces.drop_last(), k, policy, show, p);
    }
}

/// The per-path contribution count is non-negative.
proof fn lemma_cf_nonneg(traces: Seq<StackTrace>, policy: TracePolicy, show: bool, p: Seq<char>)
    ensures
        count_folding(traces, policy, show, p) >= 0,
    decreases traces.len(),
{
    if traces.len() > 0 {
        lemma_cf_nonneg(traces.drop_last(), policy, show, p);
    }
}

/// Extending the processed prefix by one trace adds that trace's
/// contribution.
proof fn lemma_cf_step(traces: Seq<StackTrace>, k: int, policy: TracePolicy, show: bool, p: Seq<char>)
    requires
        0 <= k < traces.len(),
    ensures
        count_folding(traces.subrange(0, k + 1), policy, show, p) == count_folding(
            traces.subrange(0, k),
            policy,
            show,
            p,
        ) + if retained(policy, traces[k]) && annotated_path(policy, traces[k], show) == p {
            1int
        } else {
            0int
        },
{
    let pre = traces.subrange(0, k);
    let post = traces.subrange(0, k + 1);
    assert(post.drop_last() =~= pre);
    assert(post.last() == traces[k]);
}

/// Extending the processed prefix by one trace appends its folded path when
/// it is retained.
proof fn lemma_rp_step(traces: Seq<StackTrace>, k: int, policy: TracePolicy, show: bool)
    requires
        0 <= k < traces.len(),
    ensures
        retained(policy, traces[k]) ==> retained_paths(traces.subrange(0, k + 1), policy, show)
            == retained_paths(traces.subrange(0, k), policy, show).push(
            annotated_path(policy, traces[k], show),
        ),
        !retained(policy, traces[k]) ==> retained_paths(traces.subrange(0, k + 1), policy, show)
            == retained_paths(traces.subrange(0, k), policy, show),
{
    let pre = traces.subrange(0, k);
    let post = traces.subrange(0, k + 1);
    assert(post.drop_last() =~= pre);
    assert(post.last() == traces[k]);
    if retained(policy, traces[k]) {
        assert(retained_paths(pre, policy, show) + seq![
            annotated_path(policy, traces[k], show),
        ] =~= retained_paths(pre, policy, show).push(annotated_path(policy, traces[k], show)));
    } else {
        assert(retained_paths(pre, policy, show) + Seq::<Seq<char>>::empty() =~= retained_paths(
            pre,
            policy,
            show,
        ));
    }
}

/// Folding in nothing relates a recorder to itself.
proof fn lemma_recorder_partial_zero(
    r0: Recorder,
    traces: Seq<StackTrace>,
    ts: u64,
    policy: TracePolicy,
)
    ensures
        recorder_partial(r0, r0, traces, 0, ts, policy),
{
    assert(traces.subrange(0, 0) =~= Seq::<StackTrace>::empty());
    match r0 {
        Recorder::Flamegraph(f0) => {
            assert(flame_partial(f0, f0, traces, 0, ts, policy));
        },
        Recorder::Raw(g0) => {
            assert(flame_partial(g0.0, g0.0, traces, 0, ts, policy));
        },
        Recorder::Speedscope(s0) => {
            assert(stats_partial(s0, s0, traces, 0, ts, policy));
        },
    }
}

/// A dropped trace leaves the recorder where it was.
proof fn lemma_recorder_partial_skip(
    r0: Recorder,
    r1: Recorder,
    traces: Seq<StackTrace>,
    k: int,
    ts: u64,
    policy: TracePolicy,
)
    requires
        0 <= k < traces.len(),
        recorder_partial(r0, r1, traces, k, ts, policy),
        !retained(policy, traces[k]),
    ensures
        recorder_partial(r0, r1, traces, k + 1, ts, policy),
{
    match (r0, r1) {
        (Recorder::Flamegraph(f0), Recorder::Flamegraph(f1)) => {
            assert forall|p: Seq<char>|
                sum_counts(#[trigger] lookup_buckets(f0.counts@, p)) + count_folding(
                    traces,
                    policy,
                    f0.show_linenumbers,
                    p,
                ) <= usize::MAX implies {
                &&& bucket_count(lookup_buckets(f1.counts@, p), ts) == bucket_count(
                    lookup_buckets(f0.counts@, p),
                    ts,
                ) + count_folding(traces.subrange(0, k + 1), policy, f0.show_linenumbers, p)
                &&& sum_counts(lookup_buckets(f1.counts@, p)) == sum_counts(
                    lookup_buckets(f0.counts@, p),
                ) + count_folding(traces.subrange(0, k + 1), policy, f0.show_linenumbers, p)
            } by {
                lemma_cf_step(traces, k, policy, f0.show_linenumbers, p);
            }
        },
        (Recorder::Raw(g0), Recorder::Raw(g1)) => {
            assert forall|p: Seq<char>|
                sum_counts(#[trigger] lookup_buckets(g0.0.counts@, p)) + count_folding(
                    traces,
                    policy,
                    g0.0.show_linenumbers,
                    p,
                ) <= usize::MAX implies {
                &&& bucket_count(lookup_buckets(g1.0.counts@, p), ts) == bucket_count(
                    lookup_buckets(g0.0.counts@, p),
                    ts,
                ) + count_folding(traces.subrange(0, k + 1), policy, g0.0.show_linenumbers, p)
                &&& sum_counts(lookup_buckets(g1.0.counts@, p)) == sum_counts(
                    lookup_buckets(g0.0.counts@, p),
                ) + count_folding(traces.subrange(0, k + 1), policy, g0.0.show_linenumbers, p)
            } by {
                lemma_cf_step(traces, k, policy, g0.0.show_linenumbers, p);
            }
        },
        (Recorder::Speedscope(s0), Recorder::Speedscope(s1)) => {
            lemma_rp_step(traces, k, policy, s0.show_linenumbers);
        },
        _ => {},
    }
}

/// One flame-graph aggregator step: folding in a retained trace moves the
/// processed prefix forward by one.
proof fn lemma_flame_partial_step(
    f0: Flamegraph,
    f1: Flamegraph,
    f2: Flamegraph,
    traces: Seq<StackTrace>,
    k: int,
    ts: u64,
    policy: TracePolicy,
    t2: StackTrace,
    res: Result<(), RecordError>,
)
    requires
        0 <= k < traces.len(),
        flame_partial(f0, f1, traces, k, ts, policy),
        retained(policy, traces[k]),
        forall|show: bool|
            folded_path(t2.frames@, show) == #[trigger] annotated_path(policy, traces[k], show),
        flame_incremented(f1, f2, ts, t2, res),
    ensures
        flame_partial(f0, f2, traces, k + 1, ts, policy),
{
    let show = f0.show_linenumbers;
    let p0 = annotated_path(policy, traces[k], show);
    assert(folded_path(t2.frames@, show) == p0);
    assert forall|q: Seq<char>, u: u64| u != ts implies #[trigger] bucket_count(
        lookup_buckets(f2.counts@, q),
        u,
    ) == bucket_count(lookup_buckets(f0.counts@, q), u) by {
        if res is Ok {
            if q != p0 {
                assert(lookup_buckets(f2.counts@, q) == lookup_buckets(f1.counts@, q));
            }
        }
    }
    assert forall|p: Seq<char>|
        sum_counts(#[trigger] lookup_buckets(f0.counts@, p)) + count_folding(
            traces,
            policy,
            show,
            p,
        ) <= usize::MAX implies {
        &&& bucket_count(lookup_buckets(f2.counts@, p), ts) == bucket_count(
            lookup_buckets(f0.counts@, p),
            ts,
        ) + count_folding(traces.subrange(0, k + 1), policy, show, p)
        &&& sum_counts(lookup_buckets(f2.counts@, p)) == sum_counts(lookup_buckets(f0.counts@, p))
            + count_folding(traces.subrange(0, k + 1), policy, show, p)
    } by {
        lemma_cf_step(traces, k, policy, show, p);
        if p == p0 {
            lemma_cf_prefix(traces, k + 1, policy, show, p);
            assert(sum_counts(lookup_buckets(f1.counts@, p)) < usize::MAX);
            assert(res is Ok);
        } else {
            match res {
                Ok(()) => {
                    assert(lookup_buckets(f2.counts@, p) == lookup_buckets(f1.counts@, p));
                },
                Err(_) => {
                    assert(f2.counts@ == f1.counts@);
                },
            }
        }
    }
}

/// One recorder step: folding in a retained trace moves the processed prefix
/// forward by one.
proof fn lemma_recorder_partial_step(
    r0: Recorder,
    r1: Recorder,
    r2: Recorder,
    traces: Seq<StackTrace>,
    k: int,
    ts: u64,
    policy: TracePolicy,
    t2: StackTrace,
    res: Result<(), RecordError>,
)
    requires
        0 <= k < traces.len(),
        recorder_partial(r0, r1, traces, k, ts, policy),
        retained(policy, traces[k]),
        forall|show: bool|
            folded_path(t2.frames@, show) == #[trigger] annotated_path(policy, traces[k], show),
        recorder_incremented(r1, r2, ts, t2, res),
    ensures
        recorder_partial(r0, r2, traces, k + 1, ts, policy),
{
    match (r0, r1, r2) {
        (Recorder::Flamegraph(f0), Recorder::Flamegraph(f1), Recorder::Flamegraph(f2)) => {
            lemma_flame_partial_step(f0, f1, f2, traces, k, ts, policy, t2, res);
        },
        (Recorder::Raw(g0), Recorder::Raw(g1), Recorder::Raw(g2)) => {
            lemma_flame_partial_step(g0.0, g1.0, g2.0, traces, k, ts, policy, t2, res);
        },
        (Recorder::Speedscope(s0), Recorder::Speedscope(s1), Recorder::Speedscope(s2)) => {
            let show = s0.show_linenumbers;
            lemma_rp_step(traces, k, policy, show);
            let pre = retained_paths(traces.subrange(0, k), policy, show);
            let post = retained_paths(traces.subrange(0, k + 1), policy, show);
            assert(post == pre.push(annotated_path(policy, traces[k], show)));
            assert(s2.events@.len() == s1.events@.len() + 1);
            assert forall|x: int|
                s0.events@.len() <= x < s2.events@.len() implies (
            #[trigger] s2.events@[x]).time_stamp == ts && s2.events@[x].path@ == post[x
                - s0.events@.len()] by {
                if x < s1.events@.len() {
                    assert(s2.events@[x] == s1.events@[x]);
                    assert(post[x - s0.events@.len()] == pre[x - s0.events@.len()]);
                } else {
                    assert(x == s2.events@.len() - 1);
                    assert(s2.events@[x] == s2.events@.last());
                    assert(post[x - s0.events@.len()] == annotated_path(policy, traces[k], show));
                }
            }
        },
        _ => {},
    }
}


/// How the tick counter and the time bucket advance on one processed tick:
/// the bucket moves forward exactly once per `sampling_rate` ticks,
/// regardless of wall-clock time.
pub open spec fn tick_advanced(s0: SchedulerState, s1: SchedulerState) -> bool {
    if s0.sample_counter + 1 == s0.sampling_rate {
        s1.sample_counter == 0 && s1.time_stamp == sat_inc(s0.time_stamp)
    } else {
        s1.sample_counter == s0.sample_counter + 1 && s1.time_stamp == s0.time_stamp
    }
}

impl SchedulerState {
    /// Runs the decisions of one tick.
    ///
    /// In order: an overrun beyond one second is surfaced as a warning but
    /// never stops the run; a pending cancellation stops it; a failed
    /// capture stops it when the process has exited and is otherwise counted
    /// as a recoverable error; a successful capture has each trace filtered
    /// and the retained ones folded into the recorder at the current time
    /// bucket; the processed-tick count advances — on failed ticks too; and
    /// a finite tick budget, once reached by the processed ticks, stops the
    /// run. Stopping never discards what the recorder already holds.
    #[verifier::loop_isolation(false)]
    pub fn step(
        &mut self,
        recorder: &mut Recorder,
        cancelled: bool,
        overrun_over_second: bool,
        outcome: SampleOutcome,
    ) -> (r: TickResult)
        requires
            old(self).wf(),
            old(recorder).wf(),
        ensures
            final(self).wf(),
            final(recorder).wf(),
            r.warn_overrun == overrun_over_second,
            final(self).sampling_rate == old(self).sampling_rate,
            final(self).max_ticks == old(self).max_ticks,
            final(self).policy == old(self).policy,
            ({
                if cancelled {
                    &&& r.status == TickStatus::Stopped(StopReason::Cancelled)
                    &&& *final(self) == *old(self)
                    &&& *final(recorder) == *old(recorder)
                } else {
                    match outcome {
                        SampleOutcome::CaptureFailed { process_exited } => {
                            if process_exited {
                                &&& r.status == TickStatus::Stopped(StopReason::ProcessEnded)
                                &&& *final(self) == *old(self)
                                &&& *final(recorder) == *old(recorder)
                            } else {
                                &&& *final(recorder) == *old(recorder)
                                &&& final(self).ticks == sat_inc(old(self).ticks)
                                &&& final(self).samples == old(self).samples
                                &&& final(self).errors == sat_inc(old(self).errors)
                                &&& tick_advanced(*old(self), *final(self))
                                &&& r.status == (match old(self).max_ticks {
                                    Some(m) => if sat_inc(old(self).ticks) >= m {
                                        TickStatus::Stopped(StopReason::DurationElapsed)
                                    } else {
                                        TickStatus::Running
                                    },
                                    None => TickStatus::Running,
                                })
                            }
                        },
                        SampleOutcome::Traces(traces) => {
                            &&& recorder_updated(
                                *old(recorder),
                                *final(recorder),
                                traces@,
                                old(self).time_stamp,
                                old(self).policy,
                            )
                            &&& final(self).ticks == sat_inc(old(self).ticks)
                            &&& final(self).samples == sat_inc(old(self).samples)
                            &&& final(self).errors == old(self).errors
                            &&& tick_advanced(*old(self), *final(self))
                            &&& r.status == (match old(self).max_ticks {
                                Some(m) => if sat_inc(old(self).ticks) >= m {
                                    TickStatus::Stopped(StopReason::DurationElapsed)
                                } else {
                                    TickStatus::Running
                                },
                                None => TickStatus::Running,
                            })
                        },
                    }
                }
            }),
    {
        let warn = overrun_over_second;
        if cancelled {
            return TickResult {
                warn_overrun: warn,
                status: TickStatus::Stopped(StopReason::Cancelled),
            };
        }
        match outcome {
            SampleOutcome::CaptureFailed { process_exited } => {
                if process_exited {
                    return TickResult {
                        warn_overrun: warn,
                        status: TickStatus::Stopped(StopReason::ProcessEnded),
                    };
                }
                if self.errors < u64::MAX {
                    self.errors = self.errors + 1;
                }
                self.advance_tick();
                TickResult { warn_overrun: warn, status: self.budget_status() }
            },
            SampleOutcome::Traces(traces) => {
                let ghost all = traces@;
                let ghost rec0 = *recorder;
                let mut traces = traces;
                let n = traces.len();
                let mut k: usize = 0;
                proof {
                    lemma_recorder_partial_zero(rec0, all, self.time_stamp, self.policy);
                    assert(all.skip(0) =~= all);
                }
                loop
                    invariant
                        0 <= k <= n,
                        n == all.len(),
                        traces@ == all.skip(k as int),
                        *self == *old(self),
                        recorder.wf(),
                        recorder_partial(
                            rec0,
                            *recorder,
                            all,
                            k as int,
                            old(self).time_stamp,
                            old(self).policy,
                        ),
                    decreases n - k,
                {
                    if k == n {
                        break;
                    }
                    let t = traces.remove(0);
                    proof {
                        assert(all.skip(k as int)[0] == all[k as int]);
                        assert(all.skip(k as int).skip(1) =~= all.skip(k + 1));
                        assert(t == all[k as int]);
                    }
                    let ghost rec_pre = *recorder;
                    match filter_trace(&self.policy, t) {
                        Some(t2) => {
                            let res = recorder.increment(self.time_stamp, &t2);
                            proof {
                                lemma_recorder_partial_step(
                                    rec0,
                                    rec_pre,
                                    *recorder,
                                    all,
                                    k as int,
                                    old(self).time_stamp,
                                    old(self).policy,
                                    t2,
                                    res,
                                );
                            }
                        },
                        None => {
                            proof {
                                lemma_recorder_partial_skip(
                                    rec0,
                                    *recorder,
                                    all,
                                    k as int,
                                    old(self).time_stamp,
                                    old(self).policy,
                                );
                            }
                        },
                    }
                    k = k + 1;
                }
                if self.samples < u64::MAX {
                    self.samples = self.samples + 1;
                }
                self.advance_tick();
                TickResult { warn_overrun: warn, status: self.budget_status() }
            },
        }
    }
}

} // verus!
