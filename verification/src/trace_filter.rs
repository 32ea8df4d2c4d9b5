//! The stack trace filter: decides per trace whether it is retained under
//! the active policy, and optionally annotates it with a synthetic thread
//! frame. Pure and stateless per call.

use vstd::prelude::*;

use crate::stack_trace::{folded_path, frame_label, Frame, StackTrace};
use crate::text::{dec_chars, u64_to_string};

verus! {

/// The idle/GIL/thread-annotation policy applied to each captured trace.
#[derive(Clone, Copy)]
pub struct TracePolicy {
    /// Keep traces of idle threads.
    pub include_idle: bool,
    /// Keep only traces of the thread holding the interpreter's
    /// exclusive-execution token.
    pub gil_only: bool,
    /// Append a synthetic outermost frame naming the thread.
    pub include_thread_ids: bool,
}

/// Whether the policy retains a trace: idle threads are dropped unless
/// included, and with `gil_only` every thread not holding the token is
/// dropped.
pub open spec fn retained(policy: TracePolicy, t: StackTrace) -> bool {
    (policy.include_idle || t.active) && (!policy.gil_only || t.owns_gil)
}

/// The label of the synthetic thread frame: `thread {id} ()`.
pub open spec fn thread_frame_label(tid: u64) -> Seq<char> {
    "thread "@ + dec_chars(tid as nat) + " ("@ + ")"@
}

/// The folded path of a trace after policy annotation: with thread
/// annotation the synthetic frame becomes the outermost label.
pub open spec fn annotated_path(policy: TracePolicy, t: StackTrace, show: bool) -> Seq<char> {
    if policy.include_thread_ids {
        if t.frames@.len() == 0 {
            thread_frame_label(t.thread_id)
        } else {
            thread_frame_label(t.thread_id) + ";"@ + folded_path(t.frames@, show)
        }
    } else {
        folded_path(t.frames@, show)
    }
}

/// Appending a frame prepends its label to the folded path.
pub proof fn lemma_folded_push(frames: Seq<Frame>, f: Frame, show: bool)
    ensures
        frames.len() == 0 ==> folded_path(frames.push(f), show) == frame_label(f, show),
        frames.len() > 0 ==> folded_path(frames.push(f), show) == frame_label(f, show) + ";"@
            + folded_path(frames, show),
    decreases frames.len(),
{
    let fs = frames.push(f);
    if frames.len() == 0 {
        assert(fs.len() == 1);
        assert(fs[0] == f);
    } else {
        assert(fs.skip(1) =~= frames.skip(1).push(f));
        lemma_folded_push(frames.skip(1), f, show);
        assert(fs[0] == frames[0]);
        if frames.len() == 1 {
            assert(folded_path(fs, show) == folded_path(fs.skip(1), show) + ";"@ + frame_label(
                fs[0],
                show,
            ));
            assert(folded_path(fs.skip(1), show) == frame_label(f, show));
        } else {
            assert(folded_path(fs, show) == (frame_label(f, show) + ";"@ + folded_path(
                frames.skip(1),
                show,
            )) + ";"@ + frame_label(frames[0], show));
            assert((frame_label(f, show) + ";"@ + folded_path(frames.skip(1), show)) + ";"@
                + frame_label(frames[0], show) =~= frame_label(f, show) + ";"@ + (folded_path(
                frames.skip(1),
                show,
            ) + ";"@ + frame_label(frames[0], show)));
        }
    }
}

/// Applies the policy to one trace: `None` when the trace is dropped, the
/// (possibly thread-annotated) trace when it is retained.
pub fn filter_trace(policy: &TracePolicy, trace: StackTrace) -> (r: Option<StackTrace>)
    ensures
        match r {
            Some(t2) => {
                &&& retained(*policy, trace)
                &&& t2.thread_id == trace.thread_id
                &&& t2.os_thread_id == trace.os_thread_id
                &&& t2.active == trace.active
                &&& t2.owns_gil == trace.owns_gil
                &&& t2.status@ == trace.status@
                &&& !policy.include_thread_ids ==> t2.frames@ == trace.frames@
                &&& policy.include_thread_ids ==> {
                    &&& t2.frames@.len() == trace.frames@.len() + 1
                    &&& t2.frames@.drop_last() == trace.frames@
                    &&& t2.frames@.last().name@ == "thread "@ + dec_chars(trace.thread_id as nat)
                    &&& t2.frames@.last().filename@ == Seq::<char>::empty()
                    &&& t2.frames@.last().short_filename is None
                    &&& t2.frames@.last().module is None
                    &&& t2.frames@.last().line == 0
                }
                &&& forall|show: bool|
                    folded_path(t2.frames@, show) == #[trigger] annotated_path(
                        *policy,
                        trace,
                        show,
                    )
            },
            None => !retained(*policy, trace),
        },
{
    if !(policy.include_idle || trace.active) {
        return None;
    }
    if policy.gil_only && !trace.owns_gil {
        return None;
    }
    if policy.include_thread_ids {
        let ghost orig = trace;
        let mut trace = trace;
        let mut name = "thread ".to_owned();
        let tid_s = u64_to_string(trace.thread_id);
        name.append(tid_s.as_str());
        let f = Frame { name, filename: String::new(), short_filename: None, module: None, line: 0 };
        trace.frames.push(f);
        proof {
            let fl = trace.frames@.last();
            assert(trace.frames@ == orig.frames@.push(fl));
            assert(trace.frames@.drop_last() =~= orig.frames@);
            assert(fl.name@ == "thread "@ + dec_chars(orig.thread_id as nat));
            assert(fl.filename@ == Seq::<char>::empty());
            assert forall|show: bool|
                folded_path(trace.frames@, show) == #[trigger] annotated_path(
                    *policy,
                    orig,
                    show,
                ) by {
                lemma_folded_push(orig.frames@, fl, show);
                assert(frame_label(fl, show) =~= thread_frame_label(orig.thread_id));
            }
        }
        Some(trace)
    } else {
        Some(trace)
    }
}


/// A trace of a thread that is not executing is dropped whenever idle
/// threads are excluded, and retained — and so aggregated — whenever they
/// are included and the exclusive-execution restriction does not drop it.
pub proof fn lemma_idle_exclusion(policy: TracePolicy, t: StackTrace)
    requires
        !t.active,
    ensures
        !policy.include_idle ==> !retained(policy, t),
        policy.include_idle && (!policy.gil_only || t.owns_gil) ==> retained(policy, t),
{
}

} // verus!
