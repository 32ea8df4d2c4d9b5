//! Stack traces as captured at one sampling instant, and the folded-path
//! encoding used as the aggregation key.

use vstd::prelude::*;

use crate::text::{dec_chars, u64_to_string};

verus! {

/// One stack level of a captured call stack. Immutable once captured.
pub struct Frame {
    /// Symbol or function identifier.
    pub name: String,
    /// Full path of the source file.
    pub filename: String,
    /// Display-optimized path, if one is available.
    pub short_filename: Option<String>,
    /// Module the frame belongs to, if known.
    pub module: Option<String>,
    /// Source line, `0` if unknown or native-only.
    pub line: u64,
}

/// One OS thread's state at one sample instant. Frames are ordered from
/// innermost to outermost call.
pub struct StackTrace {
    /// Interpreter-level thread identifier.
    pub thread_id: u64,
    /// OS-level thread identifier, if known.
    pub os_thread_id: Option<u64>,
    /// Whether the thread is executing, as opposed to idle or blocked.
    pub active: bool,
    /// Whether the thread holds the interpreter's exclusive-execution token.
    pub owns_gil: bool,
    /// Human-readable status label.
    pub status: String,
    /// The call stack, innermost frame first.
    pub frames: Vec<Frame>,
}

/// The file name a frame is displayed with: the display-optimized path when
/// present, the full path otherwise.
pub open spec fn frame_file(f: Frame) -> Seq<char> {
    match f.short_filename {
        Some(s) => s@,
        None => f.filename@,
    }
}

/// The rendering of one frame: `name (file)`, or `name (file:line)` when
/// line numbers are requested and the line is known.
pub open spec fn frame_label(f: Frame, show_line_numbers: bool) -> Seq<char> {
    if show_line_numbers && f.line != 0 {
        f.name@ + " ("@ + frame_file(f) + ":"@ + dec_chars(f.line as nat) + ")"@
    } else {
        f.name@ + " ("@ + frame_file(f) + ")"@
    }
}

/// The folded path of a call stack: frame labels from outermost to innermost,
/// joined by `;`.
pub open spec fn folded_path(frames: Seq<Frame>, show_line_numbers: bool) -> Seq<char>
    decreases frames.len(),
{
    if frames.len() == 0 {
        Seq::empty()
    } else if frames.len() == 1 {
        frame_label(frames[0], show_line_numbers)
    } else {
        folded_path(frames.skip(1), show_line_numbers) + ";"@ + frame_label(
            frames[0],
            show_line_numbers,
        )
    }
}

impl Frame {
    /// Renders this frame as `name (file)` or `name (file:line)`.
    pub fn label(&self, show_line_numbers: bool) -> (s: String)
        ensures
            s@ == frame_label(*self, show_line_numbers),
    {
        proof {
            reveal_strlit(" (");
            reveal_strlit(":");
            reveal_strlit(")");
        }
        let mut s = self.name.clone();
        s.append(" (");
        match &self.short_filename {
            Some(sf) => s.append(sf.as_str()),
            None => s.append(self.filename.as_str()),
        }
        if show_line_numbers && self.line != 0 {
            s.append(":");
            let line_s = u64_to_string(self.line);
            s.append(line_s.as_str());
        }
        s.append(")");
        s
    }
}

impl StackTrace {
    /// The human-readable status label of the thread.
    pub fn status_str(&self) -> (s: String)
        ensures
            s@ == self.status@,
    {
        self.status.clone()
    }
}

/// Folds a trace into its aggregation key: the frames reversed, outermost
/// first, each rendered by [`frame_label`] and joined by `;`.
pub fn fold_trace(trace: &StackTrace, show_line_numbers: bool) -> (s: String)
    ensures
        s@ == folded_path(trace.frames@, show_line_numbers),
{
    proof {
        reveal_strlit(";");
    }
    let n = trace.frames.len();
    let mut s = String::new();
    let mut i = n;
    while i > 0
        invariant
            0 <= i <= n,
            n == trace.frames@.len(),
            s@ == folded_path(trace.frames@.skip(i as int), show_line_numbers),
        decreases i,
    {
        if i != n {
            s.append(";");
        }
        let label = trace.frames[i - 1].label(show_line_numbers);
        s.append(label.as_str());
        proof {
            let frames = trace.frames@;
            let t = frames.skip(i - 1);
            assert(t[0] == frames[i - 1]);
            if i != n {
                assert(t.skip(1) =~= frames.skip(i as int));
                assert(t.len() >= 2);
            } else {
                assert(t.len() == 1);
                assert(frames.skip(i as int) =~= Seq::<Frame>::empty());
            }
        }
        i = i - 1;
    }
    proof {
        assert(trace.frames@.skip(0) =~= trace.frames@);
    }
    s
}

} // verus!
