//! The speedscope-style aggregator: a log of discrete (timestamp, folded
//! path) events for an event-log viewer.

use vstd::prelude::*;

use crate::stack_trace::{fold_trace, folded_path, StackTrace};

verus! {

/// One recorded sample event.
pub struct SampleEvent {
    /// The time bucket the sample fell in.
    pub time_stamp: u64,
    /// The folded path of the sampled stack.
    pub path: String,
}

/// The event-log aggregator.
pub struct Stats {
    /// The recorded events, in arrival order.
    pub events: Vec<SampleEvent>,
    /// Whether folded paths carry source line numbers.
    pub show_linenumbers: bool,
}

impl Stats {
    /// Creates an empty event log.
    pub fn new(show_linenumbers: bool) -> (s: Stats)
        ensures
            s.events@.len() == 0,
            s.show_linenumbers == show_linenumbers,
    {
        Stats { events: Vec::new(), show_linenumbers }
    }

    /// Appends one sample event for a retained trace.
    pub fn record(&mut self, time_stamp: u64, trace: &StackTrace)
        ensures
            final(self).show_linenumbers == old(self).show_linenumbers,
            final(self).events@.len() == old(self).events@.len() + 1,
            forall|k: int|
                0 <= k < old(self).events@.len() ==> (#[trigger] final(self).events@[k]) == old(
                    self,
                ).events@[k],
            final(self).events@.last().time_stamp == time_stamp,
            final(self).events@.last().path@ == folded_path(
                trace.frames@,
                old(self).show_linenumbers,
            ),
    {
        let path = fold_trace(trace, self.show_linenumbers);
        self.events.push(SampleEvent { time_stamp, path });
    }
}

} // verus!
