use vstd::prelude::*;

use crate::model::Model;
use crate::signals::SignalStore;

verus! {

/// A capability set of optional lifecycle callbacks, invoked
/// synchronously by the scheduler in registration order. Every callback
/// defaults to a no-op. An observer receives read-only access to the
/// model: it may query outputs but cannot mutate engine state.
pub trait Hook: Sized {
    /// Called after simulated time advances, before any edge handling.
    /// The default does nothing: the observer's state is unchanged.
    fn on_step(&mut self, _time: u64, _model: &Model)
        requires
            _model.wf(),
        default_ensures
            *final(self) == *old(self),
    {
    }

    /// Called on a rising edge, before the engine's clock operation.
    /// The default does nothing: the observer's state is unchanged.
    fn pre_clock(&mut self, _time: u64, _clock_name: &str, _model: &Model)
        requires
            _model.wf(),
        default_ensures
            *final(self) == *old(self),
    {
    }

    /// Called on a rising edge, after the engine's clock operation.
    /// The default does nothing: the observer's state is unchanged.
    fn post_clock(&mut self, _time: u64, _clock_name: &str, _model: &Model)
        requires
            _model.wf(),
        default_ensures
            *final(self) == *old(self),
    {
    }

    /// Called when the scheduler resets.
    /// The default does nothing: the observer's state is unchanged.
    fn on_reset(&mut self, _time: u64, _model: &Model)
        requires
            _model.wf(),
        default_ensures
            *final(self) == *old(self),
    {
    }

    /// Called when a `run` call ends.
    /// The default does nothing: the observer's state is unchanged.
    fn on_finish(&mut self, _time: u64, _model: &Model)
        requires
            _model.wf(),
        default_ensures
            *final(self) == *old(self),
    {
    }
}

/// A hook meant to trap the simulation when a condition is met, useful
/// for debugging; the conditional breakpoints themselves are not
/// implemented yet, so every callback keeps its default behavior.
pub struct BreakPoint {}

impl BreakPoint {
    pub fn new() -> BreakPoint {
        BreakPoint {}
    }
}

impl Hook for BreakPoint {}

/// The signals the diagnostic logger snapshots: the outputs named `a`
/// and `b`, the ones the bundled example modules drive.
pub open spec fn spec_observed(outputs: Map<Seq<char>, usize>) -> Map<Seq<char>, usize> {
    let base = Map::<Seq<char>, usize>::empty();
    let with_a = if outputs.contains_key("a"@) {
        base.insert("a"@, outputs["a"@])
    } else {
        base
    };
    if outputs.contains_key("b"@) {
        with_a.insert("b"@, outputs["b"@])
    } else {
        with_a
    }
}

/// Logs every change to a buffer: this logger consumes more memory than
/// a streaming one, but keeps the whole waveform for later analysis.
/// Rendering the recorded events to text is left to the caller.
pub struct BufLogger {
    /// The recorded (time, signal snapshot) events.
    pub events: Vec<(u64, SignalStore)>,
}

impl BufLogger {
    pub fn new() -> (l: BufLogger)
        ensures
            l.events@.len() == 0,
    {
        BufLogger { events: Vec::new() }
    }

    /// Snapshots the observed output signals of the model.
    pub fn collect_signals(&self, model: &Model) -> (s: SignalStore)
        requires
            model.wf(),
        ensures
            s.wf(),
            s@ == spec_observed(model.state().outputs),
    {
        let mut signals = SignalStore::new();
        match model.get("a") {
            Some(val) => signals.set("a", val),
            None => {},
        }
        match model.get("b") {
            Some(val) => signals.set("b", val),
            None => {},
        }
        signals
    }

    /// Appends one (time, observed signals) event; earlier events are
    /// untouched and the model is only read. The reset and post-clock
    /// callbacks both record through here.
    pub fn record(&mut self, time: u64, model: &Model)
        requires
            model.wf(),
        ensures
            final(self).events@.len() == old(self).events@.len() + 1,
            final(self).events@.drop_last() == old(self).events@,
            final(self).events@.last().0 == time,
            final(self).events@.last().1.wf(),
            final(self).events@.last().1@ == spec_observed(model.state().outputs),
    {
        let signals = self.collect_signals(model);
        self.events.push((time, signals));
        proof {
            assert(self.events@.drop_last() =~= old(self).events@);
        }
    }
}

impl Hook for BufLogger {
    fn on_reset(&mut self, time: u64, model: &Model) {
        self.record(time, model);
    }

    fn post_clock(&mut self, time: u64, _clock_name: &str, model: &Model) {
        self.record(time, model);
    }
}

} // verus!
