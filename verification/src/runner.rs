//! The control loop's decisions.
//!
//! The loop runs the engine on its own thread. Commands reach it by channel and are drained
//! between ticks, so an edit can never interleave with an evaluation in progress. What a command
//! does, what readers outside the loop may see of it, and how long to rest are decided here; the
//! thread only measures time and carries it out.
use crate::engine::{
    installed, listed, quantities_in, repoliced, tachometers_in, Engine, EngineView,
};
use crate::graph::{error_views, Graph, GraphError};
use crate::hal::{Backend, ChannelInfo, HalError, SensorInfo};
use crate::policy::SafetyPolicy;
use crate::validate::all_errors;
use vstd::prelude::*;

verus! {

/// Work handed to the loop between ticks.
pub enum Command {
    SetGraph(Graph),
    SetPolicy(SafetyPolicy),
    Rescan,
}

/// What came of a command, and with it what is published.
pub enum Obeyed {
    /// The engine runs the graph: it is published.
    GraphInstalled,
    /// The engine refused the graph, and runs what it ran before: nothing is published, so a
    /// reader never sees a graph that was refused.
    GraphRejected(Vec<GraphError>),
    /// The policy was replaced.
    PolicyReplaced,
    /// The hardware was enumerated again: the inventory is published.
    Rescanned,
}

/// What enumerating the hardware again comes to.
pub open spec fn rescanned<B: Backend>(device: B, before: EngineView, after: EngineView) -> bool {
    &&& exists|answer: Result<Vec<SensorInfo>, HalError>| #[trigger]
        call_ensures(B::sensors, (&device,), answer) && after.quantities == quantities_in(
            listed(answer),
            listed(answer).len(),
        )
    &&& exists|answer: Result<Vec<ChannelInfo>, HalError>| #[trigger]
        call_ensures(B::channels, (&device,), answer) && after.tachometers == tachometers_in(
            listed(answer),
            listed(answer).len(),
        )
    &&& after == (EngineView {
        quantities: after.quantities,
        tachometers: after.tachometers,
        ..before
    })
}

/// Does what a command asks, between two ticks.
pub fn obey<B: Backend>(engine: &mut Engine<B>, command: Command) -> (r: Obeyed)
    ensures
        match command {
            Command::SetGraph(graph) => match r {
                Obeyed::GraphInstalled => installed(old(engine)@, graph@, final(engine)@)
                    && final(engine)@.covered(),
                Obeyed::GraphRejected(errors) => errors@.len() > 0 && error_views(errors@)
                    == all_errors(graph@) && *final(engine) == *old(engine),
                _ => false,
            },
            Command::SetPolicy(policy) => r is PolicyReplaced && repoliced(
                old(engine)@,
                policy@,
                final(engine)@,
            ) && final(engine)@.covered() && final(engine).device() == old(engine).device(),
            Command::Rescan => r is Rescanned && rescanned(
                old(engine).device(),
                old(engine)@,
                final(engine)@,
            ) && final(engine).device() == old(engine).device(),
        },
        final(engine).device().restores() == old(engine).device().restores(),
        final(engine).device().last_read() == old(engine).device().last_read(),
{
    match command {
        Command::SetGraph(graph) => match engine.set_graph(graph) {
            Ok(_) => Obeyed::GraphInstalled,
            Err(errors) => Obeyed::GraphRejected(errors),
        },
        Command::SetPolicy(policy) => {
            engine.set_policy(policy);
            Obeyed::PolicyReplaced
        },
        Command::Rescan => {
            engine.rescan();
            Obeyed::Rescanned
        },
    }
}

/// How many ticks there have been, and how many of them overran their period.
#[derive(Debug, Clone, Copy, PartialEq, Eq, Structural)]
pub struct Pace {
    /// Monotonic counter, so a consumer can tell a fresh tick from a repeated read.
    pub sequence: u64,
    /// Ticks that overran their period. A rising count means the machine cannot keep up.
    pub overruns: u64,
}

impl Pace {
    /// Before the first tick.
    pub fn new() -> (r: Pace)
        ensures
            r == (Pace { sequence: 0, overruns: 0 }),
    {
        Pace { sequence: 0, overruns: 0 }
    }

    /// One more tick, which took `elapsed` of its `period`. At most as many ticks overrun as
    /// there are.
    pub fn beat(&mut self, elapsed: u128, period: u128)
        requires
            old(self).sequence < u64::MAX,
            old(self).overruns <= old(self).sequence,
        ensures
            final(self).sequence == old(self).sequence + 1,
            final(self).overruns == old(self).overruns + if elapsed > period {
                1int
            } else {
                0int
            },
            final(self).overruns <= final(self).sequence,
    {
        if elapsed > period {
            self.overruns = self.overruns + 1;
        }
        self.sequence = self.sequence + 1;
    }
}

/// How long to rest after a tick: only the remainder of its period, so a slow tick does not
/// compound into drift.
pub fn rest(elapsed: u128, period: u128) -> (r: Option<u128>)
    ensures
        r == if elapsed <= period {
            Some((period - elapsed) as u128)
        } else {
            None
        },
{
    if elapsed <= period {
        Some(period - elapsed)
    } else {
        None
    }
}

/// A reader never sees a graph that the engine does not run: what is published after a command
/// is what the engine runs, if it was before.
pub proof fn what_is_published_is_what_runs(
    before: EngineView,
    published: crate::graph::GraphView,
    graph: crate::graph::GraphView,
    after: EngineView,
    accepted: bool,
)
    requires
        published == before.graph,
        accepted ==> installed(before, graph, after),
        !accepted ==> after == before,
    ensures
        (if accepted {
            graph
        } else {
            published
        }) == after.graph,
{
}

} // verus!
