//! Detecting other fan-control software, and standing it down.
//!
//! Two applications driving the same PWM channel is a tug-of-war neither one reports. So the
//! other party has to be noticed and dealt with explicitly.
//!
//! # Ordering is a safety property
//!
//! Stopping another fan controller **leaves its channels in manual mode with nobody driving
//! them.** So stopping it is never the last step: the caller must be ready to acquire the
//! channels or hand them back to the firmware before it asks anything to stop.
//!
//! # What "graceful" can and cannot mean
//!
//! Stopping tries in escalating order and reports which rung it had to reach:
//!
//! | Rung | Mechanism | Does the app get to clean up? |
//! | --- | --- | --- |
//! | [`Politeness::Close`] | a close request to each top-level window | yes, if it honours it |
//! | [`Politeness::Quit`] | a quit request to each GUI thread | usually |
//! | [`Politeness::Terminate`] | the process is terminated | **no** |
use crate::known::{lookup, owner_of, AppView, KnownApp};
use crate::text::{decimal, digits, joined, Text};
use vstd::prelude::*;

verus! {

/// Anything that can go wrong standing another application down.
#[derive(Debug, Clone, PartialEq, Eq)]
pub enum ContentionError {
    Enumerate(String),
    Stop { name: String, pid: u32, detail: String },
    Unsupported,
}

/// What an error says to a person.
pub open spec fn contention_message(e: ContentionError) -> Text {
    match e {
        ContentionError::Enumerate(reason) => "could not enumerate processes: "@ + reason@,
        ContentionError::Stop { name, pid, detail } => "could not stop "@ + name@ + " (pid "@
            + digits(pid as nat) + "): "@ + detail@,
        ContentionError::Unsupported => "contention handling is only implemented on Windows"@,
    }
}

impl ContentionError {
    /// What this says to a person.
    pub fn message(&self) -> (r: String)
        ensures
            r@ == contention_message(*self),
    {
        match self {
            ContentionError::Enumerate(reason) => joined(
                "could not enumerate processes: ",
                reason.as_str(),
            ),
            ContentionError::Stop { name, pid, detail } => joined(
                joined(
                    joined(
                        joined(joined("could not stop ", name.as_str()).as_str(), " (pid ").as_str(),
                        decimal(*pid as u64).as_str(),
                    ).as_str(),
                    "): ",
                ).as_str(),
                detail.as_str(),
            ),
            ContentionError::Unsupported => "contention handling is only implemented on Windows".to_owned(),
        }
    }
}

/// A process, as the OS lists it.
#[derive(Debug, Clone, PartialEq, Eq)]
pub struct Process {
    pub pid: u32,
    /// The executable name.
    pub name: String,
}

/// A known fan-control application found running.
#[derive(Debug, Clone, PartialEq, Eq)]
pub struct Running {
    pub app: KnownApp,
    pub pid: u32,
    /// The executable name as the OS reports it.
    pub process_name: String,
}

/// A running application, as contracts speak of it.
#[verifier::ext_equal]
pub struct RunningView {
    pub app: AppView,
    pub pid: u32,
    pub process_name: Text,
}

impl View for Running {
    type V = RunningView;

    open spec fn view(&self) -> RunningView {
        RunningView { app: self.app@, pid: self.pid, process_name: self.process_name@ }
    }
}

/// What a list of running applications says.
pub open spec fn running_views(list: Seq<Running>) -> Seq<RunningView> {
    Seq::new(list.len(), |i: int| list[i]@)
}

impl Running {
    /// The same again.
    pub fn copy(&self) -> (r: Running)
        ensures
            r@ == self@,
    {
        Running {
            app: self.app.copy(),
            pid: self.pid,
            process_name: self.process_name.clone(),
        }
    }
}

/// How hard we were willing to push, and how hard we had to.
#[derive(Debug, Clone, Copy, PartialEq, Eq, PartialOrd, Ord, Structural)]
pub enum Politeness {
    /// Ask its windows to close. The only rung that is unambiguously the app's own choice.
    Close,
    /// End its message loops. It usually still runs its shutdown path.
    Quit,
    /// Kill it. No cleanup, no chance to restore anything it was controlling.
    Terminate,
}

impl Politeness {
    /// How far up the ladder a rung is.
    pub open spec fn rung(self) -> nat {
        match self {
            Politeness::Close => 0,
            Politeness::Quit => 1,
            Politeness::Terminate => 2,
        }
    }

    /// The next rung up, if there is one.
    pub open spec fn harder(self) -> Option<Politeness> {
        match self {
            Politeness::Close => Some(Politeness::Quit),
            Politeness::Quit => Some(Politeness::Terminate),
            Politeness::Terminate => None,
        }
    }

    /// How many rungs there are up to this one: each gets its share of the time.
    pub fn attempts(self) -> (r: u32)
        ensures
            r == self.rung() + 1,
    {
        match self {
            Politeness::Close => 1,
            Politeness::Quit => 2,
            Politeness::Terminate => 3,
        }
    }

    /// The next rung up that is still allowed.
    fn escalated(self, limit: Politeness) -> (r: Option<Politeness>)
        ensures
            r == escalation(self, limit),
    {
        let next = match self {
            Politeness::Close => Politeness::Quit,
            Politeness::Quit => Politeness::Terminate,
            Politeness::Terminate => {
                return None;
            },
        };
        if next.attempts() <= limit.attempts() {
            Some(next)
        } else {
            None
        }
    }
}

/// The next rung up that is still allowed.
pub open spec fn escalation(rung: Politeness, limit: Politeness) -> Option<Politeness> {
    match rung.harder() {
        Some(next) => if next.rung() <= limit.rung() {
            Some(next)
        } else {
            None
        },
        None => None,
    }
}

/// What happened when we asked an application to stop.
#[derive(Debug, Clone, Copy, PartialEq, Eq, Structural)]
pub enum StopOutcome {
    /// It was not running by the time we looked.
    AlreadyGone,
    /// It exited, and this is the gentlest rung that achieved it.
    Stopped { via: Politeness },
    /// It is still running after everything we were allowed to try.
    StillRunning { tried: Politeness },
}

impl StopOutcome {
    /// Whether the process is gone, however it went.
    pub fn is_stopped(&self) -> (r: bool)
        ensures
            r == (*self is AlreadyGone || *self is Stopped),
    {
        match self {
            StopOutcome::AlreadyGone => true,
            StopOutcome::Stopped { .. } => true,
            StopOutcome::StillRunning { .. } => false,
        }
    }

    /// Whether the application was given a real chance to restore what it controlled.
    ///
    /// A terminated process ran no shutdown code, so anything it was driving is still exactly
    /// as it left it.
    pub fn had_chance_to_clean_up(&self) -> (r: bool)
        ensures
            r == (*self is Stopped && !(self->via is Terminate)),
    {
        match self {
            StopOutcome::AlreadyGone => false,
            StopOutcome::Stopped { via } => match via {
                Politeness::Terminate => false,
                _ => true,
            },
            StopOutcome::StillRunning { .. } => false,
        }
    }
}

// --- Detecting -----------------------------------------------------------------------------------

/// The known applications among the first `n` processes, as they are listed.
pub open spec fn detected(processes: Seq<Process>, n: nat) -> Seq<RunningView>
    decreases n,
{
    if n == 0 {
        Seq::empty()
    } else {
        let before = detected(processes, (n - 1) as nat);
        let p = processes[n - 1];
        match owner_of(p.name@) {
            Some(app) => before.push(RunningView { app, pid: p.pid, process_name: p.name@ }),
            None => before,
        }
    }
}

/// Every known fan-control application among the processes that the OS lists.
///
/// Process presence alone is *suggestive, not conclusive*. A tool can be running while
/// controlling nothing, and a channel can be under foreign control with no known process to
/// blame. The authoritative evidence is on the chip.
pub fn detect(listing: Result<Vec<Process>, ContentionError>) -> (r: Result<
    Vec<Running>,
    ContentionError,
>)
    ensures
        match listing {
            Ok(processes) => r is Ok && running_views(r->Ok_0@) == detected(
                processes@,
                processes@.len(),
            ),
            Err(e) => r is Err && r->Err_0 == e,
        },
{
    let processes = match listing {
        Ok(processes) => processes,
        Err(e) => {
            return Err(e);
        },
    };
    let mut found: Vec<Running> = Vec::new();
    let n: usize = processes.len();
    assert(running_views(found@) =~= Seq::empty());
    for i in 0..n
        invariant
            n == processes@.len(),
            running_views(found@) == detected(processes@, i as nat),
    {
        let p = &processes[i];
        if let Some(app) = lookup(p.name.as_str()) {
            let ghost before = running_views(found@);
            let running = Running { app, pid: p.pid, process_name: p.name.clone() };
            let ghost view = running@;
            found.push(running);
            assert(running_views(found@) =~= before.push(view));
        }
    }
    Ok(found)
}

// --- Stopping ------------------------------------------------------------------------------------

/// How far standing an application down has come.
#[derive(Debug, Clone, Copy, PartialEq, Eq, Structural)]
pub enum Stopping {
    /// Nothing has been tried yet.
    Fresh,
    /// This rung has been tried.
    Tried(Politeness),
}

/// What to do next about an application that is to stop.
#[derive(Debug, Clone, Copy, PartialEq, Eq, Structural)]
pub enum StopStep {
    /// Try a rung, and give it its share of the time.
    Push(Politeness),
    /// There is nothing left to do.
    Finished(StopOutcome),
}

/// What to do next, given how far it has come and whether the process is still there.
pub open spec fn stop_step(so_far: Stopping, alive: bool, limit: Politeness) -> StopStep {
    match so_far {
        Stopping::Fresh => if alive {
            StopStep::Push(Politeness::Close)
        } else {
            StopStep::Finished(StopOutcome::AlreadyGone)
        },
        Stopping::Tried(rung) => if !alive {
            StopStep::Finished(StopOutcome::Stopped { via: rung })
        } else {
            match escalation(rung, limit) {
                Some(next) => StopStep::Push(next),
                None => StopStep::Finished(StopOutcome::StillRunning { tried: rung }),
            }
        },
    }
}

/// What to do next about an application that is to stop, escalating no further than `limit`.
///
/// **The caller must already be able to take over the channels this application was
/// driving.** Once it has stopped they are in manual mode with nobody commanding them.
pub fn stop(so_far: Stopping, alive: bool, limit: Politeness) -> (r: StopStep)
    ensures
        r == stop_step(so_far, alive, limit),
{
    match so_far {
        Stopping::Fresh => if alive {
            StopStep::Push(Politeness::Close)
        } else {
            StopStep::Finished(StopOutcome::AlreadyGone)
        },
        Stopping::Tried(rung) => if !alive {
            StopStep::Finished(StopOutcome::Stopped { via: rung })
        } else {
            match rung.escalated(limit) {
                Some(next) => StopStep::Push(next),
                None => StopStep::Finished(StopOutcome::StillRunning { tried: rung }),
            }
        },
    }
}

/// How standing an application down ends, where `alive(k)` says whether the process is there
/// after `k` rungs have been tried.
pub open spec fn stop_run(
    so_far: Stopping,
    tried: nat,
    alive: spec_fn(nat) -> bool,
    limit: Politeness,
) -> StopOutcome
    decreases 4 - tried,
{
    match stop_step(so_far, alive(tried), limit) {
        StopStep::Finished(outcome) => outcome,
        StopStep::Push(rung) => if tried < 4 {
            stop_run(Stopping::Tried(rung), tried + 1, alive, limit)
        } else {
            StopOutcome::StillRunning { tried: rung }
        },
    }
}

/// Standing an application down reports the gentlest rung that worked: one that is gone at
/// the start was not asked; one that goes after `k` rungs and not before was stopped by the
/// `k`-th; one that is there after every rung allowed is still running, and the limit is what
/// was tried. No rung above the limit is reached.
pub proof fn the_gentlest_rung_that_works_is_reported(
    alive: spec_fn(nat) -> bool,
    limit: Politeness,
)
    ensures
        !alive(0) ==> stop_run(Stopping::Fresh, 0, alive, limit) == StopOutcome::AlreadyGone,
        forall|via: Politeness|
            via.rung() <= limit.rung() && !#[trigger] alive(via.rung() + 1) && (forall|k: nat|
                k <= via.rung() ==> #[trigger] alive(k)) ==> stop_run(
                Stopping::Fresh,
                0,
                alive,
                limit,
            ) == (StopOutcome::Stopped { via }),
        (forall|k: nat| k <= limit.rung() + 1 ==> #[trigger] alive(k)) ==> stop_run(
            Stopping::Fresh,
            0,
            alive,
            limit,
        ) == (StopOutcome::StillRunning { tried: limit }),
{
    reveal_with_fuel(stop_run, 5);
    assert forall|via: Politeness|
        via.rung() <= limit.rung() && !#[trigger] alive(via.rung() + 1) && (forall|k: nat|
            k <= via.rung() ==> #[trigger] alive(k)) implies stop_run(
        Stopping::Fresh,
        0,
        alive,
        limit,
    ) == (StopOutcome::Stopped { via }) by {
        assert(alive(0));
        if via.rung() >= 1 {
            assert(alive(1));
        }
        if via.rung() >= 2 {
            assert(alive(2));
        }
    }
    if forall|k: nat| k <= limit.rung() + 1 ==> #[trigger] alive(k) {
        assert(alive(0));
        assert(alive(1));
        if limit.rung() >= 1 {
            assert(alive(2));
        }
        if limit.rung() >= 2 {
            assert(alive(3));
        }
    }
}

} // verus!
