//! What is found out about rival applications: all that are running, and which are in the way.
use crate::autostart_guarantees::{alike, exe_before, lemma_alike, lemma_exe};
use crate::contention::{
    detected, stop_step, Politeness, Process, RunningView, StopOutcome, StopStep, Stopping,
};
use crate::hal::ChannelControl;
use crate::known::{bare_name, first_going_by, goes_by, owner_of, registry, AppView};
use crate::plan::{controlling, under, ChannelSituation};
use crate::text::{ascii_lower, ascii_lowered, Text};
use vstd::prelude::*;

verus! {

/// Whether two texts are the same but for the case of ASCII letters.
pub open spec fn spelled_alike(a: Text, b: Text) -> bool {
    a.len() == b.len() && forall|k: int|
        0 <= k < a.len() ==> alike(#[trigger] a[k], #[trigger] b[k])
}

proof fn lemma_spelled(a: Text, b: Text)
    ensures
        ascii_lowered(a) == ascii_lowered(b) <==> spelled_alike(a, b),
{
    let x = ascii_lowered(a);
    let y = ascii_lowered(b);
    assert(x.len() == a.len() && y.len() == b.len());
    if x == y {
        assert forall|k: int| 0 <= k < a.len() implies alike(#[trigger] a[k], #[trigger] b[k]) by {
            assert(x[k] == ascii_lower(a[k]) && y[k] == ascii_lower(b[k]));
            lemma_alike(a[k], b[k]);
        }
    }
    if spelled_alike(a, b) {
        assert forall|k: int| 0 <= k < x.len() implies x[k] == y[k] by {
            assert(alike(a[k], b[k]));
            lemma_alike(a[k], b[k]);
        }
        assert(x =~= y);
    }
}

/// Whether a process goes by a name: it is spelled like it, with or without `.exe` behind it.
pub open spec fn is_named(process: Text, name: Text) -> bool {
    if exe_before(process, process.len() as int) {
        spelled_alike(process.take(process.len() - 4), name)
    } else {
        spelled_alike(process, name)
    }
}

/// Whether a process belongs to an application.
pub open spec fn belongs(process: Text, app: AppView) -> bool {
    exists|j: int| 0 <= j < app.process_names.len() && is_named(process, #[trigger] app.process_names[j])
}

proof fn lemma_belongs(process: Text, app: AppView)
    ensures
        goes_by(app, bare_name(process)) <==> belongs(process, app),
{
    reveal_strlit(".exe");
    let n = process.len() as int;
    if n >= 4 {
        lemma_exe(process, n);
    }
    assert(ascii_lowered(process).len() == n);
    let bare = bare_name(process);
    assert forall|j: int| 0 <= j < app.process_names.len() implies (is_named(
        process,
        #[trigger] app.process_names[j],
    ) <==> ascii_lowered(app.process_names[j]) == ascii_lowered(bare)) by {
        lemma_spelled(bare, app.process_names[j]);
    }
    if goes_by(app, bare) {
        let j = choose|j: int|
            0 <= j < app.process_names.len() && ascii_lowered(#[trigger] app.process_names[j])
                == ascii_lowered(bare);
        assert(is_named(process, app.process_names[j]));
    }
    if belongs(process, app) {
        let j = choose|j: int|
            0 <= j < app.process_names.len() && is_named(process, #[trigger] app.process_names[j]);
        assert(ascii_lowered(app.process_names[j]) == ascii_lowered(bare));
    }
}

proof fn lemma_first(apps: Seq<AppView>, process: Text, i: int)
    requires
        0 <= i <= apps.len(),
    ensures
        match first_going_by(apps, bare_name(process), i) {
            Some(app) => exists|a: int|
                i <= a < apps.len() && #[trigger] apps[a] == app && belongs(process, app) && forall|
                    b: int,
                |
                    i <= b < a ==> !belongs(process, #[trigger] apps[b]),
            None => forall|b: int| i <= b < apps.len() ==> !belongs(process, #[trigger] apps[b]),
        },
    decreases apps.len() - i,
{
    if i < apps.len() {
        lemma_belongs(process, apps[i]);
        if goes_by(apps[i], bare_name(process)) {
            assert(apps[i] == apps[i]);
        } else {
            lemma_first(apps, process, i + 1);
            if let Some(app) = first_going_by(apps, bare_name(process), i + 1) {
                let a = choose|a: int|
                    i + 1 <= a < apps.len() && #[trigger] apps[a] == app && belongs(process, app)
                        && forall|b: int| i + 1 <= b < a ==> !belongs(process, #[trigger] apps[b]);
                assert(apps[a] == app);
            }
        }
    }
}

/// Whether a process belongs to a known application, which is the first that it belongs to.
pub open spec fn owned_by(process: Text, app: AppView) -> bool {
    exists|a: int|
        0 <= a < registry().len() && #[trigger] registry()[a] == app && belongs(process, app)
            && forall|b: int| 0 <= b < a ==> !belongs(process, #[trigger] registry()[b])
}

/// A process is looked up by its name, whatever its case and with or without `.exe`: it has an
/// owner wherever a known application goes by that name, and only there.
pub proof fn a_process_is_looked_up_by_its_name(process: Text)
    ensures
        owner_of(process) is Some <==> exists|a: int|
            0 <= a < registry().len() && belongs(process, #[trigger] registry()[a]),
        owner_of(process) matches Some(app) ==> owned_by(process, app),
{
    lemma_first(registry(), process, 0);
    if let Some(app) = owner_of(process) {
        let a = choose|a: int|
            0 <= a < registry().len() && #[trigger] registry()[a] == app && belongs(process, app)
                && forall|b: int| 0 <= b < a ==> !belongs(process, #[trigger] registry()[b]);
        assert(belongs(process, registry()[a]));
    }
}

/// Every process of a known application is reported, with its own number and name, one report for
/// each and in the order of the listing, and no other process is.
pub proof fn every_running_rival_is_reported(processes: Seq<Process>, n: nat) -> (at: Seq<int>)
    requires
        n <= processes.len(),
    ensures
        ({
            let found = detected(processes, n);
            &&& at.len() == found.len()
            &&& forall|i: int|
                0 <= i < at.len() ==> {
                    let p = processes[#[trigger] at[i]];
                    &&& 0 <= at[i] < n
                    &&& owned_by(p.name@, found[i].app)
                    &&& found[i].pid == p.pid
                    &&& found[i].process_name == p.name@
                }
            &&& forall|i: int, j: int|
                0 <= i < j < at.len() ==> #[trigger] at[i] < #[trigger] at[j]
            &&& forall|k: int|
                #![trigger processes[k]]
                0 <= k < n && (exists|a: int|
                    0 <= a < registry().len() && belongs(
                        processes[k].name@,
                        #[trigger] registry()[a],
                    )) ==> at.contains(k)
        }),
    decreases n,
{
    if n == 0 {
        Seq::empty()
    } else {
        let m = (n - 1) as nat;
        let before = every_running_rival_is_reported(processes, m);
        a_process_is_looked_up_by_its_name(processes[n - 1].name@);
        if owner_of(processes[n - 1].name@) is Some {
            let at = before.push(n - 1);
            assert(at[before.len() as int] == n - 1);
            assert forall|k: int|
                #![trigger processes[k]]
                0 <= k < n && (exists|a: int|
                    0 <= a < registry().len() && belongs(
                        processes[k].name@,
                        #[trigger] registry()[a],
                    )) implies at.contains(k) by {
                if k < m {
                    assert(before.contains(k));
                    assert(at[before.index_of(k)] == k);
                }
            }
            at
        } else {
            before
        }
    }
}

/// Every controller has to stand down and every other application may stay: each is on the one
/// list or on the other, in the order in which they were found.
pub proof fn controllers_stop_and_others_stay(apps: Seq<RunningView>, n: nat)
    requires
        n <= apps.len(),
    ensures
        controlling(apps, true, n).len() + controlling(apps, false, n).len() == n,
        forall|i: int|
            0 <= i < n ==> (if (#[trigger] apps[i]).app.role is Controller {
                controlling(apps, true, n).contains(apps[i])
            } else {
                controlling(apps, false, n).contains(apps[i])
            }),
        forall|k: int|
            0 <= k < controlling(apps, true, n).len() ==> (#[trigger] controlling(
                apps,
                true,
                n,
            )[k]).app.role is Controller,
        forall|k: int|
            0 <= k < controlling(apps, false, n).len() ==> !((#[trigger] controlling(
                apps,
                false,
                n,
            )[k]).app.role is Controller),
    decreases n,
{
    if n > 0 {
        let m = (n - 1) as nat;
        controllers_stop_and_others_stay(apps, m);
        assert forall|i: int| 0 <= i < n implies (if (#[trigger] apps[i]).app.role is Controller {
            controlling(apps, true, n).contains(apps[i])
        } else {
            controlling(apps, false, n).contains(apps[i])
        }) by {
            let side = apps[i].app.role is Controller;
            let before = controlling(apps, side, m);
            let after = controlling(apps, side, n);
            if i < m {
                assert(before.contains(apps[i]));
                assert(after[before.index_of(apps[i])] == apps[i]);
            } else {
                assert(after[before.len() as int] == apps[i]);
            }
        }
    }
}

/// What is listed under one kind of control is under it: every entry is a channel that is, and
/// the order is that of the channels.
pub proof fn channels_are_listed_by_who_drives_them(
    channels: Seq<ChannelSituation>,
    control: ChannelControl,
    n: nat,
) -> (at: Seq<int>)
    requires
        n <= channels.len(),
    ensures
        at.len() == under(channels, control, n).len(),
        forall|i: int|
            0 <= i < at.len() ==> 0 <= #[trigger] at[i] < n && channels[at[i]].control == control
                && under(channels, control, n)[i] == channels[at[i]].id@,
        forall|i: int, j: int| 0 <= i < j < at.len() ==> #[trigger] at[i] < #[trigger] at[j],
        forall|k: int| 0 <= k < n && (#[trigger] channels[k]).control == control ==> at.contains(k),
    decreases n,
{
    if n == 0 {
        Seq::empty()
    } else {
        let m = (n - 1) as nat;
        let before = channels_are_listed_by_who_drives_them(channels, control, m);
        if channels[n - 1].control == control {
            let at = before.push(n - 1);
            assert(at[before.len() as int] == n - 1);
            assert forall|k: int|
                0 <= k < n && (#[trigger] channels[k]).control == control implies at.contains(k) by {
                if k < m {
                    assert(at[before.index_of(k)] == k);
                }
            }
            at
        } else {
            before
        }
    }
}

// --- Stopping ------------------------------------------------------------------------------------

/// Stopping an application starts at the politest rung and goes up one rung at a time, never past
/// the limit, for as long as the application is there. What is reported is the rung that did it,
/// or the last that was tried.
pub proof fn stopping_goes_up_rung_by_rung(rung: Politeness, limit: Politeness)
    ensures
        stop_step(Stopping::Fresh, true, limit) matches StopStep::Push(p) && p.rung() == 0,
        stop_step(Stopping::Fresh, false, limit) == StopStep::Finished(StopOutcome::AlreadyGone),
        stop_step(Stopping::Tried(rung), false, limit) == StopStep::Finished(
            StopOutcome::Stopped { via: rung },
        ),
        rung.rung() < limit.rung() ==> (stop_step(Stopping::Tried(rung), true, limit) matches StopStep::Push(
            next,
        ) && next.rung() == rung.rung() + 1),
        rung.rung() >= limit.rung() ==> stop_step(Stopping::Tried(rung), true, limit)
            == StopStep::Finished(StopOutcome::StillRunning { tried: rung }),
{
}

} // verus!
