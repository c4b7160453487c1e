//! What reaches the hardware: every request has its reason, and every channel gets what was
//! configured for it.
use crate::hal::Event;
use crate::policy::{
    applied_run, breath_run, commands_run, failsafe_run, floored, uncommanded, ChannelPolicy,
    FailsafeAction, Outcome, PolicyView, Run,
};
use crate::scalar::{order_is_by_value, whole, whole_is_exact, Scalar};
use crate::text::Text;
use vstd::arithmetic::power2::{lemma_pow2_pos, pow2};
use vstd::prelude::*;

verus! {

// --- What is configured --------------------------------------------------------------------------

/// The failsafe that a policy has for a channel: its own, or that of channels without one.
pub open spec fn configured(policy: PolicyView, channel: Text) -> ChannelPolicy {
    if policy.channels.dom().contains(channel) {
        policy.channels[channel]
    } else {
        policy.default
    }
}

/// Whether an action is what was configured for a channel: a fixed duty whatever the backend can
/// do, and the firmware where it can be restored. Only where it cannot does full duty stand in
/// for it.
pub open spec fn as_configured(
    policy: PolicyView,
    can_restore: bool,
    channel: Text,
    action: FailsafeAction,
) -> bool {
    match configured(policy, channel).failsafe {
        FailsafeAction::FixedDuty(duty) => action == FailsafeAction::FixedDuty(duty),
        FailsafeAction::RestoreFirmware => if can_restore {
            action is RestoreFirmware
        } else {
            action == FailsafeAction::FixedDuty(whole(100))
        },
    }
}

/// Whether a request is the one that a channel's failsafe calls for, however it went.
pub open spec fn called_for(
    policy: PolicyView,
    can_restore: bool,
    channel: Text,
    request: Event,
) -> bool {
    match configured(policy, channel).failsafe {
        FailsafeAction::FixedDuty(wanted) => request matches Event::SetDuty {
            channel: about,
            duty,
            ..
        } && about == channel && duty == wanted,
        FailsafeAction::RestoreFirmware => if can_restore {
            request matches Event::Release { channel: about, .. } && about == channel
        } else {
            request matches Event::SetDuty { channel: about, duty, .. } && about == channel && duty
                == whole(100)
        },
    }
}

/// The larger of two whole numbers.
pub open spec fn more(a: int, b: int) -> int {
    if a < b {
        b
    } else {
        a
    }
}

/// The smaller of two whole numbers.
pub open spec fn less(a: int, b: int) -> int {
    if a < b {
        a
    } else {
        b
    }
}

/// Whether a duty is what a command comes to: what was asked for, or the floor where that is
/// higher, and no less than nothing and no more than everything.
pub open spec fn lifted(floor: Scalar, asked: Scalar, duty: Scalar) -> bool {
    &&& duty.finite()
    &&& duty.value() == less(
        100 * (pow2(1074) as int),
        more(
            0,
            if floor.nan() {
                asked.value()
            } else {
                more(asked.value(), floor.value())
            },
        ),
    )
}

/// Whether a request drives a channel as the tick asks.
pub open spec fn drives(policy: PolicyView, tick: Outcome, channel: Text, request: Event) -> bool {
    request matches Event::SetDuty { channel: about, duty, .. } && about == channel && lifted(
        configured(policy, channel).floor_duty,
        tick.commands[channel].scalar,
        duty,
    )
}

/// Whether the floors of a policy and the commands of a tick are numbers; a floor may be missing.
pub open spec fn in_numbers(policy: PolicyView, tick: Outcome) -> bool {
    &&& forall|c: Text|
        #![trigger configured(policy, c)]
        configured(policy, c).floor_duty.finite() || configured(policy, c).floor_duty.nan()
    &&& forall|i: int|
        0 <= i < tick.names.len() ==> tick.commands[#[trigger] tick.names[i]].scalar.finite()
}

proof fn lemma_lifted(policy: ChannelPolicy, asked: Scalar)
    requires
        asked.finite(),
        policy.floor_duty.finite() || policy.floor_duty.nan(),
    ensures
        lifted(policy.floor_duty, asked, floored(policy, asked)),
{
    let floor = policy.floor_duty;
    let top = asked.larger(floor);
    let zero = whole(0);
    let full = whole(100);
    whole_is_exact(0);
    whole_is_exact(100);
    lemma_pow2_pos(1074);
    assert(0 * pow2(1074) == 0);
    if floor.finite() {
        order_is_by_value(asked, floor);
    }
    assert(top.finite());
    order_is_by_value(top, zero);
    order_is_by_value(full, top);
}

// --- Commands ------------------------------------------------------------------------------------

/// Whether a request about a channel stands among some, and succeeded or not.
pub open spec fn answered(requests: Seq<Event>, channel: Text, ok: bool) -> bool {
    exists|k: int|
        0 <= k < requests.len() && (#[trigger] requests[k]).about() == channel
            && requests[k].succeeded() == ok
}

/// What holds once the first `n` commands are written.
spec fn written(policy: PolicyView, tick: Outcome, run: Run, n: nat) -> bool {
    &&& forall|k: int|
        0 <= k < run.events.len() ==> {
            let channel = (#[trigger] run.events[k]).about();
            &&& drives(policy, tick, channel, run.events[k])
            &&& !tick.faulted.contains(channel)
            &&& exists|i: int| 0 <= i < n && #[trigger] tick.names[i] == channel
        }
    &&& forall|i: int|
        0 <= i < n && !tick.faulted.contains(#[trigger] tick.names[i]) ==> answered(
            run.events,
            tick.names[i],
            true,
        ) || answered(run.events, tick.names[i], false)
    &&& forall|c: Text| #[trigger]
        run.applied.commanded.dom().contains(c) <==> answered(run.events, c, true)
    &&& forall|c: Text| #[trigger]
        run.applied.commanded.dom().contains(c) ==> lifted(
            configured(policy, c).floor_duty,
            tick.commands[c].scalar,
            run.applied.commanded[c],
        )
    &&& forall|c: Text| #[trigger]
        run.applied.write_errors.contains(c) <==> answered(run.events, c, false)
    &&& run.applied.failsafed.dom() == Set::<Text>::empty()
}

proof fn lemma_answered(requests: Seq<Event>, e: Event, channel: Text, ok: bool)
    ensures
        answered(requests.push(e), channel, ok) <==> answered(requests, channel, ok) || (e.about()
            == channel && e.succeeded() == ok),
{
    let after = requests.push(e);
    if answered(requests, channel, ok) {
        let k = choose|k: int|
            0 <= k < requests.len() && (#[trigger] requests[k]).about() == channel
                && requests[k].succeeded() == ok;
        assert(after[k] == requests[k]);
    }
    assert(after[requests.len() as int] == e);
    if answered(after, channel, ok) {
        let k = choose|k: int|
            0 <= k < after.len() && (#[trigger] after[k]).about() == channel
                && after[k].succeeded() == ok;
        if k < requests.len() {
            assert(requests[k] == after[k]);
        }
    }
}

proof fn lemma_listed(list: Seq<Text>, c: Text, d: Text)
    ensures
        list.push(d).contains(c) <==> list.contains(c) || c == d,
{
    let after = list.push(d);
    if list.contains(c) {
        let i = list.index_of(c);
        assert(after[i] == c);
    }
    assert(after[list.len() as int] == d);
    if after.contains(c) && c != d {
        let i = after.index_of(c);
        assert(list[i] == c);
    }
}

proof fn lemma_written(policy: PolicyView, tick: Outcome, oks: Seq<bool>, n: nat)
    requires
        n <= tick.names.len(),
        tick.names.no_duplicates(),
        in_numbers(policy, tick),
    ensures
        written(policy, tick, commands_run(policy, tick, oks, n), n),
    decreases n,
{
    if n > 0 {
        let m = (n - 1) as nat;
        lemma_written(policy, tick, oks, m);
        let before = commands_run(policy, tick, oks, m);
        let after = commands_run(policy, tick, oks, n);
        let channel = tick.names[n - 1];
        assert forall|k: int| 0 <= k < before.events.len() implies exists|i: int|
            0 <= i < n && #[trigger] tick.names[i] == (#[trigger] before.events[k]).about() by {
            let i = choose|i: int|
                0 <= i < m && #[trigger] tick.names[i] == before.events[k].about();
            assert(0 <= i < n && tick.names[i] == before.events[k].about());
        }
        if !tick.faulted.contains(channel) {
            let e = after.events.last();
            let given = configured(policy, channel);
            assert(given == policy.of(channel));
            assert(tick.commands[tick.names[n - 1]].scalar.finite());
            lemma_lifted(given, tick.commands[channel].scalar);
            assert(after.events =~= before.events.push(e));
            assert forall|c: Text, ok: bool| #[trigger]
                answered(after.events, c, ok) <==> answered(before.events, c, ok) || (e.about() == c
                    && e.succeeded() == ok) by {
                lemma_answered(before.events, e, c, ok);
            }
            assert forall|c: Text| #[trigger]
                after.applied.write_errors.contains(c) <==> answered(after.events, c, false) by {
                lemma_listed(before.applied.write_errors, c, channel);
                assert(before.applied.write_errors.contains(c) <==> answered(
                    before.events,
                    c,
                    false,
                ));
            }
            assert forall|k: int| 0 <= k < after.events.len() implies {
                let about = (#[trigger] after.events[k]).about();
                &&& drives(policy, tick, about, after.events[k])
                &&& !tick.faulted.contains(about)
                &&& exists|i: int| 0 <= i < n && #[trigger] tick.names[i] == about
            } by {
                if k < before.events.len() {
                    assert(after.events[k] == before.events[k]);
                } else {
                    assert(tick.names[n - 1] == channel);
                }
            }
            assert forall|i: int|
                0 <= i < n && !tick.faulted.contains(#[trigger] tick.names[i]) implies answered(
                after.events,
                tick.names[i],
                true,
            ) || answered(after.events, tick.names[i], false) by {
                if i < m {
                    assert(answered(before.events, tick.names[i], true) || answered(
                        before.events,
                        tick.names[i],
                        false,
                    ));
                } else {
                    assert(e.about() == tick.names[i]);
                    if e.succeeded() {
                        assert(answered(after.events, tick.names[i], true));
                    } else {
                        assert(answered(after.events, tick.names[i], false));
                    }
                }
            }
        }
    }
}

// --- Failsafes -----------------------------------------------------------------------------------

/// What holds once the first `n` of some channels are in their failsafe.
spec fn secured(
    policy: PolicyView,
    can_restore: bool,
    start: Run,
    list: Seq<Text>,
    run: Run,
    n: nat,
) -> bool {
    let first = start.events.len();
    &&& run.events.len() >= first
    &&& forall|k: int| 0 <= k < first ==> #[trigger] run.events[k] == start.events[k]
    &&& forall|k: int|
        first <= k < run.events.len() ==> {
            let channel = (#[trigger] run.events[k]).about();
            &&& called_for(policy, can_restore, channel, run.events[k])
            &&& exists|i: int| 0 <= i < n && #[trigger] list[i] == channel
        }
    &&& forall|c: Text| #[trigger]
        run.applied.failsafed.dom().contains(c) <==> answered(run.events.skip(first as int), c, true)
    &&& forall|c: Text| #[trigger]
        run.applied.failsafed.dom().contains(c) ==> as_configured(
            policy,
            can_restore,
            c,
            run.applied.failsafed[c],
        )
    &&& forall|c: Text| #[trigger]
        run.applied.write_errors.contains(c) <==> start.applied.write_errors.contains(c)
            || answered(run.events.skip(first as int), c, false)
    &&& forall|i: int|
        0 <= i < n ==> answered(run.events.skip(first as int), #[trigger] list[i], true)
            || answered(run.events.skip(first as int), list[i], false)
    &&& run.applied.commanded == start.applied.commanded
}

proof fn lemma_secured(
    policy: PolicyView,
    can_restore: bool,
    start: Run,
    list: Seq<Text>,
    oks: Seq<bool>,
    n: nat,
)
    requires
        n <= list.len(),
        start.applied.failsafed.dom() == Set::<Text>::empty(),
    ensures
        secured(
            policy,
            can_restore,
            start,
            list,
            failsafe_run(policy, can_restore, start, list, oks, n),
            n,
        ),
    decreases n,
{
    let first = start.events.len() as int;
    if n == 0 {
        assert(start.events.skip(first) =~= Seq::empty());
    } else {
        let m = (n - 1) as nat;
        lemma_secured(policy, can_restore, start, list, oks, m);
        let before = failsafe_run(policy, can_restore, start, list, oks, m);
        let after = failsafe_run(policy, can_restore, start, list, oks, n);
        let channel = list[n - 1];
        let old_requests = before.events.skip(first);
        assert forall|k: int| first <= k < before.events.len() implies exists|i: int|
            0 <= i < n && #[trigger] list[i] == (#[trigger] before.events[k]).about() by {
            let i = choose|i: int| 0 <= i < m && #[trigger] list[i] == before.events[k].about();
            assert(0 <= i < n && list[i] == before.events[k].about());
        }
        if before.applied.failsafed.dom().contains(channel) {
            assert(after == before);
            assert forall|i: int| 0 <= i < n implies answered(
                old_requests,
                #[trigger] list[i],
                true,
            ) || answered(old_requests, list[i], false) by {
                if i == m {
                    assert(list[i] == channel);
                }
            }
        } else {
            let e = after.events.last();
            assert(configured(policy, channel) == policy.of(channel));
            assert(after.events =~= before.events.push(e));
            let requests = after.events.skip(first);
            assert(requests =~= old_requests.push(e));
            assert forall|c: Text, ok: bool| #[trigger]
                answered(requests, c, ok) <==> answered(old_requests, c, ok) || (e.about() == c
                    && e.succeeded() == ok) by {
                lemma_answered(old_requests, e, c, ok);
            }
            assert forall|c: Text| #[trigger] after.applied.write_errors.contains(c) <==> (
            start.applied.write_errors.contains(c) || answered(requests, c, false)) by {
                lemma_listed(before.applied.write_errors, c, channel);
                assert(before.applied.write_errors.contains(c) <==> (
                start.applied.write_errors.contains(c) || answered(old_requests, c, false)));
            }
            assert forall|k: int| first <= k < after.events.len() implies {
                let about = (#[trigger] after.events[k]).about();
                &&& called_for(policy, can_restore, about, after.events[k])
                &&& exists|i: int| 0 <= i < n && #[trigger] list[i] == about
            } by {
                if k < before.events.len() {
                    assert(after.events[k] == before.events[k]);
                } else {
                    assert(list[n - 1] == channel);
                }
            }
            assert forall|i: int| 0 <= i < n implies answered(requests, #[trigger] list[i], true)
                || answered(requests, list[i], false) by {
                if i < m {
                    assert(answered(old_requests, list[i], true) || answered(
                        old_requests,
                        list[i],
                        false,
                    ));
                } else if e.succeeded() {
                    assert(answered(requests, list[i], true));
                } else {
                    assert(answered(requests, list[i], false));
                }
            }
        }
    }
}

proof fn lemma_left(names: Seq<Text>, commanded: Map<Text, Scalar>, n: nat, c: Text)
    requires
        n <= names.len(),
    ensures
        uncommanded(names, commanded, n).contains(c) <==> !commanded.dom().contains(c)
            && exists|i: int| 0 <= i < n && #[trigger] names[i] == c,
    decreases n,
{
    if n > 0 {
        let m = (n - 1) as nat;
        lemma_left(names, commanded, m, c);
        lemma_listed(uncommanded(names, commanded, m), c, names[n - 1]);
        if exists|i: int| 0 <= i < n && #[trigger] names[i] == c {
            let i = choose|i: int| 0 <= i < n && #[trigger] names[i] == c;
            if i < m {
                assert(0 <= i < m && names[i] == c);
            }
        }
        if exists|i: int| 0 <= i < m && #[trigger] names[i] == c {
            let i = choose|i: int| 0 <= i < m && #[trigger] names[i] == c;
            assert(0 <= i < n && names[i] == c);
        }
    }
}

// --- Laws of a tick ------------------------------------------------------------------------------

/// Whether a channel needs its failsafe on a tick: it faulted, or it has a policy and was not
/// driven.
pub open spec fn needs_failsafe(policy: PolicyView, tick: Outcome, run: Run, channel: Text) -> bool {
    tick.faulted.contains(channel) || (policy.channels.dom().contains(channel)
        && !run.applied.commanded.dom().contains(channel))
}

/// What a tick is: every command has its name, once, and every fault.
pub open spec fn proper(tick: Outcome) -> bool {
    &&& tick.names.no_duplicates()
    &&& forall|c: Text| #[trigger] tick.names.contains(c) <==> tick.commands.dom().contains(c)
    &&& forall|c: Text| #[trigger] tick.faulted_names.contains(c) <==> tick.faulted.contains(c)
}

proof fn lemma_tick(policy: PolicyView, tick: Outcome, can_restore: bool, oks: Seq<bool>)
    requires
        policy.wf(),
        proper(tick),
        in_numbers(policy, tick),
    ensures
        ({
            let start = commands_run(policy, tick, oks, tick.names.len());
            let run = applied_run(policy, tick, can_restore, oks);
            let list = uncommanded(policy.names, start.applied.commanded, policy.names.len())
                + tick.faulted_names;
            &&& written(policy, tick, start, tick.names.len())
            &&& secured(policy, can_restore, start, list, run, list.len())
            &&& forall|c: Text| #[trigger]
                list.contains(c) <==> needs_failsafe(policy, tick, run, c)
        }),
{
    let start = commands_run(policy, tick, oks, tick.names.len());
    let run = applied_run(policy, tick, can_restore, oks);
    let left = uncommanded(policy.names, start.applied.commanded, policy.names.len());
    let list = left + tick.faulted_names;
    lemma_written(policy, tick, oks, tick.names.len());
    lemma_secured(policy, can_restore, start, list, oks, list.len());
    assert forall|c: Text| #[trigger] list.contains(c) <==> needs_failsafe(
        policy,
        tick,
        run,
        c,
    ) by {
        lemma_left(policy.names, start.applied.commanded, policy.names.len(), c);
        if left.contains(c) {
            let i = left.index_of(c);
            assert(list[i] == c);
        }
        if tick.faulted_names.contains(c) {
            let i = tick.faulted_names.index_of(c);
            assert(list[left.len() + i] == c);
        }
        if list.contains(c) {
            let i = list.index_of(c);
            if i < left.len() {
                assert(left[i] == c);
            } else {
                assert(tick.faulted_names[i - left.len()] == c);
            }
        }
        if policy.channels.dom().contains(c) {
            let i = policy.names.index_of(c);
            assert(policy.names[i] == c);
        }
        if exists|i: int| 0 <= i < policy.names.len() && #[trigger] policy.names[i] == c {
            assert(policy.names.contains(c));
        }
    }
}

/// A failsafe does what was configured: a channel that is reported in its failsafe is in the one
/// that its policy has, whatever the backend can restore, and the request for it was made and
/// succeeded. A fixed duty stays that duty, and the firmware is restored wherever it can be.
pub proof fn a_failsafe_does_what_was_configured(
    policy: PolicyView,
    tick: Outcome,
    can_restore: bool,
    oks: Seq<bool>,
    channel: Text,
)
    requires
        policy.wf(),
        proper(tick),
        in_numbers(policy, tick),
        applied_run(policy, tick, can_restore, oks).applied.failsafed.dom().contains(channel),
    ensures
        ({
            let run = applied_run(policy, tick, can_restore, oks);
            &&& as_configured(policy, can_restore, channel, run.applied.failsafed[channel])
            &&& exists|k: int|
                0 <= k < run.events.len() && (#[trigger] run.events[k]).succeeded() && called_for(
                    policy,
                    can_restore,
                    channel,
                    run.events[k],
                )
            &&& needs_failsafe(policy, tick, run, channel)
        }),
{
    lemma_tick(policy, tick, can_restore, oks);
    let start = commands_run(policy, tick, oks, tick.names.len());
    let run = applied_run(policy, tick, can_restore, oks);
    let list = uncommanded(policy.names, start.applied.commanded, policy.names.len())
        + tick.faulted_names;
    let first = start.events.len() as int;
    let requests = run.events.skip(first);
    assert(answered(requests, channel, true));
    let k = choose|k: int|
        0 <= k < requests.len() && (#[trigger] requests[k]).about() == channel
            && requests[k].succeeded() == true;
    assert(run.events[first + k] == requests[k]);
    let i = choose|i: int| 0 <= i < list.len() && #[trigger] list[i] == run.events[first + k].about();
    assert(list.contains(channel));
}

/// Every request that a tick makes has its reason: it drives a channel that did not fault as the
/// graph asks, never below the channel's floor, or it is what the failsafe of a channel calls for
/// that needs it.
pub proof fn every_request_has_its_reason(
    policy: PolicyView,
    tick: Outcome,
    can_restore: bool,
    oks: Seq<bool>,
    k: int,
)
    requires
        policy.wf(),
        proper(tick),
        in_numbers(policy, tick),
        0 <= k < applied_run(policy, tick, can_restore, oks).events.len(),
    ensures
        ({
            let run = applied_run(policy, tick, can_restore, oks);
            let channel = run.events[k].about();
            ||| tick.commands.dom().contains(channel) && !tick.faulted.contains(channel) && drives(
                policy,
                tick,
                channel,
                run.events[k],
            )
            ||| needs_failsafe(policy, tick, run, channel) && called_for(
                policy,
                can_restore,
                channel,
                run.events[k],
            )
        }),
{
    lemma_tick(policy, tick, can_restore, oks);
    let start = commands_run(policy, tick, oks, tick.names.len());
    let run = applied_run(policy, tick, can_restore, oks);
    let list = uncommanded(policy.names, start.applied.commanded, policy.names.len())
        + tick.faulted_names;
    let channel = run.events[k].about();
    if k < start.events.len() {
        assert(run.events[k] == start.events[k]);
        let i = choose|i: int|
            0 <= i < tick.names.len() && #[trigger] tick.names[i] == start.events[k].about();
        assert(tick.names.contains(channel));
    } else {
        let i = choose|i: int| 0 <= i < list.len() && #[trigger] list[i] == run.events[k].about();
        assert(list.contains(channel));
    }
}

/// What the graph asks of a channel that did not fault is asked of the hardware: where the
/// hardware agrees the channel is reported as commanded, at the duty that was asked for or its
/// floor, and where it refuses the channel is reported so.
pub proof fn what_is_asked_is_written(
    policy: PolicyView,
    tick: Outcome,
    can_restore: bool,
    oks: Seq<bool>,
    channel: Text,
)
    requires
        policy.wf(),
        proper(tick),
        in_numbers(policy, tick),
        tick.commands.dom().contains(channel),
        !tick.faulted.contains(channel),
    ensures
        ({
            let run = applied_run(policy, tick, can_restore, oks);
            &&& exists|k: int|
                0 <= k < run.events.len() && drives(
                    policy,
                    tick,
                    channel,
                    #[trigger] run.events[k],
                )
            &&& run.applied.commanded.dom().contains(channel)
                || run.applied.write_errors.contains(channel)
            &&& run.applied.commanded.dom().contains(channel) ==> lifted(
                configured(policy, channel).floor_duty,
                tick.commands[channel].scalar,
                run.applied.commanded[channel],
            )
        }),
{
    lemma_tick(policy, tick, can_restore, oks);
    let start = commands_run(policy, tick, oks, tick.names.len());
    let run = applied_run(policy, tick, can_restore, oks);
    assert(tick.names.contains(channel));
    let i = tick.names.index_of(channel);
    assert(tick.names[i] == channel);
    let ok = answered(start.events, channel, true);
    let k = choose|k: int|
        0 <= k < start.events.len() && (#[trigger] start.events[k]).about() == channel
            && start.events[k].succeeded() == ok;
    assert(run.events[k] == start.events[k]);
    assert(drives(policy, tick, channel, run.events[k]));
    assert(start.applied.commanded.dom().contains(channel) <==> answered(
        start.events,
        channel,
        true,
    ));
    assert(start.applied.write_errors.contains(channel) <==> answered(
        start.events,
        channel,
        false,
    ));
}

/// A channel that needs its failsafe is asked into it, and the answer is reported.
pub proof fn what_needs_its_failsafe_is_asked_into_it(
    policy: PolicyView,
    tick: Outcome,
    can_restore: bool,
    oks: Seq<bool>,
    channel: Text,
)
    requires
        policy.wf(),
        proper(tick),
        in_numbers(policy, tick),
        needs_failsafe(policy, tick, applied_run(policy, tick, can_restore, oks), channel),
    ensures
        ({
            let run = applied_run(policy, tick, can_restore, oks);
            &&& exists|k: int|
                0 <= k < run.events.len() && called_for(
                    policy,
                    can_restore,
                    channel,
                    #[trigger] run.events[k],
                )
            &&& run.applied.failsafed.dom().contains(channel)
                || run.applied.write_errors.contains(channel)
        }),
{
    lemma_tick(policy, tick, can_restore, oks);
    let start = commands_run(policy, tick, oks, tick.names.len());
    let run = applied_run(policy, tick, can_restore, oks);
    let list = uncommanded(policy.names, start.applied.commanded, policy.names.len())
        + tick.faulted_names;
    let first = start.events.len() as int;
    let requests = run.events.skip(first);
    assert(list.contains(channel));
    let i = list.index_of(channel);
    assert(list[i] == channel);
    let ok = answered(requests, channel, true);
    let k = choose|k: int|
        0 <= k < requests.len() && (#[trigger] requests[k]).about() == channel
            && requests[k].succeeded() == ok;
    assert(run.events[first + k] == requests[k]);
    assert(called_for(policy, can_restore, channel, run.events[first + k]));
    assert(run.applied.failsafed.dom().contains(channel) <==> answered(requests, channel, true));
    assert(run.applied.write_errors.contains(channel) <==> start.applied.write_errors.contains(
        channel,
    ) || answered(requests, channel, false));
}

// --- The dying breath ----------------------------------------------------------------------------

/// Letting go does what was configured: a channel that is reported in its failsafe is in the one
/// that its policy has, or, where the hardware refused that, at full duty.
pub proof fn letting_go_does_what_was_configured(
    policy: PolicyView,
    can_restore: bool,
    oks: Seq<bool>,
    n: nat,
    channel: Text,
)
    requires
        n <= policy.names.len(),
        breath_run(policy, can_restore, oks, n).applied.failsafed.dom().contains(channel),
    ensures
        ({
            let run = breath_run(policy, can_restore, oks, n);
            let action = run.applied.failsafed[channel];
            ||| as_configured(policy, can_restore, channel, action) && exists|k: int|
                0 <= k < run.events.len() && (#[trigger] run.events[k]).succeeded() && called_for(
                    policy,
                    can_restore,
                    channel,
                    run.events[k],
                )
            ||| action == FailsafeAction::FixedDuty(whole(100)) && exists|k: int|
                0 <= k < run.events.len() - 1 && !(#[trigger] run.events[k]).succeeded()
                    && called_for(policy, can_restore, channel, run.events[k])
        }),
    decreases n,
{
    if n > 0 {
        let m = (n - 1) as nat;
        let before = breath_run(policy, can_restore, oks, m);
        let run = breath_run(policy, can_restore, oks, n);
        let last = policy.names[n - 1];
        let at = before.events.len() as int;
        assert(configured(policy, last) == policy.of(last));
        assert(run.events[at].about() == last);
        assert(called_for(policy, can_restore, last, run.events[at]));
        assert forall|k: int| 0 <= k < before.events.len() implies #[trigger] run.events[k]
            == before.events[k] by {}
        if channel == last && (run.events[at].succeeded() || run.events.last().succeeded()) {
            if run.events[at].succeeded() {
                assert(as_configured(policy, can_restore, channel, run.applied.failsafed[channel]));
            } else {
                assert(!run.events[at].succeeded() && at < run.events.len() - 1);
            }
        } else {
            assert(before.applied.failsafed.dom().contains(channel));
            assert(run.applied.failsafed[channel] == before.applied.failsafed[channel]);
            letting_go_does_what_was_configured(policy, can_restore, oks, m, channel);
            let action = before.applied.failsafed[channel];
            if as_configured(policy, can_restore, channel, action) && exists|k: int|
                0 <= k < before.events.len() && (#[trigger] before.events[k]).succeeded()
                    && called_for(policy, can_restore, channel, before.events[k]) {
                let k = choose|k: int|
                    0 <= k < before.events.len() && (#[trigger] before.events[k]).succeeded()
                        && called_for(policy, can_restore, channel, before.events[k]);
                assert(run.events[k] == before.events[k]);
            } else {
                let k = choose|k: int|
                    0 <= k < before.events.len() - 1 && !(
                    #[trigger] before.events[k]).succeeded() && called_for(
                        policy,
                        can_restore,
                        channel,
                        before.events[k],
                    );
                assert(run.events[k] == before.events[k]);
            }
        }
    }
}

/// Letting go asks of every channel what its failsafe calls for, and full duty only where that
/// was refused just before.
pub proof fn letting_go_asks_for_what_was_configured(
    policy: PolicyView,
    can_restore: bool,
    oks: Seq<bool>,
    n: nat,
    i: int,
)
    requires
        0 <= i < n <= policy.names.len(),
    ensures
        ({
            let run = breath_run(policy, can_restore, oks, n);
            &&& exists|k: int|
                0 <= k < run.events.len() && called_for(
                    policy,
                    can_restore,
                    policy.names[i],
                    #[trigger] run.events[k],
                )
            &&& forall|k: int|
                0 <= k < run.events.len() ==> {
                    ||| called_for(
                        policy,
                        can_restore,
                        (#[trigger] run.events[k]).about(),
                        run.events[k],
                    )
                    ||| k > 0 && !run.events[k - 1].succeeded() && run.events[k - 1].about()
                        == run.events[k].about() && (run.events[k] matches Event::SetDuty {
                        duty,
                        ..
                    } && duty == whole(100))
                }
        }),
    decreases n,
{
    let m = (n - 1) as nat;
    let before = breath_run(policy, can_restore, oks, m);
    let run = breath_run(policy, can_restore, oks, n);
    let last = policy.names[n - 1];
    let at = before.events.len() as int;
    assert(configured(policy, last) == policy.of(last));
    assert(called_for(policy, can_restore, last, run.events[at]));
    assert forall|k: int| 0 <= k < before.events.len() implies #[trigger] run.events[k]
        == before.events[k] by {}
    if m > 0 {
        letting_go_asks_for_what_was_configured(
            policy,
            can_restore,
            oks,
            m,
            if i < m {
                i
            } else {
                0
            },
        );
        if i < m {
            let k = choose|k: int|
                0 <= k < before.events.len() && called_for(
                    policy,
                    can_restore,
                    policy.names[i],
                    #[trigger] before.events[k],
                );
            assert(run.events[k] == before.events[k]);
        }
    }
    assert forall|k: int| 0 <= k < run.events.len() implies {
        ||| called_for(policy, can_restore, (#[trigger] run.events[k]).about(), run.events[k])
        ||| k > 0 && !run.events[k - 1].succeeded() && run.events[k - 1].about()
            == run.events[k].about() && (run.events[k] matches Event::SetDuty { duty, .. } && duty
            == whole(100))
    } by {
        if k < before.events.len() {
            assert(run.events[k] == before.events[k]);
            if k > 0 {
                assert(run.events[k - 1] == before.events[k - 1]);
            }
        } else if k > at {
            assert(run.events[k - 1] == run.events[at]);
        }
    }
}

} // verus!
