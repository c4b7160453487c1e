//! What an engine does with time, with readings and with channels.
use crate::engine::{
    acquire_run, blind_tick, channel_names, evaluated_tick, exchanged, hand_backs, measures, ordered,
    period, quantities_in, release_run, sanitized, tachometers_in, tagged, unwanted, EngineConfig,
    EngineView, Exchange,
};
use crate::eval::decay_exponent;
use crate::graph::GraphView;
use crate::hal::{ChannelInfo, Event, HalError, SensorInfo, SensorKind};
use crate::ordmap::{ascending, Key};
use crate::policy::{applied_run, successes, AppliedView, ChannelPolicy, Outcome, PolicyView};
use crate::policy_guarantees::{
    called_for, configured, drives, every_request_has_its_reason, in_numbers,
    letting_go_asks_for_what_was_configured, lifted, proper, what_is_asked_is_written,
    what_needs_its_failsafe_is_asked_into_it,
};
use crate::rounding::{apart, the_nearest_is_near, LENGTH};
use crate::scalar::{
    lemma_magnitude_order, magnitude_of, nearest, order_is_by_value, whole, whole_is_exact, Scalar,
};
use crate::text::Text;
use crate::tick::{exponents_of, Progress};
use crate::units::Quantity;
use vstd::arithmetic::power2::{lemma_pow2_pos, pow2};
use vstd::prelude::*;

verus! {

// --- Time ----------------------------------------------------------------------------------------

/// A time that makes sense is used as it is, a long one is cut to the longest allowed, and one
/// that makes none counts as a nominal tick.
pub proof fn time_is_used_as_it_passed(dt: Scalar, config: EngineConfig)
    requires
        config.max_dt_seconds.finite(),
    ensures
        dt.finite() && 0 < dt.value() <= config.max_dt_seconds.value() ==> sanitized(dt, config)
            == dt,
        dt.finite() && dt.value() > 0 && dt.value() > config.max_dt_seconds.value() ==> sanitized(
            dt,
            config,
        ) == config.max_dt_seconds,
        !dt.finite() || dt.value() <= 0 ==> sanitized(dt, config) == period(config),
{
    whole_is_exact(0);
    assert(0 * pow2(1074) == 0);
    if dt.finite() {
        order_is_by_value(dt, whole(0));
        order_is_by_value(config.max_dt_seconds, dt);
    }
}

/// A nominal tick is as long as its frequency says, within rounding, and no longer than that of
/// ten seconds' length.
pub proof fn a_nominal_tick_is_one_over_its_frequency(config: EngineConfig)
    requires
        config.tick_hz.finite(),
        whole(1).over(whole(10)).below(config.tick_hz),
        period(config).finite(),
    ensures
        period(config).value() >= 0,
        LENGTH * apart(
            period(config).value() * config.tick_hz.value(),
            (pow2(1074) * pow2(1074)) as int,
        ) <= pow2(1074) * pow2(1074) + LENGTH * config.tick_hz.value(),
{
    let hz = config.tick_hz;
    let unit = pow2(1074);
    lemma_pow2_pos(1074);
    whole_is_exact(1);
    whole_is_exact(10);
    let tenth = whole(1).over(whole(10));
    assert(!tenth.neg()) by {
        reveal(Scalar::over);
        reveal(whole);
    }
    assert(!hz.neg() && hz.pattern() > 0);
    lemma_magnitude_order(0, hz.pattern());
    assert(hz.larger(tenth) == hz);
    let r = period(config);
    reveal(Scalar::over);
    let n = (whole(1).magnitude() * unit) as nat;
    let d = hz.magnitude();
    assert(whole(1).magnitude() == unit) by {
        assert(1 * unit == unit);
    }
    assert(!whole(1).neg()) by {
        reveal(whole);
    }
    the_nearest_is_near(n, d);
    assert(r.magnitude() == magnitude_of(nearest(n, d) as int));
}

/// A frequency that is no number, or below a tenth, counts as a tenth.
pub proof fn a_tick_is_never_longer_than_the_slowest(a: EngineConfig, b: EngineConfig)
    requires
        !whole(1).over(whole(10)).below(a.tick_hz),
        !whole(1).over(whole(10)).below(b.tick_hz),
        a.tick_hz.nan() || a.tick_hz.rank() < whole(1).over(whole(10)).rank(),
        b.tick_hz.nan() || b.tick_hz.rank() < whole(1).over(whole(10)).rank(),
    ensures
        period(a) == period(b),
{
    assert(!whole(1).over(whole(10)).nan()) by {
        reveal(Scalar::over);
        whole_is_exact(1);
        whole_is_exact(10);
    }
}

// --- Readings ------------------------------------------------------------------------------------

/// What each kind of sensor measures.
pub proof fn sensors_measure_what_they_are(kind: SensorKind)
    ensures
        kind is Temperature <==> measures(kind) == Quantity::Temperature,
        kind is Fan <==> measures(kind) == Quantity::Rpm,
        kind is Voltage <==> measures(kind) == Quantity::Voltage,
        kind is Current <==> measures(kind) == Quantity::Current,
        kind is Power <==> measures(kind) == Quantity::Power,
        kind is Load <==> measures(kind) == Quantity::Load,
{
}

/// Every sensor that is listed is known by what it measures; where one is listed twice, the last
/// entry counts.
pub proof fn listed_sensors_are_known(list: Seq<SensorInfo>, n: nat, i: int)
    requires
        0 <= i < n <= list.len(),
        forall|j: int| i < j < n ==> (#[trigger] list[j]).id@ != list[i].id@,
    ensures
        quantities_in(list, n).dom().contains(list[i].id@),
        quantities_in(list, n)[list[i].id@] == measures(list[i].kind),
    decreases n,
{
    if i < n - 1 {
        assert(list[n - 1].id@ != list[i].id@);
        listed_sensors_are_known(list, (n - 1) as nat, i);
    }
}

/// No sensor is known that is not listed.
pub proof fn known_sensors_are_listed(list: Seq<SensorInfo>, n: nat, id: Text)
    requires
        n <= list.len(),
        quantities_in(list, n).dom().contains(id),
    ensures
        exists|i: int| 0 <= i < n && (#[trigger] list[i]).id@ == id,
    decreases n,
{
    if n > 0 {
        if id == list[n - 1].id@ {
            assert(list[n - 1].id@ == id);
        } else {
            known_sensors_are_listed(list, (n - 1) as nat, id);
            let i = choose|i: int| 0 <= i < n - 1 && (#[trigger] list[i]).id@ == id;
            assert(list[i].id@ == id);
        }
    }
}

/// Every channel that is listed with a tachometer is read back by it; where one is listed twice
/// with a tachometer, the last entry counts.
pub proof fn listed_tachometers_are_known(list: Seq<ChannelInfo>, n: nat, i: int)
    requires
        0 <= i < n <= list.len(),
        list[i].tachometer is Some,
        forall|j: int|
            i < j < n ==> (#[trigger] list[j]).id@ != list[i].id@ || list[j].tachometer is None,
    ensures
        tachometers_in(list, n).dom().contains(list[i].id@),
        tachometers_in(list, n)[list[i].id@] == (list[i].tachometer->0)@,
    decreases n,
{
    if i < n - 1 {
        assert(list[n - 1].id@ != list[i].id@ || list[n - 1].tachometer is None);
        listed_tachometers_are_known(list, (n - 1) as nat, i);
    }
}

/// No channel is read back that is not listed with a tachometer.
pub proof fn known_tachometers_are_listed(list: Seq<ChannelInfo>, n: nat, id: Text)
    requires
        n <= list.len(),
        tachometers_in(list, n).dom().contains(id),
    ensures
        exists|i: int|
            0 <= i < n && (#[trigger] list[i]).id@ == id && list[i].tachometer is Some,
    decreases n,
{
    if n > 0 {
        if tachometers_in(list, (n - 1) as nat).dom().contains(id) {
            known_tachometers_are_listed(list, (n - 1) as nat, id);
            let i = choose|i: int|
                0 <= i < n - 1 && (#[trigger] list[i]).id@ == id && list[i].tachometer is Some;
            assert(list[i].id@ == id);
        } else {
            assert(list[n - 1].id@ == id);
        }
    }
}

/// A reading is passed on as what its sensor measures, and as the number it is; only a percentage
/// out of range is brought into it. What no sensor is known for is dropped.
pub proof fn readings_are_passed_on(
    raw: Map<Text, Scalar>,
    quantities: Map<Text, Quantity>,
    id: Text,
)
    ensures
        tagged(raw, quantities).dom().contains(id) <==> raw.dom().contains(id)
            && quantities.dom().contains(id),
        tagged(raw, quantities).dom().contains(id) ==> {
            let v = tagged(raw, quantities)[id];
            let q = quantities[id];
            let x = raw[id];
            &&& v.quantity == q
            &&& q != Quantity::Duty && q != Quantity::Load ==> v.scalar == x
            &&& !x.finite() && !x.infinite() ==> v.scalar == x
            &&& x.finite() && 0 <= x.value() <= 100 * pow2(1074) ==> v.scalar == x
            &&& (q == Quantity::Duty || q == Quantity::Load) && x.finite() && x.value() < 0
                ==> v.scalar == whole(0)
            &&& (q == Quantity::Duty || q == Quantity::Load) && x.finite() && x.value() > 100
                * pow2(1074) ==> v.scalar == whole(100)
        },
{
    let x = raw[id];
    whole_is_exact(0);
    whole_is_exact(100);
    lemma_pow2_pos(1074);
    assert(0 * pow2(1074) == 0);
    if x.finite() {
        order_is_by_value(x, whole(0));
        order_is_by_value(whole(100), x);
    }
}

/// Every low-pass filter of a graph has its exponential asked for, and nothing else is.
pub proof fn every_filter_has_its_exponential_asked_for(g: GraphView, dt: Scalar, n: nat)
    requires
        n <= g.ids.len(),
    ensures
        forall|i: int|
            0 <= i < n && g.nodes[#[trigger] g.ids[i]].kind is LowPass ==> exponents_of(
                g,
                dt,
                n,
            ).contains(decay_exponent(g.nodes[g.ids[i]].kind->tau_seconds, dt)),
        forall|e: Scalar| #[trigger]
            exponents_of(g, dt, n).contains(e) ==> exists|i: int|
                0 <= i < n && g.nodes[#[trigger] g.ids[i]].kind is LowPass && e == decay_exponent(
                    g.nodes[g.ids[i]].kind->tau_seconds,
                    dt,
                ),
    decreases n,
{
    if n > 0 {
        let m = (n - 1) as nat;
        every_filter_has_its_exponential_asked_for(g, dt, m);
        let before = exponents_of(g, dt, m);
        let after = exponents_of(g, dt, n);
        assert forall|i: int|
            0 <= i < n && g.nodes[#[trigger] g.ids[i]].kind is LowPass implies after.contains(
            decay_exponent(g.nodes[g.ids[i]].kind->tau_seconds, dt),
        ) by {
            let e = decay_exponent(g.nodes[g.ids[i]].kind->tau_seconds, dt);
            if i < m {
                assert(before.contains(e));
                assert(after[before.index_of(e)] == e);
            } else {
                assert(after[before.len() as int] == e);
            }
        }
        assert forall|e: Scalar| #[trigger] after.contains(e) implies exists|i: int|
            0 <= i < n && g.nodes[#[trigger] g.ids[i]].kind is LowPass && e == decay_exponent(
                g.nodes[g.ids[i]].kind->tau_seconds,
                dt,
            ) by {
            let k = after.index_of(e);
            if k < before.len() {
                assert(before[k] == e);
                assert(before.contains(e));
                let i = choose|i: int|
                    0 <= i < m && g.nodes[#[trigger] g.ids[i]].kind is LowPass && e
                        == decay_exponent(g.nodes[g.ids[i]].kind->tau_seconds, dt);
                assert(g.nodes[g.ids[i]].kind is LowPass);
            } else {
                assert(g.nodes[g.ids[n - 1]].kind is LowPass);
            }
        }
    }
}

// --- Channels ------------------------------------------------------------------------------------

/// Whether a request to let go of a channel stands among some.
pub open spec fn let_go(events: Seq<Event>, channel: Text) -> bool {
    exists|k: int|
        0 <= k < events.len() && (#[trigger] events[k] matches Event::Release { channel: c, .. }
            && c == channel)
}

/// Whether a request for a channel stands among some, with an answer.
pub open spec fn asked_for(events: Seq<Event>, channel: Text, ok: bool) -> bool {
    exists|k: int|
        0 <= k < events.len() && #[trigger] events[k] == (Event::Acquire { channel, ok })
}

proof fn lemma_unwanted(held: Seq<Text>, g: GraphView, n: nat)
    requires
        n <= held.len(),
    ensures
        forall|c: Text| #[trigger]
            unwanted(held, g, n).contains(c) <==> !g.drives(c) && exists|i: int|
                0 <= i < n && #[trigger] held[i] == c,
    decreases n,
{
    if n > 0 {
        let m = (n - 1) as nat;
        lemma_unwanted(held, g, m);
        let before = unwanted(held, g, m);
        let after = unwanted(held, g, n);
        assert forall|c: Text| #[trigger] after.contains(c) <==> !g.drives(c) && exists|i: int|
            0 <= i < n && #[trigger] held[i] == c by {
            if after.contains(c) {
                let k = after.index_of(c);
                if k < before.len() {
                    assert(before[k] == c);
                    assert(before.contains(c));
                    let i = choose|i: int| 0 <= i < m && #[trigger] held[i] == c;
                    assert(held[i] == c);
                } else {
                    assert(held[n - 1] == c);
                }
            }
            if !g.drives(c) && exists|i: int| 0 <= i < n && #[trigger] held[i] == c {
                let i = choose|i: int| 0 <= i < n && #[trigger] held[i] == c;
                if i < m {
                    assert(before.contains(c));
                    assert(after[before.index_of(c)] == c);
                } else {
                    assert(after[before.len() as int] == c);
                }
            }
        }
    }
}

proof fn lemma_released(start: Exchange, list: Seq<Text>, oks: Seq<bool>, n: nat)
    requires
        n <= list.len(),
        start.events.len() == 0,
    ensures
        ({
            let run = release_run(start, list, oks, n);
            &&& run.channels == start.channels
            &&& run.events.len() == n
            &&& forall|k: int|
                0 <= k < n ==> (#[trigger] run.events[k] matches Event::Release { channel, .. }
                    && channel == list[k])
            &&& forall|c: Text| #[trigger]
                run.acquired.contains(c) <==> start.acquired.contains(c) && !exists|k: int|
                    0 <= k < n && #[trigger] list[k] == c
        }),
    decreases n,
{
    if n > 0 {
        let m = (n - 1) as nat;
        lemma_released(start, list, oks, m);
        let before = release_run(start, list, oks, m);
        let run = release_run(start, list, oks, n);
        assert forall|c: Text| #[trigger] run.acquired.contains(c) <==> start.acquired.contains(c)
            && !exists|k: int| 0 <= k < n && #[trigger] list[k] == c by {
            if exists|k: int| 0 <= k < n && #[trigger] list[k] == c {
                let k = choose|k: int| 0 <= k < n && #[trigger] list[k] == c;
                if k < m {
                    assert(!before.acquired.contains(c));
                }
            }
            if before.acquired.contains(c) && c != list[n - 1] {
                assert forall|k: int| 0 <= k < n implies #[trigger] list[k] != c by {
                    if k < m {
                        assert(list[k] != c);
                    }
                }
            }
        }
    }
}

/// Whether a channel's policy is what one that nobody configured has.
pub open spec fn bare(policy: ChannelPolicy) -> bool {
    policy.failsafe is RestoreFirmware && policy.floor_duty == whole(0)
}

proof fn lemma_acquired(start: Exchange, list: Seq<Text>, oks: Seq<bool>, n: nat)
    requires
        n <= list.len(),
        list.no_duplicates(),
    ensures
        ({
            let run = acquire_run(start, list, oks, n);
            let first = start.events.len() as int;
            &&& run.events.len() >= first
            &&& forall|k: int| 0 <= k < first ==> #[trigger] run.events[k] == start.events[k]
            &&& forall|k: int|
                first <= k < run.events.len() ==> (#[trigger] run.events[k] matches Event::Acquire {
                    channel,
                    ok,
                } && !start.acquired.contains(channel) && (run.acquired.contains(channel) <==> ok)
                    && exists|i: int| 0 <= i < n && #[trigger] list[i] == channel)
            &&& forall|i: int|
                0 <= i < n && !start.acquired.contains(#[trigger] list[i]) ==> exists|k: int|
                    first <= k < run.events.len() && (#[trigger] run.events[k] matches Event::Acquire {
                        channel,
                        ..
                    } && channel == list[i])
            &&& forall|c: Text| #[trigger] start.acquired.contains(c) ==> run.acquired.contains(c)
            &&& forall|c: Text| #[trigger]
                run.acquired.contains(c) && !start.acquired.contains(c) ==> exists|i: int|
                    0 <= i < n && #[trigger] list[i] == c
            &&& forall|c: Text| #[trigger]
                start.channels.dom().contains(c) ==> run.channels.dom().contains(c)
                    && run.channels[c] == start.channels[c]
            &&& forall|c: Text| #[trigger]
                run.channels.dom().contains(c) && !start.channels.dom().contains(c) ==> bare(
                    run.channels[c],
                ) && run.acquired.contains(c)
            &&& forall|c: Text| #[trigger]
                run.acquired.contains(c) && !start.acquired.contains(c)
                    ==> run.channels.dom().contains(c)
        }),
    decreases n,
{
    if n > 0 {
        let m = (n - 1) as nat;
        lemma_acquired(start, list, oks, m);
        let before = acquire_run(start, list, oks, m);
        let run = acquire_run(start, list, oks, n);
        let channel = list[n - 1];
        let first = start.events.len() as int;
        assert(before.acquired.contains(channel) ==> start.acquired.contains(channel)) by {
            if before.acquired.contains(channel) && !start.acquired.contains(channel) {
                let i = choose|i: int| 0 <= i < m && #[trigger] list[i] == channel;
                assert(list[i] != list[n - 1]);
            }
        }
        assert forall|k: int| first <= k < before.events.len() implies exists|i: int|
            0 <= i < n && #[trigger] list[i] == (
            #[trigger] before.events[k])->Acquire_channel by {
            let i = choose|i: int|
                0 <= i < m && #[trigger] list[i] == before.events[k]->Acquire_channel;
            assert(0 <= i < n && list[i] == before.events[k]->Acquire_channel);
            assert(list[i] != list[n - 1]);
        }
        if !before.acquired.contains(channel) {
            let e = run.events.last();
            assert(run.events =~= before.events.push(e));
            assert forall|k: int| first <= k < run.events.len() implies (
            #[trigger] run.events[k] matches Event::Acquire { channel: c, ok }
                && !start.acquired.contains(c) && (run.acquired.contains(c) <==> ok) && exists|
                i: int,
            |
                0 <= i < n && #[trigger] list[i] == c) by {
                if k < before.events.len() {
                    assert(run.events[k] == before.events[k]);
                    let c = before.events[k]->Acquire_channel;
                    let i = choose|i: int| 0 <= i < m && #[trigger] list[i] == c;
                    assert(list[i] != list[n - 1]);
                    assert(0 <= i < n && list[i] == c);
                } else {
                    assert(list[n - 1] == channel);
                }
            }
            assert forall|i: int|
                0 <= i < n && !start.acquired.contains(#[trigger] list[i]) implies exists|k: int|
                first <= k < run.events.len() && (#[trigger] run.events[k] matches Event::Acquire {
                    channel: c,
                    ..
                } && c == list[i]) by {
                if i < m {
                    let k = choose|k: int|
                        first <= k < before.events.len() && (
                        #[trigger] before.events[k] matches Event::Acquire { channel: c, .. } && c
                            == list[i]);
                    assert(run.events[k] == before.events[k]);
                } else {
                    assert(run.events[before.events.len() as int] == e);
                }
            }
        } else {
            assert(run == before);
        }
        assert forall|c: Text| #[trigger]
            run.acquired.contains(c) && !start.acquired.contains(c) implies exists|i: int|
            0 <= i < n && #[trigger] list[i] == c by {
            if before.acquired.contains(c) {
                let i = choose|i: int| 0 <= i < m && #[trigger] list[i] == c;
                assert(0 <= i < n && list[i] == c);
            } else {
                assert(list[n - 1] == c);
            }
        }
    }
}

/// Installing a graph lets go of every channel that it does not drive, and asks for every one
/// that it does and that is not held yet, and for nothing else. A channel that is driven and held
/// stays held without a word; one that is asked for is held where the backend agreed. What was
/// configured stays, and a channel that is new and unconfigured is given back to the firmware
/// when it fails.
pub proof fn installing_a_graph_exchanges_channels(e: EngineView, g: GraphView, oks: Seq<bool>, c: Text)
    requires
        forall|x: Text| #[trigger] e.acquired.contains(x) <==> e.held.contains(x),
        channel_names(g).no_duplicates(),
        forall|x: Text| #[trigger] channel_names(g).contains(x) <==> g.drives(x),
    ensures
        ({
            let moved = exchanged(e, g, oks);
            &&& let_go(moved.events, c) <==> e.acquired.contains(c) && !g.drives(c)
            &&& asked_for(moved.events, c, true) || asked_for(moved.events, c, false) <==> g.drives(
                c,
            ) && !e.acquired.contains(c)
            &&& moved.acquired.contains(c) <==> g.drives(c) && (e.acquired.contains(c) || asked_for(
                moved.events,
                c,
                true,
            ))
            &&& e.policy.channels.dom().contains(c) ==> moved.channels.dom().contains(c)
                && moved.channels[c] == e.policy.channels[c]
            &&& moved.channels.dom().contains(c) && !e.policy.channels.dom().contains(c) ==> bare(
                moved.channels[c],
            )
        }),
{
    let start = Exchange { acquired: e.acquired, channels: e.policy.channels, events: Seq::empty() };
    let list = unwanted(e.held, g, e.held.len());
    let released = release_run(start, list, oks, list.len());
    let names = channel_names(g);
    let moved = exchanged(e, g, oks);
    lemma_unwanted(e.held, g, e.held.len());
    lemma_released(start, list, oks, list.len());
    lemma_acquired(released, names, oks, names.len());
    let first = released.events.len() as int;
    assert(e.acquired.contains(c) <==> exists|i: int|
        0 <= i < e.held.len() && #[trigger] e.held[i] == c) by {
        if e.acquired.contains(c) {
            let i = e.held.index_of(c);
            assert(e.held[i] == c);
        }
    }
    assert(list.contains(c) <==> exists|k: int| 0 <= k < list.len() && #[trigger] list[k] == c) by {
        if list.contains(c) {
            let k = list.index_of(c);
            assert(list[k] == c);
        }
    }
    assert(released.acquired.contains(c) <==> e.acquired.contains(c) && g.drives(c));
    if list.contains(c) {
        let k = list.index_of(c);
        assert(released.events[k] matches Event::Release { channel, .. } && channel == list[k]);
        assert(moved.events[k] == released.events[k]);
        assert(let_go(moved.events, c));
    }
    if let_go(moved.events, c) {
        let k = choose|k: int|
            0 <= k < moved.events.len() && (
            #[trigger] moved.events[k] matches Event::Release { channel, .. } && channel == c);
        if k < first {
            assert(moved.events[k] == released.events[k]);
            assert(list[k] == c);
        }
    }
    if g.drives(c) && !e.acquired.contains(c) {
        assert(names.contains(c));
        let i = names.index_of(c);
        assert(names[i] == c);
        let k = choose|k: int|
            first <= k < moved.events.len() && (#[trigger] moved.events[k] matches Event::Acquire {
                channel,
                ..
            } && channel == names[i]);
        let ok = moved.events[k]->Acquire_ok;
        assert(moved.events[k] == (Event::Acquire { channel: c, ok }));
        assert(asked_for(moved.events, c, ok));
    }
    assert forall|ok: bool| #[trigger] asked_for(moved.events, c, ok) implies g.drives(c)
        && !e.acquired.contains(c) && (moved.acquired.contains(c) <==> ok) by {
        let k = choose|k: int|
            0 <= k < moved.events.len() && #[trigger] moved.events[k] == (Event::Acquire {
                channel: c,
                ok,
            });
        if k < first {
            assert(moved.events[k] == released.events[k]);
        } else {
            let i = choose|i: int| 0 <= i < names.len() && #[trigger] names[i] == c;
            assert(names.contains(c));
        }
    }
    if moved.acquired.contains(c) && !released.acquired.contains(c) {
        let i = choose|i: int| 0 <= i < names.len() && #[trigger] names[i] == c;
        assert(names.contains(c));
        if e.acquired.contains(c) {
            assert(released.acquired.contains(c));
        }
    }
}

/// Handing channels back asks the backend for each that is not held, in order, and for no other.
pub proof fn only_what_is_not_held_is_handed_back(
    names: Seq<Text>,
    held: Set<Text>,
    answers: Seq<Result<(), HalError>>,
    n: nat,
)
    requires
        n <= names.len(),
    ensures
        forall|i: int|
            0 <= i < n && !held.contains(#[trigger] names[i]) ==> hand_backs(
                names,
                held,
                answers,
                n,
            ).contains(Event::HandBack { channel: names[i], answer: answers[i] }),
        forall|k: int|
            0 <= k < hand_backs(names, held, answers, n).len() ==> exists|i: int|
                0 <= i < n && !held.contains(#[trigger] names[i]) && #[trigger] hand_backs(
                    names,
                    held,
                    answers,
                    n,
                )[k] == (Event::HandBack { channel: names[i], answer: answers[i] }),
    decreases n,
{
    if n > 0 {
        let m = (n - 1) as nat;
        only_what_is_not_held_is_handed_back(names, held, answers, m);
        let before = hand_backs(names, held, answers, m);
        let after = hand_backs(names, held, answers, n);
        assert forall|i: int|
            0 <= i < n && !held.contains(#[trigger] names[i]) implies after.contains(
            Event::HandBack { channel: names[i], answer: answers[i] },
        ) by {
            let e = Event::HandBack { channel: names[i], answer: answers[i] };
            if i < m {
                assert(before.contains(e));
                assert(after[before.index_of(e)] == e);
            } else {
                assert(after[before.len() as int] == e);
            }
        }
        assert forall|k: int| 0 <= k < after.len() implies exists|i: int|
            0 <= i < n && !held.contains(#[trigger] names[i]) && #[trigger] after[k] == (
            Event::HandBack { channel: names[i], answer: answers[i] }) by {
            if k < before.len() {
                assert(after[k] == before[k]);
                let i = choose|i: int|
                    0 <= i < m && !held.contains(#[trigger] names[i]) && before[k] == (
                    Event::HandBack { channel: names[i], answer: answers[i] });
                assert(!held.contains(names[i]));
            } else {
                assert(!held.contains(names[n - 1]));
            }
        }
    }
}

// --- Ticks ---------------------------------------------------------------------------------------

/// Whether the floors of a policy and the commands of a graph are numbers; a floor may be missing.
pub open spec fn all_in_numbers(policy: PolicyView, done: Progress) -> bool {
    &&& forall|c: Text|
        #![trigger configured(policy, c)]
        configured(policy, c).floor_duty.finite() || configured(policy, c).floor_duty.nan()
    &&& forall|c: Text| #[trigger]
        done.commands.dom().contains(c) ==> done.commands[c].scalar.finite()
}

proof fn lemma_distinct(names: Seq<Text>)
    requires
        ascending::<String>(names),
    ensures
        names.no_duplicates(),
{
    assert forall|i: int, j: int|
        0 <= i < names.len() && 0 <= j < names.len() && i != j implies names[i] != names[j] by {
        String::order(names[i], names[i], names[i]);
        if i < j {
            assert(String::before(names[i], names[j]));
        } else {
            assert(String::before(names[j], names[i]));
        }
    }
}

proof fn lemma_outcome(policy: PolicyView, done: Progress, o: Outcome)
    requires
        o.commands == done.commands,
        o.faulted == done.faulted,
        ordered(o),
        all_in_numbers(policy, done),
    ensures
        proper(o),
        in_numbers(policy, o),
{
    lemma_distinct(o.names);
    assert forall|i: int| 0 <= i < o.names.len() implies o.commands[#[trigger] o.names[i]].scalar.finite() by {
        assert(o.names.contains(o.names[i]));
        assert(done.commands.dom().contains(o.names[i]));
    }
}

/// Whether a request gives a channel what a graph asks for it: that, or the channel's floor where
/// that is higher, and no less than nothing and no more than everything.
pub open spec fn obeys(policy: PolicyView, done: Progress, channel: Text, request: Event) -> bool {
    request matches Event::SetDuty { channel: about, duty, .. } && about == channel && lifted(
        configured(policy, channel).floor_duty,
        done.commands[channel].scalar,
        duty,
    )
}

/// A tick that evaluates its graph asks the backend for what the graph asks for, of every channel
/// that it commands and that is not at fault.
pub proof fn a_tick_commands_what_its_graph_asks_for(
    e: EngineView,
    restores: bool,
    done: Progress,
    events: Seq<Event>,
    applied: AppliedView,
    channel: Text,
)
    requires
        e.policy.wf(),
        all_in_numbers(e.policy, done),
        evaluated_tick(e, restores, done, events, applied),
        done.commands.dom().contains(channel),
        !done.faulted.contains(channel),
    ensures
        exists|k: int|
            0 <= k < events.len() && obeys(e.policy, done, channel, #[trigger] events[k]),
        applied.commanded.dom().contains(channel) || applied.write_errors.contains(channel),
{
    let o = choose|o: Outcome|
        o.commands == done.commands && o.faulted == done.faulted && #[trigger] ordered(o) && ({
            let run = applied_run(e.policy, o, restores, successes(events));
            events == run.events && applied == run.applied
        });
    lemma_outcome(e.policy, done, o);
    what_is_asked_is_written(e.policy, o, restores, successes(events), channel);
    let k = choose|k: int|
        0 <= k < events.len() && drives(e.policy, o, channel, #[trigger] events[k]);
    assert(obeys(e.policy, done, channel, events[k]));
}

/// A tick that evaluates its graph asks for the failsafe of every channel that is at fault, and of
/// every one that the policy covers and nothing could be commanded of.
pub proof fn a_tick_makes_the_rest_safe(
    e: EngineView,
    restores: bool,
    done: Progress,
    events: Seq<Event>,
    applied: AppliedView,
    channel: Text,
)
    requires
        e.policy.wf(),
        all_in_numbers(e.policy, done),
        evaluated_tick(e, restores, done, events, applied),
        done.faulted.contains(channel) || (e.policy.channels.dom().contains(channel)
            && !applied.commanded.dom().contains(channel)),
    ensures
        exists|k: int|
            0 <= k < events.len() && called_for(
                e.policy,
                restores,
                channel,
                #[trigger] events[k],
            ),
        applied.failsafed.dom().contains(channel) || applied.write_errors.contains(channel),
{
    let o = choose|o: Outcome|
        o.commands == done.commands && o.faulted == done.faulted && #[trigger] ordered(o) && ({
            let run = applied_run(e.policy, o, restores, successes(events));
            events == run.events && applied == run.applied
        });
    lemma_outcome(e.policy, done, o);
    what_needs_its_failsafe_is_asked_into_it(e.policy, o, restores, successes(events), channel);
}

/// A tick that evaluates its graph asks for nothing else: whatever it asks of a channel is what
/// the graph asks for, or the channel's failsafe where that is due.
pub proof fn a_tick_asks_for_nothing_else(
    e: EngineView,
    restores: bool,
    done: Progress,
    events: Seq<Event>,
    applied: AppliedView,
    k: int,
)
    requires
        e.policy.wf(),
        all_in_numbers(e.policy, done),
        evaluated_tick(e, restores, done, events, applied),
        0 <= k < events.len(),
    ensures
        ({
            let channel = events[k].about();
            ||| {
                &&& done.commands.dom().contains(channel)
                &&& !done.faulted.contains(channel)
                &&& obeys(e.policy, done, channel, events[k])
            }
            ||| {
                &&& done.faulted.contains(channel) || (e.policy.channels.dom().contains(channel)
                    && !applied.commanded.dom().contains(channel))
                &&& called_for(e.policy, restores, channel, events[k])
            }
        }),
{
    let o = choose|o: Outcome|
        o.commands == done.commands && o.faulted == done.faulted && #[trigger] ordered(o) && ({
            let run = applied_run(e.policy, o, restores, successes(events));
            events == run.events && applied == run.applied
        });
    lemma_outcome(e.policy, done, o);
    every_request_has_its_reason(e.policy, o, restores, successes(events), k);
}

/// A tick that could not evaluate asks for the failsafe of every channel that the policy covers.
pub proof fn a_blind_tick_makes_every_channel_safe(
    e: EngineView,
    restores: bool,
    events: Seq<Event>,
    applied: AppliedView,
    channel: Text,
)
    requires
        e.policy.wf(),
        blind_tick(e, restores, events, applied),
        e.policy.channels.dom().contains(channel),
    ensures
        exists|k: int|
            0 <= k < events.len() && called_for(
                e.policy,
                restores,
                channel,
                #[trigger] events[k],
            ),
{
    let i = e.policy.names.index_of(channel);
    assert(e.policy.names.contains(channel));
    assert(e.policy.names[i] == channel);
    letting_go_asks_for_what_was_configured(
        e.policy,
        restores,
        successes(events),
        e.policy.names.len(),
        i,
    );
}

} // verus!
