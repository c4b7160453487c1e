//! What every preset promises: pick it and the machine is under control.
use crate::eval::{percent, sensible, within_a_million, StateView, TickView};
use crate::graph::{EdgeView, GraphView, NodeView, PortKey};
use crate::node::{ports, KindView, MixMode};
use crate::presets::{
    all_guarded, any_tachometer, balanced_preset, curve_of, drawn, fan_id, fanned, first_called, fixed_preset,
    followed_by_curve, guarded, guarded_preset, hottest_of, offered, pair_preset, pick_id, port,
    preference, preferred, quiet_preset, smoothed, stalled_id, temperatures_of, temperatures_to,
    ChannelView, HardwareView, SensorView, Sketch,
};
use crate::scalar::{order_is_by_value, whole, whole_is_exact};
use crate::steady::{able, able_graphs_command_every_channel, read, reads, turns};
use crate::text::{digits, lemma_digits_injective, Text};
use crate::tick::{recalled, ticked};
use crate::units::Quantity;
use crate::validate::{compiles, CompiledView};
use crate::wiring::{
    complete, complete_graphs_compile, fed, joined_up, joins, lemma_extended, lemma_link_added,
    lemma_ports_found, lemma_source_added, takes_many,
};
use vstd::arithmetic::power2::pow2;
use vstd::prelude::*;

verus! {

// --- Names ---------------------------------------------------------------------------------------

/// Whether a name begins with two characters.
pub open spec fn begins(s: Text, a: char, b: char) -> bool {
    s.len() >= 2 && s[0] == a && s[1] == b
}

/// The nodes of presets are named apart.
pub proof fn lemma_names()
    ensures
        begins("duty"@, 'd', 'u'),
        begins("temp"@, 't', 'e'),
        begins("curve"@, 'c', 'u'),
        begins("smooth"@, 's', 'm'),
        begins("ramp"@, 'r', 'a'),
        begins("cpu"@, 'c', 'p'),
        begins("gpu"@, 'g', 'p'),
        begins("hottest"@, 'h', 'o'),
        begins("full"@, 'f', 'u'),
{
    reveal_strlit("duty");
    reveal_strlit("temp");
    reveal_strlit("curve");
    reveal_strlit("smooth");
    reveal_strlit("ramp");
    reveal_strlit("cpu");
    reveal_strlit("gpu");
    reveal_strlit("hottest");
    reveal_strlit("full");
}

/// The nodes of a row are named apart from each other.
pub proof fn lemma_row_names(row: nat)
    ensures
        begins(fan_id(row), 'f', 'a'),
        begins(stalled_id(row), 's', 't'),
        begins(pick_id(row), 'p', 'i'),
{
    reveal_strlit("fan-");
    reveal_strlit("stalled-");
    reveal_strlit("pick-");
    let f = fan_id(row);
    let s = stalled_id(row);
    let p = pick_id(row);
    assert(f[0] == "fan-"@[0] && f[1] == "fan-"@[1]);
    assert(s[0] == "stalled-"@[0] && s[1] == "stalled-"@[1]);
    assert(p[0] == "pick-"@[0] && p[1] == "pick-"@[1]);
}

/// The nodes of two rows are named apart.
pub proof fn lemma_rows_differ(a: nat, b: nat)
    requires
        a != b,
    ensures
        fan_id(a) != fan_id(b),
        stalled_id(a) != stalled_id(b),
        pick_id(a) != pick_id(b),
{
    let f = "fan-"@;
    let s = "stalled-"@;
    let p = "pick-"@;
    assert((f + digits(a)).skip(f.len() as int) =~= digits(a));
    assert((f + digits(b)).skip(f.len() as int) =~= digits(b));
    assert((s + digits(a)).skip(s.len() as int) =~= digits(a));
    assert((s + digits(b)).skip(s.len() as int) =~= digits(b));
    assert((p + digits(a)).skip(p.len() as int) =~= digits(a));
    assert((p + digits(b)).skip(p.len() as int) =~= digits(b));
    if digits(a) == digits(b) {
        lemma_digits_injective(a, b);
    }
}

/// Whether the rows from `n` on have no nodes yet.
spec fn rows_free(nodes: Map<Text, NodeView>, n: nat) -> bool {
    forall|k: nat|
        k >= n ==> !nodes.dom().contains(#[trigger] fan_id(k)) && !nodes.dom().contains(
            stalled_id(k),
        ) && !nodes.dom().contains(pick_id(k))
}

// --- One source for every channel ----------------------------------------------------------------

/// Whether a node's output can drive a fan.
spec fn drives_fans(kind: KindView) -> bool {
    forall|channel: Text| #[trigger]
        joins(kind, "out"@, KindView::FanOutput { channel }, "duty"@)
}

proof fn lemma_drives_fans(kind: KindView)
    requires
        kind is Constant || kind is Curve || kind is RateLimit || kind is Select,
    ensures
        drives_fans(kind),
{
    lemma_ports_found(kind);
    assert forall|channel: Text| #[trigger]
        joins(kind, "out"@, KindView::FanOutput { channel }, "duty"@) by {
        lemma_ports_found(KindView::FanOutput { channel });
    }
}

proof fn lemma_fanned(
    s: Sketch,
    source: Text,
    channels: Seq<ChannelView>,
    column: nat,
    n: nat,
)
    requires
        complete(s.nodes, s.edges),
        s.nodes.dom().contains(source),
        drives_fans(s.nodes[source].kind),
        rows_free(s.nodes, 0),
        n <= channels.len(),
    ensures
        ({
            let t = fanned(s, port(source, "out"@), channels, column, n);
            &&& complete(t.nodes, t.edges)
            &&& s.nodes.submap_of(t.nodes)
            &&& rows_free(t.nodes, n)
            &&& forall|k: int|
                0 <= k < n ==> t.nodes.dom().contains(fan_id(k as nat)) && (#[trigger] t.nodes[fan_id(
                    k as nat,
                )]).kind == (KindView::FanOutput { channel: channels[k].id })
        }),
    decreases n,
{
    if n > 0 {
        let row = (n - 1) as nat;
        lemma_fanned(s, source, channels, column, row);
        let from = port(source, "out"@);
        let before = fanned(s, from, channels, column, row);
        let t = fanned(s, from, channels, column, n);
        let id = fan_id(row);
        let kind = KindView::FanOutput { channel: channels[row as int].id };
        let e = EdgeView { from, to: port(id, "duty"@) };
        lemma_ports_found(kind);
        assert(s.nodes.submap_of(before.nodes));
        assert(before.nodes.dom().contains(source));
        assert(joins(s.nodes[source].kind, "out"@, kind, "duty"@));
        lemma_link_added(before.nodes, before.edges, id, t.nodes[id], e);
        assert forall|k: nat| k >= n implies !t.nodes.dom().contains(#[trigger] fan_id(k))
            && !t.nodes.dom().contains(stalled_id(k)) && !t.nodes.dom().contains(pick_id(k)) by {
            assert(!before.nodes.dom().contains(fan_id(k)));
            lemma_rows_differ(row, k);
            lemma_row_names(row);
            lemma_row_names(k);
        }
        assert forall|k: int| 0 <= k < n implies t.nodes.dom().contains(fan_id(k as nat)) && (
        #[trigger] t.nodes[fan_id(k as nat)]).kind == (KindView::FanOutput {
            channel: channels[k].id,
        }) by {
            if k < row {
                lemma_rows_differ(row, k as nat);
                assert(before.nodes[fan_id(k as nat)].kind == (KindView::FanOutput {
                    channel: channels[k].id,
                }));
            }
        }
    }
}

// --- Channels guarded against stalling -----------------------------------------------------------

/// Whether a sketch has what guarding a channel builds on.
spec fn guardable(s: Sketch) -> bool {
    &&& complete(s.nodes, s.edges)
    &&& s.nodes.dom().contains("curve"@)
    &&& s.nodes["curve"@].kind is Curve
    &&& s.nodes.dom().contains("full"@)
    &&& s.nodes["full"@].kind is Constant
}

proof fn lemma_unguarded(s: Sketch, channel: ChannelView, row: nat)
    requires
        guardable(s),
        rows_free(s.nodes, row),
        channel.tachometer is None,
    ensures
        complete(guarded(s, channel, row).nodes, guarded(s, channel, row).edges),
{
    let t = guarded(s, channel, row);
    let id = fan_id(row);
    let e = EdgeView { from: port("curve"@, "out"@), to: port(id, "duty"@) };
    let kind = KindView::FanOutput { channel: channel.id };
    lemma_ports_found(kind);
    lemma_drives_fans(s.nodes["curve"@].kind);
    assert(!s.nodes.dom().contains(id));
    assert(joins(s.nodes["curve"@].kind, "out"@, kind, "duty"@));
    lemma_link_added(s.nodes, s.edges, id, t.nodes[id], e);
}

proof fn lemma_guarded(s: Sketch, channel: ChannelView, row: nat)
    requires
        guardable(s),
        rows_free(s.nodes, row),
        channel.tachometer is Some,
    ensures
        complete(guarded(s, channel, row).nodes, guarded(s, channel, row).edges),
{
    let t = guarded(s, channel, row);
    let fan = fan_id(row);
    let stalled = stalled_id(row);
    let pick = pick_id(row);
    lemma_names();
    lemma_row_names(row);
    assert(!s.nodes.dom().contains(fan));
    let drive = t.nodes[fan].kind;
    let check = t.nodes[stalled].kind;
    let switch = t.nodes[pick].kind;
    assert(drive is FanOutput && check is Comparator && switch is Select);
    lemma_ports_found(drive);
    lemma_ports_found(check);
    lemma_ports_found(switch);
    lemma_ports_found(t.nodes["curve"@].kind);
    lemma_ports_found(t.nodes["full"@].kind);
    let added = seq![
        EdgeView { from: port(fan, "rpm"@), to: port(stalled, "in"@) },
        EdgeView { from: port(stalled, "out"@), to: port(pick, "when"@) },
        EdgeView { from: port("full"@, "out"@), to: port(pick, "if_true"@) },
        EdgeView { from: port("curve"@, "out"@), to: port(pick, "if_false"@) },
        EdgeView { from: port(pick, "out"@), to: port(fan, "duty"@) },
    ];
    assert(t.edges =~= s.edges + added);
    assert(s.nodes.submap_of(t.nodes));
    assert forall|i: int| 0 <= i < added.len() implies joined_up(t.nodes, #[trigger] added[i])
        && !s.nodes.dom().contains(added[i].to.node) by {
        assert(added[i] == added[0] || added[i] == added[1] || added[i] == added[2] || added[i]
            == added[3] || added[i] == added[4]);
    }
    assert("when"@ != "if_true"@ && "when"@ != "if_false"@ && "if_true"@ != "if_false"@) by {
        reveal_strlit("when");
        reveal_strlit("if_true");
        reveal_strlit("if_false");
        assert("when"@.len() == 4 && "if_true"@.len() == 7 && "if_false"@.len() == 8);
    }
    assert forall|x: Text, k: int|
        t.nodes.dom().contains(x) && !s.nodes.dom().contains(x) && 0 <= k < ports(
            t.nodes[x].kind,
        ).inputs.len() implies fed(
        added,
        PortKey { node: x, port: (#[trigger] ports(t.nodes[x].kind).inputs[k]).key },
    ) by {
        assert(x == fan || x == stalled || x == pick);
        if x == fan {
            assert(added[4].to == PortKey { node: x, port: ports(t.nodes[x].kind).inputs[k].key });
        } else if x == stalled {
            assert(added[0].to == PortKey { node: x, port: ports(t.nodes[x].kind).inputs[k].key });
        } else {
            assert(added[k + 1].to == PortKey {
                node: x,
                port: ports(t.nodes[x].kind).inputs[k].key,
            });
        }
    }
    lemma_extended(s.nodes, s.edges, t.nodes, added);
}

proof fn lemma_all_guarded(s: Sketch, channels: Seq<ChannelView>, n: nat)
    requires
        guardable(s),
        rows_free(s.nodes, 0),
        n <= channels.len(),
    ensures
        ({
            let t = all_guarded(s, channels, n);
            &&& guardable(t)
            &&& rows_free(t.nodes, n)
            &&& forall|k: int|
                0 <= k < n ==> t.nodes.dom().contains(fan_id(k as nat)) && (#[trigger] t.nodes[fan_id(
                    k as nat,
                )]).kind == (KindView::FanOutput { channel: channels[k].id })
        }),
    decreases n,
{
    if n > 0 {
        let row = (n - 1) as nat;
        lemma_all_guarded(s, channels, row);
        let before = all_guarded(s, channels, row);
        let channel = channels[row as int];
        let t = guarded(before, channel, row);
        assert(t == all_guarded(s, channels, n));
        if channel.tachometer is None {
            lemma_unguarded(before, channel, row);
        } else {
            lemma_guarded(before, channel, row);
        }
        lemma_names();
        lemma_row_names(row);
        assert forall|k: nat| k >= n implies !t.nodes.dom().contains(#[trigger] fan_id(k))
            && !t.nodes.dom().contains(stalled_id(k)) && !t.nodes.dom().contains(pick_id(k)) by {
            assert(!before.nodes.dom().contains(fan_id(k)));
            lemma_rows_differ(row, k);
            lemma_row_names(k);
        }
        assert forall|k: int| 0 <= k < n implies t.nodes.dom().contains(fan_id(k as nat)) && (
        #[trigger] t.nodes[fan_id(k as nat)]).kind == (KindView::FanOutput {
            channel: channels[k].id,
        }) by {
            if k < row {
                lemma_rows_differ(row, k as nat);
                lemma_row_names(k as nat);
                assert(before.nodes[fan_id(k as nat)].kind == (KindView::FanOutput {
                    channel: channels[k].id,
                }));
            }
        }
    }
}

// --- What stands before the fans -----------------------------------------------------------------

proof fn lemma_rows_free(nodes: Map<Text, NodeView>)
    requires
        forall|id: Text| #[trigger]
            nodes.dom().contains(id) ==> begins(id, 'd', 'u') || begins(id, 't', 'e') || begins(
                id,
                'c',
                'u',
            ) || begins(id, 's', 'm') || begins(id, 'r', 'a') || begins(id, 'c', 'p') || begins(
                id,
                'g',
                'p',
            ) || begins(id, 'h', 'o') || begins(id, 'f', 'u'),
    ensures
        rows_free(nodes, 0),
{
    assert forall|k: nat| k >= 0 implies !nodes.dom().contains(#[trigger] fan_id(k))
        && !nodes.dom().contains(stalled_id(k)) && !nodes.dom().contains(pick_id(k)) by {
        lemma_row_names(k);
    }
}

proof fn lemma_nothing()
    ensures
        complete(Map::<Text, NodeView>::empty(), Seq::<EdgeView>::empty()),
{
}

proof fn lemma_constant(id: Text, kind: KindView, column: nat, row: nat, s: Sketch)
    requires
        complete(s.nodes, s.edges),
        kind is Constant,
        !s.nodes.dom().contains(id),
    ensures
        complete(s.put(id, kind, column, row).nodes, s.put(id, kind, column, row).edges),
{
    lemma_ports_found(kind);
    lemma_source_added(s.nodes, s.edges, id, s.put(id, kind, column, row).nodes[id]);
}

proof fn lemma_followed_by_curve(primary: SensorView)
    requires
        primary.quantity == Quantity::Temperature,
    ensures
        ({
            let s = followed_by_curve(primary);
            &&& complete(s.nodes, s.edges)
            &&& rows_free(s.nodes, 0)
            &&& s.nodes.dom().contains("curve"@)
            &&& s.nodes["curve"@].kind is Curve
            &&& !s.nodes.dom().contains("full"@)
        }),
{
    let s = followed_by_curve(primary);
    lemma_names();
    lemma_ports_found(s.nodes["temp"@].kind);
    lemma_ports_found(s.nodes["curve"@].kind);
    let e = EdgeView { from: port("temp"@, "out"@), to: port("curve"@, "in"@) };
    assert(s.edges =~= seq![e]);
    assert(joined_up(s.nodes, e));
    assert forall|x: Text, k: int|
        s.nodes.dom().contains(x) && 0 <= k < ports(s.nodes[x].kind).inputs.len() implies fed(
        s.edges,
        PortKey { node: x, port: (#[trigger] ports(s.nodes[x].kind).inputs[k]).key },
    ) by {
        assert(x == "curve"@);
        assert(s.edges[0].to == PortKey { node: x, port: ports(s.nodes[x].kind).inputs[k].key });
    }
    lemma_rows_free(s.nodes);
}

proof fn lemma_smoothed(primary: SensorView)
    requires
        primary.quantity == Quantity::Temperature,
    ensures
        ({
            let s = smoothed(primary);
            &&& complete(s.nodes, s.edges)
            &&& rows_free(s.nodes, 0)
            &&& s.nodes.dom().contains("ramp"@)
            &&& s.nodes["ramp"@].kind is RateLimit
        }),
{
    let s = smoothed(primary);
    lemma_names();
    lemma_ports_found(s.nodes["temp"@].kind);
    lemma_ports_found(s.nodes["smooth"@].kind);
    lemma_ports_found(s.nodes["curve"@].kind);
    lemma_ports_found(s.nodes["ramp"@].kind);
    let a = EdgeView { from: port("temp"@, "out"@), to: port("smooth"@, "in"@) };
    let b = EdgeView { from: port("smooth"@, "out"@), to: port("curve"@, "in"@) };
    let c = EdgeView { from: port("curve"@, "out"@), to: port("ramp"@, "in"@) };
    assert(s.edges =~= seq![a, b, c]);
    assert(joined_up(s.nodes, a));
    assert(joined_up(s.nodes, b));
    assert(joined_up(s.nodes, c));
    assert forall|x: Text, k: int|
        s.nodes.dom().contains(x) && 0 <= k < ports(s.nodes[x].kind).inputs.len() implies fed(
        s.edges,
        PortKey { node: x, port: (#[trigger] ports(s.nodes[x].kind).inputs[k]).key },
    ) by {
        let r = PortKey { node: x, port: ports(s.nodes[x].kind).inputs[k].key };
        assert(s.edges[0].to == r || s.edges[1].to == r || s.edges[2].to == r);
    }
    lemma_rows_free(s.nodes);
}

proof fn lemma_hottest_of(cpu: SensorView, gpu: SensorView)
    requires
        cpu.quantity == Quantity::Temperature,
        gpu.quantity == Quantity::Temperature,
    ensures
        ({
            let s = hottest_of(cpu, gpu);
            &&& complete(s.nodes, s.edges)
            &&& rows_free(s.nodes, 0)
            &&& s.nodes.dom().contains("curve"@)
            &&& s.nodes["curve"@].kind is Curve
        }),
{
    let s = hottest_of(cpu, gpu);
    lemma_names();
    lemma_ports_found(s.nodes["cpu"@].kind);
    lemma_ports_found(s.nodes["gpu"@].kind);
    lemma_ports_found(s.nodes["hottest"@].kind);
    lemma_ports_found(s.nodes["curve"@].kind);
    let a = EdgeView { from: port("cpu"@, "out"@), to: port("hottest"@, "in"@) };
    let b = EdgeView { from: port("gpu"@, "out"@), to: port("hottest"@, "in"@) };
    let c = EdgeView { from: port("hottest"@, "out"@), to: port("curve"@, "in"@) };
    assert(s.edges =~= seq![a, b, c]);
    assert(joined_up(s.nodes, a));
    assert(joined_up(s.nodes, b));
    assert(joined_up(s.nodes, c));
    assert(takes_many(s.nodes, b.to));
    assert forall|x: Text, k: int|
        s.nodes.dom().contains(x) && 0 <= k < ports(s.nodes[x].kind).inputs.len() implies fed(
        s.edges,
        PortKey { node: x, port: (#[trigger] ports(s.nodes[x].kind).inputs[k]).key },
    ) by {
        let r = PortKey { node: x, port: ports(s.nodes[x].kind).inputs[k].key };
        assert(s.edges[0].to == r || s.edges[2].to == r);
    }
    lemma_rows_free(s.nodes);
}

// --- Temperatures ----------------------------------------------------------------------------------

proof fn lemma_preferred(sensors: Seq<SensorView>, level: nat, n: nat)
    requires
        n <= sensors.len(),
    ensures
        forall|i: int|
            0 <= i < preferred(sensors, level, n).len() ==> (#[trigger] preferred(
                sensors,
                level,
                n,
            )[i]).quantity == Quantity::Temperature && sensors.contains(
                preferred(sensors, level, n)[i],
            ),
    decreases n,
{
    if n > 0 {
        lemma_preferred(sensors, level, (n - 1) as nat);
        let before = preferred(sensors, level, (n - 1) as nat);
        let after = preferred(sensors, level, n);
        assert forall|i: int| 0 <= i < after.len() implies (#[trigger] after[i]).quantity
            == Quantity::Temperature && sensors.contains(after[i]) by {
            if i < before.len() {
                assert(after[i] == before[i]);
            } else {
                assert(after[i] == sensors[n - 1]);
            }
        }
    }
}

proof fn lemma_temperatures(sensors: Seq<SensorView>, levels: nat)
    ensures
        forall|i: int|
            0 <= i < temperatures_to(sensors, levels).len() ==> (#[trigger] temperatures_to(
                sensors,
                levels,
            )[i]).quantity == Quantity::Temperature && sensors.contains(
                temperatures_to(sensors, levels)[i],
            ),
    decreases levels,
{
    if levels > 0 {
        let level = (levels - 1) as nat;
        lemma_temperatures(sensors, level);
        lemma_preferred(sensors, level, sensors.len());
        let before = temperatures_to(sensors, level);
        let last = preferred(sensors, level, sensors.len());
        let after = temperatures_to(sensors, levels);
        assert forall|i: int| 0 <= i < after.len() implies (#[trigger] after[i]).quantity
            == Quantity::Temperature && sensors.contains(after[i]) by {
            if i < before.len() {
                assert(after[i] == before[i]);
            } else {
                assert(after[i] == last[i - before.len()]);
            }
        }
    }
}

proof fn lemma_first_called(list: Seq<SensorView>, word: Text, i: int)
    requires
        0 <= i,
        forall|k: int|
            0 <= k < list.len() ==> (#[trigger] list[k]).quantity == Quantity::Temperature,
    ensures
        first_called(list, word, i) matches Some(s) ==> s.quantity == Quantity::Temperature
            && list.contains(s),
    decreases list.len() - i,
{
    if i < list.len() {
        lemma_first_called(list, word, i + 1);
    }
}

// --- The law ---------------------------------------------------------------------------------------

/// Whether a sketch is complete and has a node for every channel.
spec fn in_control(s: Sketch, channels: Seq<ChannelView>) -> bool {
    &&& complete(s.nodes, s.edges)
    &&& forall|k: int|
        0 <= k < channels.len() ==> s.nodes.dom().contains(fan_id(k as nat)) && (
        #[trigger] s.nodes[fan_id(k as nat)]).kind == (KindView::FanOutput {
            channel: channels[k].id,
        })
}

proof fn lemma_offered(hw: HardwareView, i: int)
    requires
        0 <= i < offered(hw).len(),
    ensures
        in_control(offered(hw)[i].sketch, hw.channels),
{
    let channels = hw.channels;
    let n = channels.len();
    let temps = temperatures_of(hw);
    lemma_temperatures(hw.sensors, 6);
    lemma_first_called(temps, "gpu"@, 0);
    lemma_names();
    let v = offered(hw)[i];
    if v == fixed_preset(hw) {
        let blank = Sketch::blank();
        let kind = KindView::Constant { value: whole(50) };
        let s = blank.put("duty"@, kind, 0, 0);
        lemma_nothing();
        lemma_constant("duty"@, kind, 0, 0, blank);
        lemma_rows_free(s.nodes);
        lemma_drives_fans(kind);
        lemma_fanned(s, "duty"@, channels, 3, n);
    } else {
        let primary = temps[0];
        assert(primary.quantity == Quantity::Temperature);
        if v == balanced_preset(hw, primary) {
            let s = followed_by_curve(primary);
            lemma_followed_by_curve(primary);
            lemma_drives_fans(s.nodes["curve"@].kind);
            lemma_fanned(s, "curve"@, channels, 3, n);
        } else if v == quiet_preset(hw, primary) {
            let s = smoothed(primary);
            lemma_smoothed(primary);
            lemma_drives_fans(s.nodes["ramp"@].kind);
            lemma_fanned(s, "ramp"@, channels, 3, n);
        } else if v == guarded_preset(hw, primary) {
            let kind = KindView::Constant { value: whole(100) };
            let base = followed_by_curve(primary);
            let s = base.put("full"@, kind, 1, 1);
            lemma_followed_by_curve(primary);
            lemma_constant("full"@, kind, 1, 1, base);
            lemma_rows_free(s.nodes);
            lemma_all_guarded(s, channels, n);
        } else {
            let gpu = first_called(temps, "gpu"@, 0)->0;
            assert(v == pair_preset(hw, primary, gpu));
            let s = hottest_of(primary, gpu);
            lemma_hottest_of(primary, gpu);
            lemma_drives_fans(s.nodes["curve"@].kind);
            lemma_fanned(s, "curve"@, channels, 3, n);
        }
    }
}

/// Whether a sketch drives no channel but these.
spec fn keeps_to(s: Sketch, channels: Seq<ChannelView>) -> bool {
    forall|id: Text| #[trigger]
        s.nodes.dom().contains(id) ==> (s.nodes[id].kind matches KindView::FanOutput { channel }
            ==> exists|k: int| 0 <= k < channels.len() && (#[trigger] channels[k]).id == channel)
}

proof fn lemma_fanned_keeps(
    s: Sketch,
    source: PortKey,
    channels: Seq<ChannelView>,
    column: nat,
    n: nat,
)
    requires
        keeps_to(s, channels),
        n <= channels.len(),
    ensures
        keeps_to(fanned(s, source, channels, column, n), channels),
    decreases n,
{
    if n > 0 {
        lemma_fanned_keeps(s, source, channels, column, (n - 1) as nat);
        assert(channels[n - 1].id == channels[n - 1].id);
    }
}

proof fn lemma_guarded_keeps(s: Sketch, channels: Seq<ChannelView>, n: nat)
    requires
        keeps_to(s, channels),
        n <= channels.len(),
    ensures
        keeps_to(all_guarded(s, channels, n), channels),
    decreases n,
{
    if n > 0 {
        lemma_guarded_keeps(s, channels, (n - 1) as nat);
        assert(channels[n - 1].id == channels[n - 1].id);
    }
}

proof fn lemma_offered_keeps(hw: HardwareView, i: int)
    requires
        0 <= i < offered(hw).len(),
    ensures
        keeps_to(offered(hw)[i].sketch, hw.channels),
{
    let channels = hw.channels;
    let n = channels.len();
    let temps = temperatures_of(hw);
    let v = offered(hw)[i];
    let out = "out"@;
    if v == fixed_preset(hw) {
        let s = Sketch::blank().put("duty"@, KindView::Constant { value: whole(50) }, 0, 0);
        lemma_fanned_keeps(s, port("duty"@, out), channels, 3, n);
    } else {
        let primary = temps[0];
        if v == balanced_preset(hw, primary) {
            lemma_fanned_keeps(followed_by_curve(primary), port("curve"@, out), channels, 3, n);
        } else if v == quiet_preset(hw, primary) {
            lemma_fanned_keeps(smoothed(primary), port("ramp"@, out), channels, 3, n);
        } else if v == guarded_preset(hw, primary) {
            let kind = KindView::Constant { value: whole(100) };
            lemma_guarded_keeps(followed_by_curve(primary).put("full"@, kind, 1, 1), channels, n);
        } else {
            let gpu = first_called(temps, "gpu"@, 0)->0;
            assert(v == pair_preset(hw, primary, gpu));
            lemma_fanned_keeps(hottest_of(primary, gpu), port("curve"@, out), channels, 3, n);
        }
    }
}

/// Pick a preset and the machine is under control: whatever the hardware, every preset
/// offered for it compiles, and drives every channel the machine has and no other.
pub proof fn every_preset_compiles_and_drives_every_channel(hw: HardwareView, i: int, g: GraphView)
    requires
        0 <= i < offered(hw).len(),
        drawn(g, offered(hw)[i].sketch),
    ensures
        compiles(g),
        forall|k: int| 0 <= k < hw.channels.len() ==> g.drives((#[trigger] hw.channels[k]).id),
        forall|channel: Text| #[trigger]
            g.drives(channel) ==> exists|k: int|
                0 <= k < hw.channels.len() && (#[trigger] hw.channels[k]).id == channel,
{
    lemma_offered_keeps(hw, i);
    lemma_offered(hw, i);
    complete_graphs_compile(g);
    assert forall|k: int| 0 <= k < hw.channels.len() implies g.drives(
        (#[trigger] hw.channels[k]).id,
    ) by {
        let id = fan_id(k as nat);
        assert(g.nodes[id].kind == (KindView::FanOutput { channel: hw.channels[k].id }));
        assert(g.nodes.dom().contains(id));
    }
}

// --- The first tick --------------------------------------------------------------------------------

/// Whether a machine reads as expected: every temperature has a reading, and every fan with a
/// tachometer is seen turning.
pub open spec fn plausible(hw: HardwareView, t: TickView) -> bool {
    &&& forall|k: int|
        0 <= k < hw.sensors.len() && (#[trigger] hw.sensors[k]).quantity == Quantity::Temperature
            ==> reads(t, hw.sensors[k].id, Quantity::Temperature)
    &&& forall|k: int|
        0 <= k < hw.channels.len() && (#[trigger] hw.channels[k]).tachometer is Some ==> turns(
            t,
            hw.channels[k].id,
        )
}

/// Whether a kind of node does its part on a tick, a fan's speed aside.
spec fn fit(kind: KindView, t: TickView) -> bool {
    match kind {
        KindView::Sensor { sensor_id, quantity } => reads(t, sensor_id, quantity),
        KindView::Constant { value } => value.finite(),
        KindView::Curve { points } => sensible(points),
        KindView::Mix { mode } => mode == MixMode::Max,
        KindView::RateLimit { .. }
        | KindView::LowPass { .. }
        | KindView::Comparator { .. }
        | KindView::Select
        | KindView::FanOutput { .. } => true,
        _ => false,
    }
}

/// Whether the speed a connection carries, if it carries one, is known.
spec fn informed(nodes: Map<Text, NodeView>, e: EdgeView, t: TickView) -> bool {
    e.from.port == "rpm"@ ==> nodes.dom().contains(e.from.node) && (
    nodes[e.from.node].kind matches KindView::FanOutput { channel } ==> turns(t, channel))
}

/// Whether a sketch does its part on a tick.
spec fn ready(s: Sketch, t: TickView) -> bool {
    &&& forall|id: Text| #[trigger] s.nodes.dom().contains(id) ==> fit(s.nodes[id].kind, t)
    &&& forall|i: int| 0 <= i < s.edges.len() ==> informed(s.nodes, #[trigger] s.edges[i], t)
}

proof fn lemma_ports_told_apart()
    ensures
        "out"@ != "rpm"@,
{
    reveal_strlit("out");
    reveal_strlit("rpm");
    assert("out"@[0] == 'o' && "rpm"@[0] == 'r');
}

proof fn lemma_sensible(a: (nat, nat), b: (nat, nat), c: (nat, nat))
    requires
        a.0 <= 1_000_000 && b.0 <= 1_000_000 && c.0 <= 1_000_000,
        a.1 <= 100 && b.1 <= 100 && c.1 <= 100,
    ensures
        curve_of(a, b, c) matches KindView::Curve { points } && sensible(points),
{
    lemma_point(a.0, a.1);
    lemma_point(b.0, b.1);
    lemma_point(c.0, c.1);
}

proof fn lemma_point(x: nat, y: nat)
    requires
        x <= 1_000_000,
        y <= 100,
    ensures
        within_a_million(whole(x)),
        percent(whole(y)),
{
    let unit = pow2(1074);
    let m = whole(1_000_000);
    whole_is_exact(0);
    whole_is_exact(x);
    whole_is_exact(y);
    whole_is_exact(100);
    whole_is_exact(1_000_000);
    assert(0 * unit == 0);
    assert(x * unit <= 1_000_000 * unit) by (nonlinear_arith)
        requires
            x <= 1_000_000,
    ;
    assert(y * unit <= 100 * unit) by (nonlinear_arith)
        requires
            y <= 100,
    ;
    assert(m.negated().value() == -m.value());
    order_is_by_value(m.negated(), whole(x));
    order_is_by_value(whole(x), m);
    order_is_by_value(whole(0), whole(y));
    order_is_by_value(whole(y), whole(100));
}

proof fn lemma_fanned_ready(
    s: Sketch,
    source: Text,
    channels: Seq<ChannelView>,
    column: nat,
    n: nat,
    t: TickView,
)
    requires
        complete(s.nodes, s.edges),
        s.nodes.dom().contains(source),
        drives_fans(s.nodes[source].kind),
        rows_free(s.nodes, 0),
        n <= channels.len(),
        ready(s, t),
    ensures
        ready(fanned(s, port(source, "out"@), channels, column, n), t),
    decreases n,
{
    if n > 0 {
        let row = (n - 1) as nat;
        lemma_fanned_ready(s, source, channels, column, row, t);
        lemma_fanned(s, source, channels, column, row);
        lemma_ports_told_apart();
        let before = fanned(s, port(source, "out"@), channels, column, row);
        let after = fanned(s, port(source, "out"@), channels, column, n);
        assert(!before.nodes.dom().contains(fan_id(row)));
        assert forall|i: int| 0 <= i < after.edges.len() implies informed(
            after.nodes,
            #[trigger] after.edges[i],
            t,
        ) by {
            if i < before.edges.len() {
                assert(after.edges[i] == before.edges[i]);
                assert(informed(before.nodes, before.edges[i], t));
            }
        }
    }
}

proof fn lemma_all_guarded_ready(s: Sketch, channels: Seq<ChannelView>, n: nat, t: TickView)
    requires
        guardable(s),
        rows_free(s.nodes, 0),
        n <= channels.len(),
        ready(s, t),
        forall|k: int|
            0 <= k < channels.len() && (#[trigger] channels[k]).tachometer is Some ==> turns(
                t,
                channels[k].id,
            ),
    ensures
        ready(all_guarded(s, channels, n), t),
    decreases n,
{
    if n > 0 {
        let row = (n - 1) as nat;
        lemma_all_guarded_ready(s, channels, row, t);
        lemma_all_guarded(s, channels, row);
        lemma_ports_told_apart();
        lemma_row_names(row);
        let before = all_guarded(s, channels, row);
        let after = all_guarded(s, channels, n);
        assert(!before.nodes.dom().contains(fan_id(row)));
        assert forall|i: int| 0 <= i < after.edges.len() implies informed(
            after.nodes,
            #[trigger] after.edges[i],
            t,
        ) by {
            if i < before.edges.len() {
                assert(after.edges[i] == before.edges[i]);
                assert(informed(before.nodes, before.edges[i], t));
            }
        }
    }
}

proof fn lemma_offered_ready(hw: HardwareView, i: int, t: TickView)
    requires
        0 <= i < offered(hw).len(),
        plausible(hw, t),
    ensures
        ready(offered(hw)[i].sketch, t),
{
    let channels = hw.channels;
    let n = channels.len();
    let temps = temperatures_of(hw);
    lemma_temperatures(hw.sensors, 6);
    lemma_first_called(temps, "gpu"@, 0);
    lemma_names();
    lemma_ports_told_apart();
    lemma_sensible((30, 25), (55, 40), (80, 100));
    lemma_sensible((40, 20), (70, 45), (90, 100));
    lemma_sensible((35, 25), (60, 45), (85, 100));
    whole_is_exact(50);
    whole_is_exact(100);
    let v = offered(hw)[i];
    if v == fixed_preset(hw) {
        let blank = Sketch::blank();
        let kind = KindView::Constant { value: whole(50) };
        let s = blank.put("duty"@, kind, 0, 0);
        lemma_nothing();
        lemma_constant("duty"@, kind, 0, 0, blank);
        lemma_rows_free(s.nodes);
        lemma_drives_fans(kind);
        lemma_fanned_ready(s, "duty"@, channels, 3, n, t);
    } else {
        let primary = temps[0];
        assert(primary.quantity == Quantity::Temperature && hw.sensors.contains(primary));
        assert(reads(t, primary.id, Quantity::Temperature));
        if v == balanced_preset(hw, primary) {
            let s = followed_by_curve(primary);
            lemma_followed_by_curve(primary);
            lemma_drives_fans(s.nodes["curve"@].kind);
            assert(ready(s, t));
            lemma_fanned_ready(s, "curve"@, channels, 3, n, t);
        } else if v == quiet_preset(hw, primary) {
            let s = smoothed(primary);
            lemma_smoothed(primary);
            lemma_drives_fans(s.nodes["ramp"@].kind);
            assert(ready(s, t));
            lemma_fanned_ready(s, "ramp"@, channels, 3, n, t);
        } else if v == guarded_preset(hw, primary) {
            let kind = KindView::Constant { value: whole(100) };
            let base = followed_by_curve(primary);
            let s = base.put("full"@, kind, 1, 1);
            lemma_followed_by_curve(primary);
            lemma_constant("full"@, kind, 1, 1, base);
            lemma_rows_free(s.nodes);
            assert(ready(s, t));
            lemma_all_guarded_ready(s, channels, n, t);
        } else {
            let gpu = first_called(temps, "gpu"@, 0)->0;
            assert(v == pair_preset(hw, primary, gpu));
            assert(hw.sensors.contains(gpu)) by {
                let k = choose|k: int| 0 <= k < temps.len() && temps[k] == gpu;
                assert(hw.sensors.contains(temps[k]));
            }
            assert(reads(t, gpu.id, Quantity::Temperature));
            let s = hottest_of(primary, gpu);
            lemma_hottest_of(primary, gpu);
            lemma_drives_fans(s.nodes["curve"@].kind);
            assert(ready(s, t));
            lemma_fanned_ready(s, "curve"@, channels, 3, n, t);
        }
    }
}

/// Pick a preset and every fan is commanded: on a machine that reads as expected, the first
/// tick of every preset offered for it commands every channel, and faults none.
pub proof fn every_preset_commands_every_channel(
    hw: HardwareView,
    i: int,
    c: CompiledView,
    t: TickView,
    states: Map<Text, StateView>,
)
    requires
        0 <= i < offered(hw).len(),
        drawn(c.graph, offered(hw)[i].sketch),
        c.sound(),
        plausible(hw, t),
        forall|id: Text| #[trigger]
            c.graph.nodes.dom().contains(id) ==> recalled(states, id).last is None,
    ensures
        ticked(c, t, states).faulted == Set::<Text>::empty(),
        forall|k: int|
            0 <= k < hw.channels.len() ==> ticked(c, t, states).commands.dom().contains(
                (#[trigger] hw.channels[k]).id,
            ),
{
    let g = c.graph;
    let s = offered(hw)[i].sketch;
    lemma_offered_ready(hw, i, t);
    assert forall|id: Text| #[trigger] g.nodes.dom().contains(id) implies able(g, t, id) by {
        assert(fit(s.nodes[id].kind, t));
        let r = PortKey { node: id, port: "rpm"@ };
        if read(g, r) {
            let k = choose|k: int| 0 <= k < g.edges.len() && (#[trigger] g.edges[k]).from == r;
            assert(informed(s.nodes, s.edges[k], t));
        }
    }
    able_graphs_command_every_channel(c, t, states);
    every_preset_compiles_and_drives_every_channel(hw, i, g);
    assert forall|k: int| 0 <= k < hw.channels.len() implies ticked(
        c,
        t,
        states,
    ).commands.dom().contains((#[trigger] hw.channels[k]).id) by {
        assert(g.drives(hw.channels[k].id));
    }
}

/// No two presets offered for a machine go by the same id.
pub proof fn presets_are_told_apart(hw: HardwareView, i: int, j: int)
    requires
        0 <= i < j < offered(hw).len(),
    ensures
        offered(hw)[i].id != offered(hw)[j].id,
{
    reveal_strlit("fixed");
    reveal_strlit("balanced");
    reveal_strlit("quiet");
    reveal_strlit("cpu-and-gpu");
    reveal_strlit("stall-protected");
    assert("fixed"@[0] == 'f' && "balanced"@[0] == 'b' && "quiet"@[0] == 'q');
    assert("cpu-and-gpu"@[0] == 'c' && "stall-protected"@[0] == 's');
}

proof fn lemma_preferred_keeps(sensors: Seq<SensorView>, level: nat, n: nat)
    requires
        n <= sensors.len(),
    ensures
        forall|i: int|
            0 <= i < preferred(sensors, level, n).len() ==> preference(
                #[trigger] preferred(sensors, level, n)[i],
            ) == level,
        forall|k: int|
            0 <= k < n && (#[trigger] sensors[k]).quantity == Quantity::Temperature && preference(
                sensors[k],
            ) == level ==> preferred(sensors, level, n).len() > 0,
    decreases n,
{
    if n > 0 {
        lemma_preferred_keeps(sensors, level, (n - 1) as nat);
        let before = preferred(sensors, level, (n - 1) as nat);
        let after = preferred(sensors, level, n);
        assert forall|i: int| 0 <= i < after.len() implies preference(#[trigger] after[i]) == level by {
            if i < before.len() {
                assert(after[i] == before[i]);
            }
        }
    }
}

proof fn lemma_likeliest(sensors: Seq<SensorView>, levels: nat, k: int)
    requires
        0 <= k < sensors.len(),
        sensors[k].quantity == Quantity::Temperature,
        preference(sensors[k]) < levels,
    ensures
        temperatures_to(sensors, levels).len() > 0,
        preference(temperatures_to(sensors, levels)[0]) <= preference(sensors[k]),
    decreases levels,
{
    let level = (levels - 1) as nat;
    let before = temperatures_to(sensors, level);
    lemma_preferred_keeps(sensors, level, sensors.len());
    if preference(sensors[k]) < level {
        lemma_likeliest(sensors, level, k);
    } else {
        lemma_levels(sensors, level);
        if before.len() > 0 {
            assert(temperatures_to(sensors, levels)[0] == before[0]);
        } else {
            assert(temperatures_to(sensors, levels) =~= preferred(sensors, level, sensors.len()));
        }
    }
}

proof fn lemma_levels(sensors: Seq<SensorView>, levels: nat)
    ensures
        forall|i: int|
            0 <= i < temperatures_to(sensors, levels).len() ==> preference(
                #[trigger] temperatures_to(sensors, levels)[i],
            ) < levels,
    decreases levels,
{
    if levels > 0 {
        let level = (levels - 1) as nat;
        lemma_levels(sensors, level);
        lemma_preferred_keeps(sensors, level, sensors.len());
        let before = temperatures_to(sensors, level);
        let last = preferred(sensors, level, sensors.len());
        let after = temperatures_to(sensors, levels);
        assert forall|i: int| 0 <= i < after.len() implies preference(#[trigger] after[i]) < levels by {
            if i < before.len() {
                assert(after[i] == before[i]);
            } else {
                assert(after[i] == last[i - before.len()]);
            }
        }
    }
}

/// Presets follow the temperature that is likeliest to be the CPU: none of the machine's
/// temperatures is preferred to the first.
pub proof fn the_likeliest_cpu_comes_first(hw: HardwareView, k: int)
    requires
        0 <= k < hw.sensors.len(),
        hw.sensors[k].quantity == Quantity::Temperature,
    ensures
        temperatures_of(hw).len() > 0,
        preference(temperatures_of(hw)[0]) <= preference(hw.sensors[k]),
{
    lemma_likeliest(hw.sensors, 6, k);
}

/// Presets that need hardware the machine lacks are left out rather than offered broken:
/// without channels there is none, without a temperature only the fixed duty, and stall
/// protection only where some fan can be seen to turn.
pub proof fn only_what_the_hardware_supports_is_offered(hw: HardwareView, i: int)
    requires
        0 <= i < offered(hw).len(),
    ensures
        hw.channels.len() > 0,
        temperatures_of(hw).len() == 0 ==> offered(hw)[i] == fixed_preset(hw),
        offered(hw)[i].id == "stall-protected"@ ==> any_tachometer(hw),
        offered(hw)[0] == fixed_preset(hw),
{
    reveal_strlit("fixed");
    reveal_strlit("balanced");
    reveal_strlit("quiet");
    reveal_strlit("cpu-and-gpu");
    reveal_strlit("stall-protected");
    assert("fixed"@[0] == 'f' && "balanced"@[0] == 'b' && "quiet"@[0] == 'q');
    assert("cpu-and-gpu"@[0] == 'c' && "stall-protected"@[0] == 's');
}

} // verus!
