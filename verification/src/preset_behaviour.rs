//! What every preset does on a tick: what each channel is commanded for what the sensors read.
use crate::eval::{
    interpolated, largest, mixed, number, StateView, TickView,
};
use crate::graph::{EdgeView, GraphView, PortKey};
use crate::node::{ports, Compare, CurvePoint, KindView, MixMode};
use crate::offload::feeding;
use crate::preset_guarantees::{lemma_names, lemma_row_names, lemma_rows_differ};
use crate::presets::{
    all_guarded, balanced_preset, called, drawn, fan_id, fanned, first_called, fixed_preset,
    followed_by_curve, guarded, guarded_preset, hottest_of, offered, pair_preset, pick_id, port,
    preference, preferred, quiet_preset, smoothed, stalled_id, temperatures_of, temperatures_to,
    ChannelView, HardwareView, SensorView, Sketch,
};
use crate::scalar::{
    doubles_round_to_themselves, exact_sums_are_exact, magnitude_of, order_is_by_value,
    rounding_keeps_order, whole, whole_is_exact, Scalar,
};
use crate::text::{occurs, Text};
use crate::tick::{arriving, gathered, recalled, ticked, Progress};
use crate::units::{Quantity, Value};
use crate::validate::CompiledView;
use crate::wires::{
    channels_follow_their_output, drives_alone, inputs_carry_what_feeds_them, speed_of,
    speeds_are_on_their_wires, wires_carry_their_nodes_work,
};
use crate::wiring::lemma_ports_found;
use vstd::arithmetic::power2::{lemma2_to64, lemma_pow2_pos, lemma_pow2_strictly_increases, pow2};
use vstd::prelude::*;

verus! {

// --- Connections ---------------------------------------------------------------------------------

proof fn lemma_feeding(edges: Seq<EdgeView>, target: PortKey, i: int, k: int)
    requires
        0 <= i <= k < edges.len(),
        edges[k].to == target,
        forall|j: int| i <= j < k ==> (#[trigger] edges[j]).to != target,
    ensures
        feeding(edges, target, i) == Some(edges[k].from),
    decreases k - i,
{
    if i < k {
        lemma_feeding(edges, target, i + 1, k);
    }
}

/// What stands on an input that one connection leads to.
proof fn lemma_fed_by(
    c: CompiledView,
    t: TickView,
    states: Map<Text, StateView>,
    id: Text,
    p: int,
    k: int,
)
    requires
        c.sound(),
        c.graph.nodes.dom().contains(id),
        0 <= p < ports(c.graph.nodes[id].kind).inputs.len(),
        0 <= k < c.graph.edges.len(),
        c.graph.edges[k].to == port(id, ports(c.graph.nodes[id].kind).inputs[p].key),
        forall|j: int|
            0 <= j < k ==> (#[trigger] c.graph.edges[j]).to != port(
                id,
                ports(c.graph.nodes[id].kind).inputs[p].key,
            ),
    ensures
        ({
            let outputs = ticked(c, t, states).outputs;
            let key = ports(c.graph.nodes[id].kind).inputs[p].key;
            &&& outputs.dom().contains(c.graph.edges[k].from)
            &&& number(gathered(c.graph, outputs, id), key)
                == outputs[c.graph.edges[k].from].scalar
        }),
{
    let key = ports(c.graph.nodes[id].kind).inputs[p].key;
    lemma_feeding(c.graph.edges, port(id, key), 0, k);
    inputs_carry_what_feeds_them(c, t, states, id, p);
}

proof fn lemma_arriving(
    g: GraphView,
    outputs: Map<PortKey, Value>,
    target: PortKey,
    m: nat,
    n: nat,
)
    requires
        m <= n <= g.edges.len(),
        forall|j: int| m <= j < n ==> (#[trigger] g.edges[j]).to != target,
    ensures
        arriving(g, outputs, target, n) == arriving(g, outputs, target, m),
    decreases n,
{
    if m < n {
        lemma_arriving(g, outputs, target, m, (n - 1) as nat);
        assert(g.edges[n - 1].to != target);
    }
}

// --- Fans ----------------------------------------------------------------------------------------

/// Whether no node of a sketch belongs to a row.
spec fn fanless(s: Sketch) -> bool {
    &&& forall|k: nat| !s.nodes.dom().contains(#[trigger] fan_id(k))
    &&& forall|id: Text| #[trigger]
        s.nodes.dom().contains(id) ==> !(s.nodes[id].kind is FanOutput)
    &&& forall|j: int|
        0 <= j < s.edges.len() ==> s.nodes.dom().contains((#[trigger] s.edges[j]).to.node)
}

/// What wiring a source into the first `n` channels comes to.
spec fn fans_out(s: Sketch, source: PortKey, channels: Seq<ChannelView>, n: nat, t: Sketch) -> bool {
    let m = s.edges.len() as int;
    &&& t.edges.len() == m + n
    &&& forall|j: int| 0 <= j < m ==> #[trigger] t.edges[j] == s.edges[j]
    &&& forall|j: int|
        m <= j < m + n ==> #[trigger] t.edges[j] == (EdgeView {
            from: source,
            to: port(fan_id((j - m) as nat), "duty"@),
        })
    &&& forall|id: Text| #[trigger]
        s.nodes.dom().contains(id) ==> t.nodes.dom().contains(id) && t.nodes[id] == s.nodes[id]
    &&& forall|k: nat|
        k < n ==> t.nodes.dom().contains(#[trigger] fan_id(k)) && t.nodes[fan_id(k)].kind == (
        KindView::FanOutput { channel: channels[k as int].id })
    &&& forall|id: Text| #[trigger]
        t.nodes.dom().contains(id) ==> s.nodes.dom().contains(id) || exists|k: nat|
            k < n && id == #[trigger] fan_id(k)
}

proof fn lemma_fanned(
    s: Sketch,
    source: PortKey,
    channels: Seq<ChannelView>,
    column: nat,
    n: nat,
)
    requires
        fanless(s),
        n <= channels.len(),
    ensures
        fans_out(s, source, channels, n, fanned(s, source, channels, column, n)),
    decreases n,
{
    if n > 0 {
        let row = (n - 1) as nat;
        lemma_fanned(s, source, channels, column, row);
        let before = fanned(s, source, channels, column, row);
        let t = fanned(s, source, channels, column, n);
        assert forall|k: nat| k < n implies t.nodes.dom().contains(#[trigger] fan_id(k))
            && t.nodes[fan_id(k)].kind == (KindView::FanOutput { channel: channels[k as int].id }) by {
            if k < row {
                lemma_rows_differ(k, row);
            }
        }
        assert forall|id: Text| #[trigger] t.nodes.dom().contains(id) implies s.nodes.dom().contains(
            id,
        ) || exists|k: nat| k < n && id == #[trigger] fan_id(k) by {
            if id != fan_id(row) {
                assert(before.nodes.dom().contains(id));
                if !s.nodes.dom().contains(id) {
                    let k = choose|k: nat| k < row && id == #[trigger] fan_id(k);
                    assert(k < n && id == fan_id(k));
                }
            } else {
                assert(row < n);
            }
        }
    }
}

/// Whether no two channels have the same id.
pub open spec fn distinct(channels: Seq<ChannelView>) -> bool {
    forall|a: int, b: int|
        0 <= a < b < channels.len() ==> (#[trigger] channels[a]).id != (#[trigger] channels[b]).id
}

/// Whether a channel gets a duty on a tick: it is commanded that, brought into range, or it is
/// faulted where that is no number.
pub open spec fn gets(done: Progress, channel: Text, duty: Scalar) -> bool {
    if duty.finite() {
        &&& done.commands.dom().contains(channel)
        &&& done.commands[channel].quantity == Quantity::Duty
        &&& done.commands[channel].scalar == duty.confined(whole(0), whole(100))
        &&& !done.faulted.contains(channel)
    } else {
        done.faulted.contains(channel) && !done.commands.dom().contains(channel)
    }
}

/// Every channel gets what its source gives.
proof fn lemma_driven(
    c: CompiledView,
    t: TickView,
    states: Map<Text, StateView>,
    s: Sketch,
    source: Text,
    channels: Seq<ChannelView>,
    k: int,
)
    requires
        c.sound(),
        fanless(s),
        distinct(channels),
        drawn(c.graph, fanned(s, port(source, "out"@), channels, 3, channels.len())),
        0 <= k < channels.len(),
    ensures
        gets(
            ticked(c, t, states),
            channels[k].id,
            ticked(c, t, states).outputs[port(source, "out"@)].scalar,
        ),
        fans_out(
            s,
            port(source, "out"@),
            channels,
            channels.len(),
            Sketch { nodes: c.graph.nodes, edges: c.graph.edges },
        ),
{
    let g = c.graph;
    let from = port(source, "out"@);
    lemma_fanned(s, from, channels, 3, channels.len());
    let fan = fan_id(k as nat);
    let m = s.edges.len() as int;
    assert(g.nodes.dom().contains(fan));
    assert(drives_alone(g, fan, channels[k].id)) by {
        assert forall|other: Text| #[trigger]
            g.nodes.dom().contains(other) && g.nodes[other].kind == (KindView::FanOutput {
                channel: channels[k].id,
            }) implies other == fan by {
            assert(!s.nodes.dom().contains(other));
            let j = choose|j: nat| j < channels.len() && other == #[trigger] fan_id(j);
            assert(channels[j as int].id == channels[k].id);
            if j < k {
                assert(channels[j as int].id != channels[k].id);
            } else if j > k {
                assert(channels[k].id != channels[j as int].id);
            }
        }
    }
    let target = port(fan, "duty"@);
    assert(g.edges[m + k] == (EdgeView { from, to: target }));
    assert forall|j: int| 0 <= j < m + k implies (#[trigger] g.edges[j]).to != target by {
        if j < m {
            assert(g.edges[j] == s.edges[j]);
            assert(s.nodes.dom().contains(s.edges[j].to.node));
        } else {
            assert(g.edges[j].to == port(fan_id((j - m) as nat), "duty"@));
            lemma_rows_differ((j - m) as nat, k as nat);
        }
    }
    lemma_feeding(g.edges, target, 0, m + k);
    channels_follow_their_output(c, t, states, fan, channels[k].id);
}

// --- Presets -------------------------------------------------------------------------------------

/// What a sensor reads on a tick; no number where it does not, or reads something else.
pub open spec fn told(t: TickView, s: SensorView) -> Scalar {
    if t.sensors.dom().contains(s.id) && t.sensors[s.id].quantity == s.quantity {
        t.sensors[s.id].scalar
    } else {
        crate::scalar::nan()
    }
}

/// A curve through three points, in whole numbers.
pub open spec fn through(a: (nat, nat), b: (nat, nat), c: (nat, nat)) -> Seq<CurvePoint> {
    seq![
        CurvePoint { x: whole(a.0), y: whole(a.1) },
        CurvePoint { x: whole(b.0), y: whole(b.1) },
        CurvePoint { x: whole(c.0), y: whole(c.1) },
    ]
}

/// With the fixed preset every channel runs at half, whatever the sensors read.
pub proof fn the_fixed_preset_runs_at_half(
    hw: HardwareView,
    c: CompiledView,
    t: TickView,
    states: Map<Text, StateView>,
    k: int,
)
    requires
        c.sound(),
        drawn(c.graph, fixed_preset(hw).sketch),
        distinct(hw.channels),
        0 <= k < hw.channels.len(),
    ensures
        ({
            let done = ticked(c, t, states);
            let channel = hw.channels[k].id;
            &&& done.commands.dom().contains(channel)
            &&& done.commands[channel].quantity == Quantity::Duty
            &&& done.commands[channel].scalar == whole(50)
            &&& !done.faulted.contains(channel)
        }),
{
    let kind = KindView::Constant { value: whole(50) };
    let s = Sketch::blank().put("duty"@, kind, 0, 0);
    lemma_names();
    assert(fanless(s)) by {
        assert forall|k: nat| !s.nodes.dom().contains(#[trigger] fan_id(k)) by {
            lemma_row_names(k);
        }
    }
    lemma_driven(c, t, states, s, "duty"@, hw.channels, k);
    assert(s.nodes.dom().contains("duty"@));
    wires_carry_their_nodes_work(c, t, states, "duty"@);
    lemma_fifty();
}

proof fn lemma_fifty()
    ensures
        whole(50).finite(),
        whole(50).confined(whole(0), whole(100)) == whole(50),
{
    whole_is_exact(0);
    whole_is_exact(50);
    whole_is_exact(100);
    lemma_pow2_pos(1074);
    assert(0 * pow2(1074) == 0);
    order_is_by_value(whole(50), whole(0));
    order_is_by_value(whole(100), whole(50));
}

/// With the balanced preset every channel follows the first temperature along the gentle curve
/// through 25 % at 30 degrees, 40 % at 55 and everything at 80.
pub proof fn the_balanced_preset_follows_its_curve(
    hw: HardwareView,
    primary: SensorView,
    c: CompiledView,
    t: TickView,
    states: Map<Text, StateView>,
    k: int,
)
    requires
        c.sound(),
        drawn(c.graph, balanced_preset(hw, primary).sketch),
        distinct(hw.channels),
        0 <= k < hw.channels.len(),
    ensures
        gets(
            ticked(c, t, states),
            hw.channels[k].id,
            interpolated(through((30, 25), (55, 40), (80, 100)), told(t, primary)),
        ),
{
    let s = followed_by_curve(primary);
    let g = c.graph;
    lemma_names();
    assert(s.edges =~= seq![
        EdgeView { from: port("temp"@, "out"@), to: port("curve"@, "in"@) },
    ]);
    assert(fanless(s)) by {
        assert forall|k: nat| !s.nodes.dom().contains(#[trigger] fan_id(k)) by {
            lemma_row_names(k);
        }
    }
    lemma_driven(c, t, states, s, "curve"@, hw.channels, k);
    assert(s.nodes.dom().contains("curve"@) && s.nodes.dom().contains("temp"@));
    lemma_ports_found(g.nodes["curve"@].kind);
    assert(g.edges[0] == s.edges[0]);
    lemma_fed_by(c, t, states, "curve"@, 0, 0);
    wires_carry_their_nodes_work(c, t, states, "curve"@);
    wires_carry_their_nodes_work(c, t, states, "temp"@);
    assert(through((30, 25), (55, 40), (80, 100)) =~= g.nodes["curve"@].kind->Curve_points);
}

/// With the quiet preset every channel follows what the smoothed temperature comes to along a
/// curve through 20 % at 40 degrees, 45 % at 70 and everything at 90, at a limited pace. On the
/// first tick neither the filter nor the limiter remembers anything, and the reading goes through.
pub proof fn the_quiet_preset_starts_on_its_curve(
    hw: HardwareView,
    primary: SensorView,
    c: CompiledView,
    t: TickView,
    states: Map<Text, StateView>,
    k: int,
)
    requires
        c.sound(),
        drawn(c.graph, quiet_preset(hw, primary).sketch),
        distinct(hw.channels),
        0 <= k < hw.channels.len(),
        recalled(states, "smooth"@).last is None,
        recalled(states, "ramp"@).last is None,
    ensures
        gets(
            ticked(c, t, states),
            hw.channels[k].id,
            interpolated(through((40, 20), (70, 45), (90, 100)), told(t, primary)),
        ),
{
    let s = smoothed(primary);
    let g = c.graph;
    lemma_names();
    assert(s.edges =~= seq![
        EdgeView { from: port("temp"@, "out"@), to: port("smooth"@, "in"@) },
        EdgeView { from: port("smooth"@, "out"@), to: port("curve"@, "in"@) },
        EdgeView { from: port("curve"@, "out"@), to: port("ramp"@, "in"@) },
    ]);
    assert(fanless(s)) by {
        assert forall|k: nat| !s.nodes.dom().contains(#[trigger] fan_id(k)) by {
            lemma_row_names(k);
        }
    }
    lemma_driven(c, t, states, s, "ramp"@, hw.channels, k);
    assert(s.nodes.dom().contains("curve"@) && s.nodes.dom().contains("temp"@)
        && s.nodes.dom().contains("smooth"@) && s.nodes.dom().contains("ramp"@));
    assert(g.edges[0] == s.edges[0] && g.edges[1] == s.edges[1] && g.edges[2] == s.edges[2]);
    lemma_ports_found(g.nodes["curve"@].kind);
    lemma_ports_found(g.nodes["smooth"@].kind);
    lemma_ports_found(g.nodes["ramp"@].kind);
    lemma_fed_by(c, t, states, "smooth"@, 0, 0);
    lemma_fed_by(c, t, states, "curve"@, 0, 1);
    lemma_fed_by(c, t, states, "ramp"@, 0, 2);
    wires_carry_their_nodes_work(c, t, states, "temp"@);
    wires_carry_their_nodes_work(c, t, states, "smooth"@);
    wires_carry_their_nodes_work(c, t, states, "curve"@);
    wires_carry_their_nodes_work(c, t, states, "ramp"@);
    assert(through((40, 20), (70, 45), (90, 100)) =~= g.nodes["curve"@].kind->Curve_points);
}

/// With the paired preset every channel follows the hotter of two readings along the curve
/// through 25 % at 35 degrees, 45 % at 60 and everything at 85. Where one of the two does not
/// report a number, every channel fails safe.
pub proof fn the_paired_preset_follows_the_hotter_reading(
    hw: HardwareView,
    cpu: SensorView,
    gpu: SensorView,
    c: CompiledView,
    t: TickView,
    states: Map<Text, StateView>,
    k: int,
)
    requires
        c.sound(),
        drawn(c.graph, pair_preset(hw, cpu, gpu).sketch),
        distinct(hw.channels),
        0 <= k < hw.channels.len(),
    ensures
        ({
            let done = ticked(c, t, states);
            let channel = hw.channels[k].id;
            let a = told(t, cpu);
            let b = told(t, gpu);
            let curve = through((35, 25), (60, 45), (85, 100));
            &&& a.finite() && b.finite() && b.value() <= a.value() ==> gets(
                done,
                channel,
                interpolated(curve, a),
            )
            &&& a.finite() && b.finite() && a.value() < b.value() ==> gets(
                done,
                channel,
                interpolated(curve, b),
            )
            &&& !a.finite() || !b.finite() ==> done.faulted.contains(channel)
                && !done.commands.dom().contains(channel)
        }),
        exists|id: Text| #[trigger] c.graph.nodes.dom().contains(id) && c.graph.nodes[id].kind == (
        KindView::Sensor { sensor_id: cpu.id, quantity: cpu.quantity }),
        exists|id: Text| #[trigger] c.graph.nodes.dom().contains(id) && c.graph.nodes[id].kind == (
        KindView::Sensor { sensor_id: gpu.id, quantity: gpu.quantity }),
{
    let s = hottest_of(cpu, gpu);
    let g = c.graph;
    lemma_names();
    assert(s.edges =~= seq![
        EdgeView { from: port("cpu"@, "out"@), to: port("hottest"@, "in"@) },
        EdgeView { from: port("gpu"@, "out"@), to: port("hottest"@, "in"@) },
        EdgeView { from: port("hottest"@, "out"@), to: port("curve"@, "in"@) },
    ]);
    assert(fanless(s)) by {
        assert forall|k: nat| !s.nodes.dom().contains(#[trigger] fan_id(k)) by {
            lemma_row_names(k);
        }
    }
    lemma_driven(c, t, states, s, "curve"@, hw.channels, k);
    assert(s.nodes.dom().contains("curve"@) && s.nodes.dom().contains("cpu"@)
        && s.nodes.dom().contains("gpu"@) && s.nodes.dom().contains("hottest"@));
    assert(g.nodes.dom().contains("cpu"@) && g.nodes.dom().contains("gpu"@));
    assert(g.edges[0] == s.edges[0] && g.edges[1] == s.edges[1] && g.edges[2] == s.edges[2]);
    lemma_ports_found(g.nodes["curve"@].kind);
    lemma_ports_found(g.nodes["hottest"@].kind);
    lemma_fed_by(c, t, states, "curve"@, 0, 2);
    wires_carry_their_nodes_work(c, t, states, "cpu"@);
    wires_carry_their_nodes_work(c, t, states, "gpu"@);
    wires_carry_their_nodes_work(c, t, states, "hottest"@);
    wires_carry_their_nodes_work(c, t, states, "curve"@);
    let outputs = ticked(c, t, states).outputs;
    let target = port("hottest"@, "in"@);
    let m = s.edges.len() as int;
    assert forall|j: int| 2 <= j < g.edges.len() implies (#[trigger] g.edges[j]).to != target by {
        if j >= m {
            assert(g.edges[j].to == port(fan_id((j - m) as nat), "duty"@));
            lemma_row_names((j - m) as nat);
        }
    }
    lemma_arriving(g, outputs, target, 2, g.edges.len());
    let x = outputs[port("cpu"@, "out"@)];
    let y = outputs[port("gpu"@, "out"@)];
    assert(arriving(g, outputs, target, 0) =~= Seq::empty());
    assert(arriving(g, outputs, target, 1) =~= seq![x]);
    assert(arriving(g, outputs, target, 2) =~= seq![x, y]);
    let a = told(t, cpu);
    let b = told(t, gpu);
    let inputs = gathered(g, outputs, "hottest"@);
    assert(ports(g.nodes["hottest"@].kind).inputs[0].key == "in"@);
    assert(inputs["in"@] =~= seq![x, y]);
    let values = inputs["in"@].map_values(|v: Value| v.scalar);
    assert(values =~= seq![a, b]);
    lemma_larger(a, b);
    assert(through((35, 25), (60, 45), (85, 100)) =~= g.nodes["curve"@].kind->Curve_points);
}

proof fn lemma_larger(a: Scalar, b: Scalar)
    ensures
        a.finite() && b.finite() && b.value() <= a.value() ==> mixed(MixMode::Max, seq![a, b]) == a,
        a.finite() && b.finite() && a.value() < b.value() ==> mixed(MixMode::Max, seq![a, b]) == b,
        !a.finite() || !b.finite() ==> mixed(MixMode::Max, seq![a, b]).nan(),
{
    let values = seq![a, b];
    assert(values.drop_last() =~= seq![a]);
    assert(largest(seq![a]) == a);
    assert(values[0] == a && values[1] == b);
    if a.finite() && b.finite() {
        order_is_by_value(a, b);
    }
}

// --- Stall protection ----------------------------------------------------------------------------

/// Whether the connections of a row start at a position, and none before leads to the row.
spec fn row_at(t: Sketch, channel: ChannelView, k: nat, b: int) -> bool {
    &&& 0 <= b
    &&& forall|j: int|
        0 <= j < b && j < t.edges.len() ==> (#[trigger] t.edges[j]).to.node != fan_id(k)
            && t.edges[j].to.node != stalled_id(k) && t.edges[j].to.node != pick_id(k)
    &&& if channel.tachometer is None {
        &&& b < t.edges.len()
        &&& t.edges[b] == (EdgeView { from: port("curve"@, "out"@), to: port(fan_id(k), "duty"@) })
    } else {
        &&& b + 4 < t.edges.len()
        &&& t.edges[b] == (EdgeView {
            from: port(fan_id(k), "rpm"@),
            to: port(stalled_id(k), "in"@),
        })
        &&& t.edges[b + 1] == (EdgeView {
            from: port(stalled_id(k), "out"@),
            to: port(pick_id(k), "when"@),
        })
        &&& t.edges[b + 2] == (EdgeView {
            from: port("full"@, "out"@),
            to: port(pick_id(k), "if_true"@),
        })
        &&& t.edges[b + 3] == (EdgeView {
            from: port("curve"@, "out"@),
            to: port(pick_id(k), "if_false"@),
        })
        &&& t.edges[b + 4] == (EdgeView {
            from: port(pick_id(k), "out"@),
            to: port(fan_id(k), "duty"@),
        })
        &&& t.nodes.dom().contains(stalled_id(k))
        &&& t.nodes[stalled_id(k)].kind == (KindView::Comparator {
            threshold: whole(200),
            deadband: whole(100),
            direction: Compare::Below,
        })
        &&& t.nodes.dom().contains(pick_id(k))
        &&& t.nodes[pick_id(k)].kind == KindView::Select
    }
    &&& t.nodes.dom().contains(fan_id(k))
    &&& t.nodes[fan_id(k)].kind == (KindView::FanOutput { channel: channel.id })
}

/// Whether a sketch has no nodes of the rows from `n` on.
spec fn rows_open(s: Sketch, n: nat) -> bool {
    forall|k: nat|
        k >= n ==> !s.nodes.dom().contains(#[trigger] fan_id(k)) && !s.nodes.dom().contains(
            stalled_id(k),
        ) && !s.nodes.dom().contains(pick_id(k))
}

/// Whether the connections of a row are there.
spec fn row_there(t: Sketch, channels: Seq<ChannelView>, k: nat) -> bool {
    exists|b: int| row_at(t, channels[k as int], k, b)
}

/// What guarding the first `n` channels comes to.
spec fn guards(s: Sketch, channels: Seq<ChannelView>, n: nat, t: Sketch) -> bool {
    &&& rows_open(t, n)
    &&& t.edges.len() >= s.edges.len()
    &&& forall|j: int| 0 <= j < s.edges.len() ==> #[trigger] t.edges[j] == s.edges[j]
    &&& forall|j: int|
        0 <= j < t.edges.len() ==> t.nodes.dom().contains((#[trigger] t.edges[j]).to.node)
    &&& forall|id: Text| #[trigger]
        s.nodes.dom().contains(id) ==> t.nodes.dom().contains(id) && t.nodes[id] == s.nodes[id]
    &&& forall|k: nat| k < n ==> #[trigger] row_there(t, channels, k)
    &&& forall|id: Text| #[trigger]
        t.nodes.dom().contains(id) && t.nodes[id].kind is FanOutput ==> exists|k: nat|
            k < n && id == #[trigger] fan_id(k)
}

proof fn lemma_all_guarded(s: Sketch, channels: Seq<ChannelView>, n: nat)
    requires
        fanless(s),
        rows_open(s, 0),
        n <= channels.len(),
    ensures
        guards(s, channels, n, all_guarded(s, channels, n)),
    decreases n,
{
    if n > 0 {
        let row = (n - 1) as nat;
        lemma_all_guarded(s, channels, row);
        let before = all_guarded(s, channels, row);
        let channel = channels[row as int];
        let t = guarded(before, channel, row);
        assert(t == all_guarded(s, channels, n));
        lemma_row_names(row);
        let b = before.edges.len() as int;
        assert(!before.nodes.dom().contains(fan_id(row)));
        assert forall|j: int| 0 <= j < b implies #[trigger] t.edges[j] == before.edges[j] by {}
        assert(row_at(t, channel, row, b)) by {
            assert forall|j: int| 0 <= j < b && j < t.edges.len() implies (
            #[trigger] t.edges[j]).to.node != fan_id(row) && t.edges[j].to.node != stalled_id(row)
                && t.edges[j].to.node != pick_id(row) by {
                assert(before.nodes.dom().contains(before.edges[j].to.node));
            }
        }
        assert forall|k: nat| k >= n implies !t.nodes.dom().contains(#[trigger] fan_id(k))
            && !t.nodes.dom().contains(stalled_id(k)) && !t.nodes.dom().contains(pick_id(k)) by {
            assert(!before.nodes.dom().contains(fan_id(k)));
            lemma_rows_differ(row, k);
            lemma_row_names(k);
        }
        assert forall|k: nat| k < n implies #[trigger] row_there(t, channels, k) by {
            if k < row {
                assert(row_there(before, channels, k));
                lemma_rows_differ(row, k);
                lemma_row_names(k);
                let a = choose|a: int| row_at(before, channels[k as int], k, a);
                assert(row_at(t, channels[k as int], k, a));
            } else {
                assert(row_at(t, channels[k as int], k, b));
            }
        }
        assert forall|id: Text| #[trigger]
            t.nodes.dom().contains(id) && t.nodes[id].kind is FanOutput implies exists|k: nat|
            k < n && id == #[trigger] fan_id(k) by {
            if id != fan_id(row) {
                assert(before.nodes.dom().contains(id));
                let k = choose|k: nat| k < row && id == #[trigger] fan_id(k);
                assert(k < n && id == fan_id(k));
            } else {
                assert(row < n);
            }
        }
        assert forall|j: int| 0 <= j < t.edges.len() implies t.nodes.dom().contains(
            (#[trigger] t.edges[j]).to.node,
        ) by {
            if j < b {
                assert(before.nodes.dom().contains(before.edges[j].to.node));
            } else {
                assert(j == b || j == b + 1 || j == b + 2 || j == b + 3 || j == b + 4);
            }
        }
        assert forall|id: Text| #[trigger] s.nodes.dom().contains(id) implies t.nodes.dom().contains(
            id,
        ) && t.nodes[id] == s.nodes[id] by {
            assert(before.nodes.dom().contains(id));
        }
        assert forall|j: int| 0 <= j < s.edges.len() implies #[trigger] t.edges[j] == s.edges[j] by {
            assert(before.edges[j] == s.edges[j]);
        }
    } else {
        assert forall|id: Text| #[trigger]
            s.nodes.dom().contains(id) && s.nodes[id].kind is FanOutput implies exists|k: nat|
            k < n && id == #[trigger] fan_id(k) by {}
    }
}

/// What halves come to where stall protection and selectors need them.
pub proof fn lemma_halves()
    ensures
        ({
            let half = whole(100).absolute().over(whole(2));
            &&& whole(200).plus(half).finite()
            &&& whole(200).plus(half).value() == 250 * pow2(1074)
            &&& whole(200).minus(half).finite()
            &&& whole(200).minus(half).value() == 150 * pow2(1074)
        }),
        whole(1).over(whole(2)).at_most(whole(1)),
        !whole(1).over(whole(2)).at_most(whole(0)),
        whole(0).finite(),
        whole(1).finite(),
{
    reveal(Scalar::over);
    let unit = pow2(1074);
    lemma_pow2_pos(1074);
    lemma2_to64();
    lemma_pow2_strictly_increases(2, 1074);
    whole_is_exact(0);
    whole_is_exact(1);
    whole_is_exact(2);
    whole_is_exact(50);
    whole_is_exact(100);
    whole_is_exact(150);
    whole_is_exact(200);
    whole_is_exact(250);
    assert(0 * unit == 0);
    reveal(whole);
    let half = whole(100).absolute().over(whole(2));
    let n = ((100 * unit) * unit) as nat;
    let d = (2 * unit) as nat;
    assert(n * 1 == (50 * unit) * d) by (nonlinear_arith)
        requires
            n == (100 * unit) * unit,
            d == 2 * unit,
    ;
    rounding_keeps_order(n, d, (50 * unit) as nat, 1);
    rounding_keeps_order((50 * unit) as nat, 1, n, d);
    doubles_round_to_themselves(whole(50).pattern());
    assert(whole(50).magnitude() == 50 * unit);
    assert(whole(100).magnitude() * unit == n);
    assert(half.pattern() == whole(50).pattern());
    assert(half.finite() && half.value() == 50 * unit);
    exact_sums_are_exact(whole(200), half, whole(250));
    assert(half.negated().value() == -half.value());
    exact_sums_are_exact(whole(200), half.negated(), whole(150));
    order_is_by_value(whole(200).plus(half), whole(250));
    order_is_by_value(whole(200).minus(half), whole(150));
    let m = ((1 * unit) * unit) as nat;
    assert(m * 1 <= (1 * unit) * d) by (nonlinear_arith)
        requires
            m == (1 * unit) * unit,
            d == 2 * unit,
            unit > 0,
    ;
    rounding_keeps_order(m, d, (1 * unit) as nat, 1);
    doubles_round_to_themselves(whole(1).pattern());
    assert(whole(1).magnitude() * unit == m);
    assert(1 * d <= m * 1) by (nonlinear_arith)
        requires
            m == (1 * unit) * unit,
            d == 2 * unit,
            unit >= 2,
    ;
    rounding_keeps_order(1, 1, m, d);
    doubles_round_to_themselves(1);
    assert(magnitude_of(1) == 1);
}

/// What a channel that is watched gets.
proof fn lemma_watched(
    c: CompiledView,
    t: TickView,
    states: Map<Text, StateView>,
    s: Sketch,
    channel: ChannelView,
    k: nat,
    b: int,
)
    requires
        c.sound(),
        drawn(c.graph, s),
        row_at(s, channel, k, b),
        channel.tachometer is Some,
        drives_alone(c.graph, fan_id(k), channel.id),
        s.nodes.dom().contains("full"@),
        s.nodes["full"@].kind == (KindView::Constant { value: whole(100) }),
    ensures
        ({
            let done = ticked(c, t, states);
            let rpm = speed_of(t, channel.id);
            let stopped = recalled(states, stalled_id(k)).flag;
            if !rpm.finite() {
                done.faulted.contains(channel.id) && !done.commands.dom().contains(channel.id)
            } else if rpm.value() < 150 * pow2(1074) || (stopped && rpm.value() <= 250 * pow2(
                1074,
            )) {
                gets(done, channel.id, whole(100))
            } else {
                gets(done, channel.id, done.outputs[port("curve"@, "out"@)].scalar)
            }
        }),
{
    let g = c.graph;
    let fan = fan_id(k);
    let stalled = stalled_id(k);
    let pick = pick_id(k);
    let target = port(fan, "duty"@);
    lemma_row_names(k);
    lemma_ports_found(g.nodes[stalled].kind);
    lemma_ports_found(g.nodes[pick].kind);
    assert("when"@ != "if_true"@ && "when"@ != "if_false"@ && "if_true"@ != "if_false"@) by {
        reveal_strlit("when");
        reveal_strlit("if_true");
        reveal_strlit("if_false");
        assert("when"@.len() == 4 && "if_true"@.len() == 7 && "if_false"@.len() == 8);
    }
    assert forall|j: int| 0 <= j < b + 4 implies (#[trigger] g.edges[j]).to != target by {
        assert(j < b || j == b || j == b + 1 || j == b + 2 || j == b + 3);
    }
    lemma_feeding(g.edges, target, 0, b + 4);
    channels_follow_their_output(c, t, states, fan, channel.id);
    speeds_are_on_their_wires(c, t, states, fan, channel.id);
    wires_carry_their_nodes_work(c, t, states, "full"@);
    wires_carry_their_nodes_work(c, t, states, stalled);
    wires_carry_their_nodes_work(c, t, states, pick);
    lemma_fed_by(c, t, states, stalled, 0, b);
    assert forall|j: int| 0 <= j < b + 1 implies (#[trigger] g.edges[j]).to != port(
        pick,
        "when"@,
    ) by {
        assert(j < b || j == b);
    }
    lemma_fed_by(c, t, states, pick, 0, b + 1);
    assert forall|j: int| 0 <= j < b + 2 implies (#[trigger] g.edges[j]).to != port(
        pick,
        "if_true"@,
    ) by {
        assert(j < b || j == b || j == b + 1);
    }
    lemma_fed_by(c, t, states, pick, 1, b + 2);
    assert forall|j: int| 0 <= j < b + 3 implies (#[trigger] g.edges[j]).to != port(
        pick,
        "if_false"@,
    ) by {
        assert(j < b || j == b || j == b + 1 || j == b + 2);
    }
    lemma_fed_by(c, t, states, pick, 2, b + 3);
    lemma_halves();
    lemma_hundred();
    let rpm = speed_of(t, channel.id);
    let half = whole(100).absolute().over(whole(2));
    if rpm.finite() {
        order_is_by_value(whole(200).plus(half), rpm);
        order_is_by_value(rpm, whole(200).minus(half));
    }
}

/// With stall protection every channel follows the gentle curve, and one that has a tachometer is
/// driven at full duty while that says that the fan does not turn: once it reads less than 150
/// rpm, and until it reads more than 250. A tachometer that reads no number faults its channel.
pub proof fn stall_protection_drives_a_stopped_fan_hard(
    hw: HardwareView,
    primary: SensorView,
    c: CompiledView,
    t: TickView,
    states: Map<Text, StateView>,
    k: int,
)
    requires
        c.sound(),
        drawn(c.graph, guarded_preset(hw, primary).sketch),
        distinct(hw.channels),
        0 <= k < hw.channels.len(),
    ensures
        ({
            let done = ticked(c, t, states);
            let channel = hw.channels[k].id;
            let followed = interpolated(
                through((30, 25), (55, 40), (80, 100)),
                told(t, primary),
            );
            let rpm = speed_of(t, channel);
            let stopped = recalled(states, stalled_id(k as nat)).flag;
            if hw.channels[k].tachometer is None {
                gets(done, channel, followed)
            } else if !rpm.finite() {
                done.faulted.contains(channel) && !done.commands.dom().contains(channel)
            } else if rpm.value() < 150 * pow2(1074) || (stopped && rpm.value() <= 250 * pow2(
                1074,
            )) {
                gets(done, channel, whole(100))
            } else {
                gets(done, channel, followed)
            }
        }),
{
    let full = KindView::Constant { value: whole(100) };
    let s = followed_by_curve(primary).put("full"@, full, 1, 1);
    let g = c.graph;
    let channels = hw.channels;
    let n = channels.len();
    lemma_names();
    assert(s.edges =~= seq![
        EdgeView { from: port("temp"@, "out"@), to: port("curve"@, "in"@) },
    ]);
    assert(rows_open(s, 0)) by {
        assert forall|k: nat| k >= 0 implies !s.nodes.dom().contains(#[trigger] fan_id(k))
            && !s.nodes.dom().contains(stalled_id(k)) && !s.nodes.dom().contains(pick_id(k)) by {
            lemma_row_names(k);
        }
    }
    assert(fanless(s)) by {
        assert forall|k: nat| !s.nodes.dom().contains(#[trigger] fan_id(k)) by {
            lemma_row_names(k);
        }
    }
    lemma_all_guarded(s, channels, n);
    let whole_sketch = all_guarded(s, channels, n);
    let row = k as nat;
    assert(row_there(whole_sketch, channels, row));
    let b = choose|b: int| row_at(whole_sketch, channels[row as int], row, b);
    let fan = fan_id(row);
    let channel = channels[k].id;
    assert(g.nodes.dom().contains(fan));
    assert(drives_alone(g, fan, channel)) by {
        assert forall|other: Text| #[trigger]
            g.nodes.dom().contains(other) && g.nodes[other].kind == (KindView::FanOutput {
                channel,
            }) implies other == fan by {
            let j = choose|j: nat| j < n && other == #[trigger] fan_id(j);
            assert(row_there(whole_sketch, channels, j));
            let a = choose|a: int| row_at(whole_sketch, channels[j as int], j, a);
            if j < k {
                assert(channels[j as int].id != channels[k].id);
            } else if j > k {
                assert(channels[k].id != channels[j as int].id);
            }
        }
    }
    assert(s.nodes.dom().contains("curve"@) && s.nodes.dom().contains("temp"@)
        && s.nodes.dom().contains("full"@));
    assert(g.edges[0] == s.edges[0]);
    lemma_ports_found(g.nodes["curve"@].kind);
    lemma_fed_by(c, t, states, "curve"@, 0, 0);
    wires_carry_their_nodes_work(c, t, states, "curve"@);
    wires_carry_their_nodes_work(c, t, states, "temp"@);
    assert(through((30, 25), (55, 40), (80, 100)) =~= g.nodes["curve"@].kind->Curve_points);
    let target = port(fan, "duty"@);
    if channels[k].tachometer is None {
        lemma_feeding(g.edges, target, 0, b);
        channels_follow_their_output(c, t, states, fan, channel);
    } else {
        lemma_watched(c, t, states, whole_sketch, channels[k], row, b);
    }
}

proof fn lemma_hundred()
    ensures
        whole(100).finite(),
        whole(100).confined(whole(0), whole(100)) == whole(100),
{
    whole_is_exact(0);
    whole_is_exact(100);
    lemma_pow2_pos(1074);
    assert(0 * pow2(1074) == 0);
    order_is_by_value(whole(100), whole(0));
    order_is_by_value(whole(100), whole(100));
}

// --- What is offered -----------------------------------------------------------------------------

proof fn lemma_first_called(list: Seq<SensorView>, word: Text, i: int)
    requires
        0 <= i <= list.len(),
    ensures
        match first_called(list, word, i) {
            Some(s) => exists|k: int|
                i <= k < list.len() && #[trigger] list[k] == s && occurs(called(s), word) && forall|
                    j: int,
                |
                    i <= j < k ==> !occurs(called(#[trigger] list[j]), word),
            None => forall|j: int| i <= j < list.len() ==> !occurs(called(#[trigger] list[j]), word),
        },
    decreases list.len() - i,
{
    if i < list.len() {
        if occurs(called(list[i]), word) {
            assert(list[i] == list[i]);
        } else {
            lemma_first_called(list, word, i + 1);
            if let Some(s) = first_called(list, word, i + 1) {
                let k = choose|k: int|
                    i + 1 <= k < list.len() && #[trigger] list[k] == s && occurs(called(s), word)
                        && forall|j: int|
                        i + 1 <= j < k ==> !occurs(called(#[trigger] list[j]), word);
                assert(list[k] == s);
            }
        }
    }
}

/// What is offered for a machine: nothing without a channel; the fixed preset for any machine that
/// has one; the presets that follow a temperature only where there is one, and they follow the
/// likeliest; the paired one only where another temperature goes by the name of a GPU, with the
/// first that does; and stall protection only where a channel has a tachometer.
pub proof fn what_is_offered_fits_the_machine(hw: HardwareView)
    ensures
        ({
            let temps = temperatures_of(hw);
            let list = offered(hw);
            &&& list.len() == 0 <==> hw.channels.len() == 0
            &&& hw.channels.len() > 0 ==> list[0] == fixed_preset(hw)
            &&& hw.channels.len() > 0 && temps.len() == 0 ==> list.len() == 1
            &&& hw.channels.len() > 0 && temps.len() > 0 ==> {
                &&& list.contains(balanced_preset(hw, temps[0]))
                &&& list.contains(quiet_preset(hw, temps[0]))
                &&& (exists|k: int|
                    0 <= k < hw.channels.len() && (#[trigger] hw.channels[k]).tachometer is Some)
                    ==> list.contains(guarded_preset(hw, temps[0]))
                &&& forall|g: int|
                    #![trigger temps[g]]
                    0 <= g < temps.len() && temps[g].id != temps[0].id && occurs(
                        called(temps[g]),
                        "gpu"@,
                    ) && (forall|j: int|
                        0 <= j < g ==> !occurs(called(#[trigger] temps[j]), "gpu"@))
                        ==> list.contains(pair_preset(hw, temps[0], temps[g]))
            }
        }),
{
    let temps = temperatures_of(hw);
    let list = offered(hw);
    if hw.channels.len() > 0 && temps.len() > 0 {
        assert(list[1] == balanced_preset(hw, temps[0]));
        assert(list[2] == quiet_preset(hw, temps[0]));
        lemma_first_called(temps, "gpu"@, 0);
        if exists|k: int|
            0 <= k < hw.channels.len() && (#[trigger] hw.channels[k]).tachometer is Some {
            assert(list[list.len() - 1] == guarded_preset(hw, temps[0]));
        }
        assert forall|g: int|
            #![trigger temps[g]]
            0 <= g < temps.len() && temps[g].id != temps[0].id && occurs(called(temps[g]), "gpu"@)
                && (forall|j: int|
                0 <= j < g ==> !occurs(called(#[trigger] temps[j]), "gpu"@)) implies list.contains(
            pair_preset(hw, temps[0], temps[g]),
        ) by {
            let found = first_called(temps, "gpu"@, 0);
            assert(found is Some);
            let k = choose|k: int|
                0 <= k < temps.len() && #[trigger] temps[k] == found->0 && occurs(
                    called(found->0),
                    "gpu"@,
                ) && forall|j: int| 0 <= j < k ==> !occurs(called(#[trigger] temps[j]), "gpu"@);
            assert(k == g) by {
                if k < g {
                    assert(!occurs(called(temps[k]), "gpu"@));
                } else if g < k {
                    assert(!occurs(called(temps[g]), "gpu"@));
                }
            }
            assert(list[3] == pair_preset(hw, temps[0], temps[g]));
        }
    }
}

// --- Temperatures --------------------------------------------------------------------------------

/// Whether a sensor's name holds one of the words that speak of a processor, which are numbered
/// from the likeliest.
pub open spec fn named_for(s: SensorView, k: int) -> bool {
    occurs(
        called(s),
        if k == 0 {
            "package"@
        } else if k == 1 {
            "tctl"@
        } else if k == 2 {
            "tdie"@
        } else if k == 3 {
            "cpu"@
        } else {
            "core"@
        },
    )
}

/// Whether one sensor is as likely the processor's as another: where a word names the other, that
/// word or a likelier one names this.
pub open spec fn as_likely(a: SensorView, b: SensorView) -> bool {
    forall|k: int|
        0 <= k < 5 && #[trigger] named_for(b, k) ==> exists|m: int|
            0 <= m <= k && #[trigger] named_for(a, m)
}

/// Whether a list of positions picks the temperatures of one preference, as they are listed.
spec fn picks(sensors: Seq<SensorView>, level: nat, n: nat, at: Seq<int>) -> bool {
    &&& at.len() == preferred(sensors, level, n).len()
    &&& forall|i: int|
        0 <= i < at.len() ==> 0 <= #[trigger] at[i] < n && sensors[at[i]] == preferred(
            sensors,
            level,
            n,
        )[i] && sensors[at[i]].quantity == Quantity::Temperature && preference(sensors[at[i]])
            == level
    &&& forall|i: int, j: int| 0 <= i < j < at.len() ==> #[trigger] at[i] < #[trigger] at[j]
    &&& forall|k: int|
        0 <= k < n && (#[trigger] sensors[k]).quantity == Quantity::Temperature && preference(
            sensors[k],
        ) == level ==> at.contains(k)
}

proof fn lemma_picks(sensors: Seq<SensorView>, level: nat, n: nat) -> (at: Seq<int>)
    requires
        n <= sensors.len(),
    ensures
        picks(sensors, level, n, at),
    decreases n,
{
    if n == 0 {
        Seq::empty()
    } else {
        let m = (n - 1) as nat;
        let before = lemma_picks(sensors, level, m);
        let s = sensors[n - 1];
        if s.quantity == Quantity::Temperature && preference(s) == level {
            let at = before.push(n - 1);
            assert forall|k: int|
                0 <= k < n && (#[trigger] sensors[k]).quantity == Quantity::Temperature
                    && preference(sensors[k]) == level implies at.contains(k) by {
                if k < m {
                    let i = before.index_of(k);
                    assert(at[i] == k);
                } else {
                    assert(at[before.len() as int] == k);
                }
            }
            at
        } else {
            before
        }
    }
}

spec fn ranks(sensors: Seq<SensorView>, levels: nat, at: Seq<int>) -> bool {
    &&& at.len() == temperatures_to(sensors, levels).len()
    &&& forall|i: int|
        0 <= i < at.len() ==> 0 <= #[trigger] at[i] < sensors.len() && sensors[at[i]]
            == temperatures_to(sensors, levels)[i] && sensors[at[i]].quantity
            == Quantity::Temperature && preference(sensors[at[i]]) < levels
    &&& forall|i: int, j: int|
        0 <= i < j < at.len() ==> preference(sensors[#[trigger] at[i]]) < preference(
            sensors[#[trigger] at[j]],
        ) || (preference(sensors[at[i]]) == preference(sensors[at[j]]) && at[i] < at[j])
    &&& forall|k: int|
        0 <= k < sensors.len() && (#[trigger] sensors[k]).quantity == Quantity::Temperature
            && preference(sensors[k]) < levels ==> at.contains(k)
}

proof fn lemma_ranks(sensors: Seq<SensorView>, levels: nat) -> (at: Seq<int>)
    ensures
        ranks(sensors, levels, at),
    decreases levels,
{
    if levels == 0 {
        Seq::empty()
    } else {
        let level = (levels - 1) as nat;
        let before = lemma_ranks(sensors, level);
        let last = lemma_picks(sensors, level, sensors.len());
        let at = before + last;
        let list = temperatures_to(sensors, levels);
        assert forall|i: int| 0 <= i < at.len() implies 0 <= #[trigger] at[i] < sensors.len()
            && sensors[at[i]] == list[i] && sensors[at[i]].quantity == Quantity::Temperature
            && preference(sensors[at[i]]) < levels by {
            if i < before.len() {
                assert(at[i] == before[i]);
            } else {
                assert(at[i] == last[i - before.len()]);
            }
        }
        assert forall|i: int, j: int| 0 <= i < j < at.len() implies preference(
            sensors[#[trigger] at[i]],
        ) < preference(sensors[#[trigger] at[j]]) || (preference(sensors[at[i]]) == preference(
            sensors[at[j]],
        ) && at[i] < at[j]) by {
            if i < before.len() {
                assert(at[i] == before[i]);
            } else {
                assert(at[i] == last[i - before.len()]);
            }
            if j < before.len() {
                assert(at[j] == before[j]);
            } else {
                assert(at[j] == last[j - before.len()]);
            }
        }
        assert forall|k: int|
            0 <= k < sensors.len() && (#[trigger] sensors[k]).quantity == Quantity::Temperature
                && preference(sensors[k]) < levels implies at.contains(k) by {
            if preference(sensors[k]) < level {
                let i = before.index_of(k);
                assert(at[i] == k);
            } else {
                let i = last.index_of(k);
                assert(at[before.len() + i] == k);
            }
        }
        at
    }
}

/// Every temperature of a machine is listed once and nothing else is, the likelier it is the
/// processor's the earlier: where one is named by a word, every one before it is named by that
/// word or a likelier one. Among equally likely ones the machine's own order stays.
pub proof fn temperatures_are_listed_by_preference(hw: HardwareView) -> (at: Seq<int>)
    ensures
        at.len() == temperatures_of(hw).len(),
        forall|i: int|
            0 <= i < at.len() ==> 0 <= #[trigger] at[i] < hw.sensors.len() && hw.sensors[at[i]]
                == temperatures_of(hw)[i] && hw.sensors[at[i]].quantity == Quantity::Temperature,
        forall|i: int, j: int| 0 <= i < j < at.len() ==> #[trigger] at[i] != #[trigger] at[j],
        forall|k: int|
            0 <= k < hw.sensors.len() && (#[trigger] hw.sensors[k]).quantity
                == Quantity::Temperature ==> at.contains(k),
        forall|i: int, j: int|
            0 <= i < j < at.len() ==> as_likely(
                #[trigger] temperatures_of(hw)[i],
                #[trigger] temperatures_of(hw)[j],
            ),
        forall|i: int, j: int|
            0 <= i < j < at.len() && (forall|m: int|
                0 <= m < 5 ==> named_for(temperatures_of(hw)[i], m) == #[trigger] named_for(
                    temperatures_of(hw)[j],
                    m,
                )) ==> #[trigger] at[i] < #[trigger] at[j],
{
    let at = lemma_ranks(hw.sensors, 6);
    let list = temperatures_of(hw);
    assert forall|k: int|
        0 <= k < hw.sensors.len() && (#[trigger] hw.sensors[k]).quantity
            == Quantity::Temperature implies at.contains(k) by {
        assert(preference(hw.sensors[k]) < 6);
    }
    assert forall|i: int, j: int| 0 <= i < j < at.len() implies as_likely(
        #[trigger] list[i],
        #[trigger] list[j],
    ) by {
        assert(hw.sensors[at[i]] == list[i] && hw.sensors[at[j]] == list[j]);
        let p = preference(list[i]) as int;
        assert forall|k: int| 0 <= k < 5 && #[trigger] named_for(list[j], k) implies exists|m: int|
            0 <= m <= k && #[trigger] named_for(list[i], m) by {
            assert(preference(list[j]) <= k);
            assert(named_for(list[i], p));
        }
    }
    assert forall|i: int, j: int|
        0 <= i < j < at.len() && (forall|m: int|
            0 <= m < 5 ==> named_for(list[i], m) == #[trigger] named_for(list[j], m)) implies
        #[trigger] at[i] < #[trigger] at[j] by {
        assert(hw.sensors[at[i]] == list[i] && hw.sensors[at[j]] == list[j]);
        assert(named_for(list[i], 0) == named_for(list[j], 0));
        assert(named_for(list[i], 1) == named_for(list[j], 1));
        assert(named_for(list[i], 2) == named_for(list[j], 2));
        assert(named_for(list[i], 3) == named_for(list[j], 3));
        assert(named_for(list[i], 4) == named_for(list[j], 4));
        assert(preference(list[i]) == preference(list[j]));
    }
    at
}

} // verus!
