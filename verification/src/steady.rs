//! When every channel is commanded: graphs whose every node can do its part.
use crate::eval::{
    evaluated, first, maximum_is_the_hottest, number, sensible, sensible_curves_give_numbers,
    smallest, sourced_by, StateView, TickView,
};
use crate::graph::{lemma_port_named, GraphView, PortKey};
use crate::guarantees::{accounted, every_channel_is_accounted_for};
use crate::node::{ports, KindView, MixMode};
use crate::scalar::{whole_is_exact, Scalar};
use crate::text::Text;
use crate::tick::{
    arriving, evaluate_node, evaluated_first, gathered, out_type, put, recalled, sourced_first,
    take_commands, ticked, Progress,
};
use crate::units::{Quantity, Value};
use crate::validate::{missing, missing_at, problems, scanned, CompiledView};
use crate::wiring::lemma_ports_found;
use vstd::prelude::*;

verus! {

/// Whether a connection starts at a port.
pub open spec fn read(g: GraphView, r: PortKey) -> bool {
    exists|i: int| 0 <= i < g.edges.len() && (#[trigger] g.edges[i]).from == r
}

/// Whether a sensor has a reading of a quantity, and a number at that.
pub open spec fn reads(t: TickView, sensor: Text, quantity: Quantity) -> bool {
    &&& t.sensors.dom().contains(sensor)
    &&& t.sensors[sensor].quantity == quantity
    &&& t.sensors[sensor].scalar.finite()
}

/// Whether a fan's speed is known.
pub open spec fn turns(t: TickView, channel: Text) -> bool {
    t.tachometers.dom().contains(channel) && reads(t, t.tachometers[channel], Quantity::Rpm)
}

/// Whether a node that remembers no value yet turns numbers into a number on this tick. A
/// sensor has to read, a curve to be sensible, and a fan whose speed is used to be seen
/// turning. Nodes whose arithmetic can run past the largest number are left out, and so is a
/// delay, which has nothing to say at first.
pub open spec fn able(g: GraphView, t: TickView, id: Text) -> bool {
    match g.nodes[id].kind {
        KindView::Sensor { sensor_id, quantity } => reads(t, sensor_id, quantity),
        KindView::Constant { value } => value.finite(),
        KindView::Curve { points } => sensible(points),
        KindView::Mix { mode } => mode == MixMode::Max || mode == MixMode::Min,
        KindView::Clamp { min, max } => min.finite() && max.finite(),
        KindView::Reinterpret { .. }
        | KindView::RateLimit { .. }
        | KindView::LowPass { .. }
        | KindView::Hold { .. }
        | KindView::Comparator { .. }
        | KindView::Select => true,
        KindView::FanOutput { channel } => read(g, PortKey { node: id, port: "rpm"@ }) ==> turns(
            t,
            channel,
        ),
        _ => false,
    }
}

// --- What validation leaves ------------------------------------------------------------------

pub proof fn lemma_edges_land(g: GraphView, n: nat)
    requires
        n <= g.edges.len(),
        scanned(g, n).errors.len() == 0,
    ensures
        forall|i: int|
            0 <= i < n ==> g.output((#[trigger] g.edges[i]).from) is Some && g.input(
                g.edges[i].to,
            ) is Some,
    decreases n,
{
    if n > 0 {
        lemma_edges_land(g, (n - 1) as nat);
    }
}

proof fn lemma_none_missing_at(g: GraphView, id: Text, n: nat, k: int)
    requires
        0 <= k < n <= ports(g.nodes[id].kind).inputs.len(),
        missing_at(g, id, ports(g.nodes[id].kind).inputs, n).len() == 0,
        ports(g.nodes[id].kind).inputs[k].required,
    ensures
        g.connected(PortKey { node: id, port: ports(g.nodes[id].kind).inputs[k].key }),
    decreases n,
{
    if k < n - 1 {
        lemma_none_missing_at(g, id, (n - 1) as nat, k);
    }
}

proof fn lemma_none_missing(g: GraphView, n: nat, i: int)
    requires
        0 <= i < n <= g.ids.len(),
        missing(g, n).len() == 0,
    ensures
        ({
            let inputs = ports(g.nodes[g.ids[i]].kind).inputs;
            missing_at(g, g.ids[i], inputs, inputs.len()).len() == 0
        }),
    decreases n,
{
    if i < n - 1 {
        lemma_none_missing(g, (n - 1) as nat, i);
    }
}

/// Every input of every node is connected.
pub proof fn lemma_connected(g: GraphView, id: Text, k: int)
    requires
        g.wf(),
        problems(g).len() == 0,
        g.nodes.dom().contains(id),
        0 <= k < ports(g.nodes[id].kind).inputs.len(),
    ensures
        g.connected(PortKey { node: id, port: ports(g.nodes[id].kind).inputs[k].key }),
{
    assert(g.ids.contains(id));
    let i = g.ids.index_of(id);
    assert(g.ids[i] == id);
    lemma_none_missing(g, g.ids.len(), i);
    lemma_none_missing_at(g, id, ports(g.nodes[id].kind).inputs.len(), k);
}

/// The one output of a node.
pub proof fn lemma_output(g: GraphView, r: PortKey)
    requires
        g.output(r) is Some,
    ensures
        g.nodes.dom().contains(r.node),
        g.nodes[r.node].kind is FanOutput ==> r.port == "rpm"@ && g.delayed(r),
        !(g.nodes[r.node].kind is FanOutput) ==> r.port == "out"@,
        g.delayed(r) ==> g.nodes[r.node].kind is FanOutput || g.nodes[r.node].kind is Delay,
{
    let kind = g.nodes[r.node].kind;
    lemma_port_named(ports(kind).outputs, r.port);
    lemma_ports_found(kind);
    assert(ports(kind).outputs.len() == 1);
}

// --- One tick --------------------------------------------------------------------------------

/// Whether a tick that has evaluated the first `n` nodes has only numbers on its wires.
spec fn sure(c: CompiledView, states: Map<Text, StateView>, p: Progress, n: nat) -> bool {
    &&& p.faulted == Set::<Text>::empty()
    &&& forall|r: PortKey| #[trigger]
        p.outputs.dom().contains(r) && read(c.graph, r) ==> p.outputs[r].trustworthy()
    &&& forall|i: int|
        0 <= i < n && !(c.graph.nodes[#[trigger] c.order[i]].kind is FanOutput)
            ==> p.outputs.dom().contains(PortKey { node: c.order[i], port: "out"@ })
    &&& forall|id: Text| #[trigger]
        c.graph.nodes.dom().contains(id) && c.graph.nodes[id].kind is FanOutput
            ==> p.outputs.dom().contains(PortKey { node: id, port: "rpm"@ })
    &&& forall|i: int|
        n <= i < c.order.len() ==> recalled(p.states, #[trigger] c.order[i]) == recalled(
            states,
            c.order[i],
        )
}

pub proof fn lemma_put_one(
    outputs: Map<PortKey, Value>,
    id: Text,
    values: Seq<(Text, Value)>,
)
    ensures
        values.len() == 0 ==> put(outputs, id, values) == outputs,
        values.len() == 1 ==> put(outputs, id, values) == outputs.insert(
            PortKey { node: id, port: values[0].0 },
            values[0].1,
        ),
{
    if values.len() == 1 {
        assert(values.drop_last().len() == 0);
        assert(put(outputs, id, values.drop_last()) == outputs);
    }
}

proof fn lemma_sourced(c: CompiledView, t: TickView, states: Map<Text, StateView>, n: nat)
    requires
        c.sound(),
        n <= c.graph.ids.len(),
        forall|id: Text| #[trigger] c.graph.nodes.dom().contains(id) ==> able(c.graph, t, id),
    ensures
        ({
            let p = sourced_first(c, t, states, n);
            &&& p.faulted == Set::<Text>::empty()
            &&& forall|r: PortKey| #[trigger]
                p.outputs.dom().contains(r) && read(c.graph, r) ==> p.outputs[r].trustworthy()
            &&& forall|i: int|
                0 <= i < n && c.graph.nodes[#[trigger] c.graph.ids[i]].kind is FanOutput
                    ==> p.outputs.dom().contains(PortKey { node: c.graph.ids[i], port: "rpm"@ })
            &&& forall|id: Text| #[trigger] recalled(p.states, id) == recalled(states, id)
        }),
    decreases n,
{
    if n > 0 {
        let m = (n - 1) as nat;
        lemma_sourced(c, t, states, m);
        let before = sourced_first(c, t, states, m);
        let id = c.graph.ids[n - 1];
        assert(c.graph.nodes.dom().contains(id));
        assert(able(c.graph, t, id));
        lemma_put_one(
            before.outputs,
            id,
            sourced_by(c.graph.nodes[id].kind, t, recalled(before.states, id), out_type(c, id)),
        );
        let after = sourced_first(c, t, states, n);
        assert forall|x: Text| #[trigger] recalled(after.states, x) == recalled(states, x) by {
            assert(recalled(before.states, x) == recalled(states, x));
            assert(recalled(before.states, id) == recalled(states, id));
        }
    }
}

proof fn lemma_arriving(g: GraphView, outputs: Map<PortKey, Value>, target: PortKey, n: nat)
    requires
        n <= g.edges.len(),
        forall|i: int|
            0 <= i < n && (#[trigger] g.edges[i]).to == target ==> outputs.dom().contains(
                g.edges[i].from,
            ) && outputs[g.edges[i].from].trustworthy(),
    ensures
        forall|k: int|
            0 <= k < arriving(g, outputs, target, n).len() ==> (#[trigger] arriving(
                g,
                outputs,
                target,
                n,
            )[k]).trustworthy(),
        (exists|i: int| 0 <= i < n && (#[trigger] g.edges[i]).to == target) ==> arriving(
            g,
            outputs,
            target,
            n,
        ).len() > 0,
    decreases n,
{
    if n > 0 {
        lemma_arriving(g, outputs, target, (n - 1) as nat);
        let before = arriving(g, outputs, target, (n - 1) as nat);
        let after = arriving(g, outputs, target, n);
        assert(g.edges[n - 1].to == target ==> outputs[g.edges[n - 1].from].trustworthy());
        assert forall|k: int| 0 <= k < after.len() implies (#[trigger] after[k]).trustworthy() by {
            if k < before.len() {
                assert(after[k] == before[k]);
            }
        }
    }
}

/// What arrives at the node whose turn it is are numbers, on every input.
proof fn lemma_fed(c: CompiledView, states: Map<Text, StateView>, p: Progress, n: nat, k: int)
    requires
        c.sound(),
        n < c.order.len(),
        sure(c, states, p, n),
        forall|id: Text| #[trigger]
            c.graph.nodes.dom().contains(id) ==> !(c.graph.nodes[id].kind is Delay),
        0 <= k < ports(c.graph.nodes[c.order[n as int]].kind).inputs.len(),
    ensures
        ({
            let id = c.order[n as int];
            let key = ports(c.graph.nodes[id].kind).inputs[k].key;
            let inputs = gathered(c.graph, p.outputs, id);
            &&& inputs.dom().contains(key)
            &&& inputs[key].len() > 0
            &&& forall|j: int| 0 <= j < inputs[key].len() ==> (#[trigger] inputs[key][j]).trustworthy()
        }),
{
    let g = c.graph;
    let id = c.order[n as int];
    assert(c.order.contains(id));
    assert(g.nodes.dom().contains(id));
    let key = ports(g.nodes[id].kind).inputs[k].key;
    let target = PortKey { node: id, port: key };
    lemma_connected(g, id, k);
    lemma_edges_land(g, g.edges.len());
    assert forall|i: int| 0 <= i < g.edges.len() && (#[trigger] g.edges[i]).to
        == target implies p.outputs.dom().contains(g.edges[i].from)
        && p.outputs[g.edges[i].from].trustworthy() by {
        let from = g.edges[i].from;
        lemma_output(g, from);
        assert(read(g, from));
        if !(g.nodes[from.node].kind is FanOutput) {
            assert(!g.delayed(from));
            let j = c.order.index_of(from.node);
            assert(c.order.contains(from.node));
            assert(c.order[j] == from.node);
            assert(c.order.index_of(id) == n) by {
                let m = c.order.index_of(id);
                assert(c.order[m] == id);
            }
            assert(j < n);
        }
    }
    lemma_arriving(g, p.outputs, target, g.edges.len());
}

proof fn lemma_smallest(values: Seq<Scalar>)
    requires
        values.len() > 0,
        forall|i: int| 0 <= i < values.len() ==> (#[trigger] values[i]).finite(),
    ensures
        smallest(values).finite(),
    decreases values.len(),
{
    if values.len() > 1 {
        let rest = values.drop_last();
        assert forall|i: int| 0 <= i < rest.len() implies (#[trigger] rest[i]).finite() by {
            assert(rest[i] == values[i]);
        }
        lemma_smallest(rest);
        assert(values[values.len() - 1].finite());
    }
}

/// A node that is able makes a number of its inputs, or commands its channel.
proof fn lemma_able(c: CompiledView, t: TickView, states: Map<Text, StateView>, p: Progress, n: nat)
    requires
        c.sound(),
        n < c.order.len(),
        sure(c, states, p, n),
        forall|id: Text| #[trigger] c.graph.nodes.dom().contains(id) ==> able(c.graph, t, id),
        recalled(states, c.order[n as int]).last is None,
    ensures
        ({
            let id = c.order[n as int];
            let kind = c.graph.nodes[id].kind;
            let made = evaluated(
                kind,
                gathered(c.graph, p.outputs, id),
                t,
                recalled(p.states, id),
                out_type(c, id),
            ).0;
            &&& made.faults.len() == 0
            &&& kind is FanOutput ==> made.outputs.len() == 0 && made.commands.len() == 1
                && made.commands[0].1.trustworthy()
            &&& !(kind is FanOutput) ==> made.commands.len() == 0 && made.outputs.len() == 1
                && made.outputs[0].0 == "out"@ && made.outputs[0].1.trustworthy()
        }),
{
    let id = c.order[n as int];
    let kind = c.graph.nodes[id].kind;
    let inputs = gathered(c.graph, p.outputs, id);
    assert(c.order.contains(id));
    assert(c.graph.nodes.dom().contains(id));
    assert(able(c.graph, t, id));
    assert forall|x: Text| #[trigger] c.graph.nodes.dom().contains(x) implies !(
    c.graph.nodes[x].kind is Delay) by {
        assert(able(c.graph, t, x));
    }
    lemma_ports_found(kind);
    whole_is_exact(0);
    whole_is_exact(1);
    whole_is_exact(100);
    if ports(kind).inputs.len() > 0 {
        lemma_fed(c, states, p, n, 0);
        let key = ports(kind).inputs[0].key;
        assert(inputs[key][0].trustworthy());
        assert(first(inputs, key) == Some(inputs[key][0]));
        assert(number(inputs, key).finite());
    }
    match kind {
        KindView::Curve { points } => {
            sensible_curves_give_numbers(points, number(inputs, "in"@));
        },
        KindView::Mix { mode } => {
            let values = inputs["in"@].map_values(|v: Value| v.scalar);
            assert forall|i: int| 0 <= i < values.len() implies (#[trigger] values[i]).finite() by {
                assert(inputs["in"@][i].trustworthy());
            }
            maximum_is_the_hottest(values);
            lemma_smallest(values);
        },
        KindView::Select => {
            lemma_fed(c, states, p, n, 1);
            lemma_fed(c, states, p, n, 2);
            assert(inputs["if_true"@][0].trustworthy());
            assert(inputs["if_false"@][0].trustworthy());
        },
        _ => {},
    }
}

proof fn lemma_sure(c: CompiledView, t: TickView, states: Map<Text, StateView>, n: nat)
    requires
        c.sound(),
        n <= c.order.len(),
        forall|id: Text| #[trigger]
            c.graph.nodes.dom().contains(id) ==> able(c.graph, t, id) && recalled(
                states,
                id,
            ).last is None,
    ensures
        sure(c, states, evaluated_first(c, t, states, n), n),
    decreases n,
{
    let g = c.graph;
    if n == 0 {
        lemma_sourced(c, t, states, g.ids.len());
        let p = evaluated_first(c, t, states, 0);
        assert forall|id: Text| #[trigger]
            g.nodes.dom().contains(id) && g.nodes[id].kind is FanOutput implies p.outputs.dom().contains(
            PortKey { node: id, port: "rpm"@ },
        ) by {
            assert(g.ids.contains(id));
            let i = g.ids.index_of(id);
            assert(g.ids[i] == id);
        }
    } else {
        let m = (n - 1) as nat;
        lemma_sure(c, t, states, m);
        let before = evaluated_first(c, t, states, m);
        let after = evaluated_first(c, t, states, n);
        let id = c.order[m as int];
        assert(c.order.contains(id));
        assert(g.nodes.dom().contains(id));
        lemma_able(c, t, states, before, m);
        let kind = g.nodes[id].kind;
        let made = evaluated(
            kind,
            gathered(g, before.outputs, id),
            t,
            recalled(before.states, id),
            out_type(c, id),
        ).0;
        lemma_put_one(before.outputs, id, made.outputs);
        if made.commands.len() == 1 {
            assert(made.commands.drop_last().len() == 0);
            assert(take_commands(before, made.commands.drop_last()) == before);
        }
        assert(made.faults.to_set() =~= Set::<Text>::empty());
        assert(after == evaluate_node(c, t, before, id));
        assert(after.faulted =~= Set::<Text>::empty());
        assert forall|i: int| n <= i < c.order.len() implies recalled(
            after.states,
            #[trigger] c.order[i],
        ) == recalled(states, c.order[i]) by {
            assert(c.order[i] != id);
        }
        assert forall|i: int| 0 <= i < n && !(g.nodes[#[trigger] c.order[i]].kind is FanOutput)
            implies after.outputs.dom().contains(PortKey { node: c.order[i], port: "out"@ }) by {
            if i < m {
                assert(before.outputs.dom().contains(PortKey { node: c.order[i], port: "out"@ }));
            }
        }
    }
}

/// A compiled graph whose every node can do its part, and remembers no value yet, commands
/// every channel it drives on that tick, and faults none.
pub proof fn able_graphs_command_every_channel(
    c: CompiledView,
    t: TickView,
    states: Map<Text, StateView>,
)
    requires
        c.sound(),
        forall|id: Text| #[trigger]
            c.graph.nodes.dom().contains(id) ==> able(c.graph, t, id) && recalled(
                states,
                id,
            ).last is None,
    ensures
        ticked(c, t, states).faulted == Set::<Text>::empty(),
        forall|channel: Text| #[trigger]
            c.graph.drives(channel) ==> ticked(c, t, states).commands.dom().contains(channel),
{
    lemma_sure(c, t, states, c.order.len());
    assert forall|channel: Text| #[trigger]
        c.graph.drives(channel) implies ticked(c, t, states).commands.dom().contains(channel) by {
        every_channel_is_accounted_for(c, t, states, channel);
        assert(accounted(ticked(c, t, states), channel));
    }
}

} // verus!
