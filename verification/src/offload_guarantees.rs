//! What a reduction promises: the fan it describes is the fan that was configured.
use crate::eval::{first, interpolated, left_to_right, settled, standing, StateView, TickView};
use crate::graph::{GraphView, PortKey};
use crate::node::KindView;
use crate::offload::{
    feeding, folded, folded_duty, folding_is_exact_outside_the_curve, lemma_sorted_mapped,
    lemma_standing_mapped, mapped, mapped_points, outputs_naming, reduced, source_of,
    ReductionView,
};
use crate::scalar::{nan, Scalar};
use crate::steady::{lemma_edges_land, lemma_output};
use crate::text::Text;
use crate::tick::{gathered, out_type, ticked};
use crate::units::{Quantity, Value};
use crate::validate::CompiledView;
use crate::wires::{
    channels_follow_their_output, drives_alone, inputs_carry_what_feeds_them,
    wires_carry_their_nodes_work,
};
use crate::wiring::lemma_ports_found;
use vstd::prelude::*;

verus! {

/// What a sensor of a quantity reads on a tick.
pub open spec fn read_from(t: TickView, sensor: Text, quantity: Quantity) -> Scalar {
    if t.sensors.dom().contains(sensor) && t.sensors[sensor].quantity == quantity {
        t.sensors[sensor].scalar
    } else {
        nan()
    }
}

/// The duty that a reduction describes on a tick.
pub open spec fn described(r: ReductionView, t: TickView) -> Scalar {
    match r {
        ReductionView::Fixed { duty } => duty,
        ReductionView::Curve { sensor_id, quantity, points } => interpolated(
            points,
            read_from(t, sensor_id, quantity),
        ),
    }
}

/// Whether a curve is flat where its sensor reads, and not on a step; or nothing is read at all.
/// Between its points a step that is folded in rounds and bounds otherwise than one that
/// follows.
pub open spec fn flat_at(r: ReductionView, t: TickView) -> bool {
    match r {
        ReductionView::Fixed { .. } => true,
        ReductionView::Curve { sensor_id, quantity, points } => {
            let x = read_from(t, sensor_id, quantity);
            let sorted = left_to_right(points);
            points.len() == 0 || !x.finite() || (standing(sorted, x, points.len()).len() <= 1 && (
            x.at_most(sorted[0].x) || sorted.last().x.at_most(x)))
        },
    }
}

/// Whether every constant of a graph is within the range of what it stands for.
pub open spec fn constants_in_range(c: CompiledView) -> bool {
    forall|id: Text| #[trigger]
        c.graph.nodes.dom().contains(id) ==> (c.graph.nodes[id].kind matches KindView::Constant {
            value,
        } ==> settled(out_type(c, id)).clamped(value) == value)
}

/// Folding a node into a reduction is applying it to what the reduction describes.
proof fn lemma_folding(kind: KindView, r: ReductionView, t: TickView)
    requires
        kind is Clamp || kind is Offset || kind is Scale,
        flat_at(mapped(r, |d: Scalar| folded_duty(kind, d)), t),
    ensures
        flat_at(r, t),
        described(mapped(r, |d: Scalar| folded_duty(kind, d)), t) == folded_duty(
            kind,
            described(r, t),
        ),
{
    let f = |d: Scalar| folded_duty(kind, d);
    if let ReductionView::Curve { sensor_id, quantity, points } = r {
        let x = read_from(t, sensor_id, quantity);
        let m = mapped_points(points, f);
        assert(mapped(r, f) == (ReductionView::Curve { sensor_id, quantity, points: m }));
        if points.len() == 0 || !x.finite() {
            match kind {
                KindView::Offset { delta } => {
                    reveal(Scalar::plus);
                },
                KindView::Scale { factor } => {
                    reveal(Scalar::times);
                },
                _ => {},
            }
        } else {
            lemma_sorted_mapped(points, f);
            lemma_standing_mapped(left_to_right(points), f, x, points.len());
            folding_is_exact_outside_the_curve(points, f, x);
        }
    }
}

/// What feeds a node's input, and what stands there once a tick is done.
pub proof fn lemma_source(
    c: CompiledView,
    t: TickView,
    states: Map<Text, StateView>,
    id: Text,
    key: Text,
    source: Text,
)
    requires
        c.sound(),
        c.graph.nodes.dom().contains(id),
        ({
            let inputs = crate::node::ports(c.graph.nodes[id].kind).inputs;
            inputs.len() == 1 && inputs[0].key == key
        }),
        source_of(c.graph, id, key) == Some(source),
        !(c.graph.nodes[source].kind is FanOutput),
    ensures
        ({
            let outputs = ticked(c, t, states).outputs;
            let r = PortKey { node: source, port: "out"@ };
            &&& feeding(c.graph.edges, PortKey { node: id, port: key }, 0) == Some(r)
            &&& first(gathered(c.graph, outputs, id), key) == Some(outputs[r])
        }),
{
    let g = c.graph;
    let target = PortKey { node: id, port: key };
    inputs_carry_what_feeds_them(c, t, states, id, 0);
    lemma_edges_land(g, g.edges.len());
    lemma_feeding_edge(g, target, 0);
    let k = choose|k: int|
        0 <= k < g.edges.len() && feeding(g.edges, target, 0) == Some(
            (#[trigger] g.edges[k]).from,
        );
    lemma_output(g, g.edges[k].from);
}

proof fn lemma_feeding_edge(g: GraphView, target: PortKey, i: int)
    requires
        0 <= i,
        feeding(g.edges, target, i) is Some,
    ensures
        exists|k: int|
            0 <= k < g.edges.len() && feeding(g.edges, target, i) == Some(
                (#[trigger] g.edges[k]).from,
            ),
    decreases g.edges.len() - i,
{
    if i < g.edges.len() {
        if g.edges[i].to == target {
            assert(feeding(g.edges, target, i) == Some(g.edges[i].from));
        } else {
            lemma_feeding_edge(g, target, i + 1);
        }
    }
}

/// What the walk back along a duty path comes to is what stands on its wire.
proof fn lemma_path(c: CompiledView, t: TickView, states: Map<Text, StateView>, id: Text, fuel: nat)
    requires
        c.sound(),
        constants_in_range(c),
        folded(c.graph, id, fuel).0 is Some,
        c.graph.nodes[id].kind is Curve || flat_at(folded(c.graph, id, fuel).0->0, t),
    ensures
        c.graph.nodes.dom().contains(id),
        !(c.graph.nodes[id].kind is FanOutput),
        ticked(c, t, states).outputs[PortKey { node: id, port: "out"@ }].scalar == described(
            folded(c.graph, id, fuel).0->0,
            t,
        ),
    decreases fuel,
{
    let g = c.graph;
    let kind = g.nodes[id].kind;
    let outputs = ticked(c, t, states).outputs;
    lemma_ports_found(kind);
    wires_carry_their_nodes_work(c, t, states, id);
    match kind {
        KindView::Constant { value } => {
            assert(settled(out_type(c, id)).clamped(value) == value);
        },
        KindView::Curve { points } => {
            let source = source_of(g, id, "in"@)->0;
            lemma_source(c, t, states, id, "in"@, source);
            lemma_ports_found(g.nodes[source].kind);
            wires_carry_their_nodes_work(c, t, states, source);
        },
        _ => {
            let source = source_of(g, id, "in"@)->0;
            let inner = folded(g, source, (fuel - 1) as nat).0->0;
            lemma_folding(kind, inner, t);
            lemma_path(c, t, states, source, (fuel - 1) as nat);
            lemma_source(c, t, states, id, "in"@, source);
        },
    }
}

pub proof fn lemma_naming(g: GraphView, channel: Text, n: nat)
    requires
        g.wf(),
        n <= g.ids.len(),
    ensures
        forall|k: int|
            0 <= k < outputs_naming(g, channel, n).len() ==> g.nodes.dom().contains(
                #[trigger] outputs_naming(g, channel, n)[k],
            ) && g.nodes[outputs_naming(g, channel, n)[k]].kind == (KindView::FanOutput { channel }),
        forall|i: int|
            0 <= i < n && g.nodes[#[trigger] g.ids[i]].kind == (KindView::FanOutput { channel })
                ==> outputs_naming(g, channel, n).contains(g.ids[i]),
    decreases n,
{
    if n > 0 {
        lemma_naming(g, channel, (n - 1) as nat);
        let before = outputs_naming(g, channel, (n - 1) as nat);
        let after = outputs_naming(g, channel, n);
        assert forall|i: int|
            0 <= i < n && g.nodes[#[trigger] g.ids[i]].kind == (KindView::FanOutput {
                channel,
            }) implies after.contains(g.ids[i]) by {
            if i < n - 1 {
                assert(before.contains(g.ids[i]));
                let k = before.index_of(g.ids[i]);
                assert(after[k] == g.ids[i]);
            } else {
                assert(after[after.len() - 1] == g.ids[i]);
            }
        }
        assert forall|k: int| 0 <= k < after.len() implies g.nodes.dom().contains(
            #[trigger] after[k],
        ) && g.nodes[after[k]].kind == (KindView::FanOutput { channel }) by {
            if k < before.len() {
                assert(after[k] == before[k]);
            }
        }
    }
}

/// A reduction describes the fan that was configured: on every tick, the channel is commanded
/// the duty that its reduction describes, brought into range, or faulted where that is no
/// number. Where the path goes straight from its curve to the output this holds of every
/// reading; where a step was folded into the curve, of the readings at which the curve is flat.
/// [`a_folded_reduction_describes_what_is_commanded`] speaks of the others.
///
/// [`a_folded_reduction_describes_what_is_commanded`]: crate::offload_rounding::a_folded_reduction_describes_what_is_commanded
pub proof fn a_reduction_describes_what_is_commanded(
    c: CompiledView,
    t: TickView,
    states: Map<Text, StateView>,
    channel: Text,
)
    requires
        c.sound(),
        constants_in_range(c),
        reduced(c.graph, channel) is Ok,
        ({
            let fan = outputs_naming(c.graph, channel, c.graph.ids.len())[0];
            c.graph.nodes[source_of(c.graph, fan, "duty"@)->0].kind is Curve
        }) || flat_at(reduced(c.graph, channel)->Ok_0, t),
    ensures
        ({
            let done = ticked(c, t, states);
            let duty = described(reduced(c.graph, channel)->Ok_0, t);
            if duty.finite() {
                &&& done.commands.dom().contains(channel)
                &&& done.commands[channel] == (Value {
                    quantity: Quantity::Duty,
                    scalar: Quantity::Duty.clamped(duty),
                })
                &&& !done.faulted.contains(channel)
            } else {
                done.faulted.contains(channel) && !done.commands.dom().contains(channel)
            }
        }),
{
    let g = c.graph;
    let outputs = outputs_naming(g, channel, g.ids.len());
    let fan = outputs[0];
    let source = source_of(g, fan, "duty"@)->0;
    lemma_naming(g, channel, g.ids.len());
    assert(g.nodes.dom().contains(outputs[0]));
    assert(drives_alone(g, fan, channel)) by {
        assert forall|other: Text| #[trigger]
            g.nodes.dom().contains(other) && g.nodes[other].kind == (KindView::FanOutput {
                channel,
            }) implies other == fan by {
            assert(g.ids.contains(other));
            let i = g.ids.index_of(other);
            assert(g.ids[i] == other);
            assert(outputs.contains(other));
        }
    }
    lemma_path(c, t, states, source, g.ids.len());
    lemma_ports_found(g.nodes[fan].kind);
    lemma_source(c, t, states, fan, "duty"@, source);
    channels_follow_their_output(c, t, states, fan, channel);
}

} // verus!
