//! What the wires carry once a tick is done: each node's own work on what arrives at it.
use crate::eval::{commanded, evaluated, first, sourced_by, InputsView, StateView, TickView};
use crate::graph::{GraphView, PortKey};
use crate::guarantees::clamped_is_duty;
use crate::node::{ports, KindView};
use crate::offload::feeding;
use crate::steady::{lemma_connected, lemma_edges_land, lemma_output, lemma_put_one};
use crate::scalar::{nan, Scalar};
use crate::text::Text;
use crate::tick::{
    arriving, evaluate_node, evaluated_first, gathered, out_type, recalled, sourced_first,
    take_commands, ticked, Progress,
};
use crate::units::{Quantity, Value};
use crate::validate::CompiledView;
use vstd::prelude::*;

verus! {

/// Whether a node speaks before the others do.
pub open spec fn speaks_first(kind: KindView) -> bool {
    kind is FanOutput || kind is Delay
}

/// Whether two sets of outputs agree on a port.
spec fn agree_on(a: Map<PortKey, Value>, b: Map<PortKey, Value>, r: PortKey) -> bool {
    a.dom().contains(r) == b.dom().contains(r) && (a.dom().contains(r) ==> a[r] == b[r])
}

/// What a node makes: one value on its `out` port, or nothing where it has spoken already.
proof fn lemma_made(
    kind: KindView,
    inputs: InputsView,
    t: TickView,
    state: StateView,
    q: Option<Quantity>,
)
    ensures
        ({
            let made = evaluated(kind, inputs, t, state, q).0;
            &&& speaks_first(kind) ==> made.outputs.len() == 0
            &&& !speaks_first(kind) ==> made.outputs.len() == 1 && made.outputs[0].0 == "out"@
                && made.commands.len() == 0 && made.faults.len() == 0
            &&& kind is Delay ==> made.commands.len() == 0 && made.faults.len() == 0
        }),
{
}

/// A step leaves alone the ports of every other node, and those of a node that has spoken.
proof fn lemma_step(c: CompiledView, t: TickView, p: Progress, id: Text, r: PortKey)
    requires
        r.node != id || speaks_first(c.graph.nodes[id].kind),
    ensures
        agree_on(p.outputs, evaluate_node(c, t, p, id).outputs, r),
{
    let kind = c.graph.nodes[id].kind;
    let inputs = gathered(c.graph, p.outputs, id);
    let state = recalled(p.states, id);
    lemma_made(kind, inputs, t, state, out_type(c, id));
    lemma_put_one(
        p.outputs,
        id,
        evaluated(kind, inputs, t, state, out_type(c, id)).0.outputs,
    );
}

/// Once a node has had its turn, or has spoken, its ports stay as they are.
proof fn lemma_kept(c: CompiledView, t: TickView, states: Map<Text, StateView>, n: nat, r: PortKey)
    requires
        c.sound(),
        n <= c.order.len(),
        c.graph.nodes.dom().contains(r.node),
        c.order.index_of(r.node) < n || speaks_first(c.graph.nodes[r.node].kind),
    ensures
        agree_on(evaluated_first(c, t, states, n).outputs, ticked(c, t, states).outputs, r),
    decreases c.order.len() - n,
{
    if n < c.order.len() {
        let id = c.order[n as int];
        assert(c.order.contains(r.node));
        let j = c.order.index_of(r.node);
        assert(c.order[j] == r.node);
        lemma_step(c, t, evaluated_first(c, t, states, n), id, r);
        lemma_kept(c, t, states, n + 1, r);
    }
}

/// A node remembers until its turn what it remembered before.
proof fn lemma_recalled(c: CompiledView, t: TickView, states: Map<Text, StateView>, n: nat, id: Text)
    requires
        c.sound(),
        n <= c.order.len(),
        forall|i: int| 0 <= i < n ==> #[trigger] c.order[i] != id,
    ensures
        recalled(evaluated_first(c, t, states, n).states, id) == recalled(states, id),
    decreases n,
{
    if n == 0 {
        lemma_recalled_sourced(c, t, states, c.graph.ids.len(), id);
    } else {
        lemma_recalled(c, t, states, (n - 1) as nat, id);
        assert(c.order[n - 1] != id);
    }
}

proof fn lemma_recalled_sourced(
    c: CompiledView,
    t: TickView,
    states: Map<Text, StateView>,
    n: nat,
    id: Text,
)
    ensures
        recalled(sourced_first(c, t, states, n).states, id) == recalled(states, id),
    decreases n,
{
    if n > 0 {
        lemma_recalled_sourced(c, t, states, (n - 1) as nat, id);
    }
}

/// What arrives depends on the ports that lead there alone.
proof fn lemma_arriving_agrees(
    g: GraphView,
    a: Map<PortKey, Value>,
    b: Map<PortKey, Value>,
    target: PortKey,
    n: nat,
)
    requires
        n <= g.edges.len(),
        forall|i: int|
            0 <= i < n && (#[trigger] g.edges[i]).to == target ==> agree_on(a, b, g.edges[i].from),
    ensures
        arriving(g, a, target, n) == arriving(g, b, target, n),
    decreases n,
{
    if n > 0 {
        lemma_arriving_agrees(g, a, b, target, (n - 1) as nat);
        assert(g.edges[n - 1].to == target ==> agree_on(a, b, g.edges[n - 1].from));
    }
}

/// What a node is given on its turn is what stands on the wires in the end.
proof fn lemma_given(c: CompiledView, t: TickView, states: Map<Text, StateView>, n: nat)
    requires
        c.sound(),
        n < c.order.len(),
    ensures
        gathered(c.graph, evaluated_first(c, t, states, n).outputs, c.order[n as int])
            == gathered(c.graph, ticked(c, t, states).outputs, c.order[n as int]),
{
    let g = c.graph;
    let id = c.order[n as int];
    let a = evaluated_first(c, t, states, n).outputs;
    let b = ticked(c, t, states).outputs;
    assert(c.order.contains(id));
    assert(c.order.index_of(id) == n) by {
        let m = c.order.index_of(id);
        assert(c.order[m] == id);
    }
    lemma_edges_land(g, g.edges.len());
    assert forall|key: Text| #[trigger]
        arriving(g, a, PortKey { node: id, port: key }, g.edges.len()) == arriving(
            g,
            b,
            PortKey { node: id, port: key },
            g.edges.len(),
        ) by {
        let target = PortKey { node: id, port: key };
        assert forall|i: int| 0 <= i < g.edges.len() && (#[trigger] g.edges[i]).to
            == target implies agree_on(a, b, g.edges[i].from) by {
            let from = g.edges[i].from;
            lemma_output(g, from);
            if !speaks_first(g.nodes[from.node].kind) {
                assert(!g.delayed(from));
                assert(g.nodes.dom().contains(id));
            }
            lemma_kept(c, t, states, n, from);
        }
        lemma_arriving_agrees(g, a, b, target, g.edges.len());
    }
    assert(gathered(g, a, id) =~= gathered(g, b, id));
}

/// Once a tick is done, the output of every node that does not speak first carries what the
/// node makes of what stands on its inputs: nothing on the wires is stale.
pub proof fn wires_carry_their_nodes_work(
    c: CompiledView,
    t: TickView,
    states: Map<Text, StateView>,
    id: Text,
)
    requires
        c.sound(),
        c.graph.nodes.dom().contains(id),
        !speaks_first(c.graph.nodes[id].kind),
    ensures
        ({
            let outputs = ticked(c, t, states).outputs;
            let made = evaluated(
                c.graph.nodes[id].kind,
                gathered(c.graph, outputs, id),
                t,
                recalled(states, id),
                out_type(c, id),
            ).0;
            let r = PortKey { node: id, port: "out"@ };
            &&& made.outputs.len() == 1
            &&& outputs.dom().contains(r)
            &&& outputs[r] == made.outputs[0].1
        }),
{
    assert(c.order.contains(id));
    let n = c.order.index_of(id);
    assert(c.order[n] == id);
    let p = evaluated_first(c, t, states, n as nat);
    lemma_given(c, t, states, n as nat);
    assert forall|i: int| 0 <= i < n implies #[trigger] c.order[i] != id by {}
    lemma_recalled(c, t, states, n as nat, id);
    let kind = c.graph.nodes[id].kind;
    let inputs = gathered(c.graph, p.outputs, id);
    lemma_made(kind, inputs, t, recalled(states, id), out_type(c, id));
    let made = evaluated(kind, inputs, t, recalled(states, id), out_type(c, id)).0;
    lemma_put_one(p.outputs, id, made.outputs);
    lemma_kept(c, t, states, (n + 1) as nat, PortKey { node: id, port: "out"@ });
}

proof fn lemma_sourced_there(c: CompiledView, t: TickView, states: Map<Text, StateView>, n: nat, i: int)
    requires
        c.sound(),
        0 <= i < n <= c.graph.ids.len(),
        speaks_first(c.graph.nodes[c.graph.ids[i]].kind),
    ensures
        ({
            let id = c.graph.ids[i];
            let port = if c.graph.nodes[id].kind is FanOutput {
                "rpm"@
            } else {
                "out"@
            };
            sourced_first(c, t, states, n).outputs.dom().contains(PortKey { node: id, port })
        }),
    decreases n,
{
    let id = c.graph.ids[n - 1];
    let before = sourced_first(c, t, states, (n - 1) as nat);
    lemma_put_one(
        before.outputs,
        id,
        sourced_by(c.graph.nodes[id].kind, t, recalled(before.states, id), out_type(c, id)),
    );
    if i < n - 1 {
        lemma_sourced_there(c, t, states, (n - 1) as nat, i);
    }
}

/// What a tachometer says: the reading of the sensor it is wired to, and no number where there is
/// none or it is no speed.
pub open spec fn speed_of(t: TickView, channel: Text) -> Scalar {
    if t.tachometers.dom().contains(channel) && t.sensors.dom().contains(t.tachometers[channel])
        && t.sensors[t.tachometers[channel]].quantity == Quantity::Rpm {
        t.sensors[t.tachometers[channel]].scalar
    } else {
        nan()
    }
}

proof fn lemma_speed_sourced(c: CompiledView, t: TickView, states: Map<Text, StateView>, n: nat, i: int)
    requires
        c.sound(),
        0 <= i < n <= c.graph.ids.len(),
        c.graph.nodes[c.graph.ids[i]].kind is FanOutput,
    ensures
        ({
            let id = c.graph.ids[i];
            let r = PortKey { node: id, port: "rpm"@ };
            let outputs = sourced_first(c, t, states, n).outputs;
            outputs.dom().contains(r) && outputs[r].scalar == speed_of(
                t,
                c.graph.nodes[id].kind->FanOutput_channel,
            )
        }),
    decreases n,
{
    let id = c.graph.ids[n - 1];
    let before = sourced_first(c, t, states, (n - 1) as nat);
    lemma_put_one(
        before.outputs,
        id,
        sourced_by(c.graph.nodes[id].kind, t, recalled(before.states, id), out_type(c, id)),
    );
    if i < n - 1 {
        lemma_speed_sourced(c, t, states, (n - 1) as nat, i);
        assert(c.graph.ids[i] != c.graph.ids[n - 1]);
    }
}

/// A fan's speed is on its wire for the whole tick: what its tachometer reads, and no number
/// where it has none.
pub proof fn speeds_are_on_their_wires(
    c: CompiledView,
    t: TickView,
    states: Map<Text, StateView>,
    id: Text,
    channel: Text,
)
    requires
        c.sound(),
        c.graph.nodes.dom().contains(id),
        c.graph.nodes[id].kind == (KindView::FanOutput { channel }),
    ensures
        ({
            let r = PortKey { node: id, port: "rpm"@ };
            let outputs = ticked(c, t, states).outputs;
            outputs.dom().contains(r) && outputs[r].scalar == speed_of(t, channel)
        }),
{
    let g = c.graph;
    assert(g.ids.contains(id));
    let k = g.ids.index_of(id);
    assert(g.ids[k] == id);
    lemma_speed_sourced(c, t, states, g.ids.len(), k);
    lemma_kept(c, t, states, 0, PortKey { node: id, port: "rpm"@ });
}

/// Every port that a connection starts at carries a value once a tick is done.
proof fn lemma_there(c: CompiledView, t: TickView, states: Map<Text, StateView>, i: int)
    requires
        c.sound(),
        0 <= i < c.graph.edges.len(),
    ensures
        ticked(c, t, states).outputs.dom().contains(c.graph.edges[i].from),
{
    let g = c.graph;
    let from = g.edges[i].from;
    lemma_edges_land(g, g.edges.len());
    lemma_output(g, from);
    if speaks_first(g.nodes[from.node].kind) {
        assert(g.ids.contains(from.node));
        let k = g.ids.index_of(from.node);
        assert(g.ids[k] == from.node);
        lemma_sourced_there(c, t, states, g.ids.len(), k);
        lemma_kept(c, t, states, 0, from);
    } else {
        wires_carry_their_nodes_work(c, t, states, from.node);
    }
}

proof fn lemma_first_arriving(
    c: CompiledView,
    t: TickView,
    states: Map<Text, StateView>,
    target: PortKey,
    k: int,
    n: nat,
)
    requires
        c.sound(),
        0 <= k < n <= c.graph.edges.len(),
        c.graph.edges[k].to == target,
        forall|j: int| 0 <= j < k ==> (#[trigger] c.graph.edges[j]).to != target,
    ensures
        ({
            let outputs = ticked(c, t, states).outputs;
            let list = arriving(c.graph, outputs, target, n);
            list.len() > 0 && list[0] == outputs[c.graph.edges[k].from]
        }),
    decreases n,
{
    let outputs = ticked(c, t, states).outputs;
    lemma_there(c, t, states, k);
    if n == k + 1 {
        lemma_none_arriving(c.graph, outputs, target, k as nat);
    } else {
        lemma_first_arriving(c, t, states, target, k, (n - 1) as nat);
    }
}

proof fn lemma_none_arriving(g: GraphView, outputs: Map<PortKey, Value>, target: PortKey, n: nat)
    requires
        n <= g.edges.len(),
        forall|j: int| 0 <= j < n ==> (#[trigger] g.edges[j]).to != target,
    ensures
        arriving(g, outputs, target, n).len() == 0,
    decreases n,
{
    if n > 0 {
        lemma_none_arriving(g, outputs, target, (n - 1) as nat);
    }
}

proof fn lemma_feeding(g: GraphView, target: PortKey, i: int)
    requires
        0 <= i <= g.edges.len(),
        forall|j: int| 0 <= j < i ==> (#[trigger] g.edges[j]).to != target,
        exists|k: int| 0 <= k < g.edges.len() && (#[trigger] g.edges[k]).to == target,
    ensures
        exists|k: int|
            0 <= k < g.edges.len() && (#[trigger] g.edges[k]).to == target && feeding(g.edges,
                target,
                i,
            ) == Some(g.edges[k].from) && forall|j: int|
                0 <= j < k ==> (#[trigger] g.edges[j]).to != target,
    decreases g.edges.len() - i,
{
    if i < g.edges.len() {
        if g.edges[i].to != target {
            lemma_feeding(g, target, i + 1);
        }
    } else {
        let k = choose|k: int| 0 <= k < g.edges.len() && (#[trigger] g.edges[k]).to == target;
        assert(g.edges[k].to != target);
    }
}

/// What stands first on an input once a tick is done is what the first connection to it brings.
pub proof fn inputs_carry_what_feeds_them(
    c: CompiledView,
    t: TickView,
    states: Map<Text, StateView>,
    id: Text,
    k: int,
)
    requires
        c.sound(),
        c.graph.nodes.dom().contains(id),
        0 <= k < ports(c.graph.nodes[id].kind).inputs.len(),
    ensures
        ({
            let outputs = ticked(c, t, states).outputs;
            let key = ports(c.graph.nodes[id].kind).inputs[k].key;
            let from = feeding(c.graph.edges, PortKey { node: id, port: key }, 0);
            &&& from is Some
            &&& outputs.dom().contains(from->0)
            &&& first(gathered(c.graph, outputs, id), key) == Some(outputs[from->0])
        }),
{
    let g = c.graph;
    let key = ports(g.nodes[id].kind).inputs[k].key;
    let target = PortKey { node: id, port: key };
    lemma_connected(g, id, k);
    lemma_feeding(g, target, 0);
    let e = choose|e: int|
        0 <= e < g.edges.len() && (#[trigger] g.edges[e]).to == target && feeding(g.edges, target, 0)
            == Some(g.edges[e].from) && forall|j: int|
            0 <= j < e ==> (#[trigger] g.edges[j]).to != target;
    lemma_there(c, t, states, e);
    lemma_first_arriving(c, t, states, target, e, g.edges.len());
    assert(ports(g.nodes[id].kind).inputs[k].key == key);
}

/// Whether positions pick the connections to a port among the first `n`, in order.
pub open spec fn picks_connections(g: GraphView, target: PortKey, n: nat, at: Seq<int>) -> bool {
    &&& forall|i: int|
        0 <= i < at.len() ==> 0 <= #[trigger] at[i] < n && g.edges[at[i]].to == target
    &&& forall|i: int, j: int| 0 <= i < j < at.len() ==> #[trigger] at[i] < #[trigger] at[j]
    &&& forall|e: int| 0 <= e < n && (#[trigger] g.edges[e]).to == target ==> at.contains(e)
}

proof fn lemma_all_arriving(
    g: GraphView,
    outputs: Map<PortKey, Value>,
    target: PortKey,
    n: nat,
) -> (at: Seq<int>)
    requires
        n <= g.edges.len(),
        forall|e: int|
            0 <= e < n && (#[trigger] g.edges[e]).to == target ==> outputs.dom().contains(
                g.edges[e].from,
            ),
    ensures
        picks_connections(g, target, n, at),
        arriving(g, outputs, target, n).len() == at.len(),
        forall|i: int|
            0 <= i < at.len() ==> arriving(g, outputs, target, n)[i]
                == outputs[g.edges[#[trigger] at[i]].from],
    decreases n,
{
    if n == 0 {
        Seq::empty()
    } else {
        let m = (n - 1) as nat;
        let before = lemma_all_arriving(g, outputs, target, m);
        if g.edges[n - 1].to == target {
            let at = before.push(n - 1);
            assert forall|e: int|
                0 <= e < n && (#[trigger] g.edges[e]).to == target implies at.contains(e) by {
                if e < m {
                    assert(at[before.index_of(e)] == e);
                } else {
                    assert(at[before.len() as int] == e);
                }
            }
            assert forall|i: int| 0 <= i < at.len() implies arriving(g, outputs, target, n)[i]
                == outputs[g.edges[#[trigger] at[i]].from] by {
                if i < before.len() {
                    assert(at[i] == before[i]);
                }
            }
            at
        } else {
            before
        }
    }
}

/// Every connection to an input brings what stands on the wire it comes from, none is left out,
/// and they come in the order they were made.
pub proof fn every_connection_brings_its_value(
    c: CompiledView,
    t: TickView,
    states: Map<Text, StateView>,
    id: Text,
    k: int,
) -> (at: Seq<int>)
    requires
        c.sound(),
        c.graph.nodes.dom().contains(id),
        0 <= k < ports(c.graph.nodes[id].kind).inputs.len(),
    ensures
        ({
            let outputs = ticked(c, t, states).outputs;
            let key = ports(c.graph.nodes[id].kind).inputs[k].key;
            let values = gathered(c.graph, outputs, id)[key];
            &&& picks_connections(
                c.graph,
                PortKey { node: id, port: key },
                c.graph.edges.len(),
                at,
            )
            &&& values.len() == at.len()
            &&& forall|i: int|
                0 <= i < at.len() ==> values[i] == outputs[c.graph.edges[#[trigger] at[i]].from]
        }),
{
    let g = c.graph;
    let outputs = ticked(c, t, states).outputs;
    let key = ports(g.nodes[id].kind).inputs[k].key;
    let target = PortKey { node: id, port: key };
    assert forall|e: int|
        0 <= e < g.edges.len() && (#[trigger] g.edges[e]).to == target implies outputs.dom().contains(
        g.edges[e].from,
    ) by {
        lemma_there(c, t, states, e);
    }
    assert(gathered(g, outputs, id).dom().contains(key)) by {
        assert(ports(g.nodes[id].kind).inputs[k].key == key);
    }
    lemma_all_arriving(g, outputs, target, g.edges.len())
}

// --- Commands --------------------------------------------------------------------------------

/// Whether a node is the only one that drives a channel.
pub open spec fn drives_alone(g: GraphView, id: Text, channel: Text) -> bool {
    &&& g.nodes.dom().contains(id)
    &&& g.nodes[id].kind == (KindView::FanOutput { channel })
    &&& forall|other: Text| #[trigger]
        g.nodes.dom().contains(other) && g.nodes[other].kind == (KindView::FanOutput { channel })
            ==> other == id
}

/// Whether two stages of a tick say the same of a channel.
spec fn same_for(a: Progress, b: Progress, channel: Text) -> bool {
    &&& a.commands.dom().contains(channel) == b.commands.dom().contains(channel)
    &&& a.commands.dom().contains(channel) ==> a.commands[channel] == b.commands[channel]
    &&& a.faulted.contains(channel) == b.faulted.contains(channel)
}

proof fn lemma_other_channels(c: CompiledView, t: TickView, p: Progress, id: Text, channel: Text)
    requires
        c.graph.nodes[id].kind != (KindView::FanOutput { channel }),
    ensures
        same_for(p, evaluate_node(c, t, p, id), channel),
{
    let kind = c.graph.nodes[id].kind;
    let inputs = gathered(c.graph, p.outputs, id);
    let state = recalled(p.states, id);
    let made = evaluated(kind, inputs, t, state, out_type(c, id)).0;
    lemma_made(kind, inputs, t, state, out_type(c, id));
    if made.commands.len() == 1 {
        assert(made.commands.drop_last().len() == 0);
        assert(take_commands(p, made.commands.drop_last()) == p);
    }
    if made.faults.to_set().contains(channel) {
        let k = choose|k: int| 0 <= k < made.faults.len() && made.faults[k] == channel;
    }
}

proof fn lemma_commands_kept(
    c: CompiledView,
    t: TickView,
    states: Map<Text, StateView>,
    n: nat,
    id: Text,
    channel: Text,
)
    requires
        c.sound(),
        n <= c.order.len(),
        drives_alone(c.graph, id, channel),
        c.order.index_of(id) < n,
    ensures
        same_for(evaluated_first(c, t, states, n), ticked(c, t, states), channel),
    decreases c.order.len() - n,
{
    if n < c.order.len() {
        let next = c.order[n as int];
        assert(c.order.contains(id));
        assert(c.order[c.order.index_of(id)] == id);
        assert(c.order.contains(next));
        assert(c.graph.nodes.dom().contains(next));
        lemma_other_channels(c, t, evaluated_first(c, t, states, n), next, channel);
        lemma_commands_kept(c, t, states, n + 1, id, channel);
    }
}

proof fn lemma_untouched(
    c: CompiledView,
    t: TickView,
    states: Map<Text, StateView>,
    n: nat,
    id: Text,
    channel: Text,
)
    requires
        c.sound(),
        drives_alone(c.graph, id, channel),
        n <= c.order.index_of(id),
    ensures
        !evaluated_first(c, t, states, n).commands.dom().contains(channel),
        !evaluated_first(c, t, states, n).faulted.contains(channel),
    decreases n,
{
    assert(c.order.contains(id));
    if n == 0 {
        lemma_quiet_sourcing(c, t, states, c.graph.ids.len());
    } else {
        let before = c.order[n - 1];
        lemma_untouched(c, t, states, (n - 1) as nat, id, channel);
        assert(c.order[c.order.index_of(id)] == id);
        assert(c.order.contains(before));
        assert(c.graph.nodes.dom().contains(before));
        lemma_other_channels(c, t, evaluated_first(c, t, states, (n - 1) as nat), before, channel);
    }
}

proof fn lemma_quiet_sourcing(c: CompiledView, t: TickView, states: Map<Text, StateView>, n: nat)
    ensures
        sourced_first(c, t, states, n).commands == Map::<Text, Value>::empty(),
        sourced_first(c, t, states, n).faulted == Set::<Text>::empty(),
    decreases n,
{
    if n > 0 {
        lemma_quiet_sourcing(c, t, states, (n - 1) as nat);
    }
}

/// A channel that one node drives is commanded the duty that stands on that node's input, where
/// it can be trusted, and faulted where it cannot.
pub proof fn channels_follow_their_output(
    c: CompiledView,
    t: TickView,
    states: Map<Text, StateView>,
    id: Text,
    channel: Text,
)
    requires
        c.sound(),
        drives_alone(c.graph, id, channel),
    ensures
        ({
            let done = ticked(c, t, states);
            let from = feeding(c.graph.edges, PortKey { node: id, port: "duty"@ }, 0);
            &&& from is Some
            &&& if done.outputs[from->0].trustworthy() {
                &&& done.commands.dom().contains(channel)
                &&& done.commands[channel] == commanded(
                    channel,
                    done.outputs[from->0].scalar,
                ).commands[0].1
                &&& !done.faulted.contains(channel)
            } else {
                done.faulted.contains(channel) && !done.commands.dom().contains(channel)
            }
        }),
{
    let g = c.graph;
    let done = ticked(c, t, states);
    assert(c.order.contains(id));
    let n = c.order.index_of(id);
    assert(c.order[n] == id);
    inputs_carry_what_feeds_them(c, t, states, id, 0);
    lemma_given(c, t, states, n as nat);
    lemma_untouched(c, t, states, n as nat, id, channel);
    lemma_commands_kept(c, t, states, (n + 1) as nat, id, channel);
    let p = evaluated_first(c, t, states, n as nat);
    let inputs = gathered(g, p.outputs, id);
    let made = evaluated(g.nodes[id].kind, inputs, t, recalled(p.states, id), out_type(c, id)).0;
    let value = first(inputs, "duty"@)->0;
    assert(first(inputs, "duty"@) == Some(value));
    if value.trustworthy() {
        let duty = made.commands[0].1;
        assert(made.commands.drop_last().len() == 0);
        assert(take_commands(p, made.commands.drop_last()) == p);
        clamped_is_duty(value.scalar);
        assert(duty.trustworthy());
        assert(made.faults.to_set() =~= Set::<Text>::empty());
    } else {
        assert(made.faults[0] == channel);
        assert(made.faults.to_set().contains(channel));
        assert(take_commands(p, made.commands) == p);
    }
}

} // verus!
