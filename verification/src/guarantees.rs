//! What every tick of every compiled graph guarantees.
use crate::eval::{evaluated, first, mixed, number, sourced_by, InputsView, StateView, TickView};
use crate::graph::{lemma_port_named, port_named, PortKey};
use crate::infer::{connected_ports_agree, resolved, type_errors, unified};
use crate::node::{port_keys_are_distinct, ports, KindView, MixMode, PortView};
use crate::scalar::{
    order_is_by_value, what_is_not_finite_is_kept, whole, whole_is_exact, Scalar,
};
use crate::text::Text;
use crate::tick::{
    arriving, evaluate_node, evaluated_first, gathered, out_type, put, recalled, sourced_first,
    take_commands, ticked, Progress,
};
use crate::units::{Quantity, Value};
use crate::validate::CompiledView;
use vstd::arithmetic::power2::lemma_pow2_pos;
use vstd::arithmetic::power2::pow2;
use vstd::prelude::*;

verus! {

// --- Every channel is accounted for ----------------------------------------------------------

/// Whether a channel is commanded or faulted.
pub open spec fn accounted(p: Progress, channel: Text) -> bool {
    p.commands.dom().contains(channel) || p.faulted.contains(channel)
}

proof fn lemma_take_commands(p: Progress, commands: Seq<(Text, Value)>)
    requires
        commands.len() <= 1,
    ensures
        commands.len() == 0 ==> take_commands(p, commands) == p,
        commands.len() == 1 ==> take_commands(p, commands) == if commands[0].1.trustworthy() {
            Progress { commands: p.commands.insert(commands[0].0, commands[0].1), ..p }
        } else {
            Progress { faulted: p.faulted.insert(commands[0].0), ..p }
        },
{
    if commands.len() == 1 {
        assert(commands.drop_last().len() == 0);
        assert(take_commands(p, commands.drop_last()) == p);
    }
}

proof fn lemma_step(c: CompiledView, t: TickView, p: Progress, id: Text)
    ensures
        forall|ch: Text| accounted(p, ch) ==> #[trigger] accounted(evaluate_node(c, t, p, id), ch),
        c.graph.nodes[id].kind matches KindView::FanOutput { channel } ==> accounted(
            evaluate_node(c, t, p, id),
            channel,
        ),
        forall|ch: Text| #[trigger]
            accounted(evaluate_node(c, t, p, id), ch) ==> accounted(p, ch) || c.graph.nodes[id].kind
                == (KindView::FanOutput { channel: ch }),
{
    let made = evaluated(
        c.graph.nodes[id].kind,
        gathered(c.graph, p.outputs, id),
        t,
        recalled(p.states, id),
        out_type(c, id),
    ).0;
    lemma_take_commands(p, made.commands);
    if let KindView::FanOutput { channel } = c.graph.nodes[id].kind {
        if made.commands.len() == 0 {
            assert(made.faults[0] == channel);
            assert(made.faults.to_set().contains(channel));
        }
    }
}

proof fn lemma_accounted(
    c: CompiledView,
    t: TickView,
    states: Map<Text, StateView>,
    n: nat,
    i: int,
    channel: Text,
)
    requires
        n <= c.order.len(),
        0 <= i < n,
        c.graph.nodes[c.order[i]].kind == (KindView::FanOutput { channel }),
    ensures
        accounted(evaluated_first(c, t, states, n), channel),
    decreases n,
{
    let before = evaluated_first(c, t, states, (n - 1) as nat);
    lemma_step(c, t, before, c.order[n - 1]);
    if i < n - 1 {
        lemma_accounted(c, t, states, (n - 1) as nat, i, channel);
    }
}

proof fn lemma_only_driven(
    c: CompiledView,
    t: TickView,
    states: Map<Text, StateView>,
    n: nat,
    channel: Text,
)
    requires
        c.sound(),
        n <= c.order.len(),
        accounted(evaluated_first(c, t, states, n), channel),
    ensures
        c.graph.drives(channel),
    decreases n,
{
    if n == 0 {
        lemma_sourcing_commands_nothing(c, t, states, c.graph.ids.len());
    } else {
        let before = evaluated_first(c, t, states, (n - 1) as nat);
        lemma_step(c, t, before, c.order[n - 1]);
        if accounted(before, channel) {
            lemma_only_driven(c, t, states, (n - 1) as nat, channel);
        } else {
            assert(c.order.contains(c.order[n - 1]));
            assert(c.graph.nodes.dom().contains(c.order[n - 1]));
        }
    }
}

proof fn lemma_sourcing_commands_nothing(
    c: CompiledView,
    t: TickView,
    states: Map<Text, StateView>,
    n: nat,
)
    ensures
        sourced_first(c, t, states, n).commands == Map::<Text, Value>::empty(),
        sourced_first(c, t, states, n).faulted == Set::<Text>::empty(),
    decreases n,
{
    if n > 0 {
        lemma_sourcing_commands_nothing(c, t, states, (n - 1) as nat);
    }
}

/// Every channel the graph drives is, on every tick, either commanded or faulted; and no
/// other channel is.
pub proof fn every_channel_is_accounted_for(
    c: CompiledView,
    t: TickView,
    states: Map<Text, StateView>,
    channel: Text,
)
    requires
        c.sound(),
    ensures
        c.graph.drives(channel) <==> accounted(ticked(c, t, states), channel),
{
    if c.graph.drives(channel) {
        let id = choose|id: Text| #[trigger] c.graph.nodes.dom().contains(id)
            && c.graph.nodes[id].kind == (KindView::FanOutput { channel });
        assert(c.order.contains(id));
        let i = c.order.index_of(id);
        lemma_accounted(c, t, states, c.order.len(), i, channel);
    }
    if accounted(ticked(c, t, states), channel) {
        lemma_only_driven(c, t, states, c.order.len(), channel);
    }
}

// --- Commands are duties ---------------------------------------------------------------------

/// Whether a value is a duty a fan can take: a finite percentage.
pub open spec fn is_duty(v: Value) -> bool {
    &&& v.quantity == Quantity::Duty
    &&& v.scalar.finite()
    &&& whole(0).at_most(v.scalar)
    &&& v.scalar.at_most(whole(100))
}

/// A finite number brought into the range of a duty is one.
pub proof fn clamped_is_duty(x: Scalar)
    requires
        x.finite(),
    ensures
        is_duty(Value { quantity: Quantity::Duty, scalar: Quantity::Duty.clamped(x) }),
{
    whole_is_exact(0);
    whole_is_exact(100);
    lemma_pow2_pos(1074);
    order_is_by_value(whole(0), whole(100));
    assert(0 * pow2(1074) <= 100 * pow2(1074));
}

proof fn lemma_commands_are_duties(
    c: CompiledView,
    t: TickView,
    states: Map<Text, StateView>,
    n: nat,
)
    requires
        n <= c.order.len(),
    ensures
        forall|ch: Text| #[trigger]
            evaluated_first(c, t, states, n).commands.dom().contains(ch) ==> is_duty(
                evaluated_first(c, t, states, n).commands[ch],
            ),
    decreases n,
{
    if n == 0 {
        lemma_sourcing_commands_nothing(c, t, states, c.graph.ids.len());
    } else {
        let p = evaluated_first(c, t, states, (n - 1) as nat);
        let id = c.order[n - 1];
        lemma_commands_are_duties(c, t, states, (n - 1) as nat);
        let inputs = gathered(c.graph, p.outputs, id);
        let made = evaluated(
            c.graph.nodes[id].kind,
            inputs,
            t,
            recalled(p.states, id),
            out_type(c, id),
        ).0;
        lemma_take_commands(p, made.commands);
        if let KindView::FanOutput { channel } = c.graph.nodes[id].kind {
            if let Some(v) = first(inputs, "duty"@) {
                if v.trustworthy() {
                    clamped_is_duty(v.scalar);
                }
            }
        }
    }
}

/// Whatever the graph computes, a fan is only ever commanded a finite duty between 0 and
/// 100 percent.
pub proof fn commands_are_duties(c: CompiledView, t: TickView, states: Map<Text, StateView>)
    ensures
        forall|ch: Text| #[trigger]
            ticked(c, t, states).commands.dom().contains(ch) ==> is_duty(
                ticked(c, t, states).commands[ch],
            ),
{
    lemma_commands_are_duties(c, t, states, c.order.len());
}

// --- Faults propagate ------------------------------------------------------------------------

/// Whether a kind computes its output from its `in` port.
pub open spec fn transforms(kind: KindView) -> bool {
    match kind {
        KindView::Sensor { .. }
        | KindView::Constant { .. }
        | KindView::Select
        | KindView::Delay { .. }
        | KindView::FanOutput { .. } => false,
        _ => true,
    }
}

/// Non-finite values propagate: no transform substitutes a number for an infinity, for a NaN or
/// for a missing input, which counts as one.
pub proof fn faults_propagate(
    kind: KindView,
    inputs: InputsView,
    t: TickView,
    state: StateView,
    out: Option<Quantity>,
)
    requires
        transforms(kind),
        !number(inputs, "in"@).finite(),
    ensures
        evaluated(kind, inputs, t, state, out).0.outputs.len() == 1,
        !evaluated(kind, inputs, t, state, out).0.outputs[0].1.scalar.finite(),
        number(inputs, "in"@).nan() ==> evaluated(
            kind,
            inputs,
            t,
            state,
            out,
        ).0.outputs[0].1.scalar.nan(),
        evaluated(kind, inputs, t, state, out).1.last == state.last,
{
    let x = number(inputs, "in"@);
    match kind {
        KindView::Offset { delta } => {
            what_is_not_finite_is_kept(x, delta);
        },
        KindView::Scale { factor } => {
            what_is_not_finite_is_kept(x, factor);
        },
        KindView::Mix { mode } => {
            if inputs.dom().contains("in"@) {
                let values = inputs["in"@].map_values(|v: Value| v.scalar);
                if inputs["in"@].len() > 0 {
                    assert(values[0] == x);
                    assert(!values[0].finite());
                }
            }
        },
        _ => {},
    }
}

/// One dead sensor poisons a mix instead of being averaged away.
pub proof fn one_dead_input_poisons_a_mix(mode: MixMode, values: Seq<Scalar>, i: int)
    requires
        0 <= i < values.len(),
        !values[i].finite(),
    ensures
        mixed(mode, values).nan(),
{
}

/// A missing or broken flag does not silently pick a branch.
pub proof fn a_selector_without_a_flag_faults(
    inputs: InputsView,
    t: TickView,
    state: StateView,
    out: Option<Quantity>,
)
    requires
        !number(inputs, "when"@).finite(),
    ensures
        evaluated(KindView::Select, inputs, t, state, out).0.outputs[0].1.scalar.nan(),
{
}

/// A fan that is fed nothing, or nothing trustworthy, is faulted and not commanded.
pub proof fn a_broken_duty_faults_its_channel(
    channel: Text,
    inputs: InputsView,
    t: TickView,
    state: StateView,
    out: Option<Quantity>,
)
    requires
        first(inputs, "duty"@) is None || !(first(inputs, "duty"@)->0).trustworthy(),
    ensures
        ({
            let made = evaluated(KindView::FanOutput { channel }, inputs, t, state, out).0;
            made.commands.len() == 0 && made.faults == seq![channel]
        }),
{
}

// --- Wires carry what inference says -----------------------------------------------------------

/// Whether every value is of the type its port was inferred to have.
pub open spec fn typed(c: CompiledView, outputs: Map<PortKey, Value>) -> bool {
    forall|r: PortKey| #[trigger]
        outputs.dom().contains(r) ==> c.types.dom().contains(r) && (c.types[r] is Some
            ==> outputs[r].quantity == c.types[r]->0)
}

proof fn lemma_port_named_at(list: Seq<PortView>, i: int)
    requires
        0 <= i < list.len(),
        forall|a: int, b: int|
            0 <= a < b < list.len() ==> (#[trigger] list[a]).key != (#[trigger] list[b]).key,
    ensures
        port_named(list, list[i].key) == Some(list[i]),
{
    lemma_port_named(list, list[i].key);
    let p = port_named(list, list[i].key)->0;
    assert(port_named(list, list[i].key) is Some);
    let k = choose|k: int| 0 <= k < list.len() && list[k] == p;
}

/// Every port a kind declares can be looked up.
proof fn lemma_declared(c: CompiledView, id: Text, i: int)
    requires
        c.sound(),
        c.graph.nodes.dom().contains(id),
        0 <= i < ports(c.graph.nodes[id].kind).all().len(),
    ensures
        ({
            let p = ports(c.graph.nodes[id].kind).all()[i];
            let r = PortKey { node: id, port: p.key };
            &&& c.graph.declared(r) == Some(p.ty)
            &&& c.types.dom().contains(r)
            &&& c.types[r] == resolved(unified(c.graph, c.graph.edges.len()).0, id, p.ty)
        }),
{
    port_keys_are_distinct(c.graph.nodes[id].kind);
    lemma_port_named_at(ports(c.graph.nodes[id].kind).all(), i);
}

proof fn lemma_arriving_typed(c: CompiledView, outputs: Map<PortKey, Value>, target: PortKey, n: nat)
    requires
        c.sound(),
        typed(c, outputs),
        n <= c.graph.edges.len(),
        c.types.dom().contains(target),
    ensures
        forall|k: int|
            0 <= k < arriving(c.graph, outputs, target, n).len() && c.types[target] is Some
                ==> (#[trigger] arriving(c.graph, outputs, target, n)[k]).quantity
                == c.types[target]->0,
    decreases n,
{
    if n > 0 {
        lemma_arriving_typed(c, outputs, target, (n - 1) as nat);
        let e = c.graph.edges[n - 1];
        if e.to == target && outputs.dom().contains(e.from) {
            assert(type_errors(c.graph).len() == 0);
            connected_ports_agree(c.graph);
            assert(c.graph.declared(c.graph.edges[n - 1].from) is Some);
            assert(c.types[e.from] == c.types[e.to]);
        }
    }
}

proof fn lemma_first_typed(c: CompiledView, outputs: Map<PortKey, Value>, id: Text, i: int)
    requires
        c.sound(),
        typed(c, outputs),
        c.graph.nodes.dom().contains(id),
        0 <= i < ports(c.graph.nodes[id].kind).inputs.len(),
    ensures
        ({
            let key = ports(c.graph.nodes[id].kind).inputs[i].key;
            let ty = c.types[PortKey { node: id, port: key }];
            first(gathered(c.graph, outputs, id), key) matches Some(v) ==> ty is Some ==> v.quantity
                == ty->0
        }),
{
    let inputs = ports(c.graph.nodes[id].kind).inputs;
    assert(ports(c.graph.nodes[id].kind).all()[i] == inputs[i]);
    lemma_declared(c, id, i);
    let target = PortKey { node: id, port: inputs[i].key };
    lemma_arriving_typed(c, outputs, target, c.graph.edges.len());
}

proof fn lemma_put_typed(c: CompiledView, outputs: Map<PortKey, Value>, id: Text, values: Seq<(Text, Value)>)
    requires
        typed(c, outputs),
        values.len() <= 1,
        values.len() == 1 ==> {
            let r = PortKey { node: id, port: values[0].0 };
            c.types.dom().contains(r) && (c.types[r] is Some ==> values[0].1.quantity
                == c.types[r]->0)
        },
    ensures
        typed(c, put(outputs, id, values)),
{
    if values.len() == 1 {
        assert(values.drop_last().len() == 0);
        assert(put(outputs, id, values.drop_last()) == outputs);
    }
}

proof fn lemma_node_typed(c: CompiledView, t: TickView, p: Progress, id: Text)
    requires
        c.sound(),
        typed(c, p.outputs),
        c.graph.nodes.dom().contains(id),
    ensures
        typed(c, evaluate_node(c, t, p, id).outputs),
{
    let kind = c.graph.nodes[id].kind;
    let all = ports(kind).all();
    let inputs = gathered(c.graph, p.outputs, id);
    let made = evaluated(kind, inputs, t, recalled(p.states, id), out_type(c, id)).0;
    port_keys_are_distinct(kind);
    lemma_declared(c, id, 0);
    match kind {
        KindView::Sensor { .. } | KindView::Constant { .. } => {
            assert(all[0].key == "out"@);
        },
        KindView::Select => {
            lemma_declared(c, id, 1);
            lemma_declared(c, id, 2);
            lemma_declared(c, id, 3);
            assert(all[1].key == "if_true"@);
            assert(all[2].key == "if_false"@);
            assert(all[3].key == "out"@);
            lemma_first_typed(c, p.outputs, id, 1);
            lemma_first_typed(c, p.outputs, id, 2);
        },
        KindView::FanOutput { .. } | KindView::Delay { .. } => {},
        _ => {
            lemma_declared(c, id, 1);
            assert(all[0].key == "in"@);
            assert(all[1].key == "out"@);
            lemma_first_typed(c, p.outputs, id, 0);
        },
    }
    lemma_put_typed(c, p.outputs, id, made.outputs);
}

proof fn lemma_sourced_typed(c: CompiledView, t: TickView, states: Map<Text, StateView>, n: nat)
    requires
        c.sound(),
        n <= c.graph.ids.len(),
    ensures
        typed(c, sourced_first(c, t, states, n).outputs),
    decreases n,
{
    if n > 0 {
        lemma_sourced_typed(c, t, states, (n - 1) as nat);
        let p = sourced_first(c, t, states, (n - 1) as nat);
        let id = c.graph.ids[n - 1];
        let kind = c.graph.nodes[id].kind;
        let all = ports(kind).all();
        assert(c.graph.nodes.dom().contains(id));
        match kind {
            KindView::FanOutput { .. } => {
                lemma_declared(c, id, 1);
                assert(all[1].key == "rpm"@);
            },
            KindView::Delay { .. } => {
                lemma_declared(c, id, 1);
                assert(all[1].key == "out"@);
            },
            _ => {},
        }
        lemma_put_typed(
            c,
            p.outputs,
            id,
            sourced_by(kind, t, recalled(p.states, id), out_type(c, id)),
        );
    }
}

proof fn lemma_evaluated_typed(c: CompiledView, t: TickView, states: Map<Text, StateView>, n: nat)
    requires
        c.sound(),
        n <= c.order.len(),
    ensures
        typed(c, evaluated_first(c, t, states, n).outputs),
    decreases n,
{
    if n == 0 {
        lemma_sourced_typed(c, t, states, c.graph.ids.len());
    } else {
        lemma_evaluated_typed(c, t, states, (n - 1) as nat);
        assert(c.order.contains(c.order[n - 1]));
        lemma_node_typed(c, t, evaluated_first(c, t, states, (n - 1) as nat), c.order[n - 1]);
    }
}

/// Evaluation agrees with inference: every value on every wire is of the type its port was
/// inferred to have, so nothing reaches a sink tagged as something it is not.
pub proof fn wires_carry_their_types(c: CompiledView, t: TickView, states: Map<Text, StateView>)
    requires
        c.sound(),
    ensures
        typed(c, ticked(c, t, states).outputs),
{
    lemma_evaluated_typed(c, t, states, c.order.len());
}

// --- State ---------------------------------------------------------------------------------------

/// After a tick every node of the graph has a state, and nothing else was touched.
pub proof fn ticks_touch_their_own_nodes(
    c: CompiledView,
    t: TickView,
    states: Map<Text, StateView>,
)
    requires
        c.sound(),
    ensures
        ticked(c, t, states).states.dom() =~= states.dom().union(c.graph.nodes.dom()),
        forall|id: Text| #[trigger]
            states.dom().contains(id) && !c.graph.nodes.dom().contains(id) ==> ticked(
                c,
                t,
                states,
            ).states[id] == states[id],
{
    lemma_sourced_states(c, t, states, c.graph.ids.len());
    lemma_evaluated_states(c, t, states, c.order.len());
    let done = ticked(c, t, states).states;
    assert forall|id: Text| done.dom().contains(id) <==> states.dom().union(
        c.graph.nodes.dom(),
    ).contains(id) by {
        if c.graph.nodes.dom().contains(id) {
            let i = c.graph.ids.index_of(id);
            assert(c.graph.ids[i] == id);
        }
    }
}

proof fn lemma_sourced_states(c: CompiledView, t: TickView, states: Map<Text, StateView>, n: nat)
    requires
        c.sound(),
        n <= c.graph.ids.len(),
    ensures
        forall|id: Text|
            #![trigger sourced_first(c, t, states, n).states.dom().contains(id)]
            sourced_first(c, t, states, n).states.dom().contains(id) <==> states.dom().contains(id)
                || exists|i: int| 0 <= i < n && #[trigger] c.graph.ids[i] == id,
        forall|id: Text| #[trigger]
            states.dom().contains(id) ==> sourced_first(c, t, states, n).states[id] == states[id],
    decreases n,
{
    if n > 0 {
        let m = (n - 1) as nat;
        lemma_sourced_states(c, t, states, m);
        let before = sourced_first(c, t, states, m).states;
        let after = sourced_first(c, t, states, n).states;
        let last = c.graph.ids[n - 1];
        assert forall|id: Text|
            #![trigger after.dom().contains(id)]
            after.dom().contains(id) <==> states.dom().contains(id) || exists|i: int|
                0 <= i < n && #[trigger] c.graph.ids[i] == id by {
            if before.dom().contains(id) && !states.dom().contains(id) {
                let i = choose|i: int| 0 <= i < m && #[trigger] c.graph.ids[i] == id;
                assert(0 <= i < n);
            }
            if id == last {
                assert(c.graph.ids[n - 1] == id);
            }
            if exists|i: int| 0 <= i < n && #[trigger] c.graph.ids[i] == id {
                let i = choose|i: int| 0 <= i < n && #[trigger] c.graph.ids[i] == id;
                if i < n - 1 {
                    assert(0 <= i < m);
                    assert(before.dom().contains(id));
                }
            }
            if states.dom().contains(id) {
                assert(before.dom().contains(id));
            }
        }
        assert forall|id: Text| #[trigger] states.dom().contains(id) implies after[id]
            == states[id] by {
            assert(before.dom().contains(id));
        }
    }
}

proof fn lemma_evaluated_states(c: CompiledView, t: TickView, states: Map<Text, StateView>, n: nat)
    requires
        c.sound(),
        n <= c.order.len(),
    ensures
        evaluated_first(c, t, states, n).states.dom() =~= sourced_first(
            c,
            t,
            states,
            c.graph.ids.len(),
        ).states.dom(),
        forall|id: Text| #[trigger]
            states.dom().contains(id) && !c.graph.nodes.dom().contains(id) ==> evaluated_first(
                c,
                t,
                states,
                n,
            ).states[id] == states[id],
    decreases n,
{
    lemma_sourced_states(c, t, states, c.graph.ids.len());
    if n > 0 {
        lemma_evaluated_states(c, t, states, (n - 1) as nat);
        let id = c.order[n - 1];
        assert(c.order.contains(id));
        let i = c.graph.ids.index_of(id);
        assert(c.graph.ids[i] == id);
        assert(sourced_first(c, t, states, c.graph.ids.len()).states.dom().contains(id));
    }
}

} // verus!
