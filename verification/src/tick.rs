//! Evaluating a compiled graph, one tick at a time.
//!
//! Sensor values are handed in, a tick is evaluated, and commanded duties come back out.
//! There is no I/O and no clock here, so what a tick does is a function of the graph, the
//! readings and what the nodes remember: [`ticked`].
use crate::eval::{
    evaluated, exponent_for, decay_exponent, fresh, inputs_view, keyed, sourced_by, Decay, Inputs,
    InputsView, NodeState, SensorReadings, StateView, TickInput, TickView,
};
use crate::graph::{Graph, GraphView, NameSet, NodeId, PortKey, PortRef};
use crate::node::{port_views, ports, KindView, NodeKind};
use crate::ordmap::OrdMap;
use crate::scalar::Scalar;
use crate::text::Text;
use crate::units::{Quantity, Value};
use crate::validate::{id_views, CompiledGraph, CompiledView};
use vstd::prelude::*;

verus! {

/// Commanded outputs for one tick, keyed by the channel id a [`NodeKind::FanOutput`] names.
pub type Commands = OrdMap<String, Value>;

/// Per-tick evaluation output.
#[derive(Debug)]
pub struct TickResult {
    /// What each output channel should be driven to.
    pub commands: Commands,
    /// Every value on every wire.
    pub wire_values: OrdMap<PortRef, Value>,
    /// Channels whose input was missing or untrustworthy this tick. The channel's failsafe
    /// must be applied for each of these rather than leaving it at its last value.
    pub faulted_channels: NameSet,
}

/// Mutable per-node state that persists across ticks (filters, rate limiters, latches).
///
/// Held outside the graph so the graph itself stays a pure value.
#[derive(Debug)]
pub struct EvalState {
    nodes: OrdMap<NodeId, NodeState>,
}

/// What a map of node states says.
pub open spec fn state_views(nodes: Map<Text, NodeState>) -> Map<Text, StateView> {
    nodes.map_values(|s: NodeState| s@)
}

impl View for EvalState {
    type V = Map<Text, StateView>;

    closed spec fn view(&self) -> Map<Text, StateView> {
        state_views(self.nodes@)
    }
}

impl EvalState {
    /// Nothing remembered.
    pub fn new() -> (r: EvalState)
        ensures
            r@ == Map::<Text, StateView>::empty(),
    {
        let r = EvalState { nodes: OrdMap::new() };
        assert(r@ =~= Map::<Text, StateView>::empty());
        r
    }

    /// What a node remembers; one that is new remembers nothing.
    pub fn entry(&mut self, id: NodeId) -> (r: &mut NodeState)
        ensures
            r@ == recalled(old(self)@, id@),
            final(self)@ == old(self)@.insert(id@, final(r)@),
    {
        let ghost start = self.nodes@;
        proof {
            assert forall|v: NodeState| state_views(#[trigger] start.insert(id@, v)) == state_views(
                start,
            ).insert(id@, v@) by {
                assert(state_views(start.insert(id@, v)) =~= state_views(start).insert(id@, v@));
            }
        }
        self.nodes.slot(id, NodeState::default())
    }

    /// How many nodes something is remembered for.
    pub fn len(&self) -> (n: usize)
        ensures
            n == self@.dom().len(),
            self@.dom().finite(),
    {
        proof {
            use_type_invariant(&self.nodes);
            self.nodes.lemma_wf();
            let names = self.nodes.names();
            names.unique_seq_to_set();
            assert(self@.dom() =~= names.to_set());
        }
        self.nodes.len()
    }

    /// Drops state for nodes that no longer exist, so a long-running session does not
    /// accumulate stale entries as the graph is edited.
    pub fn retain_nodes(&mut self, graph: &Graph)
        ensures
            final(self)@ == old(self)@.restrict(graph@.nodes.dom()),
    {
        let ghost start = self@;
        let mut gone: Vec<NodeId> = Vec::new();
        let n: usize = self.nodes.len();
        for i in 0..n
            invariant
                n == self.nodes.names().len(),
                forall|k: int|
                    0 <= k < gone@.len() ==> !graph@.nodes.dom().contains((#[trigger] gone@[k])@),
                forall|k: int|
                    0 <= k < i && !graph@.nodes.dom().contains(#[trigger] self.nodes.names()[k])
                        ==> exists|j: int|
                        0 <= j < gone@.len() && (#[trigger] gone@[j])@ == self.nodes.names()[k],
        {
            let id = self.nodes.key_at(i);
            let ghost before = gone@;
            if !graph.nodes.contains_key(id) {
                gone.push(id.copy());
            }
            proof {
                assert forall|k: int|
                    0 <= k < i + 1 && !graph@.nodes.dom().contains(
                        #[trigger] self.nodes.names()[k],
                    ) implies exists|j: int|
                    0 <= j < gone@.len() && (#[trigger] gone@[j])@ == self.nodes.names()[k] by {
                    if k < i {
                        let j = choose|j: int|
                            0 <= j < before.len() && (#[trigger] before[j])@ == self.nodes.names()[k];
                        assert(gone@[j]@ == self.nodes.names()[k]);
                    } else {
                        assert(gone@[gone@.len() - 1]@ == self.nodes.names()[k]);
                    }
                }
            }
        }
        proof {
            use_type_invariant(&self.nodes);
            self.nodes.lemma_wf();
            assert forall|id: Text|
                start.dom().contains(id) && !graph@.nodes.dom().contains(id) implies exists|j: int|
                0 <= j < gone@.len() && (#[trigger] gone@[j])@ == id by {
                let k = self.nodes.names().index_of(id);
                assert(self.nodes.names()[k] == id);
            }
        }
        let m: usize = gone.len();
        for i in 0..m
            invariant
                m == gone@.len(),
                forall|k: int|
                    0 <= k < gone@.len() ==> !graph@.nodes.dom().contains((#[trigger] gone@[k])@),
                forall|id: Text| #[trigger]
                    self@.dom().contains(id) ==> start.dom().contains(id) && self@[id] == start[id],
                forall|id: Text|
                    start.dom().contains(id) && !(#[trigger] self@.dom().contains(id))
                        ==> !graph@.nodes.dom().contains(id),
                forall|k: int| 0 <= k < i ==> !self@.dom().contains((#[trigger] gone@[k])@),
                forall|id: Text|
                    start.dom().contains(id) && !graph@.nodes.dom().contains(id) ==> exists|j: int|
                        0 <= j < gone@.len() && (#[trigger] gone@[j])@ == id,
        {
            let ghost before = self@;
            self.nodes.remove(&gone[i]);
            proof {
                assert(self@ =~= before.remove(gone@[i as int]@));
                assert forall|id: Text| #[trigger] self@.dom().contains(id) implies start.dom().contains(
                    id,
                ) && self@[id] == start[id] by {
                    assert(before.dom().contains(id));
                }
                assert forall|id: Text|
                    start.dom().contains(id) && !(#[trigger] self@.dom().contains(id)) implies !graph@.nodes.dom().contains(
                id) by {
                    if before.dom().contains(id) {
                        assert(id == gone@[i as int]@);
                    }
                }
            }
        }
        proof {
            assert forall|id: Text| self@.dom().contains(id) == start.restrict(
                graph@.nodes.dom(),
            ).dom().contains(id) by {
                if start.dom().contains(id) && !graph@.nodes.dom().contains(id) {
                    let j = choose|j: int| 0 <= j < gone@.len() && (#[trigger] gone@[j])@ == id;
                    assert(!self@.dom().contains(gone@[j]@));
                }
            }
            assert(self@ =~= start.restrict(graph@.nodes.dom()));
        }
    }
}

// --- What a tick is --------------------------------------------------------------------------

/// What a node remembers; one that is new remembers nothing.
pub open spec fn recalled(states: Map<Text, StateView>, id: Text) -> StateView {
    if states.dom().contains(id) {
        states[id]
    } else {
        fresh()
    }
}

/// Where a tick has got to.
#[verifier::ext_equal]
pub struct Progress {
    pub outputs: Map<PortKey, Value>,
    pub commands: Map<Text, Value>,
    pub faulted: Set<Text>,
    pub states: Map<Text, StateView>,
}

/// Before the first node.
pub open spec fn begun(states: Map<Text, StateView>) -> Progress {
    Progress {
        outputs: Map::empty(),
        commands: Map::empty(),
        faulted: Set::empty(),
        states,
    }
}

/// The inferred type of a node's `out` port.
pub open spec fn out_type(c: CompiledView, id: Text) -> Option<Quantity> {
    let r = PortKey { node: id, port: "out"@ };
    if c.types.dom().contains(r) {
        c.types[r]
    } else {
        None
    }
}

/// Values put on a node's ports.
pub open spec fn put(
    outputs: Map<PortKey, Value>,
    id: Text,
    values: Seq<(Text, Value)>,
) -> Map<PortKey, Value>
    decreases values.len(),
{
    if values.len() == 0 {
        outputs
    } else {
        put(outputs, id, values.drop_last()).insert(
            PortKey { node: id, port: values.last().0 },
            values.last().1,
        )
    }
}

/// A node's delayed outputs, made available before anything is computed.
pub open spec fn source_node(c: CompiledView, t: TickView, p: Progress, id: Text) -> Progress {
    let state = recalled(p.states, id);
    Progress {
        outputs: put(
            p.outputs,
            id,
            sourced_by(c.graph.nodes[id].kind, t, state, out_type(c, id)),
        ),
        states: p.states.insert(id, state),
        ..p
    }
}

/// The delayed outputs of the first `n` nodes.
pub open spec fn sourced_first(
    c: CompiledView,
    t: TickView,
    states: Map<Text, StateView>,
    n: nat,
) -> Progress
    decreases n,
{
    if n == 0 {
        begun(states)
    } else {
        source_node(c, t, sourced_first(c, t, states, (n - 1) as nat), c.graph.ids[n - 1])
    }
}

/// The values arriving at a port over the first `n` connections.
pub open spec fn arriving(
    g: GraphView,
    outputs: Map<PortKey, Value>,
    target: PortKey,
    n: nat,
) -> Seq<Value>
    decreases n,
{
    if n == 0 {
        Seq::empty()
    } else {
        let before = arriving(g, outputs, target, (n - 1) as nat);
        let e = g.edges[n - 1];
        if e.to == target && outputs.dom().contains(e.from) {
            before.push(outputs[e.from])
        } else {
            before
        }
    }
}

/// The values arriving at each input of a node.
pub open spec fn gathered(g: GraphView, outputs: Map<PortKey, Value>, id: Text) -> InputsView {
    let inputs = ports(g.nodes[id].kind).inputs;
    Map::new(
        |key: Text| exists|i: int| 0 <= i < inputs.len() && (#[trigger] inputs[i]).key == key,
        |key: Text| arriving(g, outputs, PortKey { node: id, port: key }, g.edges.len()),
    )
}

/// Commands taken up: one that is not trustworthy faults its channel instead.
pub open spec fn take_commands(p: Progress, commands: Seq<(Text, Value)>) -> Progress
    decreases commands.len(),
{
    if commands.len() == 0 {
        p
    } else {
        let before = take_commands(p, commands.drop_last());
        let (channel, value) = commands.last();
        if value.trustworthy() {
            Progress { commands: before.commands.insert(channel, value), ..before }
        } else {
            Progress { faulted: before.faulted.insert(channel), ..before }
        }
    }
}

/// Faults taken up.
pub open spec fn take_faults(faulted: Set<Text>, faults: Seq<Text>) -> Set<Text> {
    faulted.union(faults.to_set())
}

/// One node evaluated, in its place in the order.
pub open spec fn evaluate_node(c: CompiledView, t: TickView, p: Progress, id: Text) -> Progress {
    let (made, state) = evaluated(
        c.graph.nodes[id].kind,
        gathered(c.graph, p.outputs, id),
        t,
        recalled(p.states, id),
        out_type(c, id),
    );
    let commanded = take_commands(p, made.commands);
    Progress {
        outputs: put(p.outputs, id, made.outputs),
        commands: commanded.commands,
        faulted: take_faults(commanded.faulted, made.faults),
        states: p.states.insert(id, state),
    }
}

/// The first `n` nodes of the order evaluated.
pub open spec fn evaluated_first(
    c: CompiledView,
    t: TickView,
    states: Map<Text, StateView>,
    n: nat,
) -> Progress
    decreases n,
{
    if n == 0 {
        sourced_first(c, t, states, c.graph.ids.len())
    } else {
        evaluate_node(c, t, evaluated_first(c, t, states, (n - 1) as nat), c.order[n - 1])
    }
}

/// One tick: delayed outputs first, then every node in dependency order.
pub open spec fn ticked(c: CompiledView, t: TickView, states: Map<Text, StateView>) -> Progress {
    evaluated_first(c, t, states, c.order.len())
}

// --- Doing it ----------------------------------------------------------------------------------

fn put_values(
    outputs: &mut OrdMap<PortRef, Value>,
    id: &NodeId,
    values: &Vec<(&'static str, Value)>,
)
    ensures
        final(outputs)@ == put(old(outputs)@, id@, keyed(values@)),
{
    let n: usize = values.len();
    let ghost start = outputs@;
    let ghost all = keyed(values@);
    for i in 0..n
        invariant
            n == values@.len(),
            all == keyed(values@),
            outputs@ == put(start, id@, all.take(i as int)),
    {
        outputs.insert(PortRef::new(id.0.as_str(), values[i].0), values[i].1);
        assert(all.take(i + 1).drop_last() =~= all.take(i as int));
    }
    assert(all.take(n as int) =~= all);
}

fn arrivals(graph: &Graph, outputs: &OrdMap<PortRef, Value>, target: &PortRef) -> (r: Vec<Value>)
    ensures
        r@ == arriving(graph@, outputs@, target@, graph@.edges.len()),
{
    let mut out: Vec<Value> = Vec::new();
    let n: usize = graph.edges.len();
    for i in 0..n
        invariant
            n == graph.edges@.len(),
            n == graph@.edges.len(),
            out@ == arriving(graph@, outputs@, target@, i as nat),
    {
        let edge = &graph.edges[i];
        assert(graph@.edges[i as int] == edge@);
        if edge.to.is_port(target) {
            if let Some(v) = outputs.get(&edge.from) {
                out.push(*v);
            }
        }
    }
    out
}

fn gather(
    graph: &Graph,
    outputs: &OrdMap<PortRef, Value>,
    id: &NodeId,
    kind: &NodeKind,
) -> (r: Inputs)
    requires
        graph@.nodes.dom().contains(id@),
        graph@.nodes[id@].kind == kind@,
    ensures
        inputs_view(r@) == gathered(graph@, outputs@, id@),
{
    let spec = kind.spec();
    let mut inputs: Inputs = OrdMap::new();
    let n: usize = spec.inputs.len();
    let ghost g = graph@;
    let ghost views = ports(kind@).inputs;
    for i in 0..n
        invariant
            n == spec.inputs@.len(),
            g == graph@,
            views == port_views(spec.inputs@),
            forall|key: Text|
                #![trigger inputs@.dom().contains(key)]
                inputs@.dom().contains(key) <==> exists|k: int|
                    0 <= k < i && (#[trigger] views[k]).key == key,
            forall|key: Text| #[trigger]
                inputs@.dom().contains(key) ==> inputs@[key]@ == arriving(
                    g,
                    outputs@,
                    PortKey { node: id@, port: key },
                    g.edges.len(),
                ),
    {
        let key = spec.inputs[i].key;
        assert(views[i as int].key == key@);
        let target = PortRef::new(id.0.as_str(), key);
        let values = arrivals(graph, outputs, &target);
        let ghost before = inputs@;
        inputs.insert(key.to_owned(), values);
        proof {
            assert forall|k2: Text|
                #![trigger inputs@.dom().contains(k2)]
                inputs@.dom().contains(k2) <==> exists|k: int|
                    0 <= k < i + 1 && (#[trigger] views[k]).key == k2 by {
                if before.dom().contains(k2) {
                    let k = choose|k: int| 0 <= k < i && (#[trigger] views[k]).key == k2;
                    assert(0 <= k < i + 1 && views[k].key == k2);
                }
                if k2 == key@ {
                    assert(views[i as int].key == k2);
                }
            }
        }
    }
    proof {
        assert(inputs_view(inputs@) =~= gathered(g, outputs@, id@));
    }
    inputs
}

fn settle_commands(
    commands: &mut Commands,
    faulted: &mut NameSet,
    made: &Vec<(String, Value)>,
    Ghost(p): Ghost<Progress>,
)
    requires
        old(commands)@ == p.commands,
        old(faulted)@.dom() == p.faulted,
    ensures
        ({
            let all = Seq::new(made@.len(), |i: int| (made@[i].0@, made@[i].1));
            let after = take_commands(p, all);
            final(commands)@ == after.commands && final(faulted)@.dom() == after.faulted
        }),
{
    let n: usize = made.len();
    let ghost all = Seq::new(made@.len(), |i: int| (made@[i].0@, made@[i].1));
    for i in 0..n
        invariant
            n == made@.len(),
            all == Seq::new(made@.len(), |i: int| (made@[i].0@, made@[i].1)),
            commands@ == take_commands(p, all.take(i as int)).commands,
            faulted@.dom() == take_commands(p, all.take(i as int)).faulted,
    {
        let channel = made[i].0.clone();
        let value = made[i].1;
        assert(all.take(i + 1).drop_last() =~= all.take(i as int));
        let ghost f = faulted@.dom();
        if value.is_trustworthy() {
            commands.insert(channel, value);
        } else {
            faulted.insert(channel, ());
            assert(faulted@.dom() =~= f.insert(channel@));
        }
    }
    assert(all.take(n as int) =~= all);
}

fn settle_faults(faulted: &mut NameSet, faults: &Vec<String>)
    ensures
        final(faulted)@.dom() == take_faults(
            old(faulted)@.dom(),
            Seq::new(faults@.len(), |i: int| faults@[i]@),
        ),
{
    let n: usize = faults.len();
    let ghost start = faulted@.dom();
    let ghost all = Seq::new(faults@.len(), |i: int| faults@[i]@);
    assert(faulted@.dom() =~= take_faults(start, all.take(0)));
    for i in 0..n
        invariant
            n == faults@.len(),
            all == Seq::new(faults@.len(), |i: int| faults@[i]@),
            faulted@.dom() == take_faults(start, all.take(i as int)),
    {
        let ghost before = faulted@.dom();
        faulted.insert(faults[i].clone(), ());
        proof {
            let next = all.take(i + 1);
            assert(next =~= all.take(i as int).push(all[i as int]));
            assert forall|c: Text| next.to_set().contains(c) <==> all.take(i as int).to_set().contains(
                c,
            ) || c == all[i as int] by {
                if all.take(i as int).contains(c) {
                    let k = all.take(i as int).index_of(c);
                    assert(next[k] == c);
                }
                assert(next[i as int] == all[i as int]);
            }
            assert(faulted@.dom() =~= take_faults(start, next));
        }
    }
    assert(all.take(n as int) =~= all);
}

impl CompiledGraph {
    fn out_type(&self, id: &NodeId) -> (r: Option<Quantity>)
        ensures
            r == out_type(self@, id@),
    {
        match self.types().get(&PortRef::new(id.0.as_str(), "out")) {
            Some(q) => *q,
            None => None,
        }
    }

    /// Evaluates one tick against sensor readings and an elapsed time, with the exponentials
    /// that the graph's low-pass filters need for it, as [`CompiledGraph::decay_exponents`] asks
    /// for them.
    pub fn tick_with(
        &self,
        sensors: &SensorReadings,
        dt: Scalar,
        decays: &Vec<Decay>,
        state: &mut EvalState,
    ) -> (r: TickResult)
        ensures
            ({
                let t = TickView {
                    sensors: sensors@,
                    dt,
                    tachometers: Map::empty(),
                    decays: decays@,
                };
                let done = ticked(self@, t, old(state)@);
                &&& r.commands@ == done.commands
                &&& r.wire_values@ == done.outputs
                &&& r.faulted_channels@.dom() == done.faulted
                &&& final(state)@ == done.states
            }),
    {
        self.tick(&TickInput::new(sensors, dt).with_decays(decays), state)
    }

    /// Evaluates one tick.
    ///
    /// Total: a compiled graph always produces a result. Individual channels can still
    /// *fault* when a sensor reads NaN or a node produces a non-finite value; that is
    /// reported.
    pub fn tick(&self, ctx: &TickInput<'_>, state: &mut EvalState) -> (r: TickResult)
        ensures
            r.commands@ == ticked(self@, ctx@, old(state)@).commands,
            r.wire_values@ == ticked(self@, ctx@, old(state)@).outputs,
            r.faulted_channels@.dom() == ticked(self@, ctx@, old(state)@).faulted,
            final(state)@ == ticked(self@, ctx@, old(state)@).states,
    {
        proof {
            use_type_invariant(self);
            self.lemma_sound();
        }
        let ghost c = self@;
        let ghost t = ctx@;
        let ghost start = state@;
        let graph = self.graph();
        let mut commands: Commands = OrdMap::new();
        let mut faulted: NameSet = OrdMap::new();
        // Values produced by each output port this tick.
        let mut outputs: OrdMap<PortRef, Value> = OrdMap::new();
        assert(faulted@.dom() =~= Set::empty());
        // Phase one: delayed outputs. They must be available before the topological pass
        // begins; that is what makes feedback expressible.
        let n: usize = graph.nodes.len();
        for i in 0..n
            invariant
                graph@ == c.graph,
                c == self@,
                c.sound(),
                t == ctx@,
                n == c.graph.ids.len(),
                outputs@ == sourced_first(c, t, start, i as nat).outputs,
                state@ == sourced_first(c, t, start, i as nat).states,
                sourced_first(c, t, start, i as nat).commands == Map::<Text, Value>::empty(),
                sourced_first(c, t, start, i as nat).faulted == Set::<Text>::empty(),
        {
            let id = graph.nodes.key_at(i);
            let instance = graph.nodes.value_at(i);
            let out_type = self.out_type(id);
            let remembered = state.entry(id.copy());
            let values = instance.kind.sourced(ctx, remembered, out_type);
            put_values(&mut outputs, id, &values);
        }
        // Phase two: everything else, in dependency order.
        let order = self.order();
        let m: usize = order.len();
        for i in 0..m
            invariant
                graph@ == c.graph,
                c == self@,
                c.sound(),
                t == ctx@,
                m == order@.len(),
                id_views(order@) == c.order,
                outputs@ == evaluated_first(c, t, start, i as nat).outputs,
                commands@ == evaluated_first(c, t, start, i as nat).commands,
                faulted@.dom() == evaluated_first(c, t, start, i as nat).faulted,
                state@ == evaluated_first(c, t, start, i as nat).states,
        {
            let id = &order[i];
            assert(c.order[i as int] == id@);
            assert(c.order.contains(id@));
            let ghost p = evaluated_first(c, t, start, i as nat);
            if let Some(instance) = graph.node(id) {
                let inputs = gather(graph, &outputs, id, &instance.kind);
                let out_type = self.out_type(id);
                let remembered = state.entry(id.copy());
                let produced = instance.kind.eval(&inputs, ctx, remembered, out_type);
                put_values(&mut outputs, id, &produced.outputs);
                settle_commands(&mut commands, &mut faulted, &produced.commands, Ghost(p));
                settle_faults(&mut faulted, &produced.faults);
                proof {
                    assert(keyed(produced.outputs@) =~= produced@.outputs);
                }
            }
        }
        TickResult { commands, wire_values: outputs, faulted_channels: faulted }
    }

    /// The exponents whose exponentials a tick of this length needs: one for each low-pass
    /// filter, in node order.
    pub fn decay_exponents(&self, dt: Scalar) -> (r: Vec<Scalar>)
        ensures
            r@ == exponents_of(self@.graph, dt, self@.graph.ids.len()),
    {
        let graph = self.graph();
        let mut out: Vec<Scalar> = Vec::new();
        let n: usize = graph.nodes.len();
        for i in 0..n
            invariant
                n == graph@.ids.len(),
                out@ == exponents_of(graph@, dt, i as nat),
        {
            if let NodeKind::LowPass { tau_seconds } = &graph.nodes.value_at(i).kind {
                out.push(exponent_for(*tau_seconds, dt));
            }
        }
        out
    }
}

/// The exponents the low-pass filters among the first `n` nodes need.
pub open spec fn exponents_of(g: GraphView, dt: Scalar, n: nat) -> Seq<Scalar>
    decreases n,
{
    if n == 0 {
        Seq::empty()
    } else {
        let before = exponents_of(g, dt, (n - 1) as nat);
        match g.nodes[g.ids[n - 1]].kind {
            KindView::LowPass { tau_seconds } => before.push(decay_exponent(tau_seconds, dt)),
            _ => before,
        }
    }
}

} // verus!
