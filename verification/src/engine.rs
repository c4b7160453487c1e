//! The engine: owns the hardware backend and the active graph, and performs one tick when
//! told to.
//!
//! It reads no clock: the elapsed time is an argument.
//!
//! **Every acquired channel is dealt with on every tick: commanded, failsafed or reported.**
//! A channel that is merely *not mentioned* by the current graph is still ours until we
//! release it, and leaving it at whatever duty it happened to have is how a machine ends up
//! silently uncooled.
use crate::eval::{texts, Decay, SensorReadings, StateView, Tachometers, TickInput, TickView};
use crate::graph::{empty_graph, error_views, Graph, GraphError, GraphView, NameSet, PortRef};
use crate::hal::{
    hal_message, Backend, ChannelControl, ChannelId, ChannelInfo, Event, HalError, OutputChannel,
    SensorId, SensorInfo, SensorKind, SensorSource,
};
use crate::infer::port_types;
use crate::ordmap::{ascending, lemma_names_unique, Key, OrdMap};
use crate::policy::{added, applied_run, apply_tick, breath_run, dying_breath, every_policy_channel_is_accounted_for, keys_of, name_views, outcome_of, successes, the_dying_breath_covers_every_channel, unconfigured, Applied, AppliedView, ChannelPolicy, Outcome, PolicyView, SafetyPolicy};
use crate::scalar::{whole, Scalar};
use crate::text::{joined, Text};
use crate::tick::{ticked, EvalState, Progress};
use crate::units::{Quantity, Value};
use crate::validate::{all_errors, evaluation_order, CompiledGraph, CompiledView};
use vstd::prelude::*;

verus! {

// --- Configuration -----------------------------------------------------------------------------

/// Engine tuning.
#[derive(Debug, Clone, Copy, PartialEq)]
pub struct EngineConfig {
    /// Nominal evaluation rate.
    pub tick_hz: Scalar,
    /// Upper bound on the elapsed time of one tick, in seconds.
    ///
    /// A machine resuming from sleep can hand the engine an enormous elapsed time.
    /// Integrating that would step every filter straight to saturation, so a long gap is
    /// treated as a single long-ish tick.
    pub max_dt_seconds: Scalar,
}

impl Default for EngineConfig {
    fn default() -> (r: EngineConfig)
        ensures
            r.tick_hz == whole(10),
            r.max_dt_seconds == whole(1),
    {
        EngineConfig { tick_hz: Scalar::whole(10), max_dt_seconds: Scalar::whole(1) }
    }
}

/// The nominal length of a tick.
pub open spec fn period(config: EngineConfig) -> Scalar {
    whole(1).over(config.tick_hz.larger(whole(1).over(whole(10))))
}

/// An elapsed time an integrator can safely consume: a zero or nonsense interval counts as
/// one nominal period, a long one is cut short.
pub open spec fn sanitized(dt: Scalar, config: EngineConfig) -> Scalar {
    if !dt.finite() || dt.at_most(whole(0)) {
        period(config)
    } else {
        dt.smaller(config.max_dt_seconds)
    }
}

impl EngineConfig {
    /// The nominal length of a tick.
    pub fn tick_period_seconds(&self) -> (r: Scalar)
        ensures
            r == period(*self),
    {
        Scalar::whole(1).div(self.tick_hz.max(Scalar::whole(1).div(Scalar::whole(10))))
    }
}

/// Brings an elapsed time into something an integrator can safely consume.
pub fn sanitize_dt(dt: Scalar, config: &EngineConfig) -> (r: Scalar)
    ensures
        r == sanitized(dt, *config),
{
    if !dt.is_finite() || dt.le(Scalar::whole(0)) {
        config.tick_period_seconds()
    } else {
        dt.min(config.max_dt_seconds)
    }
}

// --- What the backend offers ---------------------------------------------------------------------

/// What a sensor kind measures, in the graph's vocabulary.
pub open spec fn measures(kind: SensorKind) -> Quantity {
    match kind {
        SensorKind::Temperature => Quantity::Temperature,
        SensorKind::Fan => Quantity::Rpm,
        SensorKind::Voltage => Quantity::Voltage,
        SensorKind::Current => Quantity::Current,
        SensorKind::Power => Quantity::Power,
        SensorKind::Load => Quantity::Load,
    }
}

/// What each sensor kind measures, in the graph's vocabulary.
pub fn quantity_of(kind: SensorKind) -> (r: Quantity)
    ensures
        r == measures(kind),
{
    match kind {
        SensorKind::Temperature => Quantity::Temperature,
        SensorKind::Fan => Quantity::Rpm,
        SensorKind::Voltage => Quantity::Voltage,
        SensorKind::Current => Quantity::Current,
        SensorKind::Power => Quantity::Power,
        SensorKind::Load => Quantity::Load,
    }
}

/// The quantity of each of the first `n` sensors.
pub open spec fn quantities_in(list: Seq<SensorInfo>, n: nat) -> Map<Text, Quantity>
    decreases n,
{
    if n == 0 {
        Map::empty()
    } else {
        quantities_in(list, (n - 1) as nat).insert(list[n - 1].id@, measures(list[n - 1].kind))
    }
}

/// The quantity of each sensor of a list.
pub fn quantities_of(list: &Vec<SensorInfo>) -> (r: OrdMap<SensorId, Quantity>)
    ensures
        r@ == quantities_in(list@, list@.len()),
{
    let mut out: OrdMap<SensorId, Quantity> = OrdMap::new();
    let n: usize = list.len();
    for i in 0..n
        invariant
            n == list@.len(),
            out@ == quantities_in(list@, i as nat),
    {
        out.insert(list[i].id.clone(), quantity_of(list[i].kind));
    }
    out
}

/// Which sensor reads back each of the first `n` channels.
pub open spec fn tachometers_in(list: Seq<ChannelInfo>, n: nat) -> Map<Text, Text>
    decreases n,
{
    if n == 0 {
        Map::empty()
    } else {
        let before = tachometers_in(list, (n - 1) as nat);
        match list[n - 1].tachometer {
            Some(t) => before.insert(list[n - 1].id@, t@),
            None => before,
        }
    }
}

/// Which sensor reads back each channel of a list.
pub fn tachometers_of(list: &Vec<ChannelInfo>) -> (r: Tachometers)
    ensures
        texts(r@) == tachometers_in(list@, list@.len()),
{
    let mut out: Tachometers = OrdMap::new();
    let n: usize = list.len();
    assert(texts(out@) =~= Map::empty());
    for i in 0..n
        invariant
            n == list@.len(),
            texts(out@) == tachometers_in(list@, i as nat),
    {
        if let Some(t) = &list[i].tachometer {
            let ghost before = texts(out@);
            out.insert(list[i].id.clone(), t.clone());
            assert(texts(out@) =~= before.insert(list@[i as int].id@, t@));
        }
    }
    out
}

/// What a backend that could not be enumerated offers: nothing.
pub open spec fn listed<T>(answer: Result<Vec<T>, HalError>) -> Seq<T> {
    match answer {
        Ok(list) => list@,
        Err(_) => Seq::empty(),
    }
}

fn list_or_nothing<T>(answer: Result<Vec<T>, HalError>) -> (r: Vec<T>)
    ensures
        r@ == listed(answer),
{
    match answer {
        Ok(list) => list,
        Err(_) => Vec::new(),
    }
}

/// Raw readings, tagged with what each sensor measures and brought into its range. A sensor
/// the backend did not enumerate is dropped rather than guessed at.
pub open spec fn tagged(raw: Map<Text, Scalar>, quantities: Map<Text, Quantity>) -> Map<
    Text,
    Value,
> {
    Map::new(
        |id: Text| raw.dom().contains(id) && quantities.dom().contains(id),
        |id: Text|
            Value { quantity: quantities[id], scalar: quantities[id].clamped(raw[id]) },
    )
}

/// Tags raw readings with what each sensor measures.
pub fn tag_readings(
    raw: &OrdMap<SensorId, Scalar>,
    quantities: &OrdMap<SensorId, Quantity>,
) -> (r: SensorReadings)
    ensures
        r@ == tagged(raw@, quantities@),
{
    let mut out: SensorReadings = OrdMap::new();
    let n: usize = raw.len();
    let ghost all = tagged(raw@, quantities@);
    proof {
        use_type_invariant(raw);
        raw.lemma_wf();
    }
    for i in 0..n
        invariant
            n == raw.names().len(),
            all == tagged(raw@, quantities@),
            forall|id: Text| #[trigger]
                out@.dom().contains(id) ==> all.dom().contains(id) && out@[id] == all[id],
            forall|k: int|
                0 <= k < i && quantities@.dom().contains(#[trigger] raw.names()[k])
                    ==> out@.dom().contains(raw.names()[k]),
    {
        let id = raw.key_at(i);
        if let Some(q) = quantities.get(id) {
            let ghost before = out@;
            let scalar = *raw.value_at(i);
            out.insert(id.clone(), Value::new(*q, scalar));
            proof {
                assert forall|k: int|
                    0 <= k < i + 1 && quantities@.dom().contains(#[trigger] raw.names()[k]) implies out@.dom().contains(
                raw.names()[k]) by {
                    if k < i {
                        assert(before.dom().contains(raw.names()[k]));
                    }
                }
            }
        }
    }
    proof {
        assert forall|id: Text| all.dom().contains(id) implies out@.dom().contains(id) by {
            let k = raw.names().index_of(id);
            assert(raw.names()[k] == id);
        }
        assert(out@ =~= all);
    }
    out
}

// --- Reports ---------------------------------------------------------------------------------------

/// What the sensors reported this tick.
#[derive(Debug)]
pub struct SensorSnapshot {
    pub values: SensorReadings,
    /// Set when the backend could not be read at all.
    pub error: Option<String>,
}

impl SensorSnapshot {
    /// Whether this is what a read of the sensors comes to: what it gave, tagged by what each
    /// sensor measures, or the message of what went wrong and no readings at all.
    pub open spec fn shows(
        self,
        read: Result<Map<Text, Scalar>, HalError>,
        quantities: Map<Text, Quantity>,
    ) -> bool {
        match read {
            Ok(raw) => self.error is None && self.values@ == tagged(raw, quantities),
            Err(e) => (self.error matches Some(s) && s@ == hal_message(e)) && self.values@
                == Map::<Text, Value>::empty(),
        }
    }
}

/// The outcome of one tick.
#[derive(Debug)]
pub struct TickReport {
    pub applied: Applied,
    /// Every value on every wire.
    pub wire_values: OrdMap<PortRef, Value>,
    pub sensors: SensorSnapshot,
    pub faulted_channels: NameSet,
    /// The elapsed time actually used.
    pub dt: Scalar,
    /// True when no graph was evaluated: no profile loaded, or the sensors could not be
    /// read. Every channel the policy covers was failsafed.
    pub degraded: bool,
}

/// What the active backend can see on this machine.
#[derive(Debug)]
pub struct Inventory {
    pub backend: String,
    pub sensors: Vec<SensorInfo>,
    pub channels: Vec<ChannelInfo>,
}

// --- The engine --------------------------------------------------------------------------------------

/// Owns the backend and the active graph.
pub struct Engine<B: Backend> {
    backend: B,
    config: EngineConfig,
    /// Quantity for each sensor the backend enumerated, so a raw number can be tagged with
    /// what it measures before it reaches the graph.
    sensor_quantities: OrdMap<SensorId, Quantity>,
    /// Which sensor reads back each channel.
    tachometers: Tachometers,
    graph: Graph,
    compiled: Option<CompiledGraph>,
    eval: EvalState,
    holdings: Holdings,
}

/// What we hold, and the policy that covers it.
///
/// Nothing held is outside the policy, so nothing held can be skipped by a tick.
struct Holdings {
    policy: SafetyPolicy,
    acquired: NameSet,
}

impl Holdings {
    #[verifier::type_invariant]
    spec fn wf(&self) -> bool {
        forall|c: Text| #[trigger]
            self.acquired@.dom().contains(c) ==> self.policy@.channels.dom().contains(c)
    }

    fn new() -> (r: Holdings)
        ensures
            r.policy@.channels == Map::<Text, ChannelPolicy>::empty(),
            r.policy@.default == unconfigured(),
            r.acquired@.dom() == Set::<Text>::empty(),
    {
        let acquired: NameSet = OrdMap::new();
        assert(acquired@.dom() =~= Set::empty());
        Holdings { policy: SafetyPolicy::new(), acquired }
    }

    /// Takes a channel up, covering it.
    fn hold(&mut self, channel: &ChannelId)
        ensures
            final(self).acquired@.dom() == old(self).acquired@.dom().insert(channel@),
            final(self).policy@.channels == if old(self).policy@.channels.dom().contains(channel@) {
                old(self).policy@.channels
            } else {
                old(self).policy@.channels.insert(channel@, unconfigured())
            },
            final(self).policy@.default == old(self).policy@.default,
    {
        proof {
            use_type_invariant(&*self);
        }
        let ghost set = self.acquired@.dom();
        let mut all = Holdings::new();
        std::mem::swap(&mut all, self);
        let Holdings { mut policy, mut acquired } = all;
        policy.ensure_channel(channel.clone());
        acquired.insert(channel.clone(), ());
        assert(acquired@.dom() =~= set.insert(channel@));
        *self = Holdings { policy, acquired };
    }

    /// Lets a channel go. The policy keeps its entry.
    fn let_go(&mut self, channel: &ChannelId)
        ensures
            final(self).acquired@.dom() == old(self).acquired@.dom().remove(channel@),
            final(self).policy == old(self).policy,
    {
        proof {
            use_type_invariant(&*self);
        }
        let ghost set = self.acquired@.dom();
        let mut all = Holdings::new();
        std::mem::swap(&mut all, self);
        let Holdings { policy, mut acquired } = all;
        acquired.remove(channel);
        assert(acquired@.dom() =~= set.remove(channel@));
        *self = Holdings { policy, acquired };
    }

    /// Lets every channel go.
    fn let_all_go(&mut self)
        ensures
            final(self).acquired@.dom() == Set::<Text>::empty(),
            final(self).acquired.names() == Seq::<Text>::empty(),
            final(self).policy == old(self).policy,
    {
        let mut all = Holdings::new();
        std::mem::swap(&mut all, self);
        let Holdings { policy, acquired: _ } = all;
        let nothing: NameSet = OrdMap::new();
        assert(nothing@.dom() =~= Set::empty());
        *self = Holdings { policy, acquired: nothing };
    }
}

/// An engine, as contracts speak of it.
#[verifier::ext_equal]
pub struct EngineView {
    pub config: EngineConfig,
    pub quantities: Map<Text, Quantity>,
    pub tachometers: Map<Text, Text>,
    pub graph: GraphView,
    pub compiled: Option<CompiledView>,
    pub eval: Map<Text, StateView>,
    pub policy: PolicyView,
    pub acquired: Set<Text>,
    /// The acquired channels in order.
    pub held: Seq<Text>,
    /// The requests that reached the backend.
    pub log: Seq<Event>,
}

impl<B: Backend> View for Engine<B> {
    type V = EngineView;

    closed spec fn view(&self) -> EngineView {
        EngineView {
            config: self.config,
            quantities: self.sensor_quantities@,
            tachometers: texts(self.tachometers@),
            graph: self.graph@,
            compiled: match self.compiled {
                Some(c) => Some(c@),
                None => None,
            },
            eval: self.eval@,
            policy: self.holdings.policy@,
            acquired: self.holdings.acquired@.dom(),
            held: self.holdings.acquired.names(),
            log: self.backend.log(),
        }
    }
}

impl EngineView {
    /// Nothing we hold is outside the policy, so nothing we hold can be skipped by a tick.
    pub open spec fn covered(self) -> bool {
        forall|c: Text| #[trigger]
            self.acquired.contains(c) ==> self.policy.channels.dom().contains(c)
    }
}

/// The channels a graph drives, in order.
pub open spec fn channel_names(g: GraphView) -> Seq<Text> {
    choose|names: Seq<Text>|
        ascending::<String>(names) && forall|c: Text| names.contains(c) <==> g.drives(c)
}

proof fn lemma_channel_names(g: GraphView, names: Seq<Text>)
    requires
        ascending::<String>(names),
        forall|c: Text| names.contains(c) <==> g.drives(c),
    ensures
        channel_names(g) == names,
{
    lemma_names_unique::<String>(channel_names(g), names);
}

/// The held channels that are no longer wanted, among the first `n`.
pub open spec fn unwanted(held: Seq<Text>, g: GraphView, n: nat) -> Seq<Text>
    decreases n,
{
    if n == 0 {
        Seq::empty()
    } else {
        let before = unwanted(held, g, (n - 1) as nat);
        if g.drives(held[n - 1]) {
            before
        } else {
            before.push(held[n - 1])
        }
    }
}

/// Channels being exchanged for those of a new graph.
#[verifier::ext_equal]
pub struct Exchange {
    pub acquired: Set<Text>,
    pub channels: Map<Text, ChannelPolicy>,
    pub events: Seq<Event>,
}

/// The first `n` channels of a list released. A release that fails still lets go: a header
/// that can no longer be driven is better off than one held at a duty nothing updates.
pub open spec fn release_run(start: Exchange, list: Seq<Text>, oks: Seq<bool>, n: nat) -> Exchange
    decreases n,
{
    if n == 0 {
        start
    } else {
        let before = release_run(start, list, oks, (n - 1) as nat);
        Exchange {
            acquired: before.acquired.remove(list[n - 1]),
            events: before.events.push(
                Event::Release { channel: list[n - 1], ok: oks[before.events.len() as int] },
            ),
            ..before
        }
    }
}

/// The first `n` channels of a list acquired, where they are not already. Coverage comes
/// with acquisition.
pub open spec fn acquire_run(start: Exchange, list: Seq<Text>, oks: Seq<bool>, n: nat) -> Exchange
    decreases n,
{
    if n == 0 {
        start
    } else {
        let before = acquire_run(start, list, oks, (n - 1) as nat);
        let channel = list[n - 1];
        if before.acquired.contains(channel) {
            before
        } else {
            let ok = oks[before.events.len() as int];
            Exchange {
                acquired: if ok {
                    before.acquired.insert(channel)
                } else {
                    before.acquired
                },
                channels: if ok && !before.channels.dom().contains(channel) {
                    before.channels.insert(channel, unconfigured())
                } else {
                    before.channels
                },
                events: before.events.push(Event::Acquire { channel, ok }),
            }
        }
    }
}

/// What installing a graph does to the channels: those it no longer drives are released,
/// then those it drives are acquired.
pub open spec fn exchanged(e: EngineView, g: GraphView, oks: Seq<bool>) -> Exchange {
    let start = Exchange {
        acquired: e.acquired,
        channels: e.policy.channels,
        events: Seq::empty(),
    };
    let list = unwanted(e.held, g, e.held.len());
    let released = release_run(start, list, oks, list.len());
    acquire_run(released, channel_names(g), oks, channel_names(g).len())
}

spec fn agree(a: Seq<bool>, b: Seq<bool>, n: nat) -> bool {
    forall|i: int| 0 <= i < n ==> a[i] == b[i]
}

proof fn lemma_release_stable(start: Exchange, list: Seq<Text>, a: Seq<bool>, b: Seq<bool>, n: nat)
    requires
        agree(a, b, release_run(start, list, a, n).events.len()),
    ensures
        release_run(start, list, a, n) == release_run(start, list, b, n),
    decreases n,
{
    if n > 0 {
        lemma_release_stable(start, list, a, b, (n - 1) as nat);
    }
}

proof fn lemma_acquire_stable(start: Exchange, list: Seq<Text>, a: Seq<bool>, b: Seq<bool>, n: nat)
    requires
        agree(a, b, acquire_run(start, list, a, n).events.len()),
    ensures
        acquire_run(start, list, a, n) == acquire_run(start, list, b, n),
    decreases n,
{
    if n > 0 {
        lemma_acquire_stable(start, list, a, b, (n - 1) as nat);
    }
}

proof fn lemma_unwanted(held: Seq<Text>, g: GraphView, n: nat, i: int)
    requires
        0 <= i < n <= held.len(),
        !g.drives(held[i]),
    ensures
        unwanted(held, g, n).contains(held[i]),
    decreases n,
{
    let before = unwanted(held, g, (n - 1) as nat);
    if i < n - 1 {
        lemma_unwanted(held, g, (n - 1) as nat, i);
        let k = before.index_of(held[i]);
        assert(unwanted(held, g, n)[k] == held[i]);
    } else {
        assert(unwanted(held, g, n)[before.len() as int] == held[i]);
    }
}

proof fn lemma_release_acquired(start: Exchange, list: Seq<Text>, oks: Seq<bool>, n: nat, c: Text)
    requires
        n <= list.len(),
        release_run(start, list, oks, n).acquired.contains(c),
    ensures
        start.acquired.contains(c),
        forall|i: int| 0 <= i < n ==> #[trigger] list[i] != c,
    decreases n,
{
    if n > 0 {
        lemma_release_acquired(start, list, oks, (n - 1) as nat, c);
    }
}

proof fn lemma_acquire_acquired(start: Exchange, list: Seq<Text>, oks: Seq<bool>, n: nat, c: Text)
    requires
        n <= list.len(),
        acquire_run(start, list, oks, n).acquired.contains(c),
    ensures
        start.acquired.contains(c) || list.contains(c),
    decreases n,
{
    if n > 0 && acquire_run(start, list, oks, (n - 1) as nat).acquired.contains(c) {
        lemma_acquire_acquired(start, list, oks, (n - 1) as nat, c);
    } else if n > 0 {
        assert(list[n - 1] == c);
    }
}

proof fn lemma_only_driven_are_held(e: EngineView, g: GraphView, oks: Seq<bool>, c: Text)
    requires
        forall|x: Text| #[trigger] e.acquired.contains(x) <==> e.held.contains(x),
        forall|x: Text| channel_names(g).contains(x) <==> g.drives(x),
        exchanged(e, g, oks).acquired.contains(c),
    ensures
        g.drives(c),
{
    let start = Exchange {
        acquired: e.acquired,
        channels: e.policy.channels,
        events: Seq::empty(),
    };
    let list = unwanted(e.held, g, e.held.len());
    let released = release_run(start, list, oks, list.len());
    lemma_acquire_acquired(released, channel_names(g), oks, channel_names(g).len(), c);
    if released.acquired.contains(c) && !g.drives(c) {
        lemma_release_acquired(start, list, oks, list.len(), c);
        let i = e.held.index_of(c);
        lemma_unwanted(e.held, g, e.held.len(), i);
        let k = list.index_of(c);
        assert(list[k] == c);
    }
}

proof fn lemma_successes_extend(a: Seq<Event>, e: Event)
    ensures
        agree(successes(a), successes(a.push(e)), a.len()),
        successes(a.push(e))[a.len() as int] == e.succeeded(),
{
    assert forall|i: int| 0 <= i < a.len() implies successes(a)[i] == successes(a.push(e))[i] by {
        assert(a.push(e)[i] == a[i]);
    }
}

/// Whether a tick's results are listed in order.
pub open spec fn ordered(o: Outcome) -> bool {
    &&& ascending::<String>(o.names)
    &&& ascending::<String>(o.faulted_names)
    &&& forall|c: Text| #[trigger] o.commands.dom().contains(c) <==> o.names.contains(c)
    &&& forall|c: Text| #[trigger] o.faulted.contains(c) <==> o.faulted_names.contains(c)
}

/// What a tick that evaluated the graph comes to, given the readings it saw.
pub open spec fn evaluated_tick(
    e: EngineView,
    restores: bool,
    done: Progress,
    events: Seq<Event>,
    applied: AppliedView,
) -> bool {
    exists|o: Outcome|
        o.commands == done.commands && o.faulted == done.faulted && #[trigger] ordered(o) && ({
            let run = applied_run(e.policy, o, restores, successes(events));
            events == run.events && applied == run.applied
        })
}

/// What a tick that could not evaluate comes to: everything is let go of.
pub open spec fn blind_tick(
    e: EngineView,
    restores: bool,
    events: Seq<Event>,
    applied: AppliedView,
) -> bool {
    let run = breath_run(e.policy, restores, successes(events), e.policy.names.len());
    events == run.events && applied == run.applied
}

/// What installing a valid graph comes to: the engine runs it, and holds what it drives as far
/// as the backend let it.
pub open spec fn installed(before: EngineView, graph: GraphView, after: EngineView) -> bool {
    let events = added(before.log, after.log);
    let moved = exchanged(before, graph, successes(events));
    &&& all_errors(graph).len() == 0
    &&& after.log == before.log + events
    &&& events == moved.events
    &&& after.graph == graph
    &&& after.compiled == Some(
        CompiledView {
            graph,
            order: evaluation_order(graph)->Ok_0,
            types: port_types(graph),
        },
    )
    &&& after.eval == before.eval.restrict(graph.nodes.dom())
    &&& after.acquired == moved.acquired
    &&& after.policy.channels == moved.channels
    &&& after.policy.default == before.policy.default
    &&& after.config == before.config
    &&& after.quantities == before.quantities
    &&& after.tachometers == before.tachometers
    &&& forall|c: Text| #[trigger] after.acquired.contains(c) ==> graph.drives(c)
}

/// What replacing the policy comes to: the given one, and an entry for everything held.
pub open spec fn repoliced(before: EngineView, policy: PolicyView, after: EngineView) -> bool {
    &&& forall|c: Text|
        #![trigger after.policy.channels.dom().contains(c)]
        after.policy.channels.dom().contains(c) <==> policy.channels.dom().contains(c)
            || before.acquired.contains(c)
    &&& forall|c: Text| #[trigger]
        after.policy.channels.dom().contains(c) ==> after.policy.channels[c]
            == if policy.channels.dom().contains(c) {
            policy.channels[c]
        } else {
            unconfigured()
        }
    &&& after == (EngineView { policy: after.policy, ..before })
    &&& after.policy.default == policy.default
}

impl<B: Backend> Engine<B> {
    /// The backend.
    pub closed spec fn device(&self) -> B {
        self.backend
    }

    /// Creates an engine over a backend, enumerating its sensors.
    pub fn new(backend: B, config: EngineConfig) -> (r: Engine<B>)
        ensures
            r.device() == backend,
            r@.config == config,
            exists|answer: Result<Vec<SensorInfo>, HalError>| #[trigger]
                call_ensures(B::sensors, (&backend,), answer) && r@.quantities == quantities_in(
                    listed(answer),
                    listed(answer).len(),
                ),
            exists|answer: Result<Vec<ChannelInfo>, HalError>| #[trigger]
                call_ensures(B::channels, (&backend,), answer) && r@.tachometers == tachometers_in(
                    listed(answer),
                    listed(answer).len(),
                ),
            r@.graph == empty_graph(),
            r@.compiled is None,
            r@.eval == Map::<Text, StateView>::empty(),
            r@.policy.channels == Map::<Text, ChannelPolicy>::empty(),
            r@.policy.default == unconfigured(),
            r@.acquired == Set::<Text>::empty(),
            r@.log == backend.log(),
            r@.covered(),
    {
        let sensors = list_or_nothing(backend.sensors());
        let channels = list_or_nothing(backend.channels());
        Engine {
            backend,
            config,
            sensor_quantities: quantities_of(&sensors),
            tachometers: tachometers_of(&channels),
            graph: Graph::new(),
            compiled: None,
            eval: EvalState::new(),
            holdings: Holdings::new(),
        }
    }

    /// The backend's name.
    pub fn backend_name(&self) -> (r: String)
        ensures
            call_ensures(B::name, (&self.device(),), r),
    {
        self.backend.name()
    }

    /// Everything the backend advertises.
    pub fn inventory(&self) -> (r: Inventory)
        ensures
            call_ensures(B::name, (&self.device(),), r.backend),
            exists|answer: Result<Vec<SensorInfo>, HalError>| #[trigger]
                call_ensures(B::sensors, (&self.device(),), answer) && r.sensors@ == listed(answer),
            exists|answer: Result<Vec<ChannelInfo>, HalError>| #[trigger]
                call_ensures(B::channels, (&self.device(),), answer) && r.channels@ == listed(
                    answer,
                ),
    {
        let backend = self.backend.name();
        let sensors = list_or_nothing(self.backend.sensors());
        let channels = list_or_nothing(self.backend.channels());
        Inventory { backend, sensors, channels }
    }

    /// The engine's tuning.
    pub fn config(&self) -> (r: EngineConfig)
        ensures
            r == self@.config,
    {
        self.config
    }

    /// The graph the engine is running.
    pub fn graph(&self) -> (r: &Graph)
        ensures
            r@ == self@.graph,
    {
        &self.graph
    }

    /// The compiled graph, where one is installed.
    pub fn compiled(&self) -> (r: Option<&CompiledGraph>)
        ensures
            match r {
                Some(c) => self@.compiled == Some(c@),
                None => self@.compiled is None,
            },
    {
        match &self.compiled {
            Some(c) => Some(c),
            None => None,
        }
    }

    /// The safety policy.
    pub fn policy(&self) -> (r: &SafetyPolicy)
        ensures
            r@ == self@.policy,
    {
        &self.holdings.policy
    }

    /// Sensors the backend advertises.
    pub fn available_sensors(&self) -> (r: &OrdMap<SensorId, Quantity>)
        ensures
            r@ == self@.quantities,
    {
        &self.sensor_quantities
    }

    /// Channels currently under our control.
    pub fn acquired_channels(&self) -> (r: &NameSet)
        ensures
            r@.dom() == self@.acquired,
            r.names() == self@.held,
    {
        &self.holdings.acquired
    }

    /// Replaces the policy. Coverage is re-asserted: a replacement must not drop a channel
    /// we hold.
    pub fn set_policy(&mut self, policy: SafetyPolicy)
        ensures
            repoliced(old(self)@, policy@, final(self)@),
            final(self)@.covered(),
            final(self).device() == old(self).device(),
    {
        let mut replacement = policy;
        let ghost given = policy@;
        let n: usize = self.holdings.acquired.len();
        proof {
            use_type_invariant(&self.holdings.acquired);
            self.holdings.acquired.lemma_wf();
        }
        for i in 0..n
            invariant
                n == self.holdings.acquired.names().len(),
                replacement@.default == given.default,
                forall|c: Text|
                    #![trigger replacement@.channels.dom().contains(c)]
                    replacement@.channels.dom().contains(c) <==> given.channels.dom().contains(c)
                        || exists|k: int| 0 <= k < i && #[trigger] self.holdings.acquired.names()[k] == c,
                forall|c: Text| #[trigger]
                    replacement@.channels.dom().contains(c) ==> replacement@.channels[c]
                        == if given.channels.dom().contains(c) {
                        given.channels[c]
                    } else {
                        unconfigured()
                    },
        {
            let channel = self.holdings.acquired.key_at(i).clone();
            let ghost before = replacement@.channels;
            let ghost name = channel@;
            replacement.ensure_channel(channel);
            proof {
                assert forall|c: Text|
                    #![trigger replacement@.channels.dom().contains(c)]
                    replacement@.channels.dom().contains(c) <==> given.channels.dom().contains(c)
                        || exists|k: int| 0 <= k < i + 1 && #[trigger] self.holdings.acquired.names()[k] == c by {
                    if before.dom().contains(c) && !given.channels.dom().contains(c) {
                        let k = choose|k: int| 0 <= k < i && #[trigger] self.holdings.acquired.names()[k] == c;
                        assert(0 <= k < i + 1);
                    }
                    if c == name {
                        assert(self.holdings.acquired.names()[i as int] == c);
                    }
                    if exists|k: int| 0 <= k < i + 1 && #[trigger] self.holdings.acquired.names()[k] == c {
                        let k = choose|k: int|
                            0 <= k < i + 1 && #[trigger] self.holdings.acquired.names()[k] == c;
                        if k < i {
                            assert(before.dom().contains(c));
                        }
                    }
                }
                assert forall|c: Text| #[trigger]
                    replacement@.channels.dom().contains(c) implies replacement@.channels[c]
                    == if given.channels.dom().contains(c) {
                    given.channels[c]
                } else {
                    unconfigured()
                } by {
                    if before.dom().contains(c) {
                        assert(replacement@.channels[c] == before[c]);
                    }
                }
            }
        }
        proof {
            assert forall|c: Text| #[trigger]
                replacement@.channels.dom().contains(c) <==> given.channels.dom().contains(c)
                    || self@.acquired.contains(c) by {
                if self@.acquired.contains(c) {
                    let k = self.holdings.acquired.names().index_of(c);
                    assert(self.holdings.acquired.names()[k] == c);
                }
            }
        }
        let mut all = Holdings::new();
        std::mem::swap(&mut all, &mut self.holdings);
        let Holdings { policy: _, acquired } = all;
        self.holdings = Holdings { policy: replacement, acquired };
    }

    /// Re-enumerates the backend's sensors and channels.
    pub fn rescan(&mut self)
        ensures
            exists|answer: Result<Vec<SensorInfo>, HalError>| #[trigger]
                call_ensures(B::sensors, (&old(self).device(),), answer) && final(self)@.quantities
                    == quantities_in(listed(answer), listed(answer).len()),
            exists|answer: Result<Vec<ChannelInfo>, HalError>| #[trigger]
                call_ensures(B::channels, (&old(self).device(),), answer)
                    && final(self)@.tachometers == tachometers_in(listed(answer), listed(answer).len()),
            final(self)@ == (EngineView {
                quantities: final(self)@.quantities,
                tachometers: final(self)@.tachometers,
                ..old(self)@
            }),
            final(self).device() == old(self).device(),
    {
        proof {
            use_type_invariant(&self.holdings);
        }
        let ghost device = self.device();
        let sensed = self.backend.sensors();
        let driven = self.backend.channels();
        assert(call_ensures(B::sensors, (&device,), sensed));
        assert(call_ensures(B::channels, (&device,), driven));
        let sensors = list_or_nothing(sensed);
        let channels = list_or_nothing(driven);
        self.sensor_quantities = quantities_of(&sensors);
        self.tachometers = tachometers_of(&channels);
    }

    /// Installs a new graph.
    ///
    /// Validates first and changes nothing on failure, so a bad edit cannot take the running
    /// configuration down with it. Channels the new graph no longer drives are released back
    /// to firmware rather than left held at their last duty.
    pub fn set_graph(&mut self, graph: Graph) -> (r: Result<(), Vec<GraphError>>)
        ensures
            match r {
                Err(errors) => error_views(errors@) == all_errors(graph@) && errors@.len() > 0
                    && *final(self) == *old(self),
                Ok(_) => installed(old(self)@, graph@, final(self)@),
            },
            final(self)@.covered(),
            final(self).device().restores() == old(self).device().restores(),
            final(self).device().last_read() == old(self).device().last_read(),
    {
        proof {
            use_type_invariant(&self.holdings);
        }
        let compiled = match graph.validate() {
            Ok(c) => c,
            Err(errors) => return Err(errors),
        };
        let ghost before = self@;
        let ghost g = graph@;
        let ghost start = Exchange {
            acquired: before.acquired,
            channels: before.policy.channels,
            events: Seq::empty(),
        };
        let wanted = graph.output_channels();
        proof {
            use_type_invariant(&wanted);
            wanted.lemma_wf();
            assert forall|c: Text| wanted.names().contains(c) <==> g.drives(c) by {
                assert(wanted@.dom().contains(c) <==> g.drives(c));
            }
            lemma_channel_names(g, wanted.names());
        }
        proof {
            use_type_invariant(&self.holdings.acquired);
            self.holdings.acquired.lemma_wf();
        }
        let mut to_release: Vec<ChannelId> = Vec::new();
        let h: usize = self.holdings.acquired.len();
        assert(name_views(to_release@) =~= Seq::empty());
        for i in 0..h
            invariant
                h == before.held.len(),
                self@ == before,
                self.holdings.acquired.names() == before.held,
                forall|c: Text| #[trigger] wanted@.dom().contains(c) <==> g.drives(c),
                name_views(to_release@) == unwanted(before.held, g, i as nat),
                self.backend.restores() == old(self).backend.restores(),
                self.backend.last_read() == old(self).backend.last_read(),
        {
            let channel = self.holdings.acquired.key_at(i);
            if !wanted.contains_key(channel) {
                let ghost list = name_views(to_release@);
                to_release.push(channel.clone());
                assert(name_views(to_release@) =~= list.push(channel@));
            }
        }
        let ghost leaving = name_views(to_release@);
        let ghost mut state = start;
        let n: usize = to_release.len();
        assert(before.log + Seq::<Event>::empty() =~= before.log);
        for i in 0..n
            invariant
                n == to_release@.len(),
                leaving == name_views(to_release@),
                self@.covered(),
                self@.log == before.log + state.events,
                self@.acquired == state.acquired,
                self@.policy == before.policy,
                state.channels == before.policy.channels,
                self@ == (EngineView {
                    acquired: self@.acquired,
                    held: self@.held,
                    log: self@.log,
                    ..before
                }),
                state == release_run(start, leaving, successes(state.events), i as nat),
                self.backend.restores() == old(self).backend.restores(),
                self.backend.last_read() == old(self).backend.last_read(),
        {
            let channel = &to_release[i];
            assert(leaving[i as int] == channel@);
            let ghost earlier = state;
            // Best effort: a header we can no longer drive is still better off back under
            // firmware control than held at a duty nothing is updating.
            let ok = self.backend.release(channel).is_ok();
            self.holdings.let_go(channel);
            proof {
                let event = Event::Release { channel: channel@, ok };
                state = Exchange {
                    acquired: earlier.acquired.remove(channel@),
                    events: earlier.events.push(event),
                    ..earlier
                };
                lemma_successes_extend(earlier.events, event);
                lemma_release_stable(
                    start,
                    leaving,
                    successes(earlier.events),
                    successes(state.events),
                    i as nat,
                );
                assert(before.log + state.events =~= (before.log + earlier.events).push(event));
            }
        }
        let ghost released = state;
        let names = keys_of(&wanted);
        let ghost list = channel_names(g);
        let m: usize = names.len();
        for i in 0..m
            invariant
                m == names@.len(),
                list == name_views(names@),
                self@.covered(),
                self@.log == before.log + state.events,
                self@.acquired == state.acquired,
                self@.policy.channels == state.channels,
                self@.policy.default == before.policy.default,
                self@ == (EngineView {
                    acquired: self@.acquired,
                    held: self@.held,
                    policy: self@.policy,
                    log: self@.log,
                    ..before
                }),
                state == acquire_run(released, list, successes(state.events), i as nat),
                state.events.len() >= released.events.len(),
                forall|j: int|
                    0 <= j < released.events.len() ==> state.events[j] == released.events[j],
                self.backend.restores() == old(self).backend.restores(),
                self.backend.last_read() == old(self).backend.last_read(),
        {
            let channel = &names[i];
            assert(list[i as int] == channel@);
            let ghost earlier = state;
            if !self.holdings.acquired.contains_key(channel) {
                let ok = self.backend.acquire(channel).is_ok();
                if ok {
                    // Coverage is established at acquire time, so a tick can never meet a
                    // channel that is held but has no policy.
                    self.holdings.hold(channel);
                }
                proof {
                    let event = Event::Acquire { channel: channel@, ok };
                    state = Exchange {
                        acquired: self@.acquired,
                        channels: self@.policy.channels,
                        events: earlier.events.push(event),
                    };
                    lemma_successes_extend(earlier.events, event);
                    lemma_acquire_stable(
                        released,
                        list,
                        successes(earlier.events),
                        successes(state.events),
                        i as nat,
                    );
                    assert(before.log + state.events =~= (before.log + earlier.events).push(event));
                }
            }
        }
        proof {
            let a = successes(released.events);
            let b = successes(state.events);
            assert forall|j: int| 0 <= j < released.events.len() implies a[j] == b[j] by {
                assert(state.events[j] == released.events[j]);
            }
            lemma_release_stable(start, leaving, a, b, n as nat);
            assert(added(before.log, before.log + state.events) =~= state.events);
            assert forall|c: Text| #[trigger] self@.acquired.contains(c) implies g.drives(c) by {
                lemma_only_driven_are_held(before, g, b, c);
            }
        }
        self.eval.retain_nodes(&graph);
        self.graph = graph;
        self.compiled = Some(compiled);
        Ok(())
    }

    /// Evaluates and applies one tick.
    ///
    /// `decays` holds the exponentials the graph's low-pass filters need for this elapsed
    /// time, as [`Engine::decay_exponents`] asks for them.
    pub fn tick(&mut self, dt: Scalar, decays: &Vec<Decay>) -> (r: TickReport)
        ensures
            ({
                let before = old(self)@;
                let events = added(before.log, final(self)@.log);
                let used = sanitized(dt, before.config);
                &&& r.dt == used
                &&& r.degraded == (r.sensors.error is Some || before.compiled is None)
                &&& r.sensors.shows(final(self).device().last_read(), before.quantities)
                &&& final(self)@.log == before.log + events
                &&& if r.degraded {
                    &&& blind_tick(before, old(self).device().restores(), events, r.applied@)
                    &&& r.wire_values@ == Map::<crate::graph::PortKey, Value>::empty()
                    &&& r.faulted_channels@.dom() == before.acquired
                    &&& final(self)@ == (EngineView { log: final(self)@.log, ..before })
                } else {
                    let done = ticked(
                        before.compiled->0,
                        TickView {
                            sensors: r.sensors.values@,
                            dt: used,
                            tachometers: before.tachometers,
                            decays: decays@,
                        },
                        before.eval,
                    );
                    &&& evaluated_tick(
                        before,
                        old(self).device().restores(),
                        done,
                        events,
                        r.applied@,
                    )
                    &&& r.wire_values@ == done.outputs
                    &&& r.faulted_channels@.dom() == done.faulted
                    &&& final(self)@ == (EngineView {
                        log: final(self)@.log,
                        eval: done.states,
                        ..before
                    })
                }
            }),
            forall|c: Text| #[trigger] old(self)@.acquired.contains(c) ==> r.applied@.accounts_for(c),
            final(self)@.covered(),
            final(self).device().restores() == old(self).device().restores(),
    {
        proof {
            use_type_invariant(&self.holdings);
        }
        let ghost before = self@;
        let used = sanitize_dt(dt, &self.config);
        let raw = match self.backend.read_all() {
            Ok(values) => values,
            Err(err) => {
                // Blind. Nothing about the previous tick's numbers is evidence about now, so
                // the graph is not evaluated at all.
                let message = err.message();
                return self.degrade(
                    used,
                    SensorSnapshot { values: OrdMap::new(), error: Some(message) },
                );
            },
        };
        let sensors = tag_readings(&raw, &self.sensor_quantities);
        let snapshot = SensorSnapshot { values: sensors.clone(), error: None };
        assert(snapshot.shows(self.device().last_read(), before.quantities));
        let ghost restores = self.backend.restores();
        let compiled = match &self.compiled {
            Some(c) => c,
            None => {
                // No profile loaded. Anything we hold goes back to firmware.
                return self.degrade(used, snapshot);
            },
        };
        let tick = compiled.tick(
            &TickInput::new(&sensors, used).with_tachometers(&self.tachometers).with_decays(decays),
            &mut self.eval,
        );
        let applied = apply_tick(&tick, &self.holdings.policy, &mut self.backend);
        proof {
            let out = outcome_of(tick);
            let events = added(before.log, self@.log);
            use_type_invariant(&tick.commands);
            tick.commands.lemma_wf();
            use_type_invariant(&tick.faulted_channels);
            tick.faulted_channels.lemma_wf();
            use_type_invariant(&self.holdings.policy);
            self.holdings.policy.lemma_wf();
            assert(ordered(out));
            assert forall|c: Text| #[trigger] before.acquired.contains(c) implies applied@.accounts_for(
                c,
            ) by {
                every_policy_channel_is_accounted_for(
                    before.policy,
                    out,
                    restores,
                    successes(events),
                    c,
                );
            }
        }
        TickReport {
            applied,
            wire_values: tick.wire_values,
            sensors: snapshot,
            faulted_channels: tick.faulted_channels,
            dt: used,
            degraded: false,
        }
    }

    /// The exponents whose exponentials a tick of this length needs.
    pub fn decay_exponents(&self, dt: Scalar) -> (r: Vec<Scalar>)
        ensures
            r@ == match self@.compiled {
                Some(c) => crate::tick::exponents_of(
                    c.graph,
                    sanitized(dt, self@.config),
                    c.graph.ids.len(),
                ),
                None => Seq::empty(),
            },
    {
        match &self.compiled {
            Some(c) => c.decay_exponents(sanitize_dt(dt, &self.config)),
            None => Vec::new(),
        }
    }

    /// Failsafes every channel the policy covers and reports a degraded tick.
    fn degrade(&mut self, dt: Scalar, sensors: SensorSnapshot) -> (r: TickReport)
        ensures
            ({
                let before = old(self)@;
                let events = added(before.log, final(self)@.log);
                &&& r.dt == dt
                &&& r.degraded
                &&& r.sensors == sensors
                &&& final(self).device().last_read() == old(self).device().last_read()
                &&& final(self)@.log == before.log + events
                &&& blind_tick(before, old(self).device().restores(), events, r.applied@)
                &&& r.wire_values@ == Map::<crate::graph::PortKey, Value>::empty()
                &&& r.faulted_channels@.dom() == before.acquired
                &&& final(self)@ == (EngineView { log: final(self)@.log, ..before })
            }),
            forall|c: Text| #[trigger] old(self)@.acquired.contains(c) ==> r.applied@.accounts_for(c),
            final(self)@.covered(),
            final(self).device().restores() == old(self).device().restores(),
    {
        proof {
            use_type_invariant(&self.holdings);
            use_type_invariant(&self.holdings.policy);
            self.holdings.policy.lemma_wf();
        }
        let ghost before = self@;
        let ghost restores = self.backend.restores();
        let applied = dying_breath(&self.holdings.policy, &mut self.backend);
        proof {
            let events = added(before.log, self@.log);
            assert forall|c: Text| #[trigger] before.acquired.contains(c) implies applied@.accounts_for(
                c,
            ) by {
                the_dying_breath_covers_every_channel(
                    before.policy,
                    restores,
                    successes(events),
                    c,
                );
            }
        }
        TickReport {
            faulted_channels: self.holdings.acquired.clone(),
            applied,
            wire_values: OrdMap::new(),
            sensors,
            dt,
            degraded: true,
        }
    }

    /// Hands every channel back and stops controlling anything. Safe to call more than once.
    pub fn shutdown(&mut self) -> (r: Applied)
        ensures
            ({
                let before = old(self)@;
                let events = added(before.log, final(self)@.log);
                &&& final(self)@.log == before.log + events
                &&& blind_tick(before, old(self).device().restores(), events, r@)
                &&& final(self)@ == (EngineView {
                    log: final(self)@.log,
                    acquired: Set::empty(),
                    held: Seq::empty(),
                    compiled: None,
                    ..before
                })
            }),
            forall|c: Text| #[trigger] old(self)@.acquired.contains(c) ==> r@.accounts_for(c),
            final(self)@.covered(),
            final(self).device().restores() == old(self).device().restores(),
            final(self).device().last_read() == old(self).device().last_read(),
    {
        proof {
            use_type_invariant(&self.holdings);
            use_type_invariant(&self.holdings.policy);
            self.holdings.policy.lemma_wf();
        }
        let ghost before = self@;
        let ghost restores = self.backend.restores();
        let applied = dying_breath(&self.holdings.policy, &mut self.backend);
        proof {
            let events = added(before.log, self@.log);
            assert forall|c: Text| #[trigger] before.acquired.contains(c) implies applied@.accounts_for(
                c,
            ) by {
                the_dying_breath_covers_every_channel(
                    before.policy,
                    restores,
                    successes(events),
                    c,
                );
            }
        }
        self.holdings.let_all_go();
        self.compiled = None;
        applied
    }

    /// Who is driving each of the backend's channels right now.
    ///
    /// A backend that cannot tell, or fails to, reports `Unknown`, which means *no
    /// information*, never "nobody else".
    pub fn channel_controls(&self) -> (r: Vec<(ChannelId, ChannelControl)>)
        ensures
            exists|answer: Result<Vec<ChannelInfo>, HalError>| #[trigger]
                call_ensures(B::channels, (&self.device(),), answer) && r@.len() == listed(
                    answer,
                ).len() && forall|i: int|
                    0 <= i < r@.len() ==> (#[trigger] r@[i]).0@ == listed(answer)[i].id@
                        && says_of(self.device(), listed(answer)[i].id, r@[i].1),
    {
        let answer = self.backend.channels();
        let ghost given = answer;
        assert(call_ensures(B::channels, (&self.device(),), given));
        let list = list_or_nothing(answer);
        let mut out: Vec<(ChannelId, ChannelControl)> = Vec::new();
        let n: usize = list.len();
        for i in 0..n
            invariant
                n == list@.len(),
                out@.len() == i,
                list@ == listed(given),
                forall|k: int|
                    0 <= k < i ==> (#[trigger] out@[k]).0@ == list@[k].id@ && says_of(
                        self.device(),
                        list@[k].id,
                        out@[k].1,
                    ),
        {
            let id = &list[i].id;
            let control = self.backend.control_of(id);
            assert(call_ensures(B::control_of, (&self.device(), &list@[i as int].id), control));
            let settled = match control {
                Ok(c) => c,
                Err(_) => ChannelControl::Unknown,
            };
            out.push((id.clone(), settled));
            assert(says_of(self.device(), list@[i as int].id, settled));
        }
        out
    }

    /// Hands channels to the device's own control algorithm.
    ///
    /// Recovery for channels some other application left in manual and abandoned. Refuses
    /// any channel **we** hold, because that is not abandoned. Reports per channel: one
    /// header that will not take the write must not prevent the rest from being rescued.
    pub fn hand_back_to_firmware(&mut self, channels: &Vec<ChannelId>) -> (r: Vec<
        (ChannelId, Result<(), String>),
    >)
        ensures
            r@.len() == channels@.len(),
            forall|i: int| 0 <= i < r@.len() ==> (#[trigger] r@[i]).0@ == channels@[i]@,
            forall|i: int|
                0 <= i < r@.len() && old(self)@.acquired.contains((#[trigger] channels@[i])@) ==> (
                r@[i].1 matches Err(s) && s@ == channels@[i]@ + held_message()),
            ({
                let events = added(old(self)@.log, final(self)@.log);
                &&& final(self)@.log == old(self)@.log + events
                &&& final(self)@ == (EngineView { log: final(self)@.log, ..old(self)@ })
                &&& exists|answers: Seq<Result<(), HalError>>|
                    events == #[trigger] hand_backs(
                        name_views(channels@),
                        old(self)@.acquired,
                        answers,
                        channels@.len(),
                    ) && relayed(r@, answers, name_views(channels@), old(self)@.acquired)
            }),
            final(self).device().restores() == old(self).device().restores(),
            final(self).device().last_read() == old(self).device().last_read(),
    {
        proof {
            use_type_invariant(&self.holdings);
        }
        let ghost before = self@;
        let ghost names = name_views(channels@);
        let mut out: Vec<(ChannelId, Result<(), String>)> = Vec::new();
        let n: usize = channels.len();
        let ghost mut events: Seq<Event> = Seq::empty();
        let ghost mut answers: Seq<Result<(), HalError>> = Seq::empty();
        assert(before.log + Seq::<Event>::empty() =~= before.log);
        for i in 0..n
            invariant
                n == channels@.len(),
                names == name_views(channels@),
                out@.len() == i,
                answers.len() == i,
                relayed(out@, answers, names, before.acquired),
                self@.log == before.log + events,
                self@ == (EngineView { log: self@.log, ..before }),
                forall|k: int| 0 <= k < i ==> (#[trigger] out@[k]).0@ == channels@[k]@,
                forall|k: int|
                    0 <= k < i && before.acquired.contains((#[trigger] channels@[k])@) ==> (
                    out@[k].1 matches Err(s) && s@ == channels@[k]@ + held_message()),
                events == hand_backs(names, before.acquired, answers, i as nat),
                self.backend.restores() == old(self).backend.restores(),
                self.backend.last_read() == old(self).backend.last_read(),
        {
            let id = &channels[i];
            assert(names[i as int] == id@);
            let ghost earlier = events;
            let ghost given = answers;
            let ghost shown = out@;
            let outcome = if self.holdings.acquired.contains_key(id) {
                proof {
                    answers = given.push(Ok(()));
                }
                Err(
                    joined(
                        id.as_str(),
                        " is held by this engine; release it rather than overwriting                          its mode",
                    ),
                )
            } else {
                let result = self.backend.hand_back_to_firmware(id);
                proof {
                    answers = given.push(result);
                    let event = Event::HandBack { channel: id@, answer: result };
                    events = earlier.push(event);
                    assert(before.log + events =~= (before.log + earlier).push(event));
                }
                match result {
                    Ok(_) => Ok(()),
                    Err(e) => Err(e.message()),
                }
            };
            out.push((id.clone(), outcome));
            proof {
                lemma_hand_backs(names, before.acquired, given, answers, i as nat);
                assert forall|k: int|
                    0 <= k < out@.len() && !before.acquired.contains(
                        #[trigger] names[k],
                    ) implies relays(out@[k].1, answers[k]) by {
                    if k < i {
                        assert(out@[k] == shown[k]);
                        assert(answers[k] == given[k]);
                    }
                }
            }
        }
        proof {
            assert(added(before.log, before.log + events) =~= events);
        }
        out
    }
}

/// Whether a backend, asked who drives a channel, may say this; failing to tell counts as
/// not knowing.
pub open spec fn says_of<B: Backend>(device: B, channel: ChannelId, control: ChannelControl) -> bool {
    exists|answer: Result<ChannelControl, HalError>| #[trigger]
        call_ensures(B::control_of, (&device, &channel), answer) && control == match answer {
            Ok(c) => c,
            Err(_) => ChannelControl::Unknown,
        }
}

/// Why a held channel is not handed back.
pub open spec fn held_message() -> Text {
    " is held by this engine; release it rather than overwriting                          its mode"@
}

/// Whether an outcome is what the backend answered, an error by its message.
pub open spec fn relays(outcome: Result<(), String>, answer: Result<(), HalError>) -> bool {
    match answer {
        Ok(_) => outcome is Ok,
        Err(e) => outcome matches Err(s) && s@ == hal_message(e),
    }
}

/// Whether outcomes are what the backend answered, of the channels that are not held.
pub open spec fn relayed(
    outcomes: Seq<(ChannelId, Result<(), String>)>,
    answers: Seq<Result<(), HalError>>,
    names: Seq<Text>,
    held: Set<Text>,
) -> bool {
    forall|i: int|
        0 <= i < outcomes.len() && !held.contains(#[trigger] names[i]) ==> relays(
            outcomes[i].1,
            answers[i],
        )
}

/// The requests that handing back the first `n` channels makes: one for each that is not
/// held.
pub open spec fn hand_backs(
    names: Seq<Text>,
    held: Set<Text>,
    answers: Seq<Result<(), HalError>>,
    n: nat,
) -> Seq<Event>
    decreases n,
{
    if n == 0 {
        Seq::empty()
    } else {
        let before = hand_backs(names, held, answers, (n - 1) as nat);
        if held.contains(names[n - 1]) {
            before
        } else {
            before.push(Event::HandBack { channel: names[n - 1], answer: answers[n - 1] })
        }
    }
}

proof fn lemma_hand_backs(
    names: Seq<Text>,
    held: Set<Text>,
    a: Seq<Result<(), HalError>>,
    b: Seq<Result<(), HalError>>,
    n: nat,
)
    requires
        n <= a.len(),
        n <= b.len(),
        forall|i: int| 0 <= i < n ==> a[i] == b[i],
    ensures
        hand_backs(names, held, a, n) == hand_backs(names, held, b, n),
    decreases n,
{
    if n > 0 {
        lemma_hand_backs(names, held, a, b, (n - 1) as nat);
    }
}

} // verus!
