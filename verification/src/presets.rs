//! Ready-made configurations, built from whatever hardware is actually present.
//!
//! Sensor and channel ids differ on every machine, so a preset cannot be a stored document:
//! it is generated from the inventory. Presets are arranged in ascending order of how much
//! of the model they show off: a fixed duty, then a curve, then filtering, then mixing, then
//! feedback.
use crate::graph::{EdgeView, Graph, GraphView, NodeId, NodeInstance, NodeView, PortKey, PortRef};
use crate::node::{Compare, CurvePoint, KindView, MixMode, NodeKind};
use crate::profile::{Profile, ProfileView, CURRENT_SCHEMA};
use crate::scalar::{whole, Scalar};
use crate::text::{contains_text, digits, joined, lowercased, numbered, occurs, to_lowercase, Text};
use crate::units::Quantity;
use vstd::prelude::*;

verus! {

// --- Hardware ----------------------------------------------------------------------------------

/// A sensor the machine can read.
#[derive(Debug, Clone, PartialEq)]
pub struct SensorSummary {
    pub id: String,
    pub label: String,
    pub quantity: Quantity,
}

/// A sensor, as contracts speak of it.
pub struct SensorView {
    pub id: Text,
    pub label: Text,
    pub quantity: Quantity,
}

impl View for SensorSummary {
    type V = SensorView;

    open spec fn view(&self) -> SensorView {
        SensorView { id: self.id@, label: self.label@, quantity: self.quantity }
    }
}

/// An output channel the machine can drive.
#[derive(Debug, Clone, PartialEq)]
pub struct ChannelSummary {
    pub id: String,
    pub label: String,
    pub tachometer: Option<String>,
}

/// An output channel, as contracts speak of it.
pub struct ChannelView {
    pub id: Text,
    pub label: Text,
    pub tachometer: Option<Text>,
}

impl View for ChannelSummary {
    type V = ChannelView;

    open spec fn view(&self) -> ChannelView {
        ChannelView {
            id: self.id@,
            label: self.label@,
            tachometer: match self.tachometer {
                Some(t) => Some(t@),
                None => None,
            },
        }
    }
}

/// What the machine offers, as far as presets are concerned.
#[derive(Debug, Clone, PartialEq)]
pub struct HardwareSummary {
    pub sensors: Vec<SensorSummary>,
    pub channels: Vec<ChannelSummary>,
}

/// What the machine offers, as contracts speak of it.
#[verifier::ext_equal]
pub struct HardwareView {
    pub sensors: Seq<SensorView>,
    pub channels: Seq<ChannelView>,
}

impl View for HardwareSummary {
    type V = HardwareView;

    open spec fn view(&self) -> HardwareView {
        HardwareView {
            sensors: Seq::new(self.sensors@.len(), |i: int| self.sensors@[i]@),
            channels: Seq::new(self.channels@.len(), |i: int| self.channels@[i]@),
        }
    }
}

// --- Sketches ----------------------------------------------------------------------------------

/// A graph under construction, as contracts speak of it.
#[verifier::ext_equal]
pub struct Sketch {
    pub nodes: Map<Text, NodeView>,
    pub edges: Seq<EdgeView>,
}

/// A position on the editor's grid: columns 280 apart, rows 150 apart, from (60, 60).
pub open spec fn grid(column: nat, row: nat) -> (Scalar, Scalar) {
    (
        whole(60).plus(whole(column).times(whole(280))),
        whole(60).plus(whole(row).times(whole(150))),
    )
}

impl Sketch {
    /// Nothing yet.
    pub open spec fn blank() -> Sketch {
        Sketch { nodes: Map::empty(), edges: Seq::empty() }
    }

    /// With a node at a grid position.
    pub open spec fn put(self, id: Text, kind: KindView, column: nat, row: nat) -> Sketch {
        Sketch {
            nodes: self.nodes.insert(
                id,
                NodeView { kind, label: Seq::empty(), position: grid(column, row) },
            ),
            ..self
        }
    }

    /// With a connection.
    pub open spec fn wire(self, from: PortKey, to: PortKey) -> Sketch {
        Sketch { edges: self.edges.push(EdgeView { from, to }), ..self }
    }
}

/// Whether a graph is what a sketch says.
pub open spec fn drawn(g: GraphView, s: Sketch) -> bool {
    g.nodes == s.nodes && g.edges == s.edges && g.wf()
}

/// A port of a node.
pub open spec fn port(node: Text, key: Text) -> PortKey {
    PortKey { node, port: key }
}

/// Adds a node at a grid position.
pub fn place(graph: &mut Graph, id: &str, kind: NodeKind, column: u64, row: u64) -> (r: NodeId)
    ensures
        r@ == id@,
        forall|s: Sketch| #[trigger]
            drawn(old(graph)@, s) ==> drawn(
                final(graph)@,
                s.put(id@, kind@, column as nat, row as nat),
            ),
        final(graph)@.edges == old(graph)@.edges,
{
    let ghost before = graph@;
    let key = NodeId::new(id);
    let origin = Scalar::whole(60);
    let position = (
        origin.add(Scalar::whole(column).mul(Scalar::whole(280))),
        origin.add(Scalar::whole(row).mul(Scalar::whole(150))),
    );
    let instance = NodeInstance { kind, label: String::new(), position };
    let ghost view = instance@;
    graph.nodes.insert(key.copy(), instance);
    proof {
        assert(view.label =~= Seq::empty());
        assert(graph@.nodes =~= before.nodes.insert(id@, view));
        use_type_invariant(&graph.nodes);
        graph.lemma_wf();
    }
    key
}

/// Adds a connection.
pub fn wire(graph: &mut Graph, from: &PortRef, to: PortRef)
    ensures
        forall|s: Sketch| #[trigger]
            drawn(old(graph)@, s) ==> drawn(final(graph)@, s.wire(from@, to@)),
{
    graph.connect(from.copy(), to);
}

// --- Choosing sensors ----------------------------------------------------------------------------

/// What a sensor is called, in lower case.
pub open spec fn called(s: SensorView) -> Text {
    lowercased(s.id + " "@ + s.label)
}

/// How early a temperature is preferred: the likelier it is "the CPU", the lower.
pub open spec fn preference(s: SensorView) -> nat {
    if occurs(called(s), "package"@) {
        0
    } else if occurs(called(s), "tctl"@) {
        1
    } else if occurs(called(s), "tdie"@) {
        2
    } else if occurs(called(s), "cpu"@) {
        3
    } else if occurs(called(s), "core"@) {
        4
    } else {
        5
    }
}

/// The temperatures of one preference, among the first `n` sensors, as they are listed.
pub open spec fn preferred(sensors: Seq<SensorView>, level: nat, n: nat) -> Seq<SensorView>
    decreases n,
{
    if n == 0 {
        Seq::empty()
    } else {
        let before = preferred(sensors, level, (n - 1) as nat);
        let s = sensors[n - 1];
        if s.quantity == Quantity::Temperature && preference(s) == level {
            before.push(s)
        } else {
            before
        }
    }
}

/// The temperatures of the first `levels` preferences, most preferred first; equally
/// preferred ones as they are listed.
pub open spec fn temperatures_to(sensors: Seq<SensorView>, levels: nat) -> Seq<SensorView>
    decreases levels,
{
    if levels == 0 {
        Seq::empty()
    } else {
        temperatures_to(sensors, (levels - 1) as nat) + preferred(
            sensors,
            (levels - 1) as nat,
            sensors.len(),
        )
    }
}

/// Temperature sensors, most likely to be "the CPU" first.
pub open spec fn temperatures_of(hw: HardwareView) -> Seq<SensorView> {
    temperatures_to(hw.sensors, 6)
}

/// The first sensor from `i` on whose name holds a word.
pub open spec fn first_called(list: Seq<SensorView>, word: Text, i: int) -> Option<SensorView>
    decreases list.len() - i,
{
    if i >= list.len() {
        None
    } else if occurs(called(list[i]), word) {
        Some(list[i])
    } else {
        first_called(list, word, i + 1)
    }
}

fn full_name(s: &SensorSummary) -> (r: String)
    ensures
        r@ == called(s@),
{
    to_lowercase(joined(joined(s.id.as_str(), " ").as_str(), s.label.as_str()).as_str())
}

fn rank(s: &SensorSummary) -> (r: u64)
    ensures
        r == preference(s@),
{
    let name = full_name(s);
    if contains_text(name.as_str(), "package") {
        0
    } else if contains_text(name.as_str(), "tctl") {
        1
    } else if contains_text(name.as_str(), "tdie") {
        2
    } else if contains_text(name.as_str(), "cpu") {
        3
    } else if contains_text(name.as_str(), "core") {
        4
    } else {
        5
    }
}

/// What a list of sensor references says.
pub open spec fn sensor_views(list: Seq<&SensorSummary>) -> Seq<SensorView> {
    Seq::new(list.len(), |i: int| list[i]@)
}

/// Temperature sensors, most likely to be "the CPU" first.
///
/// Naming is wildly inconsistent across chips, so this is a preference ordering. Getting it
/// wrong picks a different-but-real temperature, which makes a preset a worse default, never
/// an unsafe one.
fn temperatures(hw: &HardwareSummary) -> (r: Vec<&SensorSummary>)
    ensures
        sensor_views(r@) == temperatures_of(hw@),
{
    let mut out: Vec<&SensorSummary> = Vec::new();
    let n: usize = hw.sensors.len();
    let ghost sensors = hw@.sensors;
    assert(sensor_views(out@) =~= Seq::empty());
    for level in 0..6u64
        invariant
            n == hw.sensors@.len(),
            sensors == hw@.sensors,
            sensor_views(out@) == temperatures_to(sensors, level as nat),
    {
        let ghost start = sensor_views(out@);
        assert(start + Seq::<SensorView>::empty() =~= start);
        for i in 0..n
            invariant
                n == hw.sensors@.len(),
                sensors == hw@.sensors,
                sensor_views(out@) == start + preferred(sensors, level as nat, i as nat),
        {
            let s = &hw.sensors[i];
            assert(sensors[i as int] == s@);
            if s.quantity == Quantity::Temperature {
                if rank(s) == level {
                    let ghost before = preferred(sensors, level as nat, i as nat);
                    let ghost views = sensor_views(out@);
                    out.push(s);
                    assert(sensor_views(out@) =~= views.push(s@));
                    assert(views.push(s@) =~= start + before.push(s@));
                }
            }
        }
    }
    out
}

fn find_containing<'a>(list: &Vec<&'a SensorSummary>, word: &str) -> (r: Option<&'a SensorSummary>)
    ensures
        match r {
            Some(s) => first_called(sensor_views(list@), word@, 0) == Some(s@),
            None => first_called(sensor_views(list@), word@, 0) is None,
        },
{
    let n: usize = list.len();
    let ghost views = sensor_views(list@);
    for i in 0..n
        invariant
            n == list@.len(),
            views == sensor_views(list@),
            first_called(views, word@, 0) == first_called(views, word@, i as int),
    {
        assert(views[i as int] == list@[i as int]@);
        if contains_text(full_name(list[i]).as_str(), word) {
            return Some(list[i]);
        }
    }
    None
}

// --- Pieces --------------------------------------------------------------------------------------

/// A curve through three points.
pub open spec fn curve_of(a: (nat, nat), b: (nat, nat), c: (nat, nat)) -> KindView {
    KindView::Curve {
        points: seq![
            CurvePoint { x: whole(a.0), y: whole(a.1) },
            CurvePoint { x: whole(b.0), y: whole(b.1) },
            CurvePoint { x: whole(c.0), y: whole(c.1) },
        ],
    }
}

fn curve(a: (u64, u64), b: (u64, u64), c: (u64, u64)) -> (r: NodeKind)
    ensures
        r@ == curve_of(
            (a.0 as nat, a.1 as nat),
            (b.0 as nat, b.1 as nat),
            (c.0 as nat, c.1 as nat),
        ),
{
    let points = vec![
        CurvePoint { x: Scalar::whole(a.0), y: Scalar::whole(a.1) },
        CurvePoint { x: Scalar::whole(b.0), y: Scalar::whole(b.1) },
        CurvePoint { x: Scalar::whole(c.0), y: Scalar::whole(c.1) },
    ];
    let r = NodeKind::Curve { points };
    assert(points@ =~= seq![
        CurvePoint { x: whole(a.0 as nat), y: whole(a.1 as nat) },
        CurvePoint { x: whole(b.0 as nat), y: whole(b.1 as nat) },
        CurvePoint { x: whole(c.0 as nat), y: whole(c.1 as nat) },
    ]);
    r
}

/// The node that reads a sensor.
pub open spec fn reading(s: SensorView) -> KindView {
    KindView::Sensor { sensor_id: s.id, quantity: s.quantity }
}

fn sensor_node(s: &SensorSummary) -> (r: NodeKind)
    ensures
        r@ == reading(s@),
{
    NodeKind::Sensor { sensor_id: s.id.clone(), quantity: s.quantity }
}

/// The node that drives the channel in a row.
pub open spec fn fan_id(row: nat) -> Text {
    "fan-"@ + digits(row)
}

/// One source wired into the first `n` channels.
pub open spec fn fanned(
    s: Sketch,
    source: PortKey,
    channels: Seq<ChannelView>,
    column: nat,
    n: nat,
) -> Sketch
    decreases n,
{
    if n == 0 {
        s
    } else {
        let row = (n - 1) as nat;
        fanned(s, source, channels, column, row).put(
            fan_id(row),
            KindView::FanOutput { channel: channels[n - 1].id },
            column,
            row,
        ).wire(source, port(fan_id(row), "duty"@))
    }
}

/// Wires one source into every channel the machine has.
fn fan_out(
    graph: &mut Graph,
    source: &PortRef,
    hw: &HardwareSummary,
    column: u64,
    Ghost(s): Ghost<Sketch>,
)
    requires
        drawn(old(graph)@, s),
    ensures
        drawn(
            final(graph)@,
            fanned(s, source@, hw@.channels, column as nat, hw@.channels.len()),
        ),
{
    let n: usize = hw.channels.len();
    for row in 0..n
        invariant
            n == hw.channels@.len(),
            drawn(graph@, fanned(s, source@, hw@.channels, column as nat, row as nat)),
    {
        let ghost before = fanned(s, source@, hw@.channels, column as nat, row as nat);
        let channel = &hw.channels[row];
        assert(hw@.channels[row as int] == channel@);
        let id = numbered("fan-", row as u64);
        let kind = NodeKind::FanOutput { channel: channel.id.clone() };
        let ghost placed = before.put(id@, kind@, column as nat, row as nat);
        place(graph, id.as_str(), kind, column, row as u64);
        assert(drawn(graph@, placed));
        let to = PortRef::new(id.as_str(), "duty");
        let ghost wired = placed.wire(source@, to@);
        wire(graph, source, to);
        assert(drawn(graph@, wired));
    }
}

// --- Presets -------------------------------------------------------------------------------------

/// One offered starting point.
#[derive(Debug)]
pub struct Preset {
    /// Stable identifier, for the UI to key on.
    pub id: String,
    pub name: String,
    /// One or two sentences saying what it does and when to pick it.
    pub description: String,
    pub graph: Graph,
}

/// A preset, as contracts speak of it.
#[verifier::ext_equal]
pub struct PresetView {
    pub id: Text,
    pub name: Text,
    pub description: Text,
    pub sketch: Sketch,
}

impl Preset {
    /// Whether this preset is what contracts say.
    pub open spec fn is(self, v: PresetView) -> bool {
        &&& self.id@ == v.id
        &&& self.name@ == v.name
        &&& self.description@ == v.description
        &&& drawn(self.graph@, v.sketch)
    }

    /// This preset as a profile.
    pub fn into_profile(self) -> (r: Profile)
        ensures
            r@ == (ProfileView { schema: CURRENT_SCHEMA, name: self.name@, graph: self.graph@ }),
    {
        Profile::new(self.name.as_str(), self.graph)
    }
}

/// The simplest thing that works: one duty, everywhere.
pub open spec fn fixed_preset(hw: HardwareView) -> PresetView {
    PresetView {
        id: "fixed"@,
        name: "Fixed speed"@,
        description: "Runs every fan at a constant 50 %. The simplest configuration that works, and a good place to start if you just want the firmware out of the way."@,
        sketch: fanned(
            Sketch::blank().put("duty"@, KindView::Constant { value: whole(50) }, 0, 0),
            port("duty"@, "out"@),
            hw.channels,
            3,
            hw.channels.len(),
        ),
    }
}

/// A temperature, a curve: the start of several presets.
pub open spec fn followed_by_curve(primary: SensorView) -> Sketch {
    Sketch::blank().put("temp"@, reading(primary), 0, 0).put(
        "curve"@,
        curve_of((30, 25), (55, 40), (80, 100)),
        1,
        0,
    ).wire(port("temp"@, "out"@), port("curve"@, "in"@))
}

/// The sensible default: one temperature, one curve.
pub open spec fn balanced_preset(hw: HardwareView, primary: SensorView) -> PresetView {
    PresetView {
        id: "balanced"@,
        name: "Balanced"@,
        description: "Follows "@ + primary.label
            + " along a gentle curve, reaching full speed at 80 °C. The one to pick if you are not sure."@,
        sketch: fanned(
            followed_by_curve(primary),
            port("curve"@, "out"@),
            hw.channels,
            3,
            hw.channels.len(),
        ),
    }
}

/// The same idea, smoothed so it never audibly hunts: what stands before the fans.
pub open spec fn smoothed(primary: SensorView) -> Sketch {
    Sketch::blank().put("temp"@, reading(primary), 0, 0).put(
        "smooth"@,
        KindView::LowPass { tau_seconds: whole(15) },
        1,
        0,
    ).put("curve"@, curve_of((40, 20), (70, 45), (90, 100)), 2, 0).put(
        "ramp"@,
        KindView::RateLimit { max_delta_per_second: whole(5) },
        2,
        1,
    ).wire(port("temp"@, "out"@), port("smooth"@, "in"@)).wire(
        port("smooth"@, "out"@),
        port("curve"@, "in"@),
    ).wire(port("curve"@, "out"@), port("ramp"@, "in"@))
}

/// Quiet: smoothed and ramped.
pub open spec fn quiet_preset(hw: HardwareView, primary: SensorView) -> PresetView {
    PresetView {
        id: "quiet"@,
        name: "Quiet"@,
        description: "Ignores short spikes and ramps slowly, so the fans change speed rarely and never audibly hunt. Runs warmer than Balanced."@,
        sketch: fanned(
            smoothed(primary),
            port("ramp"@, "out"@),
            hw.channels,
            3,
            hw.channels.len(),
        ),
    }
}

/// Two heat sources into one curve: what stands before the fans.
pub open spec fn hottest_of(cpu: SensorView, gpu: SensorView) -> Sketch {
    Sketch::blank().put("cpu"@, reading(cpu), 0, 0).put("gpu"@, reading(gpu), 0, 1).put(
        "hottest"@,
        KindView::Mix { mode: MixMode::Max },
        1,
        0,
    ).put("curve"@, curve_of((35, 25), (60, 45), (85, 100)), 2, 0).wire(
        port("cpu"@, "out"@),
        port("hottest"@, "in"@),
    ).wire(port("gpu"@, "out"@), port("hottest"@, "in"@)).wire(
        port("hottest"@, "out"@),
        port("curve"@, "in"@),
    )
}

/// Two heat sources, hottest wins.
pub open spec fn pair_preset(hw: HardwareView, cpu: SensorView, gpu: SensorView) -> PresetView {
    PresetView {
        id: "cpu-and-gpu"@,
        name: "Whichever is hotter"@,
        description: "Watches "@ + cpu.label + " and "@ + gpu.label
            + " together and follows whichever is hotter. If one input stops reporting the fans fail safe rather than averaging the fault away."@,
        sketch: fanned(
            hottest_of(cpu, gpu),
            port("curve"@, "out"@),
            hw.channels,
            3,
            hw.channels.len(),
        ),
    }
}

/// The stall check of the channel in a row.
pub open spec fn stalled_id(row: nat) -> Text {
    "stalled-"@ + digits(row)
}

/// The switch of the channel in a row.
pub open spec fn pick_id(row: nat) -> Text {
    "pick-"@ + digits(row)
}

/// One channel following the curve, and driven to full when its tachometer says it does not
/// turn. The fan's measured speed steers the fan; that is no cycle, because the reading
/// predates this tick's duty.
pub open spec fn guarded(s: Sketch, channel: ChannelView, row: nat) -> Sketch {
    let fan = s.put(fan_id(row), KindView::FanOutput { channel: channel.id }, 3, row);
    if channel.tachometer is None {
        fan.wire(port("curve"@, "out"@), port(fan_id(row), "duty"@))
    } else {
        fan.put(
            stalled_id(row),
            KindView::Comparator {
                threshold: whole(200),
                deadband: whole(100),
                direction: Compare::Below,
            },
            2,
            row,
        ).put(pick_id(row), KindView::Select, 2, row).wire(
            port(fan_id(row), "rpm"@),
            port(stalled_id(row), "in"@),
        ).wire(port(stalled_id(row), "out"@), port(pick_id(row), "when"@)).wire(
            port("full"@, "out"@),
            port(pick_id(row), "if_true"@),
        ).wire(port("curve"@, "out"@), port(pick_id(row), "if_false"@)).wire(
            port(pick_id(row), "out"@),
            port(fan_id(row), "duty"@),
        )
    }
}

/// The first `n` channels guarded against stalling.
pub open spec fn all_guarded(s: Sketch, channels: Seq<ChannelView>, n: nat) -> Sketch
    decreases n,
{
    if n == 0 {
        s
    } else {
        guarded(all_guarded(s, channels, (n - 1) as nat), channels[n - 1], (n - 1) as nat)
    }
}

/// Balanced, plus: if a fan is not actually turning, drive it hard.
pub open spec fn guarded_preset(hw: HardwareView, primary: SensorView) -> PresetView {
    PresetView {
        id: "stall-protected"@,
        name: "Balanced, with stall protection"@,
        description: "Balanced, but each fan watches its own tachometer: if it stops turning, it is driven to full. A stalled fan sounds quiet and is not cooling anything."@,
        sketch: all_guarded(
            followed_by_curve(primary).put(
                "full"@,
                KindView::Constant { value: whole(100) },
                1,
                1,
            ),
            hw.channels,
            hw.channels.len(),
        ),
    }
}

/// Whether any channel has a tachometer.
pub open spec fn any_tachometer(hw: HardwareView) -> bool {
    exists|i: int| 0 <= i < hw.channels.len() && (#[trigger] hw.channels[i]).tachometer is Some
}

/// Every preset that makes sense for a machine, simplest first.
pub open spec fn offered(hw: HardwareView) -> Seq<PresetView> {
    let temps = temperatures_of(hw);
    if hw.channels.len() == 0 {
        Seq::empty()
    } else if temps.len() == 0 {
        seq![fixed_preset(hw)]
    } else {
        let primary = temps[0];
        let basic = seq![
            fixed_preset(hw),
            balanced_preset(hw, primary),
            quiet_preset(hw, primary),
        ];
        let paired = match first_called(temps, "gpu"@, 0) {
            Some(gpu) if gpu.id != primary.id => basic.push(pair_preset(hw, primary, gpu)),
            _ => basic,
        };
        if any_tachometer(hw) {
            paired.push(guarded_preset(hw, primary))
        } else {
            paired
        }
    }
}

/// Whether presets are what contracts say.
pub open spec fn are(list: Seq<Preset>, views: Seq<PresetView>) -> bool {
    list.len() == views.len() && forall|i: int|
        0 <= i < list.len() ==> (#[trigger] list[i]).is(views[i])
}

fn fixed_duty(hw: &HardwareSummary) -> (r: Preset)
    ensures
        r.is(fixed_preset(hw@)),
{
    let mut graph = Graph::new();
    let ghost s0 = Sketch::blank();
    let ghost s1 = s0.put("duty"@, KindView::Constant { value: whole(50) }, 0, 0);
    assert(drawn(graph@, s0));
    place(&mut graph, "duty", NodeKind::Constant { value: Scalar::whole(50) }, 0, 0);
    assert(drawn(graph@, s1));
    fan_out(&mut graph, &PortRef::new("duty", "out"), hw, 3, Ghost(s1));
    Preset {
        id: "fixed".to_owned(),
        name: "Fixed speed".to_owned(),
        description: "Runs every fan at a constant 50 %. The simplest configuration that works, and a good place to start if you just want the firmware out of the way.".to_owned(),
        graph,
    }
}

/// A temperature and a curve.
fn temperature_and_curve(primary: &SensorSummary) -> (r: Graph)
    ensures
        drawn(r@, followed_by_curve(primary@)),
{
    let mut graph = Graph::new();
    let ghost s0 = Sketch::blank();
    let ghost s1 = s0.put("temp"@, reading(primary@), 0, 0);
    let ghost s2 = s1.put("curve"@, curve_of((30, 25), (55, 40), (80, 100)), 1, 0);
    let ghost s3 = s2.wire(port("temp"@, "out"@), port("curve"@, "in"@));
    assert(drawn(graph@, s0));
    place(&mut graph, "temp", sensor_node(primary), 0, 0);
    assert(drawn(graph@, s1));
    place(&mut graph, "curve", curve((30, 25), (55, 40), (80, 100)), 1, 0);
    assert(drawn(graph@, s2));
    wire(&mut graph, &PortRef::new("temp", "out"), PortRef::new("curve", "in"));
    assert(drawn(graph@, s3));
    graph
}

fn balanced(hw: &HardwareSummary, primary: &SensorSummary) -> (r: Preset)
    ensures
        r.is(balanced_preset(hw@, primary@)),
{
    let mut graph = temperature_and_curve(primary);
    fan_out(
        &mut graph,
        &PortRef::new("curve", "out"),
        hw,
        3,
        Ghost(followed_by_curve(primary@)),
    );
    Preset {
        id: "balanced".to_owned(),
        name: "Balanced".to_owned(),
        description: joined(
            joined("Follows ", primary.label.as_str()).as_str(),
            " along a gentle curve, reaching full speed at 80 °C. The one to pick if you are not sure.",
        ),
        graph,
    }
}

fn quiet(hw: &HardwareSummary, primary: &SensorSummary) -> (r: Preset)
    ensures
        r.is(quiet_preset(hw@, primary@)),
{
    let mut graph = Graph::new();
    let ghost s0 = Sketch::blank();
    let ghost s1 = s0.put("temp"@, reading(primary@), 0, 0);
    let ghost s2 = s1.put("smooth"@, KindView::LowPass { tau_seconds: whole(15) }, 1, 0);
    let ghost s3 = s2.put("curve"@, curve_of((40, 20), (70, 45), (90, 100)), 2, 0);
    let ghost s4 = s3.put("ramp"@, KindView::RateLimit { max_delta_per_second: whole(5) }, 2, 1);
    let ghost s5 = s4.wire(port("temp"@, "out"@), port("smooth"@, "in"@));
    let ghost s6 = s5.wire(port("smooth"@, "out"@), port("curve"@, "in"@));
    let ghost s7 = s6.wire(port("curve"@, "out"@), port("ramp"@, "in"@));
    assert(drawn(graph@, s0));
    place(&mut graph, "temp", sensor_node(primary), 0, 0);
    assert(drawn(graph@, s1));
    place(&mut graph, "smooth", NodeKind::LowPass { tau_seconds: Scalar::whole(15) }, 1, 0);
    assert(drawn(graph@, s2));
    place(&mut graph, "curve", curve((40, 20), (70, 45), (90, 100)), 2, 0);
    assert(drawn(graph@, s3));
    place(
        &mut graph,
        "ramp",
        NodeKind::RateLimit { max_delta_per_second: Scalar::whole(5) },
        2,
        1,
    );
    assert(drawn(graph@, s4));
    wire(&mut graph, &PortRef::new("temp", "out"), PortRef::new("smooth", "in"));
    assert(drawn(graph@, s5));
    wire(&mut graph, &PortRef::new("smooth", "out"), PortRef::new("curve", "in"));
    assert(drawn(graph@, s6));
    wire(&mut graph, &PortRef::new("curve", "out"), PortRef::new("ramp", "in"));
    assert(drawn(graph@, s7));
    fan_out(&mut graph, &PortRef::new("ramp", "out"), hw, 3, Ghost(s7));
    Preset {
        id: "quiet".to_owned(),
        name: "Quiet".to_owned(),
        description: "Ignores short spikes and ramps slowly, so the fans change speed rarely and never audibly hunt. Runs warmer than Balanced.".to_owned(),
        graph,
    }
}

fn cpu_and_gpu(hw: &HardwareSummary, cpu: &SensorSummary, gpu: &SensorSummary) -> (r: Preset)
    ensures
        r.is(pair_preset(hw@, cpu@, gpu@)),
{
    let mut graph = Graph::new();
    let ghost s0 = Sketch::blank();
    let ghost s1 = s0.put("cpu"@, reading(cpu@), 0, 0);
    let ghost s2 = s1.put("gpu"@, reading(gpu@), 0, 1);
    let ghost s3 = s2.put("hottest"@, KindView::Mix { mode: MixMode::Max }, 1, 0);
    let ghost s4 = s3.put("curve"@, curve_of((35, 25), (60, 45), (85, 100)), 2, 0);
    let ghost s5 = s4.wire(port("cpu"@, "out"@), port("hottest"@, "in"@));
    let ghost s6 = s5.wire(port("gpu"@, "out"@), port("hottest"@, "in"@));
    let ghost s7 = s6.wire(port("hottest"@, "out"@), port("curve"@, "in"@));
    assert(drawn(graph@, s0));
    place(&mut graph, "cpu", sensor_node(cpu), 0, 0);
    assert(drawn(graph@, s1));
    place(&mut graph, "gpu", sensor_node(gpu), 0, 1);
    assert(drawn(graph@, s2));
    place(&mut graph, "hottest", NodeKind::Mix { mode: MixMode::Max }, 1, 0);
    assert(drawn(graph@, s3));
    place(&mut graph, "curve", curve((35, 25), (60, 45), (85, 100)), 2, 0);
    assert(drawn(graph@, s4));
    wire(&mut graph, &PortRef::new("cpu", "out"), PortRef::new("hottest", "in"));
    assert(drawn(graph@, s5));
    wire(&mut graph, &PortRef::new("gpu", "out"), PortRef::new("hottest", "in"));
    assert(drawn(graph@, s6));
    wire(&mut graph, &PortRef::new("hottest", "out"), PortRef::new("curve", "in"));
    assert(drawn(graph@, s7));
    fan_out(&mut graph, &PortRef::new("curve", "out"), hw, 3, Ghost(s7));
    let watched = joined(
        joined(joined("Watches ", cpu.label.as_str()).as_str(), " and ").as_str(),
        gpu.label.as_str(),
    );
    Preset {
        id: "cpu-and-gpu".to_owned(),
        name: "Whichever is hotter".to_owned(),
        description: joined(
            watched.as_str(),
            " together and follows whichever is hotter. If one input stops reporting the fans fail safe rather than averaging the fault away.",
        ),
        graph,
    }
}

/// Guards one channel against stalling.
fn guard(graph: &mut Graph, channel: &ChannelSummary, row: u64, Ghost(s): Ghost<Sketch>)
    requires
        drawn(old(graph)@, s),
    ensures
        drawn(final(graph)@, guarded(s, channel@, row as nat)),
{
    let ghost r = row as nat;
    let fan = numbered("fan-", row);
    let ghost s1 = s.put(fan@, KindView::FanOutput { channel: channel.id@ }, 3, r);
    place(graph, fan.as_str(), NodeKind::FanOutput { channel: channel.id.clone() }, 3, row);
    assert(drawn(graph@, s1));
    if channel.tachometer.is_none() {
        let ghost s2 = s1.wire(port("curve"@, "out"@), port(fan@, "duty"@));
        wire(graph, &PortRef::new("curve", "out"), PortRef::new(fan.as_str(), "duty"));
        assert(drawn(graph@, s2));
        return;
    }
    let stalled = numbered("stalled-", row);
    let pick = numbered("pick-", row);
    let ghost s2 = s1.put(
        stalled@,
        KindView::Comparator {
            threshold: whole(200),
            deadband: whole(100),
            direction: Compare::Below,
        },
        2,
        r,
    );
    let ghost s3 = s2.put(pick@, KindView::Select, 2, r);
    let ghost s4 = s3.wire(port(fan@, "rpm"@), port(stalled@, "in"@));
    let ghost s5 = s4.wire(port(stalled@, "out"@), port(pick@, "when"@));
    let ghost s6 = s5.wire(port("full"@, "out"@), port(pick@, "if_true"@));
    let ghost s7 = s6.wire(port("curve"@, "out"@), port(pick@, "if_false"@));
    let ghost s8 = s7.wire(port(pick@, "out"@), port(fan@, "duty"@));
    place(
        graph,
        stalled.as_str(),
        NodeKind::Comparator {
            threshold: Scalar::whole(200),
            deadband: Scalar::whole(100),
            direction: Compare::Below,
        },
        2,
        row,
    );
    assert(drawn(graph@, s2));
    place(graph, pick.as_str(), NodeKind::Select, 2, row);
    assert(drawn(graph@, s3));
    wire(graph, &PortRef::new(fan.as_str(), "rpm"), PortRef::new(stalled.as_str(), "in"));
    assert(drawn(graph@, s4));
    wire(graph, &PortRef::new(stalled.as_str(), "out"), PortRef::new(pick.as_str(), "when"));
    assert(drawn(graph@, s5));
    wire(graph, &PortRef::new("full", "out"), PortRef::new(pick.as_str(), "if_true"));
    assert(drawn(graph@, s6));
    wire(graph, &PortRef::new("curve", "out"), PortRef::new(pick.as_str(), "if_false"));
    assert(drawn(graph@, s7));
    wire(graph, &PortRef::new(pick.as_str(), "out"), PortRef::new(fan.as_str(), "duty"));
    assert(drawn(graph@, s8));
}

fn stall_protected(hw: &HardwareSummary, primary: &SensorSummary) -> (r: Preset)
    ensures
        r.is(guarded_preset(hw@, primary@)),
{
    let mut graph = temperature_and_curve(primary);
    let ghost s0 = followed_by_curve(primary@);
    let ghost s1 = s0.put("full"@, KindView::Constant { value: whole(100) }, 1, 1);
    place(&mut graph, "full", NodeKind::Constant { value: Scalar::whole(100) }, 1, 1);
    assert(drawn(graph@, s1));
    // Each channel with a tachometer gets its own stall check, because a stalled fan is a
    // property of that fan and not of the machine.
    let n: usize = hw.channels.len();
    for row in 0..n
        invariant
            n == hw.channels@.len(),
            drawn(graph@, all_guarded(s1, hw@.channels, row as nat)),
    {
        assert(hw@.channels[row as int] == hw.channels@[row as int]@);
        guard(
            &mut graph,
            &hw.channels[row],
            row as u64,
            Ghost(all_guarded(s1, hw@.channels, row as nat)),
        );
    }
    Preset {
        id: "stall-protected".to_owned(),
        name: "Balanced, with stall protection".to_owned(),
        description: "Balanced, but each fan watches its own tachometer: if it stops turning, it is driven to full. A stalled fan sounds quiet and is not cooling anything.".to_owned(),
        graph,
    }
}

fn has_tachometer(hw: &HardwareSummary) -> (r: bool)
    ensures
        r == any_tachometer(hw@),
{
    let n: usize = hw.channels.len();
    for i in 0..n
        invariant
            n == hw.channels@.len(),
            forall|k: int| 0 <= k < i ==> (#[trigger] hw@.channels[k]).tachometer is None,
    {
        assert(hw@.channels[i as int] == hw.channels@[i as int]@);
        if hw.channels[i].tachometer.is_some() {
            return true;
        }
    }
    false
}

/// Every preset that makes sense for this machine, simplest first.
///
/// Presets needing hardware the machine lacks are omitted rather than offered broken.
pub fn presets(hw: &HardwareSummary) -> (r: Vec<Preset>)
    ensures
        are(r@, offered(hw@)),
{
    let mut out: Vec<Preset> = Vec::new();
    if hw.channels.len() == 0 {
        // Nothing to drive. Offering a configuration that controls nothing would be worse
        // than admitting there is nothing to configure.
        return out;
    }
    let temps = temperatures(hw);
    out.push(fixed_duty(hw));
    if temps.len() > 0 {
        let primary = temps[0];
        assert(temperatures_of(hw@)[0] == primary@);
        out.push(balanced(hw, primary));
        out.push(quiet(hw, primary));
        // Only worth offering when there really are two things worth watching.
        if let Some(gpu) = find_containing(&temps, "gpu") {
            if !crate::text::same(gpu.id.as_str(), primary.id.as_str()) {
                out.push(cpu_and_gpu(hw, primary, gpu));
            }
        }
        if has_tachometer(hw) {
            out.push(stall_protected(hw, primary));
        }
    }
    out
}

} // verus!
