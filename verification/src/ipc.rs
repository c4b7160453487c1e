//! What the editor is allowed to see.
//!
//! The document itself is the graph. What stands here is *derived* from it: the palette of nodes
//! that can be added, the values on the wires, the types of the ports. Nothing here makes a
//! control decision.
use crate::graph::{Graph, PortKey, PortRef};
use crate::infer::{infer, port_types};
use crate::node::{
    default_label_of, port_views, ports, Compare, CurvePoint, KindView, MixMode, NodeKind, PortSpec,
    PortView, TypeView,
};
use crate::ordmap::ascending;
use crate::params::{param_views, params_for, params_of, ParamSpec, ParamView};
use crate::scalar::{whole, Scalar};
use crate::text::Text;
use crate::units::{Quantity, Value};
use vstd::prelude::*;

verus! {

/// One typed port, as the editor sees it.
///
/// `quantity` is `None` for a generic port that nothing has decided yet.
#[derive(Debug, Clone, PartialEq)]
pub struct PortDto {
    pub key: String,
    pub label: String,
    pub quantity: Option<Quantity>,
    /// A required input left unconnected makes the graph invalid.
    pub required: bool,
    /// A variadic input accepts any number of incoming connections.
    pub variadic: bool,
    /// An output carrying a value from before this tick. Edges leaving one impose no ordering.
    pub delayed: bool,
}

/// A port of the editor, as contracts speak of it.
pub struct ShownPort {
    pub key: Text,
    pub label: Text,
    pub quantity: Option<Quantity>,
    pub required: bool,
    pub variadic: bool,
    pub delayed: bool,
}

impl View for PortDto {
    type V = ShownPort;

    open spec fn view(&self) -> ShownPort {
        ShownPort {
            key: self.key@,
            label: self.label@,
            quantity: self.quantity,
            required: self.required,
            variadic: self.variadic,
            delayed: self.delayed,
        }
    }
}

/// How the editor sees a port.
pub open spec fn shown_port(p: PortView) -> ShownPort {
    ShownPort {
        key: p.key,
        label: p.label,
        quantity: match p.ty {
            TypeView::Concrete(q) => Some(q),
            TypeView::Var(_) => None,
        },
        required: p.required,
        variadic: p.variadic,
        delayed: p.delayed,
    }
}

/// How the editor sees some ports.
pub open spec fn shown_ports(list: Seq<PortView>) -> Seq<ShownPort> {
    Seq::new(list.len(), |i: int| shown_port(list[i]))
}

/// What a list of the editor's ports says.
pub open spec fn dto_views(list: Seq<PortDto>) -> Seq<ShownPort> {
    Seq::new(list.len(), |i: int| list[i]@)
}

/// Converts a port specification into what the editor sees.
pub fn port_dto(spec: &PortSpec) -> (r: PortDto)
    ensures
        r@ == shown_port(spec@),
{
    PortDto {
        key: spec.key.to_owned(),
        label: spec.label.to_owned(),
        quantity: spec.ty.concrete(),
        required: spec.required,
        variadic: spec.variadic,
        delayed: spec.delayed,
    }
}

fn port_dtos(list: &Vec<PortSpec>) -> (r: Vec<PortDto>)
    ensures
        dto_views(r@) == shown_ports(port_views(list@)),
{
    let mut out: Vec<PortDto> = Vec::new();
    let n: usize = list.len();
    for i in 0..n
        invariant
            n == list@.len(),
            out@.len() == i,
            forall|k: int| 0 <= k < i ==> (#[trigger] out@[k])@ == shown_port(list@[k]@),
    {
        out.push(port_dto(&list[i]));
    }
    assert(dto_views(out@) =~= shown_ports(port_views(list@)));
    out
}

/// How the palette groups a node.
#[derive(Debug, Clone, Copy, PartialEq, Eq, Structural)]
pub enum NodeCategory {
    /// Produces values: sensors, constants.
    Source,
    /// Reshapes values without memory.
    Transform,
    /// Reshapes values using history — filters, limiters, controllers.
    Stateful,
    /// Boolean tests and routing.
    Logic,
    /// Drives hardware.
    Sink,
}

/// A node kind the editor can offer in its palette.
///
/// `template` is a complete, immediately valid kind, so adding a node from the palette never
/// produces a half-configured node.
#[derive(Debug)]
pub struct NodeDescriptor {
    /// Stable tag of the kind, as the document stores it.
    pub kind: String,
    pub label: String,
    pub category: NodeCategory,
    /// One line explaining what the node is for.
    pub description: String,
    pub template: NodeKind,
    pub inputs: Vec<PortDto>,
    pub outputs: Vec<PortDto>,
    /// Everything about this node the user can configure.
    pub params: Vec<ParamSpec>,
}

/// A palette entry, as contracts speak of it.
#[verifier::ext_equal]
pub struct DescriptorView {
    pub kind: Text,
    pub label: Text,
    pub category: NodeCategory,
    pub description: Text,
    pub template: KindView,
    pub inputs: Seq<ShownPort>,
    pub outputs: Seq<ShownPort>,
    pub params: Seq<ParamView>,
}

impl View for NodeDescriptor {
    type V = DescriptorView;

    open spec fn view(&self) -> DescriptorView {
        DescriptorView {
            kind: self.kind@,
            label: self.label@,
            category: self.category,
            description: self.description@,
            template: self.template@,
            inputs: dto_views(self.inputs@),
            outputs: dto_views(self.outputs@),
            params: param_views(self.params@),
        }
    }
}

/// What a palette says.
pub open spec fn descriptor_views(list: Seq<NodeDescriptor>) -> Seq<DescriptorView> {
    Seq::new(list.len(), |i: int| list[i]@)
}

/// The tag of a kind, as the document stores it.
pub open spec fn tag_of(kind: KindView) -> Text {
    match kind {
        KindView::Sensor { .. } => "sensor"@,
        KindView::Constant { .. } => "constant"@,
        KindView::Curve { .. } => "curve"@,
        KindView::Mix { .. } => "mix"@,
        KindView::Clamp { .. } => "clamp"@,
        KindView::Offset { .. } => "offset"@,
        KindView::Scale { .. } => "scale"@,
        KindView::Reinterpret { .. } => "reinterpret"@,
        KindView::RateLimit { .. } => "rate-limit"@,
        KindView::LowPass { .. } => "low-pass"@,
        KindView::MovingAverage { .. } => "moving-average"@,
        KindView::Hold { .. } => "hold"@,
        KindView::Comparator { .. } => "comparator"@,
        KindView::Select => "select"@,
        KindView::Delay { .. } => "delay"@,
        KindView::Pid { .. } => "pid"@,
        KindView::FanOutput { .. } => "fan-output"@,
    }
}

/// The tag of a kind, as the document stores it.
pub fn kind_tag(kind: &NodeKind) -> (r: &'static str)
    ensures
        r@ == tag_of(kind@),
{
    match kind {
        NodeKind::Sensor { .. } => "sensor",
        NodeKind::Constant { .. } => "constant",
        NodeKind::Curve { .. } => "curve",
        NodeKind::Mix { .. } => "mix",
        NodeKind::Clamp { .. } => "clamp",
        NodeKind::Offset { .. } => "offset",
        NodeKind::Scale { .. } => "scale",
        NodeKind::Reinterpret { .. } => "reinterpret",
        NodeKind::RateLimit { .. } => "rate-limit",
        NodeKind::LowPass { .. } => "low-pass",
        NodeKind::MovingAverage { .. } => "moving-average",
        NodeKind::Hold { .. } => "hold",
        NodeKind::Comparator { .. } => "comparator",
        NodeKind::Select => "select",
        NodeKind::Delay { .. } => "delay",
        NodeKind::Pid { .. } => "pid",
        NodeKind::FanOutput { .. } => "fan-output",
    }
}

/// A palette entry for a kind: its tag, label, ports and parameters are those of the kind.
pub open spec fn described_kind(
    category: NodeCategory,
    description: Text,
    template: KindView,
) -> DescriptorView {
    DescriptorView {
        kind: tag_of(template),
        label: default_label_of(template),
        category,
        description,
        template,
        inputs: shown_ports(ports(template).inputs),
        outputs: shown_ports(ports(template).outputs),
        params: params_of(template),
    }
}

fn descriptor(category: NodeCategory, description: &str, template: NodeKind) -> (r: NodeDescriptor)
    ensures
        r@ == described_kind(category, description@, template@),
{
    let spec = template.spec();
    let kind = kind_tag(&template).to_owned();
    let label = template.default_label().to_owned();
    let inputs = port_dtos(&spec.inputs);
    let outputs = port_dtos(&spec.outputs);
    let params = params_for(&template);
    NodeDescriptor {
        kind,
        label,
        category,
        description: description.to_owned(),
        template,
        inputs,
        outputs,
        params,
    }
}

/// The points of a new curve: it rises from 30 °C to 80 °C, which is a working start.
pub open spec fn starting_points() -> Seq<CurvePoint> {
    seq![
        CurvePoint { x: whole(30), y: whole(20) },
        CurvePoint { x: whole(80), y: whole(100) },
    ]
}

fn first_points() -> (r: Vec<CurvePoint>)
    ensures
        r@ == starting_points(),
{
    let r = vec![
        CurvePoint { x: Scalar::whole(30), y: Scalar::whole(20) },
        CurvePoint { x: Scalar::whole(80), y: Scalar::whole(100) },
    ];
    assert(r@ =~= starting_points());
    r
}

/// The palette that the editor offers.
pub open spec fn palette() -> Seq<DescriptorView> {
    seq![
        described_kind(
            NodeCategory::Source,
            "Reads a hardware sensor."@,
            KindView::Sensor { sensor_id: ""@, quantity: Quantity::Temperature },
        ),
        described_kind(
            NodeCategory::Source,
            "Emits a fixed value. Also backs a manual slider."@,
            KindView::Constant { value: whole(50) },
        ),
        described_kind(
            NodeCategory::Transform,
            "Maps any input onto a duty along a transfer curve."@,
            KindView::Curve { points: starting_points() },
        ),
        described_kind(
            NodeCategory::Transform,
            "Combines several inputs of the same type into one. The type is inferred."@,
            KindView::Mix { mode: MixMode::Max },
        ),
        described_kind(
            NodeCategory::Transform,
            "Constrains a value to a range."@,
            KindView::Clamp { min: whole(20), max: whole(100) },
        ),
        described_kind(
            NodeCategory::Transform,
            "Adds a constant."@,
            KindView::Offset { delta: whole(0) },
        ),
        described_kind(
            NodeCategory::Transform,
            "Multiplies by a constant."@,
            KindView::Scale { factor: whole(1) },
        ),
        described_kind(
            NodeCategory::Transform,
            "Reads a value as a different type. The explicit way across the type system."@,
            KindView::Reinterpret { from: Quantity::Load, to: Quantity::Duty },
        ),
        described_kind(
            NodeCategory::Stateful,
            "Limits how fast a value may change, per second."@,
            KindView::RateLimit { max_delta_per_second: whole(10) },
        ),
        described_kind(
            NodeCategory::Stateful,
            "Smooths a signal with a time constant in seconds."@,
            KindView::LowPass { tau_seconds: whole(5) },
        ),
        described_kind(
            NodeCategory::Stateful,
            "Averages the most recent samples."@,
            KindView::MovingAverage { samples: 10 },
        ),
        described_kind(
            NodeCategory::Stateful,
            "Holds its output until the input moves outside a band. Stops fans twitching at sensor noise."@,
            KindView::Hold { band: whole(1) },
        ),
        described_kind(
            NodeCategory::Logic,
            "Tests a value against a threshold, with a deadband so it cannot chatter."@,
            KindView::Comparator {
                threshold: whole(70),
                deadband: whole(4),
                direction: Compare::Above,
            },
        ),
        described_kind(
            NodeCategory::Logic,
            "Chooses between two inputs."@,
            KindView::Select,
        ),
        described_kind(
            NodeCategory::Stateful,
            "Emits what it was given a while ago. Also breaks a feedback loop."@,
            KindView::Delay { seconds: whole(1) },
        ),
        described_kind(
            NodeCategory::Stateful,
            "Holds a temperature at a setpoint. The integral is bounded so it cannot wind up."@,
            KindView::Pid {
                setpoint: whole(65),
                kp: whole(4),
                ki: whole(1).over(whole(5)),
                kd: whole(0),
                integral_limit: whole(40),
            },
        ),
        described_kind(
            NodeCategory::Sink,
            "Drives a fan or pump channel."@,
            KindView::FanOutput { channel: ""@ },
        ),
    ]
}

/// The palette that the editor offers.
///
/// Templates are chosen to be immediately useful: an empty curve would evaluate to a fault the
/// moment it was added.
#[verifier::rlimit(50)]
pub fn catalogue() -> (r: Vec<NodeDescriptor>)
    ensures
        descriptor_views(r@) == palette(),
{
    let no_sensor = NodeKind::Sensor { sensor_id: String::new(), quantity: Quantity::Temperature };
    let no_channel = NodeKind::FanOutput { channel: String::new() };
    proof {
        reveal_strlit("");
        assert(no_sensor@ == (KindView::Sensor { sensor_id: ""@, quantity: Quantity::Temperature }))
            by {
            assert(no_sensor@->sensor_id =~= ""@);
        }
        assert(no_channel@ == (KindView::FanOutput { channel: ""@ })) by {
            assert(no_channel@->FanOutput_channel =~= ""@);
        }
    }
    let r = vec![
        descriptor(
            NodeCategory::Source,
            "Reads a hardware sensor.",
            no_sensor,
        ),
        descriptor(
            NodeCategory::Source,
            "Emits a fixed value. Also backs a manual slider.",
            NodeKind::Constant { value: Scalar::whole(50) },
        ),
        descriptor(
            NodeCategory::Transform,
            "Maps any input onto a duty along a transfer curve.",
            NodeKind::Curve { points: first_points() },
        ),
        descriptor(
            NodeCategory::Transform,
            "Combines several inputs of the same type into one. The type is inferred.",
            NodeKind::Mix { mode: MixMode::Max },
        ),
        descriptor(
            NodeCategory::Transform,
            "Constrains a value to a range.",
            NodeKind::Clamp { min: Scalar::whole(20), max: Scalar::whole(100) },
        ),
        descriptor(
            NodeCategory::Transform,
            "Adds a constant.",
            NodeKind::Offset { delta: Scalar::whole(0) },
        ),
        descriptor(
            NodeCategory::Transform,
            "Multiplies by a constant.",
            NodeKind::Scale { factor: Scalar::whole(1) },
        ),
        descriptor(
            NodeCategory::Transform,
            "Reads a value as a different type. The explicit way across the type system.",
            NodeKind::Reinterpret { from: Quantity::Load, to: Quantity::Duty },
        ),
        descriptor(
            NodeCategory::Stateful,
            "Limits how fast a value may change, per second.",
            NodeKind::RateLimit { max_delta_per_second: Scalar::whole(10) },
        ),
        descriptor(
            NodeCategory::Stateful,
            "Smooths a signal with a time constant in seconds.",
            NodeKind::LowPass { tau_seconds: Scalar::whole(5) },
        ),
        descriptor(
            NodeCategory::Stateful,
            "Averages the most recent samples.",
            NodeKind::MovingAverage { samples: 10 },
        ),
        descriptor(
            NodeCategory::Stateful,
            "Holds its output until the input moves outside a band. Stops fans twitching at sensor noise.",
            NodeKind::Hold { band: Scalar::whole(1) },
        ),
        descriptor(
            NodeCategory::Logic,
            "Tests a value against a threshold, with a deadband so it cannot chatter.",
            NodeKind::Comparator {
                threshold: Scalar::whole(70),
                deadband: Scalar::whole(4),
                direction: Compare::Above,
            },
        ),
        descriptor(
            NodeCategory::Logic,
            "Chooses between two inputs.",
            NodeKind::Select,
        ),
        descriptor(
            NodeCategory::Stateful,
            "Emits what it was given a while ago. Also breaks a feedback loop.",
            NodeKind::Delay { seconds: Scalar::whole(1) },
        ),
        descriptor(
            NodeCategory::Stateful,
            "Holds a temperature at a setpoint. The integral is bounded so it cannot wind up.",
            NodeKind::Pid {
                setpoint: Scalar::whole(65),
                kp: Scalar::whole(4),
                ki: Scalar::whole(1).div(Scalar::whole(5)),
                kd: Scalar::whole(0),
                integral_limit: Scalar::whole(40),
            },
        ),
        descriptor(
            NodeCategory::Sink,
            "Drives a fan or pump channel.",
            no_channel,
        ),
    ];
    assert(descriptor_views(r@) =~= palette());
    r
}

/// One value on one wire, flattened for transport.
#[derive(Debug, Clone, PartialEq)]
pub struct WireValue {
    pub node_id: String,
    pub port: String,
    pub quantity: Quantity,
    /// `None` when the value is not finite — a fault, not a number.
    pub value: Option<Scalar>,
}

/// The number that a wire may show: a fault shows none.
pub open spec fn showable(v: Value) -> Option<Scalar> {
    if v.trustworthy() {
        Some(v.scalar)
    } else {
        None
    }
}

fn shown(v: &Value) -> (r: Option<Scalar>)
    ensures
        r == showable(*v),
{
    if v.is_trustworthy() {
        Some(v.scalar)
    } else {
        None
    }
}

impl WireValue {
    /// What a wire shows. The editor must not be able to render a NaN as though it were a
    /// reading, so the distinction is made here.
    pub fn new(port: &PortRef, value: &Value) -> (r: WireValue)
        ensures
            r.node_id@ == port@.node,
            r.port@ == port@.port,
            r.quantity == value.quantity,
            r.value == showable(*value),
    {
        WireValue {
            node_id: port.node.0.clone(),
            port: port.port.clone(),
            quantity: value.quantity,
            value: shown(value),
        }
    }

    /// What a sensor shows.
    pub fn sensor(id: &str, value: &Value) -> (r: WireValue)
        ensures
            r.node_id@ == id@,
            r.port@ == Seq::<char>::empty(),
            r.quantity == value.quantity,
            r.value == showable(*value),
    {
        WireValue {
            node_id: id.to_owned(),
            port: String::new(),
            quantity: value.quantity,
            value: shown(value),
        }
    }
}

/// The inferred type of one port.
#[derive(Debug, Clone, PartialEq)]
pub struct PortTypeDto {
    pub node_id: String,
    pub port: String,
    /// `None` when the port is generic and nothing has decided it yet.
    pub quantity: Option<Quantity>,
}

/// The port that an entry is about.
pub open spec fn about(d: PortTypeDto) -> PortKey {
    PortKey { node: d.node_id@, port: d.port@ }
}

/// Infers the type of every port in a graph: one entry for each port, in order, with its type.
///
/// Does not require the graph to be valid — a half-built graph is exactly when this is most
/// useful.
pub fn resolve_types(graph: &Graph) -> (r: Vec<PortTypeDto>)
    ensures
        forall|i: int|
            0 <= i < r@.len() ==> port_types(graph@).dom().contains(about(#[trigger] r@[i]))
                && r@[i].quantity == port_types(graph@)[about(r@[i])],
        ascending::<PortRef>(Seq::new(r@.len(), |i: int| about(r@[i]))),
        forall|p: PortKey| #[trigger]
            port_types(graph@).dom().contains(p) ==> exists|i: int|
                0 <= i < r@.len() && about(#[trigger] r@[i]) == p,
{
    let (types, _) = infer(graph);
    let n: usize = types.len();
    let mut out: Vec<PortTypeDto> = Vec::new();
    proof {
        use_type_invariant(&types);
        types.lemma_wf();
    }
    for i in 0..n
        invariant
            n == types.names().len(),
            types@ == port_types(graph@),
            out@.len() == i,
            forall|k: int|
                0 <= k < i ==> about(#[trigger] out@[k]) == types.names()[k] && types@.dom().contains(
                    types.names()[k],
                ) && out@[k].quantity == types@[types.names()[k]],
    {
        let port = types.key_at(i);
        let quantity = *types.value_at(i);
        out.push(
            PortTypeDto { node_id: port.node.0.clone(), port: port.port.clone(), quantity },
        );
    }
    proof {
        assert(Seq::new(out@.len(), |i: int| about(out@[i])) =~= types.names());
        assert forall|p: PortKey| #[trigger] port_types(graph@).dom().contains(p) implies exists|
            i: int,
        | 0 <= i < out@.len() && about(#[trigger] out@[i]) == p by {
            let k = types.names().index_of(p);
            assert(about(out@[k]) == p);
        }
    }
    out
}

/// A rejected graph edit.
#[derive(Debug, Clone, PartialEq)]
pub struct ValidationError {
    /// Human-readable, already explaining what to do about it.
    pub message: String,
    /// The node to highlight, when the error names one.
    pub node_id: Option<String>,
}

// --- Laws ----------------------------------------------------------------------------------------

/// Every kind of node can be added from the palette: whatever the kind, some entry has its tag.
pub proof fn every_kind_is_on_the_palette(kind: KindView)
    ensures
        exists|i: int|
            0 <= i < palette().len() && (#[trigger] palette()[i]).kind == tag_of(kind)
                && palette()[i].params.len() == params_of(kind).len(),
{
    let i: int = match kind {
        KindView::Sensor { .. } => 0,
        KindView::Constant { .. } => 1,
        KindView::Curve { .. } => 2,
        KindView::Mix { .. } => 3,
        KindView::Clamp { .. } => 4,
        KindView::Offset { .. } => 5,
        KindView::Scale { .. } => 6,
        KindView::Reinterpret { .. } => 7,
        KindView::RateLimit { .. } => 8,
        KindView::LowPass { .. } => 9,
        KindView::MovingAverage { .. } => 10,
        KindView::Hold { .. } => 11,
        KindView::Comparator { .. } => 12,
        KindView::Select => 13,
        KindView::Delay { .. } => 14,
        KindView::Pid { .. } => 15,
        KindView::FanOutput { .. } => 16,
    };
    assert(palette()[i].kind == tag_of(kind));
}

/// A wire never shows what is not a number, and shows every number as it is.
pub proof fn a_fault_shows_no_number(v: Value)
    ensures
        showable(v) is Some ==> (showable(v)->0).finite(),
        v.scalar.finite() ==> showable(v) == Some(v.scalar),
        v.scalar.nan() ==> showable(v) is None,
{
}

} // verus!
