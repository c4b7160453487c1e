//! The node catalogue.
//!
//! Each variant of [`NodeKind`] declares its typed ports via [`NodeKind::spec`] and its
//! behaviour via `NodeKind::eval`; what both return is stated by [`ports`] and
//! `evaluated`.
//!
//! # Generic nodes
//!
//! Most transforms do not care what they are carrying. Those declare their ports as a
//! **type variable** ([`PortType::Var`]), and the type is inferred from whatever they are
//! connected to. Concrete types enter the graph at its edges: a sensor reads a
//! temperature, a fan takes a duty, a curve emits a duty.
//!
//! # Time
//!
//! Stateful nodes are parameterised in **seconds**, not ticks, and receive the elapsed
//! time in `dt`. This module reads no clock.
//!
//! # Exponentials
//!
//! A low-pass filter weighs its past by `e^(-dt / tau)`. Exponentials are computed
//! outside and handed in, as `Decay` entries; a factor that was not handed in counts as
//! NaN, so it faults instead of being guessed.
//!
//! # Faults
//!
//! Non-finite values propagate. Nodes do not substitute defaults for a missing or broken
//! input, because a plausible-looking number is indistinguishable from a real measurement
//! by the time it reaches a fan.
use crate::scalar::Scalar;
use crate::text::Text;
use crate::units::Quantity;
use vstd::prelude::*;

verus! {

/// The name of the type variable used by every generic node.
///
/// Variables are scoped to a node, so every generic node can reuse the same name.
pub const T: &'static str = "T";

// --- Ports -----------------------------------------------------------------------------

/// A port's declared type: either a fixed quantity or a variable to be inferred.
#[derive(Debug, Clone, Copy, PartialEq, Eq)]
pub enum PortType {
    /// A fixed quantity. These are the anchors inference propagates from.
    Concrete(Quantity),
    /// A variable, scoped to the node that declares it. Ports sharing a name on the same
    /// node must resolve to the same quantity.
    Var(&'static str),
}

/// A declared type, as contracts speak of it.
pub enum TypeView {
    Concrete(Quantity),
    Var(Text),
}

impl View for PortType {
    type V = TypeView;

    open spec fn view(&self) -> TypeView {
        match *self {
            PortType::Concrete(q) => TypeView::Concrete(q),
            PortType::Var(name) => TypeView::Var(name@),
        }
    }
}

impl PortType {
    /// The fixed quantity, where there is one.
    pub fn concrete(&self) -> (r: Option<Quantity>)
        ensures
            r == match self@ {
                TypeView::Concrete(q) => Some(q),
                TypeView::Var(_) => None,
            },
    {
        match self {
            PortType::Concrete(q) => Some(*q),
            PortType::Var(_) => None,
        }
    }

    /// Whether the type is inferred.
    pub fn is_generic(&self) -> (r: bool)
        ensures
            r == (self@ is Var),
    {
        match self {
            PortType::Concrete(_) => false,
            PortType::Var(_) => true,
        }
    }
}

/// One typed port on a node.
#[derive(Debug, Clone, Copy, PartialEq, Eq)]
pub struct PortSpec {
    pub key: &'static str,
    pub label: &'static str,
    pub ty: PortType,
    /// The graph is invalid if a required input is left unconnected.
    pub required: bool,
    /// A variadic input accepts any number of incoming connections (a mixer's inputs).
    pub variadic: bool,
    /// An output whose value does **not** depend on this tick's inputs.
    ///
    /// A fan's tachometer is the motivating case: sensors are read, then the graph is
    /// evaluated, then duties are written, so a speed reading reflects an *earlier* duty.
    /// An edge leaving such a port creates no dependency.
    pub delayed: bool,
}

/// A port, as contracts speak of it.
pub struct PortView {
    pub key: Text,
    pub label: Text,
    pub ty: TypeView,
    pub required: bool,
    pub variadic: bool,
    pub delayed: bool,
}

impl View for PortSpec {
    type V = PortView;

    open spec fn view(&self) -> PortView {
        PortView {
            key: self.key@,
            label: self.label@,
            ty: self.ty@,
            required: self.required,
            variadic: self.variadic,
            delayed: self.delayed,
        }
    }
}

/// A required input.
pub open spec fn input_port(key: Text, label: Text, ty: TypeView) -> PortView {
    PortView { key, label, ty, required: true, variadic: false, delayed: false }
}

/// An output.
pub open spec fn output_port(key: Text, label: Text, ty: TypeView) -> PortView {
    PortView { key, label, ty, required: false, variadic: false, delayed: false }
}

impl PortSpec {
    /// A required input.
    pub fn input(key: &'static str, label: &'static str, ty: PortType) -> (r: PortSpec)
        ensures
            r@ == input_port(key@, label@, ty@),
    {
        PortSpec { key, label, ty, required: true, variadic: false, delayed: false }
    }

    /// An output.
    pub fn output(key: &'static str, label: &'static str, ty: PortType) -> (r: PortSpec)
        ensures
            r@ == output_port(key@, label@, ty@),
    {
        PortSpec { key, label, ty, required: false, variadic: false, delayed: false }
    }

    /// The same port, allowed to stay unconnected.
    pub fn optional(self) -> (r: PortSpec)
        ensures
            r@ == (PortView { required: false, ..self@ }),
    {
        PortSpec { required: false, ..self }
    }

    /// The same port, accepting many connections.
    pub fn variadic(self) -> (r: PortSpec)
        ensures
            r@ == (PortView { variadic: true, ..self@ }),
    {
        PortSpec { variadic: true, ..self }
    }

    /// The same port, carrying a value from before this tick.
    pub fn delayed(self) -> (r: PortSpec)
        ensures
            r@ == (PortView { delayed: true, ..self@ }),
    {
        PortSpec { delayed: true, ..self }
    }
}

fn fixed_in(key: &'static str, label: &'static str, q: Quantity) -> (r: PortSpec)
    ensures
        r@ == input_port(key@, label@, TypeView::Concrete(q)),
{
    PortSpec::input(key, label, PortType::Concrete(q))
}

fn fixed_out(key: &'static str, label: &'static str, q: Quantity) -> (r: PortSpec)
    ensures
        r@ == output_port(key@, label@, TypeView::Concrete(q)),
{
    PortSpec::output(key, label, PortType::Concrete(q))
}

fn any_in(key: &'static str, label: &'static str) -> (r: PortSpec)
    ensures
        r@ == input_port(key@, label@, TypeView::Var(T@)),
{
    PortSpec::input(key, label, PortType::Var(T))
}

fn any_out(key: &'static str, label: &'static str) -> (r: PortSpec)
    ensures
        r@ == output_port(key@, label@, TypeView::Var(T@)),
{
    PortSpec::output(key, label, PortType::Var(T))
}

/// A node's full port signature.
#[derive(Debug)]
pub struct NodeSpec {
    pub inputs: Vec<PortSpec>,
    pub outputs: Vec<PortSpec>,
}

/// A port signature, as contracts speak of it.
pub struct SpecView {
    pub inputs: Seq<PortView>,
    pub outputs: Seq<PortView>,
}

/// What a list of ports says.
pub open spec fn port_views(ports: Seq<PortSpec>) -> Seq<PortView> {
    Seq::new(ports.len(), |i: int| ports[i]@)
}

impl View for NodeSpec {
    type V = SpecView;

    open spec fn view(&self) -> SpecView {
        SpecView { inputs: port_views(self.inputs@), outputs: port_views(self.outputs@) }
    }
}

impl SpecView {
    /// Inputs, then outputs.
    pub open spec fn all(self) -> Seq<PortView> {
        self.inputs + self.outputs
    }
}

/// A one-input signature.
pub open spec fn one_in_one_out(input: PortView, output: PortView) -> SpecView {
    SpecView { inputs: seq![input], outputs: seq![output] }
}

/// An inferred type.
pub open spec fn any() -> TypeView {
    TypeView::Var(T@)
}

// --- Kinds -----------------------------------------------------------------------------

/// How a mixer combines its inputs.
#[derive(Debug, Clone, Copy, PartialEq, Eq, Structural)]
pub enum MixMode {
    /// The safe default for cooling: the hottest input wins.
    Max,
    Min,
    Average,
    Sum,
}

/// One point on a transfer curve.
#[derive(Debug, Clone, Copy, PartialEq)]
pub struct CurvePoint {
    pub x: Scalar,
    pub y: Scalar,
}

/// How a comparator's output relates to its threshold.
#[derive(Debug, Clone, Copy, PartialEq, Eq, Structural)]
pub enum Compare {
    Above,
    Below,
}

/// A node's kind and its parameters.
///
/// Few variants carry a quantity: the generic ones infer it, so there is no type to set
/// and no way to set one inconsistently with what it is wired to.
#[derive(Debug, PartialEq)]
pub enum NodeKind {
    /// Reads a hardware sensor by id. One of the places a concrete type enters the graph.
    Sensor { sensor_id: String, quantity: Quantity },
    /// Emits a fixed value. Also the backing node for a manual slider.
    Constant { value: Scalar },
    /// Maps any input quantity onto a duty via a piecewise-linear transfer curve.
    Curve { points: Vec<CurvePoint> },
    /// Combines any number of same-typed inputs into one.
    Mix { mode: MixMode },
    /// Constrains a value to a range.
    Clamp { min: Scalar, max: Scalar },
    /// Adds a constant.
    Offset { delta: Scalar },
    /// Multiplies by a constant.
    Scale { factor: Scalar },
    /// Reads a value as a different type. The explicit escape hatch for conversions the
    /// type system otherwise forbids.
    Reinterpret { from: Quantity, to: Quantity },
    /// Limits how fast a value may change, in units per second.
    RateLimit { max_delta_per_second: Scalar },
    /// First-order exponential smoothing with a time constant in seconds.
    LowPass { tau_seconds: Scalar },
    /// Unweighted mean of the last `samples` values.
    MovingAverage { samples: usize },
    /// Holds its output until the input moves further than `band` from the held value.
    Hold { band: Scalar },
    /// Threshold test with a deadband, producing a boolean.
    Comparator { threshold: Scalar, deadband: Scalar, direction: Compare },
    /// Chooses between two same-typed inputs.
    Select,
    /// Emits what it was given `seconds` ago.
    Delay { seconds: Scalar },
    /// Proportional-integral-derivative controller driving a duty from a measurement.
    ///
    /// Gains are in duty-percent per unit of error. `integral_limit` bounds the
    /// integral's contribution, in duty percent.
    Pid { setpoint: Scalar, kp: Scalar, ki: Scalar, kd: Scalar, integral_limit: Scalar },
    /// Drives a hardware output channel.
    FanOutput { channel: String },
}

/// A node's kind, as contracts speak of it.
pub enum KindView {
    Sensor { sensor_id: Text, quantity: Quantity },
    Constant { value: Scalar },
    Curve { points: Seq<CurvePoint> },
    Mix { mode: MixMode },
    Clamp { min: Scalar, max: Scalar },
    Offset { delta: Scalar },
    Scale { factor: Scalar },
    Reinterpret { from: Quantity, to: Quantity },
    RateLimit { max_delta_per_second: Scalar },
    LowPass { tau_seconds: Scalar },
    MovingAverage { samples: nat },
    Hold { band: Scalar },
    Comparator { threshold: Scalar, deadband: Scalar, direction: Compare },
    Select,
    Delay { seconds: Scalar },
    Pid { setpoint: Scalar, kp: Scalar, ki: Scalar, kd: Scalar, integral_limit: Scalar },
    FanOutput { channel: Text },
}

impl View for NodeKind {
    type V = KindView;

    open spec fn view(&self) -> KindView {
        match *self {
            NodeKind::Sensor { sensor_id, quantity } => KindView::Sensor {
                sensor_id: sensor_id@,
                quantity,
            },
            NodeKind::Constant { value } => KindView::Constant { value },
            NodeKind::Curve { points } => KindView::Curve { points: points@ },
            NodeKind::Mix { mode } => KindView::Mix { mode },
            NodeKind::Clamp { min, max } => KindView::Clamp { min, max },
            NodeKind::Offset { delta } => KindView::Offset { delta },
            NodeKind::Scale { factor } => KindView::Scale { factor },
            NodeKind::Reinterpret { from, to } => KindView::Reinterpret { from, to },
            NodeKind::RateLimit { max_delta_per_second } => KindView::RateLimit {
                max_delta_per_second,
            },
            NodeKind::LowPass { tau_seconds } => KindView::LowPass { tau_seconds },
            NodeKind::MovingAverage { samples } => KindView::MovingAverage {
                samples: samples as nat,
            },
            NodeKind::Hold { band } => KindView::Hold { band },
            NodeKind::Comparator { threshold, deadband, direction } => KindView::Comparator {
                threshold,
                deadband,
                direction,
            },
            NodeKind::Select => KindView::Select,
            NodeKind::Delay { seconds } => KindView::Delay { seconds },
            NodeKind::Pid { setpoint, kp, ki, kd, integral_limit } => KindView::Pid {
                setpoint,
                kp,
                ki,
                kd,
                integral_limit,
            },
            NodeKind::FanOutput { channel } => KindView::FanOutput { channel: channel@ },
        }
    }
}

/// A list of points, copied.
pub fn copy_points(points: &Vec<CurvePoint>) -> (r: Vec<CurvePoint>)
    ensures
        r@ == points@,
{
    let mut out: Vec<CurvePoint> = Vec::new();
    let n: usize = points.len();
    for i in 0..n
        invariant
            n == points@.len(),
            out@ == points@.take(i as int),
    {
        out.push(points[i]);
    }
    assert(points@.take(n as int) =~= points@);
    out
}

impl Clone for NodeKind {
    fn clone(&self) -> (r: NodeKind)
        ensures
            r@ == self@,
    {
        match self {
            NodeKind::Sensor { sensor_id, quantity } => NodeKind::Sensor {
                sensor_id: sensor_id.clone(),
                quantity: *quantity,
            },
            NodeKind::Constant { value } => NodeKind::Constant { value: *value },
            NodeKind::Curve { points } => NodeKind::Curve { points: copy_points(points) },
            NodeKind::Mix { mode } => NodeKind::Mix { mode: *mode },
            NodeKind::Clamp { min, max } => NodeKind::Clamp { min: *min, max: *max },
            NodeKind::Offset { delta } => NodeKind::Offset { delta: *delta },
            NodeKind::Scale { factor } => NodeKind::Scale { factor: *factor },
            NodeKind::Reinterpret { from, to } => NodeKind::Reinterpret { from: *from, to: *to },
            NodeKind::RateLimit { max_delta_per_second } => NodeKind::RateLimit {
                max_delta_per_second: *max_delta_per_second,
            },
            NodeKind::LowPass { tau_seconds } => NodeKind::LowPass { tau_seconds: *tau_seconds },
            NodeKind::MovingAverage { samples } => NodeKind::MovingAverage { samples: *samples },
            NodeKind::Hold { band } => NodeKind::Hold { band: *band },
            NodeKind::Comparator { threshold, deadband, direction } => NodeKind::Comparator {
                threshold: *threshold,
                deadband: *deadband,
                direction: *direction,
            },
            NodeKind::Select => NodeKind::Select,
            NodeKind::Delay { seconds } => NodeKind::Delay { seconds: *seconds },
            NodeKind::Pid { setpoint, kp, ki, kd, integral_limit } => NodeKind::Pid {
                setpoint: *setpoint,
                kp: *kp,
                ki: *ki,
                kd: *kd,
                integral_limit: *integral_limit,
            },
            NodeKind::FanOutput { channel } => NodeKind::FanOutput { channel: channel.clone() },
        }
    }
}

/// The label a kind goes by when its instance has none.
pub open spec fn default_label_of(kind: KindView) -> Text {
    match kind {
        KindView::Sensor { .. } => "Sensor"@,
        KindView::Constant { .. } => "Constant"@,
        KindView::Curve { .. } => "Curve"@,
        KindView::Mix { .. } => "Mix"@,
        KindView::Clamp { .. } => "Clamp"@,
        KindView::Offset { .. } => "Offset"@,
        KindView::Scale { .. } => "Scale"@,
        KindView::Reinterpret { .. } => "Reinterpret"@,
        KindView::RateLimit { .. } => "Rate limit"@,
        KindView::LowPass { .. } => "Low-pass filter"@,
        KindView::MovingAverage { .. } => "Moving average"@,
        KindView::Hold { .. } => "Hold"@,
        KindView::Comparator { .. } => "Comparator"@,
        KindView::Select => "Select"@,
        KindView::Delay { .. } => "Delay"@,
        KindView::Pid { .. } => "PID"@,
        KindView::FanOutput { .. } => "Fan output"@,
    }
}

/// The port signature of each kind.
pub open spec fn ports(kind: KindView) -> SpecView {
    let plain_in = input_port("in"@, "Input"@, any());
    let plain_out = output_port("out"@, "Output"@, any());
    match kind {
        KindView::Sensor { quantity, .. } => SpecView {
            inputs: Seq::empty(),
            outputs: seq![output_port("out"@, "Reading"@, TypeView::Concrete(quantity))],
        },
        KindView::Constant { .. } => SpecView {
            inputs: Seq::empty(),
            outputs: seq![output_port("out"@, "Value"@, any())],
        },
        KindView::Curve { .. } => one_in_one_out(
            plain_in,
            output_port("out"@, "Duty"@, TypeView::Concrete(Quantity::Duty)),
        ),
        KindView::Mix { .. } => one_in_one_out(
            PortView { variadic: true, ..input_port("in"@, "Inputs"@, any()) },
            output_port("out"@, "Result"@, any()),
        ),
        KindView::Clamp { .. }
        | KindView::Offset { .. }
        | KindView::Scale { .. }
        | KindView::RateLimit { .. }
        | KindView::LowPass { .. }
        | KindView::MovingAverage { .. }
        | KindView::Hold { .. } => one_in_one_out(plain_in, plain_out),
        KindView::Reinterpret { from, to } => one_in_one_out(
            input_port("in"@, "Input"@, TypeView::Concrete(from)),
            output_port("out"@, "Output"@, TypeView::Concrete(to)),
        ),
        KindView::Comparator { .. } => one_in_one_out(
            plain_in,
            output_port("out"@, "Result"@, TypeView::Concrete(Quantity::Boolean)),
        ),
        KindView::Select => SpecView {
            inputs: seq![
                input_port("when"@, "When"@, TypeView::Concrete(Quantity::Boolean)),
                input_port("if_true"@, "If true"@, any()),
                input_port("if_false"@, "If false"@, any()),
            ],
            outputs: seq![plain_out],
        },
        KindView::Delay { .. } => one_in_one_out(
            plain_in,
            PortView { delayed: true, ..plain_out },
        ),
        KindView::Pid { .. } => one_in_one_out(
            input_port("in"@, "Measurement"@, any()),
            output_port("out"@, "Duty"@, TypeView::Concrete(Quantity::Duty)),
        ),
        KindView::FanOutput { .. } => one_in_one_out(
            input_port("duty"@, "Duty"@, TypeView::Concrete(Quantity::Duty)),
            PortView {
                delayed: true,
                ..output_port("rpm"@, "Speed"@, TypeView::Concrete(Quantity::Rpm))
            },
        ),
    }
}

/// A signature with one input and one output.
fn single(input: PortSpec, output: PortSpec) -> (r: NodeSpec)
    ensures
        r@ == one_in_one_out(input@, output@),
{
    let r = NodeSpec { inputs: vec![input], outputs: vec![output] };
    assert(r@.inputs =~= seq![input@]);
    assert(r@.outputs =~= seq![output@]);
    r
}

/// A signature with an output alone.
fn source(output: PortSpec) -> (r: NodeSpec)
    ensures
        r@ == (SpecView { inputs: Seq::empty(), outputs: seq![output@] }),
{
    let r = NodeSpec { inputs: Vec::new(), outputs: vec![output] };
    assert(r@.inputs =~= Seq::empty());
    assert(r@.outputs =~= seq![output@]);
    r
}

impl NodeKind {
    /// The label this kind goes by when its instance has none.
    pub fn default_label(&self) -> (r: &'static str)
        ensures
            r@ == default_label_of(self@),
    {
        match self {
            NodeKind::Sensor { .. } => "Sensor",
            NodeKind::Constant { .. } => "Constant",
            NodeKind::Curve { .. } => "Curve",
            NodeKind::Mix { .. } => "Mix",
            NodeKind::Clamp { .. } => "Clamp",
            NodeKind::Offset { .. } => "Offset",
            NodeKind::Scale { .. } => "Scale",
            NodeKind::Reinterpret { .. } => "Reinterpret",
            NodeKind::RateLimit { .. } => "Rate limit",
            NodeKind::LowPass { .. } => "Low-pass filter",
            NodeKind::MovingAverage { .. } => "Moving average",
            NodeKind::Hold { .. } => "Hold",
            NodeKind::Comparator { .. } => "Comparator",
            NodeKind::Select => "Select",
            NodeKind::Delay { .. } => "Delay",
            NodeKind::Pid { .. } => "PID",
            NodeKind::FanOutput { .. } => "Fan output",
        }
    }

    /// The node's typed port signature.
    pub fn spec(&self) -> (r: NodeSpec)
        ensures
            r@ == ports(self@),
    {
        match self {
            NodeKind::Sensor { quantity, .. } => source(fixed_out("out", "Reading", *quantity)),
            NodeKind::Constant { .. } => source(any_out("out", "Value")),
            NodeKind::Curve { .. } => single(
                any_in("in", "Input"),
                fixed_out("out", "Duty", Quantity::Duty),
            ),
            NodeKind::Mix { .. } => single(
                any_in("in", "Inputs").variadic(),
                any_out("out", "Result"),
            ),
            NodeKind::Clamp { .. }
            | NodeKind::Offset { .. }
            | NodeKind::Scale { .. }
            | NodeKind::RateLimit { .. }
            | NodeKind::LowPass { .. }
            | NodeKind::MovingAverage { .. }
            | NodeKind::Hold { .. } => single(any_in("in", "Input"), any_out("out", "Output")),
            NodeKind::Reinterpret { from, to } => single(
                fixed_in("in", "Input", *from),
                fixed_out("out", "Output", *to),
            ),
            NodeKind::Comparator { .. } => single(
                any_in("in", "Input"),
                fixed_out("out", "Result", Quantity::Boolean),
            ),
            NodeKind::Select => {
                let r = NodeSpec {
                    inputs: vec![
                        fixed_in("when", "When", Quantity::Boolean),
                        any_in("if_true", "If true"),
                        any_in("if_false", "If false"),
                    ],
                    outputs: vec![any_out("out", "Output")],
                };
                assert(r@.inputs =~= ports(self@).inputs);
                assert(r@.outputs =~= ports(self@).outputs);
                r
            },
            NodeKind::Delay { .. } => single(
                any_in("in", "Input"),
                any_out("out", "Output").delayed(),
            ),
            NodeKind::Pid { .. } => single(
                any_in("in", "Measurement"),
                fixed_out("out", "Duty", Quantity::Duty),
            ),
            NodeKind::FanOutput { .. } => single(
                fixed_in("duty", "Duty", Quantity::Duty),
                fixed_out("rpm", "Speed", Quantity::Rpm).delayed(),
            ),
        }
    }
}

/// No kind uses a port key twice, so an edge names one port.
pub proof fn port_keys_are_distinct(kind: KindView)
    ensures
        forall|i: int, j: int|
            0 <= i < j < ports(kind).all().len() ==> (#[trigger] ports(kind).all()[i]).key
                != (#[trigger] ports(kind).all()[j]).key,
        ports(kind).all().len() > 0,
{
    reveal_strlit("in");
    reveal_strlit("out");
    reveal_strlit("when");
    reveal_strlit("if_true");
    reveal_strlit("if_false");
    reveal_strlit("duty");
    reveal_strlit("rpm");
    assert("when"@[0] != "if_true"@[0]);
    assert("if_true"@.len() != "if_false"@.len());
    assert("in"@.len() != "out"@.len());
    assert("duty"@.len() != "rpm"@.len());
    assert("when"@.len() != "out"@.len());
}

} // verus!
