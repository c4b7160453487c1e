//! The parameter schema: what the editor may configure on each node kind.
//!
//! Parameters are described here rather than in the editor, for the same reason ports are:
//! adding a node kind should not require touching the frontend, and the two cannot then
//! disagree about what a node is configurable by.
//!
//! The `key` of a parameter is the name of the field in the document, so an edit writes
//! straight to it.
use crate::fancontrol::said;
use crate::node::{KindView, NodeKind};
use crate::scalar::{whole, Scalar};
use crate::text::Text;
use vstd::prelude::*;

verus! {

/// What a numeric parameter is measured in.
///
/// Several parameters are denominated in whatever flows through the node — a hold band on a
/// temperature is degrees, on a duty is percent.
#[derive(Debug, Clone, PartialEq, Eq)]
pub enum ParamUnit {
    /// Dimensionless.
    Dimensionless,
    /// A fixed symbol, such as seconds.
    Fixed { symbol: String },
    /// The node's quantity.
    Quantity,
    /// The node's quantity, per second.
    QuantityRate,
}

/// A unit, as contracts speak of it.
pub enum UnitView {
    Dimensionless,
    Fixed { symbol: Text },
    Quantity,
    QuantityRate,
}

impl View for ParamUnit {
    type V = UnitView;

    open spec fn view(&self) -> UnitView {
        match *self {
            ParamUnit::Dimensionless => UnitView::Dimensionless,
            ParamUnit::Fixed { symbol } => UnitView::Fixed { symbol: symbol@ },
            ParamUnit::Quantity => UnitView::Quantity,
            ParamUnit::QuantityRate => UnitView::QuantityRate,
        }
    }
}

/// One option in a choice parameter.
#[derive(Debug, Clone, PartialEq, Eq)]
pub struct ChoiceOption {
    /// The value, exactly as the document stores it.
    pub value: String,
    pub label: String,
}

/// An option, as contracts speak of it.
pub struct OptionView {
    pub value: Text,
    pub label: Text,
}

impl View for ChoiceOption {
    type V = OptionView;

    open spec fn view(&self) -> OptionView {
        OptionView { value: self.value@, label: self.label@ }
    }
}

/// How a parameter should be edited.
#[derive(Debug, Clone, PartialEq)]
pub enum ParamKind {
    Number { min: Option<Scalar>, max: Option<Scalar>, step: Scalar, unit: ParamUnit },
    Integer { min: Option<i32>, max: Option<i32> },
    /// One of the port types.
    Quantity,
    Choice { options: Vec<ChoiceOption> },
    /// A sensor from the current hardware inventory.
    Sensor,
    /// An output channel from the current hardware inventory.
    Channel,
    /// A list of transfer-curve points.
    Curve,
}

/// How a parameter should be edited, as contracts speak of it.
pub enum EditView {
    Number { min: Option<Scalar>, max: Option<Scalar>, step: Scalar, unit: UnitView },
    Integer { min: Option<i32>, max: Option<i32> },
    Quantity,
    Choice { options: Seq<OptionView> },
    Sensor,
    Channel,
    Curve,
}

impl View for ParamKind {
    type V = EditView;

    open spec fn view(&self) -> EditView {
        match *self {
            ParamKind::Number { min, max, step, unit } => EditView::Number {
                min,
                max,
                step,
                unit: unit@,
            },
            ParamKind::Integer { min, max } => EditView::Integer { min, max },
            ParamKind::Quantity => EditView::Quantity,
            ParamKind::Choice { options } => EditView::Choice {
                options: Seq::new(options@.len(), |i: int| options@[i]@),
            },
            ParamKind::Sensor => EditView::Sensor,
            ParamKind::Channel => EditView::Channel,
            ParamKind::Curve => EditView::Curve,
        }
    }
}

/// One editable parameter of a node.
#[derive(Debug, Clone, PartialEq)]
pub struct ParamSpec {
    /// The name of the field. Editing writes straight to it.
    pub key: String,
    pub label: String,
    /// Shown beneath the control.
    pub help: Option<String>,
    pub kind: ParamKind,
}

/// A parameter, as contracts speak of it.
pub struct ParamView {
    pub key: Text,
    pub label: Text,
    pub help: Option<Text>,
    pub kind: EditView,
}

impl View for ParamSpec {
    type V = ParamView;

    open spec fn view(&self) -> ParamView {
        ParamView {
            key: self.key@,
            label: self.label@,
            help: said(self.help),
            kind: self.kind@,
        }
    }
}

/// What a list of parameters says.
pub open spec fn param_views(list: Seq<ParamSpec>) -> Seq<ParamView> {
    Seq::new(list.len(), |i: int| list[i]@)
}

impl ParamView {
    /// With a line of help.
    pub open spec fn helped(self, help: Text) -> ParamView {
        ParamView { help: Some(help), ..self }
    }
}

impl ParamSpec {
    fn new(key: &str, label: &str, kind: ParamKind) -> (r: ParamSpec)
        ensures
            r@ == param(key@, label@, kind@),
    {
        ParamSpec { key: key.to_owned(), label: label.to_owned(), help: None, kind }
    }

    fn help(self, help: &str) -> (r: ParamSpec)
        ensures
            r@ == self@.helped(help@),
    {
        ParamSpec { help: Some(help.to_owned()), ..self }
    }
}

/// A parameter without help.
pub open spec fn param(key: Text, label: Text, kind: EditView) -> ParamView {
    ParamView { key, label, help: None, kind }
}

/// A number of any size.
pub open spec fn free_number(key: Text, label: Text, step: Scalar, unit: UnitView) -> ParamView {
    param(key, label, EditView::Number { min: None, max: None, step, unit })
}

/// A value denominated in the node's own quantity, edited by halves.
pub open spec fn own_quantity(key: Text, label: Text) -> ParamView {
    free_number(key, label, whole(1).over(whole(2)), UnitView::Quantity)
}

/// A time that is not negative, edited by tenths of a second.
pub open spec fn some_seconds(key: Text, label: Text) -> ParamView {
    param(
        key,
        label,
        EditView::Number {
            min: Some(whole(0)),
            max: None,
            step: whole(1).over(whole(10)),
            unit: UnitView::Fixed { symbol: "s"@ },
        },
    )
}

fn number(key: &str, label: &str, step: Scalar, unit: ParamUnit) -> (r: ParamSpec)
    ensures
        r@ == free_number(key@, label@, step, unit@),
{
    ParamSpec::new(key, label, ParamKind::Number { min: None, max: None, step, unit })
}

fn bounded(key: &str, label: &str, lo: Scalar, hi: Scalar, step: Scalar, unit: ParamUnit) -> (r:
    ParamSpec)
    ensures
        r@ == param(
            key@,
            label@,
            EditView::Number { min: Some(lo), max: Some(hi), step, unit: unit@ },
        ),
{
    ParamSpec::new(key, label, ParamKind::Number { min: Some(lo), max: Some(hi), step, unit })
}

fn fraction(n: u64, d: u64) -> (r: Scalar)
    ensures
        r == whole(n as nat).over(whole(d as nat)),
{
    Scalar::whole(n).div(Scalar::whole(d))
}

fn in_quantity(key: &str, label: &str) -> (r: ParamSpec)
    ensures
        r@ == own_quantity(key@, label@),
{
    number(key, label, fraction(1, 2), ParamUnit::Quantity)
}

fn seconds(key: &str, label: &str) -> (r: ParamSpec)
    ensures
        r@ == some_seconds(key@, label@),
{
    ParamSpec::new(
        key,
        label,
        ParamKind::Number {
            min: Some(Scalar::whole(0)),
            max: None,
            step: fraction(1, 10),
            unit: ParamUnit::Fixed { symbol: "s".to_owned() },
        },
    )
}

fn quantity_picker(key: &str, label: &str) -> (r: ParamSpec)
    ensures
        r@ == param(key@, label@, EditView::Quantity),
{
    ParamSpec::new(key, label, ParamKind::Quantity)
}

fn choice(key: &str, label: &str, options: Vec<ChoiceOption>) -> (r: ParamSpec)
    ensures
        r@ == param(
            key@,
            label@,
            EditView::Choice { options: Seq::new(options@.len(), |i: int| options@[i]@) },
        ),
{
    ParamSpec::new(key, label, ParamKind::Choice { options })
}

fn option(value: &str, label: &str) -> (r: ChoiceOption)
    ensures
        r@ == (OptionView { value: value@, label: label@ }),
{
    ChoiceOption { value: value.to_owned(), label: label.to_owned() }
}

/// An option.
pub open spec fn offered_option(value: Text, label: Text) -> OptionView {
    OptionView { value, label }
}

/// How a mixer combines its inputs.
pub open spec fn mode_param() -> ParamView {
    param(
        "mode"@,
        "Combine using"@,
        EditView::Choice {
            options: seq![
                offered_option("max"@, "Maximum (hottest wins)"@),
                offered_option("min"@, "Minimum"@),
                offered_option("average"@, "Average"@),
                offered_option("sum"@, "Sum"@),
            ],
        },
    ).helped("A dead input poisons the result rather than being averaged away."@)
}

fn mode_choice() -> (r: ParamSpec)
    ensures
        r@ == mode_param(),
{
    let options = vec![option("max", "Maximum (hottest wins)"), option("min", "Minimum"), option("average", "Average"), option("sum", "Sum")];
    let ghost shown = Seq::new(options@.len(), |i: int| options@[i]@);
    assert(shown =~= seq![offered_option("max"@, "Maximum (hottest wins)"@), offered_option("min"@, "Minimum"@), offered_option("average"@, "Average"@), offered_option("sum"@, "Sum"@)]);
    choice("mode", "Combine using", options).help("A dead input poisons the result rather than being averaged away.")
}

/// Which side of its threshold a comparator tests.
pub open spec fn direction_param() -> ParamView {
    param(
        "direction"@,
        "True when"@,
        EditView::Choice {
            options: seq![
                offered_option("above"@, "Above the threshold"@),
                offered_option("below"@, "Below the threshold"@),
            ],
        },
    )
}

fn direction_choice() -> (r: ParamSpec)
    ensures
        r@ == direction_param(),
{
    let options = vec![option("above", "Above the threshold"), option("below", "Below the threshold")];
    let ghost shown = Seq::new(options@.len(), |i: int| options@[i]@);
    assert(shown =~= seq![offered_option("above"@, "Above the threshold"@), offered_option("below"@, "Below the threshold"@)]);
    choice("direction", "True when", options)
}

/// How far the integral term of a controller may reach.
pub open spec fn limit_param() -> ParamView {
    param(
        "integral_limit"@,
        "Integral limit"@,
        EditView::Number {
            min: Some(whole(0)),
            max: Some(whole(100)),
            step: whole(1),
            unit: UnitView::Fixed { symbol: "%"@ },
        },
    ).helped("Caps what the integral term may contribute, so it cannot wind up and hold the fans at full long after the load has gone."@)
}

fn integral_limit() -> (r: ParamSpec)
    ensures
        r@ == limit_param(),
{
    bounded(
        "integral_limit",
        "Integral limit",
        Scalar::whole(0),
        Scalar::whole(100),
        Scalar::whole(1),
        ParamUnit::Fixed { symbol: "%".to_owned() },
    ).help("Caps what the integral term may contribute, so it cannot wind up and hold the fans at full long after the load has gone.")
}

/// The editable parameters of a node kind.
pub open spec fn params_of(kind: KindView) -> Seq<ParamView> {
    match kind {
        KindView::Sensor { .. } => seq![
            param("sensor_id"@, "Sensor"@, EditView::Sensor),
            param("quantity"@, "Reads"@, EditView::Quantity).helped("Set for you when you pick a sensor. A reading that arrives as a different quantity faults rather than being used."@),
        ],
        KindView::Constant { .. } => seq![
            free_number("value"@, "Value"@, whole(1), UnitView::Quantity),
        ],
        KindView::Curve { .. } => seq![
            param("points"@, "Curve"@, EditView::Curve).helped("Outside the first and last point the curve is held flat."@),
        ],
        KindView::Mix { .. } => seq![
            mode_param(),
        ],
        KindView::Clamp { .. } => seq![
            own_quantity("min"@, "Minimum"@),
            own_quantity("max"@, "Maximum"@),
        ],
        KindView::Offset { .. } => seq![
            own_quantity("delta"@, "Add"@),
        ],
        KindView::Scale { .. } => seq![
            free_number("factor"@, "Multiply by"@, whole(1).over(whole(10)), UnitView::Dimensionless),
        ],
        KindView::Reinterpret { .. } => seq![
            param("from"@, "From"@, EditView::Quantity),
            param("to"@, "To"@, EditView::Quantity).helped("Crossing the type system is deliberate and visible. Only do this where the conversion genuinely means something."@),
        ],
        KindView::RateLimit { .. } => seq![
            free_number("max_delta_per_second"@, "Maximum change"@, whole(1), UnitView::QuantityRate).helped("The main tool against fans hunting on a slow heatsink."@),
        ],
        KindView::LowPass { .. } => seq![
            some_seconds("tau_seconds"@, "Time constant"@).helped("Time to cover about 63% of a step. Tuning is in seconds, so it survives a change of tick rate."@),
        ],
        KindView::MovingAverage { .. } => seq![
            param("samples"@, "Samples"@, EditView::Integer { min: Some(1), max: Some(600) }),
        ],
        KindView::Hold { .. } => seq![
            own_quantity("band"@, "Deadband"@).helped("Output holds until the input moves further than this. Stops fans twitching at sensor noise."@),
        ],
        KindView::Comparator { .. } => seq![
            own_quantity("threshold"@, "Threshold"@),
            own_quantity("deadband"@, "Deadband"@).helped("The input must clear the threshold by half this before the result flips, so it cannot chatter."@),
            direction_param(),
        ],
        KindView::Select => Seq::empty(),
        KindView::Delay { .. } => seq![
            some_seconds("seconds"@, "Delay"@),
        ],
        KindView::Pid { .. } => seq![
            own_quantity("setpoint"@, "Setpoint"@),
            free_number("kp"@, "Proportional gain"@, whole(1).over(whole(10)), UnitView::Dimensionless),
            free_number("ki"@, "Integral gain"@, whole(1).over(whole(20)), UnitView::Dimensionless),
            free_number("kd"@, "Derivative gain"@, whole(1).over(whole(10)), UnitView::Dimensionless),
            limit_param(),
        ],
        KindView::FanOutput { .. } => seq![
            param("channel"@, "Channel"@, EditView::Channel),
        ],
    }
}

/// The fields of a node kind, as the document names them.
pub open spec fn fields_of(kind: KindView) -> Seq<Text> {
    match kind {
        KindView::Sensor { .. } => seq!["sensor_id"@, "quantity"@],
        KindView::Constant { .. } => seq!["value"@],
        KindView::Curve { .. } => seq!["points"@],
        KindView::Mix { .. } => seq!["mode"@],
        KindView::Clamp { .. } => seq!["min"@, "max"@],
        KindView::Offset { .. } => seq!["delta"@],
        KindView::Scale { .. } => seq!["factor"@],
        KindView::Reinterpret { .. } => seq!["from"@, "to"@],
        KindView::RateLimit { .. } => seq!["max_delta_per_second"@],
        KindView::LowPass { .. } => seq!["tau_seconds"@],
        KindView::MovingAverage { .. } => seq!["samples"@],
        KindView::Hold { .. } => seq!["band"@],
        KindView::Comparator { .. } => seq!["threshold"@, "deadband"@, "direction"@],
        KindView::Select => Seq::empty(),
        KindView::Delay { .. } => seq!["seconds"@],
        KindView::Pid { .. } => seq!["setpoint"@, "kp"@, "ki"@, "kd"@, "integral_limit"@],
        KindView::FanOutput { .. } => seq!["channel"@],
    }
}

/// The editable parameters of a node kind.
///
/// Every field of every kind appears here: one without a parameter would be invisible in the
/// editor and silently un-editable.
pub fn params_for(kind: &NodeKind) -> (r: Vec<ParamSpec>)
    ensures
        param_views(r@) == params_of(kind@),
{
    let r: Vec<ParamSpec> = match kind {
        NodeKind::Sensor { .. } => vec![
            ParamSpec::new("sensor_id", "Sensor", ParamKind::Sensor),
            quantity_picker("quantity", "Reads").help("Set for you when you pick a sensor. A reading that arrives as a different quantity faults rather than being used."),
        ],
        NodeKind::Constant { .. } => vec![
            number("value", "Value", Scalar::whole(1), ParamUnit::Quantity),
        ],
        NodeKind::Curve { .. } => vec![
            ParamSpec::new("points", "Curve", ParamKind::Curve).help("Outside the first and last point the curve is held flat."),
        ],
        NodeKind::Mix { .. } => vec![
            mode_choice(),
        ],
        NodeKind::Clamp { .. } => vec![
            in_quantity("min", "Minimum"),
            in_quantity("max", "Maximum"),
        ],
        NodeKind::Offset { .. } => vec![
            in_quantity("delta", "Add"),
        ],
        NodeKind::Scale { .. } => vec![
            number("factor", "Multiply by", fraction(1, 10), ParamUnit::Dimensionless),
        ],
        NodeKind::Reinterpret { .. } => vec![
            quantity_picker("from", "From"),
            quantity_picker("to", "To").help("Crossing the type system is deliberate and visible. Only do this where the conversion genuinely means something."),
        ],
        NodeKind::RateLimit { .. } => vec![
            number("max_delta_per_second", "Maximum change", Scalar::whole(1), ParamUnit::QuantityRate).help("The main tool against fans hunting on a slow heatsink."),
        ],
        NodeKind::LowPass { .. } => vec![
            seconds("tau_seconds", "Time constant").help("Time to cover about 63% of a step. Tuning is in seconds, so it survives a change of tick rate."),
        ],
        NodeKind::MovingAverage { .. } => vec![
            ParamSpec::new("samples", "Samples", ParamKind::Integer { min: Some(1), max: Some(600) }),
        ],
        NodeKind::Hold { .. } => vec![
            in_quantity("band", "Deadband").help("Output holds until the input moves further than this. Stops fans twitching at sensor noise."),
        ],
        NodeKind::Comparator { .. } => vec![
            in_quantity("threshold", "Threshold"),
            in_quantity("deadband", "Deadband").help("The input must clear the threshold by half this before the result flips, so it cannot chatter."),
            direction_choice(),
        ],
        NodeKind::Select => Vec::new(),
        NodeKind::Delay { .. } => vec![
            seconds("seconds", "Delay"),
        ],
        NodeKind::Pid { .. } => vec![
            in_quantity("setpoint", "Setpoint"),
            number("kp", "Proportional gain", fraction(1, 10), ParamUnit::Dimensionless),
            number("ki", "Integral gain", fraction(1, 20), ParamUnit::Dimensionless),
            number("kd", "Derivative gain", fraction(1, 10), ParamUnit::Dimensionless),
            integral_limit(),
        ],
        NodeKind::FanOutput { .. } => vec![
            ParamSpec::new("channel", "Channel", ParamKind::Channel),
        ],
    };
    assert(param_views(r@) =~= params_of(kind@));
    r
}

/// The keys of some parameters.
pub open spec fn keys_of(params: Seq<ParamView>) -> Seq<Text> {
    Seq::new(params.len(), |i: int| params[i].key)
}

/// The parameters of a kind are its fields: every field is editable, and no parameter names a
/// field that does not exist.
pub proof fn every_field_is_editable(kind: KindView)
    ensures
        keys_of(params_of(kind)) == fields_of(kind),
{
    assert(keys_of(params_of(kind)) =~= fields_of(kind));
}

} // verus!
