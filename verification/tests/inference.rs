//! A generic node is generic until something concrete decides it, and once decided it is
//! decided everywhere consistently.
use openfan::eval::{Decay, SensorReadings, TickInput};
use openfan::graph::{Graph, GraphError, PortRef};
use openfan::infer::infer;
use openfan::node::{CurvePoint, MixMode, NodeKind};
use openfan::scalar::Scalar;
use openfan::tick::{EvalState, TickResult};
use openfan::units::{Quantity, Value};
use openfan::validate::CompiledGraph;

fn s(x: f64) -> Scalar {
    Scalar::from_bits(x.to_bits())
}

fn num(x: Scalar) -> f64 {
    f64::from_bits(x.to_bits())
}

/// A value on a wire, as a test reads it.
#[derive(Debug, Clone, Copy)]
struct Shown {
    quantity: Quantity,
    scalar: f64,
}

impl Shown {
    fn is_trustworthy(&self) -> bool {
        Value::raw(self.quantity, s(self.scalar)).is_trustworthy()
    }
}

fn wire(out: &TickResult, node: &str, port: &str) -> Shown {
    let value = out
        .wire_values
        .get(&PortRef::new(node, port))
        .expect("the port carries a value");
    Shown { quantity: value.quantity, scalar: num(value.scalar) }
}

fn command(out: &TickResult, channel: &str) -> f64 {
    num(out.commands.get(&channel.to_owned()).expect("the channel is commanded").scalar)
}

fn readings(pairs: &[(&str, Quantity, f64)]) -> SensorReadings {
    let mut out = SensorReadings::new();
    for &(k, q, v) in pairs {
        out.insert(k.to_owned(), Value::raw(q, s(v)));
    }
    out
}

/// Ticks a graph, handing in the exponentials that its filters need.
fn tick_for(
    compiled: &CompiledGraph,
    sensors: &SensorReadings,
    dt: f64,
    state: &mut EvalState,
) -> TickResult {
    let decays: Vec<Decay> = compiled
        .decay_exponents(s(dt))
        .into_iter()
        .map(|exponent| Decay { exponent, factor: s(num(exponent).exp()) })
        .collect();
    compiled.tick(&TickInput::new(sensors, s(dt)).with_decays(&decays), state)
}

fn sensor(id: &str, q: Quantity) -> NodeKind {
    NodeKind::Sensor {
        sensor_id: id.into(),
        quantity: q,
    }
}

fn clamp() -> NodeKind {
    NodeKind::Clamp {
        min: s(0.0),
        max: s(100.0),
    }
}

/// The resolved type of one port in a graph that need not be fully valid.
fn ty(graph: &Graph, node: &str, port: &str) -> Option<Quantity> {
    let (types, _) = infer(graph);
    *types.get(&PortRef::new(node, port)).expect("a port")
}

fn errors_of(graph: &Graph) -> Vec<GraphError> {
    infer(graph).1
}

#[test]
fn a_generic_chain_with_nothing_attached_stays_generic() {
    // Half-built graphs are normal. Nothing here is an error; the editor simply draws
    // these ports as undecided.
    let mut g = Graph::default();
    g.insert("a", clamp());
    g.insert("b", NodeKind::Offset { delta: s(1.0) });
    g.connect(PortRef::new("a", "out"), PortRef::new("b", "in"));

    assert_eq!(ty(&g, "a", "in"), None);
    assert_eq!(ty(&g, "b", "out"), None);
    assert!(errors_of(&g).is_empty(), "generic is not an error");
}

#[test]
fn a_sensor_anchors_everything_downstream_of_it() {
    let mut g = Graph::default();
    g.insert("t", sensor("cpu", Quantity::Temperature));
    g.insert("hold", NodeKind::Hold { band: s(1.0) });
    g.insert("avg", NodeKind::MovingAverage { samples: 4 });
    g.connect(PortRef::new("t", "out"), PortRef::new("hold", "in"));
    g.connect(PortRef::new("hold", "out"), PortRef::new("avg", "in"));

    assert_eq!(ty(&g, "hold", "in"), Some(Quantity::Temperature));
    assert_eq!(ty(&g, "hold", "out"), Some(Quantity::Temperature));
    // Propagates through an arbitrary number of hops.
    assert_eq!(ty(&g, "avg", "out"), Some(Quantity::Temperature));
    assert!(errors_of(&g).is_empty());
}

#[test]
fn a_fan_output_anchors_everything_upstream_of_it() {
    // Inference is not directional: a concrete sink decides its generic feeders just as
    // a concrete source decides its consumers.
    let mut g = Graph::default();
    g.insert(
        "limit",
        NodeKind::RateLimit {
            max_delta_per_second: s(10.0),
        },
    );
    g.insert(
        "fan",
        NodeKind::FanOutput {
            channel: "f1".into(),
        },
    );
    g.connect(PortRef::new("limit", "out"), PortRef::new("fan", "duty"));

    assert_eq!(ty(&g, "limit", "out"), Some(Quantity::Duty));
    assert_eq!(ty(&g, "limit", "in"), Some(Quantity::Duty));
}

#[test]
fn a_constant_takes_the_type_of_whatever_it_feeds() {
    let mut g = Graph::default();
    g.insert("k", NodeKind::Constant { value: s(40.0) });
    g.insert(
        "fan",
        NodeKind::FanOutput {
            channel: "f1".into(),
        },
    );
    g.connect(PortRef::new("k", "out"), PortRef::new("fan", "duty"));

    assert_eq!(ty(&g, "k", "out"), Some(Quantity::Duty));
}

#[test]
fn an_unattached_constant_is_generic_and_evaluates_dimensionlessly() {
    let mut g = Graph::default();
    g.insert("k", NodeKind::Constant { value: s(40.0) });
    assert_eq!(ty(&g, "k", "out"), None);

    // It still evaluates rather than faulting: a value with no decided unit is a
    // perfectly good number, it just has nothing to flow into yet.
    let compiled = g.validate().unwrap();
    let out = tick_for(&compiled, &SensorReadings::new(), 0.1, &mut EvalState::new());
    let value = wire(&out, "k", "out");
    assert_eq!(value.scalar, 40.0);
    assert_eq!(value.quantity, Quantity::Ratio);
}

#[test]
fn conflicting_anchors_are_reported_against_the_node_that_cannot_satisfy_them() {
    // A clamp fed a temperature but driving a fan would have to be both at once.
    let mut g = Graph::default();
    g.insert("t", sensor("cpu", Quantity::Temperature));
    g.insert("clamp", clamp());
    g.insert(
        "fan",
        NodeKind::FanOutput {
            channel: "f1".into(),
        },
    );
    g.connect(PortRef::new("t", "out"), PortRef::new("clamp", "in"));
    g.connect(PortRef::new("clamp", "out"), PortRef::new("fan", "duty"));

    let errors = errors_of(&g);
    assert!(
        errors.iter().any(|e| matches!(
            e,
            GraphError::TypeConflict { node, .. } if node.0 == "clamp"
        )),
        "{errors:?}"
    );
    assert!(g.validate().is_err(), "the graph must not compile");
}

#[test]
fn a_mixer_fed_two_different_types_is_rejected() {
    let mut g = Graph::default();
    g.insert("cpu", sensor("cpu", Quantity::Temperature));
    g.insert("fan_rpm", sensor("rpm", Quantity::Rpm));
    g.insert("mix", NodeKind::Mix { mode: MixMode::Max });
    g.connect(PortRef::new("cpu", "out"), PortRef::new("mix", "in"));
    g.connect(PortRef::new("fan_rpm", "out"), PortRef::new("mix", "in"));

    let errors = errors_of(&g);
    assert!(
        errors
            .iter()
            .any(|e| matches!(e, GraphError::TypeConflict { .. })),
        "{errors:?}"
    );
}

#[test]
fn a_mixer_fed_one_type_is_fine_however_many_inputs() {
    let mut g = Graph::default();
    g.insert("cpu", sensor("cpu", Quantity::Temperature));
    g.insert("gpu", sensor("gpu", Quantity::Temperature));
    g.insert("vrm", sensor("vrm", Quantity::Temperature));
    g.insert("mix", NodeKind::Mix { mode: MixMode::Max });
    for src in ["cpu", "gpu", "vrm"] {
        g.connect(PortRef::new(src, "out"), PortRef::new("mix", "in"));
    }

    assert!(errors_of(&g).is_empty());
    assert_eq!(ty(&g, "mix", "out"), Some(Quantity::Temperature));
}

#[test]
fn variables_are_scoped_per_node() {
    // Two clamps both call their variable T. Deciding one must not decide the other.
    let mut g = Graph::default();
    g.insert("t", sensor("cpu", Quantity::Temperature));
    g.insert("a", clamp());
    g.insert("b", clamp());
    g.connect(PortRef::new("t", "out"), PortRef::new("a", "in"));

    assert_eq!(ty(&g, "a", "out"), Some(Quantity::Temperature));
    assert_eq!(ty(&g, "b", "out"), None, "b is untouched and stays generic");
}

#[test]
fn a_curve_always_emits_a_duty_whatever_it_reads() {
    let mut g = Graph::default();
    g.insert("t", sensor("cpu", Quantity::Temperature));
    g.insert(
        "curve",
        NodeKind::Curve {
            points: vec![
                CurvePoint { x: s(30.0), y: s(20.0) },
                CurvePoint { x: s(80.0), y: s(100.0) },
            ],
        },
    );
    g.connect(PortRef::new("t", "out"), PortRef::new("curve", "in"));

    assert_eq!(ty(&g, "curve", "in"), Some(Quantity::Temperature));
    assert_eq!(ty(&g, "curve", "out"), Some(Quantity::Duty));

    // And it is the node that makes temperature-to-duty legal at all.
    g.insert(
        "fan",
        NodeKind::FanOutput {
            channel: "f1".into(),
        },
    );
    g.connect(PortRef::new("curve", "out"), PortRef::new("fan", "duty"));
    assert!(g.validate().is_ok());
}

#[test]
fn select_unifies_its_branches_but_not_its_condition() {
    let mut g = Graph::default();
    g.insert("flag", sensor("f", Quantity::Boolean));
    g.insert("quiet", NodeKind::Constant { value: s(30.0) });
    g.insert("sel", NodeKind::Select);
    g.insert(
        "fan",
        NodeKind::FanOutput {
            channel: "f1".into(),
        },
    );
    g.connect(PortRef::new("flag", "out"), PortRef::new("sel", "when"));
    g.connect(
        PortRef::new("quiet", "out"),
        PortRef::new("sel", "if_false"),
    );
    g.connect(PortRef::new("sel", "out"), PortRef::new("fan", "duty"));

    // The fan decides the branches...
    assert_eq!(ty(&g, "sel", "if_true"), Some(Quantity::Duty));
    assert_eq!(ty(&g, "sel", "if_false"), Some(Quantity::Duty));
    // ...and the constant feeding one of them follows.
    assert_eq!(ty(&g, "quiet", "out"), Some(Quantity::Duty));
    // The condition is concrete and unaffected.
    assert_eq!(ty(&g, "sel", "when"), Some(Quantity::Boolean));
}

#[test]
fn a_generic_chain_carries_the_right_type_at_runtime_too() {
    // Inference decides the colours; evaluation has to agree, or a value could reach a
    // sink tagged as something it is not.
    let mut g = Graph::default();
    g.insert("t", sensor("cpu", Quantity::Temperature));
    g.insert("hold", NodeKind::Hold { band: s(0.5) });
    g.insert(
        "curve",
        NodeKind::Curve {
            points: vec![
                CurvePoint { x: s(0.0), y: s(0.0) },
                CurvePoint { x: s(100.0), y: s(100.0) },
            ],
        },
    );
    g.insert(
        "fan",
        NodeKind::FanOutput {
            channel: "f1".into(),
        },
    );
    g.connect(PortRef::new("t", "out"), PortRef::new("hold", "in"));
    g.connect(PortRef::new("hold", "out"), PortRef::new("curve", "in"));
    g.connect(PortRef::new("curve", "out"), PortRef::new("fan", "duty"));

    let compiled = g.validate().unwrap();
    let readings = readings(&[("cpu", Quantity::Temperature, 55.0)]);
    let out = tick_for(&compiled, &readings, 0.1, &mut EvalState::new());

    let held = wire(&out, "hold", "out");
    assert_eq!(
        held.quantity,
        Quantity::Temperature,
        "the hold carried the type through"
    );
    assert_eq!(held.scalar, 55.0);
    // Interpolation is floating point, so compare with a tolerance rather than exactly.
    assert!((command(&out, "f1") - 55.0).abs() < 1e-9);
}

#[test]
fn reinterpret_is_still_the_only_way_to_change_type() {
    // Generic nodes pass a type along; they never convert one. Crossing types stays a
    // visible, deliberate act.
    let mut g = Graph::default();
    g.insert("load", sensor("l", Quantity::Load));
    g.insert("scale", NodeKind::Scale { factor: s(1.0) });
    g.insert(
        "fan",
        NodeKind::FanOutput {
            channel: "f1".into(),
        },
    );
    g.connect(PortRef::new("load", "out"), PortRef::new("scale", "in"));
    g.connect(PortRef::new("scale", "out"), PortRef::new("fan", "duty"));
    assert!(
        g.validate().is_err(),
        "a scale cannot quietly turn a load into a duty"
    );

    let mut g = Graph::default();
    g.insert("load", sensor("l", Quantity::Load));
    g.insert(
        "cast",
        NodeKind::Reinterpret {
            from: Quantity::Load,
            to: Quantity::Duty,
        },
    );
    g.insert(
        "fan",
        NodeKind::FanOutput {
            channel: "f1".into(),
        },
    );
    g.connect(PortRef::new("load", "out"), PortRef::new("cast", "in"));
    g.connect(PortRef::new("cast", "out"), PortRef::new("fan", "duty"));
    assert!(g.validate().is_ok());
}

#[test]
fn a_compiled_graph_exposes_the_types_it_settled_on() {
    let mut g = Graph::default();
    g.insert("t", sensor("cpu", Quantity::Temperature));
    g.insert("hold", NodeKind::Hold { band: s(1.0) });
    g.connect(PortRef::new("t", "out"), PortRef::new("hold", "in"));

    let compiled = g.validate().unwrap();
    assert_eq!(
        compiled.types().get(&PortRef::new("hold", "out")).copied(),
        Some(Some(Quantity::Temperature))
    );
}
