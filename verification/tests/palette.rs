//! What the editor offers, and how it shows what runs.
use openfan::graph::{Graph, PortRef};
use openfan::ipc::{catalogue, kind_tag, resolve_types, NodeCategory, WireValue};
use openfan::node::NodeKind;
use openfan::params::{params_for, ParamKind, ParamUnit};
use openfan::scalar::Scalar;
use openfan::units::{Quantity, Value};

fn s(x: f64) -> Scalar {
    Scalar::from_bits(x.to_bits())
}

/// The fields that a document stores for a node.
fn fields_of(kind: &NodeKind) -> Vec<&'static str> {
    match kind {
        NodeKind::Sensor { .. } => vec!["sensor_id", "quantity"],
        NodeKind::Constant { .. } => vec!["value"],
        NodeKind::Curve { .. } => vec!["points"],
        NodeKind::Mix { .. } => vec!["mode"],
        NodeKind::Clamp { .. } => vec!["min", "max"],
        NodeKind::Offset { .. } => vec!["delta"],
        NodeKind::Scale { .. } => vec!["factor"],
        NodeKind::Reinterpret { .. } => vec!["from", "to"],
        NodeKind::RateLimit { .. } => vec!["max_delta_per_second"],
        NodeKind::LowPass { .. } => vec!["tau_seconds"],
        NodeKind::MovingAverage { .. } => vec!["samples"],
        NodeKind::Hold { .. } => vec!["band"],
        NodeKind::Comparator { .. } => vec!["threshold", "deadband", "direction"],
        NodeKind::Select => vec![],
        NodeKind::Delay { .. } => vec!["seconds"],
        NodeKind::Pid { .. } => vec!["setpoint", "kp", "ki", "kd", "integral_limit"],
        NodeKind::FanOutput { .. } => vec!["channel"],
    }
}

/// The values that a document accepts for a field with a fixed set of them.
fn accepted(field: &str) -> Vec<&'static str> {
    match field {
        "mode" => vec!["max", "min", "average", "sum"],
        "direction" => vec!["above", "below"],
        other => panic!("{other} does not hold one of a set of values"),
    }
}

#[test]
fn the_catalogue_covers_every_node_kind() {
    // If a variant is added without a palette entry it is unreachable from the UI.
    // This number moving is a prompt to add the missing descriptor, not to bump the
    // constant — a kind with no palette entry is unreachable from the UI.
    assert_eq!(catalogue().len(), 17);
}

#[test]
fn every_descriptor_has_a_stable_kind_tag() {
    let mut seen: Vec<String> = Vec::new();
    for d in catalogue() {
        assert!(!d.kind.is_empty(), "{} has no kind tag", d.label);
        // The tag must match what the document format actually stores, or the palette
        // would produce nodes nothing can identify.
        assert_eq!(kind_tag(&d.template), d.kind);
        assert!(!seen.contains(&d.kind), "{} is on the palette twice", d.kind);
        seen.push(d.kind);
    }
    assert_eq!(
        seen,
        [
            "sensor",
            "constant",
            "curve",
            "mix",
            "clamp",
            "offset",
            "scale",
            "reinterpret",
            "rate-limit",
            "low-pass",
            "moving-average",
            "hold",
            "comparator",
            "select",
            "delay",
            "pid",
            "fan-output",
        ]
    );
}

#[test]
fn every_template_is_valid_on_its_own_terms() {
    // A palette entry that evaluates to a fault the instant it is added would teach
    // users that fault markers are normal. Templates carry usable defaults.
    for d in catalogue() {
        let spec = d.template.spec();
        assert_eq!(spec.inputs.len(), d.inputs.len());
        assert_eq!(spec.outputs.len(), d.outputs.len());
        if let NodeKind::Curve { points, .. } = &d.template {
            assert!(!points.is_empty(), "the curve template must have points");
        }
    }
}

#[test]
fn a_faulted_wire_carries_no_number() {
    let port = PortRef::new("n", "out");
    let bad = WireValue::new(&port, &Value::raw(Quantity::Duty, s(f64::NAN)));
    assert_eq!(bad.value, None, "NaN must not reach the UI as a reading");

    let good = WireValue::new(&port, &Value::raw(Quantity::Duty, s(42.0)));
    assert_eq!(good.value, Some(s(42.0)));
    assert_eq!(good.node_id, "n");
    assert_eq!(good.port, "out");

    let sensor = WireValue::sensor("chip/temp", &Value::raw(Quantity::Temperature, s(f64::INFINITY)));
    assert_eq!(sensor.value, None);
    assert_eq!((sensor.node_id.as_str(), sensor.port.as_str()), ("chip/temp", ""));
}

#[test]
fn every_field_of_every_node_kind_is_editable() {
    // A field with no spec is invisible in the editor and silently un-editable —
    // the user would have no way to configure it and no indication it exists.
    for descriptor in catalogue() {
        let mut expected = fields_of(&descriptor.template);
        let mut keys: Vec<String> =
            params_for(&descriptor.template).into_iter().map(|p| p.key).collect();
        keys.sort();
        expected.sort();
        assert_eq!(
            keys, expected,
            "parameter specs for {} are incomplete",
            descriptor.label
        );
        assert_eq!(descriptor.params.len(), expected.len());
    }
}

#[test]
fn no_spec_names_a_field_that_does_not_exist() {
    // Covered by the equality above, but stated separately because the failure mode
    // is different: a stale key means an edit that writes a field nothing reads.
    for descriptor in catalogue() {
        let fields = fields_of(&descriptor.template);
        for spec in params_for(&descriptor.template) {
            assert!(
                fields.contains(&spec.key.as_str()),
                "{} has a spec for {:?}, which it does not store",
                descriptor.label,
                spec.key
            );
        }
    }
}

#[test]
fn choice_options_are_values_the_document_actually_accepts() {
    // An option whose value a document does not accept would produce a node that is
    // rejected, discovered only on apply.
    let mut offered = 0;
    for descriptor in catalogue() {
        for spec in params_for(&descriptor.template) {
            if let ParamKind::Choice { options } = &spec.kind {
                for option in options {
                    assert!(
                        accepted(&spec.key).contains(&option.value.as_str()),
                        "{} rejects {}={:?}",
                        descriptor.label,
                        spec.key,
                        option.value
                    );
                }
                assert_eq!(options.len(), accepted(&spec.key).len());
                offered += 1;
            }
        }
    }
    assert_eq!(offered, 2);
}

#[test]
fn units_are_the_ones_a_number_is_read_in() {
    let filter = params_for(&NodeKind::LowPass { tau_seconds: s(1.0) });
    match &filter[0].kind {
        ParamKind::Number { unit: ParamUnit::Fixed { symbol }, .. } => assert_eq!(symbol, "s"),
        other => panic!("a time constant is a number of seconds, not {other:?}"),
    }
    let clamp = params_for(&NodeKind::Clamp { min: s(0.0), max: s(1.0) });
    assert!(matches!(
        clamp[0].kind,
        ParamKind::Number { unit: ParamUnit::Quantity, .. }
    ));
}

#[test]
fn the_palette_is_grouped() {
    let all = catalogue();
    let count = |category| all.iter().filter(|d| d.category == category).count();
    assert_eq!(count(NodeCategory::Source), 2);
    assert_eq!(count(NodeCategory::Sink), 1);
    for d in &all {
        assert!(!d.description.is_empty(), "{} explains nothing", d.label);
    }
}

#[test]
fn resolved_types_are_listed_port_by_port() {
    let mut g = Graph::default();
    g.insert(
        "t",
        NodeKind::Sensor { sensor_id: "x".into(), quantity: Quantity::Temperature },
    );
    g.insert("shift", NodeKind::Offset { delta: s(1.0) });
    g.insert("alone", NodeKind::Scale { factor: s(2.0) });
    g.connect(PortRef::new("t", "out"), PortRef::new("shift", "in"));

    let types = resolve_types(&g);
    let of = |node: &str, port: &str| {
        types
            .iter()
            .find(|d| d.node_id == node && d.port == port)
            .expect("every port is listed")
            .quantity
    };
    assert_eq!(of("shift", "out"), Some(Quantity::Temperature));
    assert_eq!(of("alone", "in"), None, "nothing has decided it yet");
    let order: Vec<(&str, &str)> =
        types.iter().map(|d| (d.node_id.as_str(), d.port.as_str())).collect();
    let mut sorted = order.clone();
    sorted.sort();
    assert_eq!(order, sorted);
}
