//! Scalars against the floating point of the machine, and the text helpers against std.
use openfan::graph::{Graph, GraphError, NodeId, PortRef};
use openfan::node::NodeKind;
use openfan::scalar::Scalar;
use openfan::text::{
    begins_with, comes_before, contains_text, decimal, is_blank, joined, list_of, lower_ascii,
    read_index, same, split_parts,
};
use openfan::units::{Quantity, Value};

fn s(x: f64) -> Scalar {
    Scalar::from_bits(x.to_bits())
}

fn num(x: Scalar) -> f64 {
    f64::from_bits(x.to_bits())
}

/// Equal as results: the same number with the same sign, or both not a number.
fn agree(a: Scalar, b: f64) -> bool {
    (num(a).is_nan() && b.is_nan()) || a.to_bits() == b.to_bits()
}

/// Ordinary numbers and the ends of the format: zeros, subnormals, the largest, infinities.
fn samples() -> Vec<f64> {
    let mut out = vec![
        0.0,
        -0.0,
        1.0,
        -1.0,
        0.1,
        0.5,
        -2.5,
        3.0,
        10.0,
        99.95,
        1e-9,
        1.0 / 3.0,
        255.0,
        1e16,
        -7.25e20,
        f64::MIN_POSITIVE,
        f64::MIN_POSITIVE / 3.0,
        f64::from_bits(1),
        f64::from_bits((1u64 << 52) - 1),
        f64::MAX,
        f64::MIN,
        f64::EPSILON,
        1.0 + f64::EPSILON,
        4503599627370495.5,
        f64::INFINITY,
        f64::NEG_INFINITY,
        f64::NAN,
    ];
    let mut state: u64 = 0x9E37_79B9_7F4A_7C15;
    for _ in 0..60 {
        state ^= state << 13;
        state ^= state >> 7;
        state ^= state << 17;
        out.push(f64::from_bits(state));
        out.push((state >> 40) as f64 / 1024.0);
    }
    out
}

#[test]
fn arithmetic_is_the_arithmetic_of_the_machine() {
    let all = samples();
    for &a in &all {
        for &b in &all {
            assert!(agree(s(a).add(s(b)), a + b), "{a:e} + {b:e}");
            assert!(agree(s(a).sub(s(b)), a - b), "{a:e} - {b:e}");
            assert!(agree(s(a).mul(s(b)), a * b), "{a:e} * {b:e}");
            assert!(agree(s(a).div(s(b)), a / b), "{a:e} / {b:e}");
        }
    }
}

#[test]
fn comparisons_are_the_comparisons_of_the_machine() {
    let all = samples();
    for &a in &all {
        for &b in &all {
            assert_eq!(s(a).lt(s(b)), a < b, "{a:e} < {b:e}");
            assert_eq!(s(a).le(s(b)), a <= b, "{a:e} <= {b:e}");
            assert_eq!(s(a).same(s(b)), a == b, "{a:e} == {b:e}");
            assert_eq!(s(a) == s(b), a == b);
            assert_eq!(
                s(a).comes_before(s(b)),
                a.total_cmp(&b) == std::cmp::Ordering::Less,
                "{a:e} before {b:e}"
            );
            assert!(num(s(a).max(s(b))) == a.max(b) || (a.is_nan() && b.is_nan()));
            assert!(num(s(a).min(s(b))) == a.min(b) || (a.is_nan() && b.is_nan()));
        }
    }
}

#[test]
fn rounding_and_signs_are_those_of_the_machine() {
    for a in samples() {
        assert!(agree(s(a).round(), a.round()), "round {a:e}");
        assert!(agree(s(a).negate(), -a), "-{a:e}");
        assert!(agree(s(a).abs(), a.abs()), "|{a:e}|");
        assert_eq!(s(a).is_nan(), a.is_nan());
        assert_eq!(s(a).is_finite(), a.is_finite());
        assert!(agree(s(a).clamp(s(-1.0), s(100.0)), a.clamp(-1.0, 100.0)));
    }
    for half in [0.5, 1.5, 2.5, -0.5, -1.5, 0.49999999999999994, -0.3] {
        assert!(agree(s(half).round(), f64::round(half)), "round {half}");
    }
    for n in [0u64, 1, 100, 4095, u64::MAX, (1 << 53) + 1, 1 << 63] {
        assert_eq!(num(Scalar::whole(n)), n as f64);
    }
}

#[test]
fn a_tenth_of_a_percent_of_a_percentage_is_a_percentage() {
    for tenth in 0..=1000u64 {
        let duty = Scalar::whole(tenth).div(Scalar::whole(10));
        let shown = duty.mul(Scalar::whole(10)).round().div(Scalar::whole(10));
        assert_eq!(num(shown), tenth as f64 / 10.0);
    }
}

#[test]
fn values_are_brought_into_the_range_of_their_quantity() {
    assert_eq!(num(Value::new(Quantity::Duty, s(140.0)).scalar), 100.0);
    assert_eq!(num(Value::new(Quantity::Duty, s(-3.0)).scalar), 0.0);
    assert_eq!(num(Value::raw(Quantity::Duty, s(140.0)).scalar), 140.0);
    assert!(!Value::raw(Quantity::Duty, s(f64::NAN)).is_trustworthy());
    assert!(!Value::raw(Quantity::Rpm, s(f64::INFINITY)).is_trustworthy());
}

#[test]
fn text_is_handled_as_std_handles_it() {
    let words = ["", "a", "ab", "b", "B", "abc", "Zebra", "zebra", "é", "日本"];
    for a in words {
        for b in words {
            assert_eq!(same(a, b), a == b);
            assert_eq!(comes_before(a, b), a < b, "{a} < {b}");
            assert_eq!(contains_text(a, b), a.contains(b), "{b} in {a}");
            assert_eq!(begins_with(a, b), a.starts_with(b));
            assert_eq!(joined(a, b), format!("{a}{b}"));
        }
        assert_eq!(lower_ascii(a), a.to_ascii_lowercase());
    }
    for blank in ["", " ", "\t\r\n", "\u{a0}", "\u{2003}x", "x "] {
        assert_eq!(is_blank(blank), blank.trim().is_empty(), "{blank:?}");
    }
    for n in [0u64, 7, 10, 999, u64::MAX] {
        assert_eq!(decimal(n), n.to_string());
    }
    for text in ["", "0", "12", "+7", "-1", "007", "1x", " 1", "18446744073709551616"] {
        assert_eq!(read_index(text), text.parse::<usize>().ok(), "{text:?}");
    }
    for text in ["", "a", "/a/b", "a//b/", "/"] {
        let expected: Vec<&str> = text.split('/').filter(|part| !part.is_empty()).collect();
        assert_eq!(split_parts(text, '/'), expected, "{text:?}");
    }
    assert_eq!(list_of(&vec![], ", "), "");
    assert_eq!(list_of(&vec!["a".to_owned(), "b".to_owned()], ", "), "a, b");
}

#[test]
fn every_fault_of_a_graph_explains_itself() {
    let node = || NodeId::new("n");
    let port = |name: &str| PortRef::new("n", name);
    let said: Vec<String> = [
        GraphError::UnknownNode(node()),
        GraphError::UnknownPort(node(), "a \"b\"".to_owned()),
        GraphError::NotAnOutput { edge_from: port("in") },
        GraphError::NotAnInput { edge_to: port("out") },
        GraphError::TypeMismatch {
            from: port("out"),
            to: PortRef::new("fan", "duty"),
            source_ty: Quantity::Temperature,
            sink_ty: Quantity::Duty,
        },
        GraphError::InputOverSubscribed(port("in")),
        GraphError::MissingInput(port("in")),
        GraphError::Cycle(node()),
    ]
    .iter()
    .map(|e| e.message())
    .collect();

    assert_eq!(said[0], "edge references unknown node n");
    assert_eq!(said[1], "node n has no port named \"a \\\"b\\\"\"");
    assert_eq!(said[2], format!("{} is an input, not an output", port("in").written()));
    assert_eq!(said[3], format!("{} is an output, not an input", port("out").written()));
    assert!(said[4].ends_with("): insert a conversion node"), "{}", said[4]);
    assert_eq!(
        said[5],
        format!("input {} has more than one incoming connection", port("in").written())
    );
    assert_eq!(said[6], format!("required input {} is not connected", port("in").written()));
    assert_eq!(
        said[7],
        "the graph contains a cycle through node n; use a delay or filter node instead"
    );
}

#[test]
fn a_graph_reports_everything_that_is_wrong_with_it() {
    let mut g = Graph::default();
    g.insert(
        "t",
        NodeKind::Sensor { sensor_id: "x".into(), quantity: Quantity::Temperature },
    );
    g.insert("fan", NodeKind::FanOutput { channel: "c".into() });
    g.connect(PortRef::new("t", "out"), PortRef::new("fan", "duty"));
    g.connect(PortRef::new("ghost", "out"), PortRef::new("fan", "duty"));
    let errors = g.validate().unwrap_err();
    assert!(errors.iter().any(|e| matches!(e, GraphError::TypeMismatch { .. })));
    assert!(errors.iter().any(|e| matches!(e, GraphError::UnknownNode(n) if n.0 == "ghost")));
}
