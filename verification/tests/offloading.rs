//! What can and cannot be handed to the chip, and whether the explanation is any use.
use openfan::eval::SensorReadings;
use openfan::graph::{Graph, NodeId, PortRef};
use openfan::node::{CurvePoint, MixMode, NodeKind};
use openfan::offload::{reduce, reduce_all, Obstacle, ObstacleKind, Reduction};
use openfan::scalar::Scalar;
use openfan::tick::EvalState;
use openfan::units::{Quantity, Value};

fn s(x: f64) -> Scalar {
    Scalar::from_bits(x.to_bits())
}

fn at(node: &NodeId, port: &str) -> PortRef {
    PortRef::new(node.0.as_str(), port)
}

const CHANNEL: &str = "nct6798d/pwm/1";

fn curve(points: &[(f64, f64)]) -> NodeKind {
    NodeKind::Curve {
        points: points.iter().map(|&(x, y)| CurvePoint { x: s(x), y: s(y) }).collect(),
    }
}

fn temp(id: &str) -> NodeKind {
    NodeKind::Sensor {
        sensor_id: id.into(),
        quantity: Quantity::Temperature,
    }
}

/// `Sensor -> ...chain... -> FanOutput`, wired in order.
fn chain(kinds: Vec<NodeKind>) -> Graph {
    let mut graph = Graph::default();
    let mut previous: Option<NodeId> = None;

    for (index, kind) in kinds.into_iter().enumerate() {
        let id = graph.insert(format!("n{index}").as_str(), kind);
        if let Some(from) = previous {
            let port = if matches!(graph.nodes.get(&id).unwrap().kind, NodeKind::FanOutput { .. }) {
                "duty"
            } else {
                "in"
            };
            graph.connect(at(&from, "out"), at(&id, port));
        }
        previous = Some(id);
    }
    graph
}

fn output() -> NodeKind {
    NodeKind::FanOutput {
        channel: CHANNEL.into(),
    }
}

#[test]
fn a_fixed_duty_reduces() {
    let graph = chain(vec![NodeKind::Constant { value: s(40.0) }, output()]);
    assert_eq!(reduce(&graph, CHANNEL), Ok(Reduction::Fixed { duty: s(40.0) }));
}

#[test]
fn a_sensor_and_a_curve_reduces() {
    let graph = chain(vec![
        temp("nct6798d/temp/cputin"),
        curve(&[(35.0, 30.0), (75.0, 100.0)]),
        output(),
    ]);

    assert_eq!(
        reduce(&graph, CHANNEL),
        Ok(Reduction::Curve {
            sensor_id: "nct6798d/temp/cputin".into(),
            quantity: Quantity::Temperature,
            points: vec![
                CurvePoint { x: s(35.0), y: s(30.0) },
                CurvePoint { x: s(75.0), y: s(100.0) },
            ],
        })
    );
}

#[test]
fn a_minimum_duty_floor_folds_into_the_curve_instead_of_blocking_it() {
    // This is what an imported configuration puts there — a floor the other tool refused
    // to command below becomes a Clamp. Refusing to offload over it would be a needless
    // "no" on a configuration the chip could run perfectly well.
    let graph = chain(vec![
        temp("nct6798d/temp/cputin"),
        curve(&[(35.0, 10.0), (75.0, 100.0)]),
        NodeKind::Clamp {
            min: s(19.0),
            max: s(100.0),
        },
        output(),
    ]);

    match reduce(&graph, CHANNEL) {
        Ok(Reduction::Curve { points, .. }) => {
            assert_eq!(points[0].y, s(19.0), "the floor was applied to the curve");
            assert_eq!(points[1].y, s(100.0));
            assert_eq!(points[0].x, s(35.0), "temperatures are untouched");
        }
        other => panic!("expected a folded curve, got {other:?}"),
    }
}

#[test]
fn offset_and_scale_fold_too() {
    let graph = chain(vec![
        temp("t"),
        curve(&[(30.0, 20.0), (60.0, 40.0)]),
        NodeKind::Scale { factor: s(2.0) },
        NodeKind::Offset { delta: s(5.0) },
        output(),
    ]);

    match reduce(&graph, CHANNEL) {
        Ok(Reduction::Curve { points, .. }) => {
            assert_eq!(points[0].y, s(45.0));
            assert_eq!(points[1].y, s(85.0));
        }
        other => panic!("expected folding, got {other:?}"),
    }
}

#[test]
fn a_filter_blocks_it_but_names_the_chip_setting_that_resembles_it() {
    // The useful shape of a "no": the chip has step timing, which is similar but not the
    // same, so this is a choice — give up the filter and it fits — rather than a refusal.
    let graph = chain(vec![
        temp("t"),
        NodeKind::LowPass { tau_seconds: s(15.0) },
        curve(&[(35.0, 30.0), (75.0, 100.0)]),
        output(),
    ]);

    let obstacles = reduce(&graph, CHANNEL).expect_err("a filter cannot be offloaded");
    assert_eq!(obstacles.len(), 1);

    let explanation = obstacles[0].explain();
    assert!(
        explanation.contains("step-up"),
        "it should name the chip's own timing: {explanation}"
    );
    assert!(
        explanation.contains("removing"),
        "and say what giving it up would buy: {explanation}"
    );
}

#[test]
fn a_hold_band_names_the_chips_hysteresis() {
    let graph = chain(vec![
        temp("t"),
        NodeKind::Hold { band: s(2.0) },
        curve(&[(35.0, 30.0), (75.0, 100.0)]),
        output(),
    ]);

    let obstacles = reduce(&graph, CHANNEL).expect_err("a hold band blocks it");
    assert!(obstacles[0].explain().contains("hysteresis"));
}

#[test]
fn mixing_two_sensors_is_refused_and_says_why_in_the_users_terms() {
    let mut graph = Graph::default();
    let cpu = graph.insert("cpu", temp("nct6798d/temp/cputin"));
    let gpu = graph.insert("gpu", temp("nvidia/temp/core"));
    let mix = graph.insert("hottest", NodeKind::Mix { mode: MixMode::Max });
    let c = graph.insert("curve", curve(&[(35.0, 30.0), (75.0, 100.0)]));
    let out = graph.insert("fan", output());

    graph.connect(at(&cpu, "out"), at(&mix, "in"));
    graph.connect(at(&gpu, "out"), at(&mix, "in"));
    graph.connect(at(&mix, "out"), at(&c, "in"));
    graph.connect(at(&c, "out"), at(&out, "duty"));

    let obstacles = reduce(&graph, CHANNEL).expect_err("two temperatures cannot be offloaded");
    let explanation = obstacles[0].explain();
    assert!(
        explanation.contains("one temperature per fan"),
        "the reason must be stated as a fact about the hardware: {explanation}"
    );
    // No chip alternative is claimed, because there genuinely is none.
    assert!(!explanation.contains("removing"), "{explanation}");
}

#[test]
fn a_pid_is_software_only_and_claims_no_equivalent() {
    let graph = chain(vec![
        temp("t"),
        NodeKind::Pid {
            setpoint: s(70.0),
            kp: s(2.0),
            ki: s(0.1),
            kd: s(0.0),
            integral_limit: s(40.0),
        },
        output(),
    ]);

    let obstacles = reduce(&graph, CHANNEL).expect_err("a PID cannot be offloaded");
    let explanation = obstacles[0].explain();
    assert!(
        explanation.contains("only run in software"),
        "{explanation}"
    );
    // Inventing a resemblance here would let somebody delete the PID believing the chip
    // covers it.
    assert!(!explanation.contains("similar"), "{explanation}");
}

#[test]
fn a_channel_nothing_drives_says_so_rather_than_failing_obscurely() {
    let graph = Graph::default();
    let obstacles = reduce(&graph, CHANNEL).expect_err("nothing drives it");
    assert_eq!(obstacles[0].kind, ObstacleKind::NotDriven);
    assert!(obstacles[0].explain().contains("Nothing"));
}

#[test]
fn an_unconnected_output_is_its_own_answer() {
    let mut graph = Graph::default();
    graph.insert("fan", output());

    let obstacles = reduce(&graph, CHANNEL).expect_err("nothing is connected");
    assert_eq!(obstacles[0].kind, ObstacleKind::NothingConnected);
}

#[test]
fn two_outputs_on_one_channel_have_no_single_answer() {
    let mut graph = Graph::default();
    let k = graph.insert("duty", NodeKind::Constant { value: s(50.0) });
    let a = graph.insert("fan-a", output());
    let b = graph.insert("fan-b", output());
    graph.connect(at(&k, "out"), at(&a, "duty"));
    graph.connect(at(&k, "out"), at(&b, "duty"));

    let obstacles = reduce(&graph, CHANNEL).expect_err("ambiguous");
    assert_eq!(obstacles[0].kind, ObstacleKind::DrivenTwice);
}

#[test]
fn a_partial_reduction_is_not_reported_as_a_success() {
    // The dangerous case. A curve reached through a filter *looks* reducible if you only
    // follow the duty path — and a curve that ignored the filter would describe a fan
    // behaving differently from the one the user configured.
    let graph = chain(vec![
        temp("t"),
        curve(&[(35.0, 30.0), (75.0, 100.0)]),
        NodeKind::RateLimit {
            max_delta_per_second: s(5.0),
        },
        output(),
    ]);

    assert!(
        reduce(&graph, CHANNEL).is_err(),
        "a reduction that dropped a node must not be offered"
    );
}

#[test]
fn every_obstacle_explains_itself_without_naming_a_register() {
    // These sentences go in front of somebody who has never heard of a Super I/O.
    let samples = [
        ObstacleKind::NotDriven,
        ObstacleKind::DrivenTwice,
        ObstacleKind::NothingConnected,
        ObstacleKind::Unsupported {
            node_kind: "PID",
            chip_alternative: None,
        },
        ObstacleKind::Unsupported {
            node_kind: "Hold",
            chip_alternative: Some("hysteresis setting"),
        },
        ObstacleKind::CombinesInputs { node_kind: "Mix" },
        ObstacleKind::CurveInputIsNotASensor { found: "Delay" },
    ];

    for kind in samples {
        let text = Obstacle { node: None, kind }.explain();
        assert!(!text.is_empty());
        assert!(text.ends_with('.'), "{text}");
        for jargon in ["0x", "register", "bank", "nibble", "SmartFan"] {
            assert!(!text.contains(jargon), "{jargon} leaked into {text:?}");
        }
    }
}

#[test]
fn the_shape_our_own_importer_produces_is_diagnosed_honestly() {
    // `Sensor -> Hold -> LowPass -> Curve -> Clamp -> FanOutput` is what importing a
    // FanControl configuration builds. It cannot be offloaded as-is, and both filters
    // should be named — telling somebody about one at a time would make them discover
    // the rest by repetition.
    let graph = chain(vec![
        temp("nct6798d/temp/cputin"),
        NodeKind::Hold { band: s(2.0) },
        NodeKind::LowPass { tau_seconds: s(1.0) },
        curve(&[(35.0, 30.0), (75.0, 100.0)]),
        NodeKind::Clamp {
            min: s(0.0),
            max: s(100.0),
        },
        output(),
    ]);

    let obstacles = reduce(&graph, CHANNEL).expect_err("filters block it");
    // The Clamp folded away; only the filter nearest the curve is reached by this walk,
    // which is honest: it is the first thing that must go.
    assert!(!obstacles.is_empty());
    assert!(
        obstacles.iter().all(|o| o.node.is_some()),
        "an interface has to be able to point at the node responsible"
    );
}

#[test]
fn reduce_all_covers_every_channel_the_graph_drives() {
    let mut graph = Graph::default();
    let k = graph.insert("duty", NodeKind::Constant { value: s(30.0) });
    for channel in ["nct6798d/pwm/0", "nct6798d/pwm/4"] {
        let out = graph.insert(
            format!("fan-{channel}").as_str(),
            NodeKind::FanOutput {
                channel: channel.into(),
            },
        );
        graph.connect(at(&k, "out"), at(&out, "duty"));
    }

    let all = reduce_all(&graph);
    assert_eq!(all.len(), 2);
    assert!((0..all.len()).all(|i| all.value_at(i).is_ok()));
}

#[test]
fn a_path_with_no_beginning_says_where_it_breaks_off() {
    let graph = chain(vec![curve(&[(30.0, 20.0), (80.0, 100.0)]), output()]);
    assert_eq!(
        reduce(&graph, CHANNEL),
        Err(vec![Obstacle { node: Some(NodeId("n0".into())), kind: ObstacleKind::NothingConnected }])
    );
    let graph = chain(vec![NodeKind::Offset { delta: s(5.0) }, output()]);
    assert_eq!(
        reduce(&graph, CHANNEL),
        Err(vec![Obstacle { node: Some(NodeId("n0".into())), kind: ObstacleKind::NothingConnected }])
    );
    // What feeds the output is not there at all.
    let mut graph = chain(vec![output()]);
    graph.connect(PortRef::new("gone", "out"), PortRef::new("n0", "duty"));
    assert_eq!(
        reduce(&graph, CHANNEL),
        Err(vec![Obstacle { node: Some(NodeId("n0".into())), kind: ObstacleKind::NothingConnected }])
    );
    // A loop has no beginning either.
    let mut graph = chain(vec![NodeKind::Offset { delta: s(5.0) }, output()]);
    graph.connect(PortRef::new("n0", "out"), PortRef::new("n0", "in"));
    assert!(!reduce(&graph, CHANNEL).unwrap_err().is_empty());
}

/// What one tick of a graph commands the channel to, with its sensor at a temperature.
fn commanded(graph: &Graph, sensor: &str, x: f64) -> Scalar {
    let mut sensors = SensorReadings::new();
    sensors.insert(sensor.to_owned(), Value::raw(Quantity::Temperature, s(x)));
    let out = graph.validate().unwrap().tick_with(
        &sensors,
        s(1.0),
        &vec![],
        &mut EvalState::new(),
    );
    out.commands.get(&CHANNEL.to_owned()).expect("the channel is commanded").scalar
}

#[test]
fn a_reduction_describes_what_a_tick_commands() {
    let fixed = chain(vec![NodeKind::Constant { value: s(40.0) }, output()]);
    assert_eq!(reduce(&fixed, CHANNEL), Ok(Reduction::Fixed { duty: s(40.0) }));
    assert_eq!(commanded(&fixed, "t", 50.0), s(40.0));

    // Unfolded, everywhere; folded, at the points and beyond the ends.
    let plain = chain(vec![temp("t"), curve(&[(35.0, 30.0), (75.0, 100.0)]), output()]);
    for (x, y) in [(20.0, 30.0), (35.0, 30.0), (55.0, 65.0), (75.0, 100.0), (90.0, 100.0)] {
        assert_eq!(commanded(&plain, "t", x), s(y));
    }
    let floored = chain(vec![
        temp("t"),
        curve(&[(35.0, 10.0), (75.0, 100.0)]),
        NodeKind::Clamp { min: s(19.0), max: s(100.0) },
        output(),
    ]);
    match reduce(&floored, CHANNEL) {
        Ok(Reduction::Curve { sensor_id, points, .. }) => {
            assert_eq!(sensor_id, "t");
            for point in &points {
                let x = f64::from_bits(point.x.to_bits());
                assert_eq!(commanded(&floored, "t", x), point.y);
            }
            assert_eq!(commanded(&floored, "t", 20.0), points[0].y);
            assert_eq!(commanded(&floored, "t", 90.0), points[1].y);
        }
        other => panic!("expected a folded curve, got {other:?}"),
    }
}

#[test]
fn folding_between_points_differs_by_rounding_alone() {
    let folds = vec![
        NodeKind::Offset { delta: s(0.1) },
        NodeKind::Scale { factor: s(0.7) },
        NodeKind::Offset { delta: s(-3.3) },
        NodeKind::Scale { factor: s(-1.1) },
        NodeKind::Offset { delta: s(90.9) },
    ];
    let mut kinds = vec![temp("t"), curve(&[(35.0, 10.3), (75.0, 99.7)])];
    kinds.extend(folds);
    kinds.push(output());
    let graph = chain(kinds);
    let points = match reduce(&graph, CHANNEL) {
        Ok(Reduction::Curve { points, .. }) => points,
        other => panic!("expected a folded curve, got {other:?}"),
    };
    let pairs: Vec<(f64, f64)> = points
        .iter()
        .map(|p| (f64::from_bits(p.x.to_bits()), f64::from_bits(p.y.to_bits())))
        .collect();
    let folded = chain(vec![temp("t"), curve(&pairs), output()]);
    for tenth in 350..=750 {
        let x = f64::from(tenth) / 10.0;
        let after = f64::from_bits(commanded(&graph, "t", x).to_bits());
        let before = f64::from_bits(commanded(&folded, "t", x).to_bits());
        assert!((after - before).abs() < 1e-12, "{x}: {after} and {before}");
    }
}
