//! The loop that drives the engine: commands between ticks, pace and rest.
use openfan::engine::{Engine, EngineConfig};
use openfan::graph::{Graph, PortRef};
use openfan::mock::MockBackend;
use openfan::node::{CurvePoint, NodeKind};
use openfan::policy::SafetyPolicy;
use openfan::profile::{migrate, ConfigError, Profile, CURRENT_SCHEMA};
use openfan::runner::{obey, rest, Command, Obeyed, Pace};
use openfan::scalar::Scalar;
use openfan::units::Quantity;

fn s(x: f64) -> Scalar {
    Scalar::from_bits(x.to_bits())
}

fn engine() -> Engine<MockBackend> {
    Engine::new(
        MockBackend::default(),
        EngineConfig { tick_hz: s(200.0), ..Default::default() },
    )
}

fn good_graph() -> Graph {
    let mut g = Graph::default();
    g.insert(
        "t",
        NodeKind::Sensor {
            sensor_id: MockBackend::TEMP_SENSOR.into(),
            quantity: Quantity::Temperature,
        },
    );
    g.insert(
        "curve",
        NodeKind::Curve {
            points: vec![
                CurvePoint { x: s(30.0), y: s(20.0) },
                CurvePoint { x: s(80.0), y: s(100.0) },
            ],
        },
    );
    g.insert("fan", NodeKind::FanOutput { channel: MockBackend::CHANNEL.into() });
    g.connect(PortRef::new("t", "out"), PortRef::new("curve", "in"));
    g.connect(PortRef::new("curve", "out"), PortRef::new("fan", "duty"));
    g
}

#[test]
fn the_loop_ticks_and_publishes_snapshots() {
    let mut e = engine();
    assert!(matches!(obey(&mut e, Command::SetGraph(good_graph())), Obeyed::GraphInstalled));

    let mut pace = Pace::new();
    let mut report = e.tick(s(0.005), &vec![]);
    for _ in 0..5 {
        report = e.tick(s(0.005), &vec![]);
        pace.beat(1, 5);
    }
    assert!(pace.sequence >= 5);
    assert_eq!(pace.overruns, 0);
    assert!(report.applied.commanded.contains_key(&MockBackend::CHANNEL.to_owned()));
}

#[test]
fn a_rejected_graph_reports_its_errors_without_stopping_the_loop() {
    let mut e = engine();
    obey(&mut e, Command::SetGraph(good_graph()));

    // Temperature straight into a duty input.
    let mut bad = Graph::default();
    bad.insert(
        "t",
        NodeKind::Sensor {
            sensor_id: MockBackend::TEMP_SENSOR.into(),
            quantity: Quantity::Temperature,
        },
    );
    bad.insert("fan", NodeKind::FanOutput { channel: MockBackend::CHANNEL.into() });
    bad.connect(PortRef::new("t", "out"), PortRef::new("fan", "duty"));

    match obey(&mut e, Command::SetGraph(bad)) {
        Obeyed::GraphRejected(errors) => assert!(!errors.is_empty()),
        _ => panic!("a temperature is not a duty"),
    }

    // Still running, still controlling.
    assert!(!e.tick(s(0.005), &vec![]).degraded);
}

#[test]
fn dt_is_measured_and_positive() {
    let mut e = engine();
    obey(&mut e, Command::SetGraph(good_graph()));
    for dt in [0.005, 0.0, -1.0, f64::NAN, f64::INFINITY] {
        let report = e.tick(s(dt), &vec![]);
        let used = f64::from_bits(report.dt.to_bits());
        assert!(used > 0.0 && used.is_finite(), "dt was {used}");
    }
}

#[test]
fn other_commands_are_answered_for_what_they_did() {
    let mut e = engine();
    assert!(matches!(obey(&mut e, Command::Rescan), Obeyed::Rescanned));
    assert!(matches!(
        obey(&mut e, Command::SetPolicy(SafetyPolicy::new())),
        Obeyed::PolicyReplaced
    ));
    assert_eq!(e.policy().channels().len(), 0);
}

#[test]
fn a_tick_rests_for_what_is_left_of_its_period() {
    assert_eq!(rest(3, 10), Some(7));
    assert_eq!(rest(10, 10), Some(0));
    assert_eq!(rest(11, 10), None);

    let mut pace = Pace::new();
    pace.beat(10, 10);
    pace.beat(11, 10);
    assert_eq!(pace, Pace { sequence: 2, overruns: 1 });
}

#[test]
fn a_future_profile_is_refused_rather_than_partially_loaded() {
    let mut profile = Profile::new("Quiet", Graph::default());
    profile.schema = CURRENT_SCHEMA + 1;
    assert!(matches!(
        migrate(profile),
        Err(ConfigError::FromTheFuture { found }) if found == CURRENT_SCHEMA + 1
    ));

    let current = Profile::new("Quiet", Graph::default());
    let kept = migrate(current).expect("the current schema is accepted");
    assert_eq!((kept.name.as_str(), kept.schema), ("Quiet", CURRENT_SCHEMA));
}

#[test]
fn an_older_profile_is_brought_up_to_date() {
    let mut old = Profile::new("Quiet", Graph::default());
    old.schema = 0;
    let kept = migrate(old).expect("an older schema is accepted");
    assert_eq!((kept.name.as_str(), kept.schema), ("Quiet", CURRENT_SCHEMA));
    assert_eq!(kept.graph.nodes.len(), 0);
}
