//! The control loop: installing graphs, ticking, losing the sensors and shutting down.
use openfan::engine::{sanitize_dt, Engine, EngineConfig, TickReport};
use openfan::eval::Decay;
use openfan::graph::{Graph, PortRef};
use openfan::hal::{
    Backend, ChannelId, ChannelInfo, HalError, OutputChannel, SensorId, SensorInfo, SensorSource,
};
use openfan::mock::MockBackend;
use openfan::node::{CurvePoint, NodeKind};
use openfan::ordmap::OrdMap;
use openfan::policy::{ChannelPolicy, FailsafeAction, SafetyPolicy};
use openfan::scalar::Scalar;
use openfan::units::Quantity;

fn s(x: f64) -> Scalar {
    Scalar::from_bits(x.to_bits())
}

fn num(x: Scalar) -> f64 {
    f64::from_bits(x.to_bits())
}

fn channel() -> String {
    MockBackend::CHANNEL.to_owned()
}

/// Ticks an engine, handing in the exponentials that its filters need.
fn tick<B: Backend>(engine: &mut Engine<B>, dt: f64) -> TickReport {
    let decays: Vec<Decay> = engine
        .decay_exponents(s(dt))
        .into_iter()
        .map(|exponent| Decay { exponent, factor: s(num(exponent).exp()) })
        .collect();
    engine.tick(s(dt), &decays)
}

/// Everything a graph says, in a form that two graphs can be compared by.
fn shape(graph: &Graph) -> String {
    format!("{graph:?}")
}

fn graph_for(channel: &str) -> Graph {
    let mut g = Graph::default();
    g.insert(
        "t",
        NodeKind::Sensor {
            sensor_id: MockBackend::TEMP_SENSOR.into(),
            quantity: Quantity::Temperature,
        },
    );
    g.insert(
        "curve",
        NodeKind::Curve {
            points: vec![
                CurvePoint { x: s(30.0), y: s(0.0) },
                CurvePoint { x: s(80.0), y: s(100.0) },
            ],
        },
    );
    g.insert(
        "fan",
        NodeKind::FanOutput {
            channel: channel.into(),
        },
    );
    g.connect(PortRef::new("t", "out"), PortRef::new("curve", "in"));
    g.connect(PortRef::new("curve", "out"), PortRef::new("fan", "duty"));
    g
}

fn engine() -> Engine<MockBackend> {
    Engine::new(MockBackend::default(), EngineConfig::default())
}

#[test]
fn installing_a_graph_acquires_its_channels_and_covers_them_with_policy() {
    let mut e = engine();
    e.set_graph(graph_for(MockBackend::CHANNEL)).unwrap();

    assert!(e.acquired_channels().contains_key(&channel()));
    // The invariant: nothing we hold is outside the policy, so nothing we hold can
    // be skipped by apply_tick.
    assert!(e.policy().channels().iter().any(|c| c == MockBackend::CHANNEL));
}

#[test]
fn an_invalid_graph_is_rejected_without_disturbing_the_running_one() {
    let mut e = engine();
    e.set_graph(graph_for(MockBackend::CHANNEL)).unwrap();
    let good = shape(e.graph());

    // Temperature straight into a duty input.
    let mut bad = Graph::default();
    bad.insert(
        "t",
        NodeKind::Sensor {
            sensor_id: MockBackend::TEMP_SENSOR.into(),
            quantity: Quantity::Temperature,
        },
    );
    bad.insert(
        "fan",
        NodeKind::FanOutput {
            channel: MockBackend::CHANNEL.into(),
        },
    );
    bad.connect(PortRef::new("t", "out"), PortRef::new("fan", "duty"));

    assert!(e.set_graph(bad).is_err());
    assert_eq!(shape(e.graph()), good, "a rejected edit must change nothing");

    // And the engine is still controlling.
    let report = tick(&mut e, 0.1);
    assert!(!report.degraded);
}

#[test]
fn a_tick_drives_the_channel_from_the_curve() {
    let mut e = engine();
    e.set_graph(graph_for(MockBackend::CHANNEL)).unwrap();

    // Plant starts at ambient (22 C), below the curve, so duty is 0 but still
    // commanded rather than skipped.
    let report = tick(&mut e, 0.1);
    assert!(!report.degraded);
    assert!(report.applied.commanded.contains_key(&channel()));
    assert!(report.applied.failsafed.len() == 0);
    assert!(report.wire_values.len() > 0);
}

#[test]
fn with_no_graph_every_acquired_channel_is_still_failsafed() {
    let mut e = engine();
    e.set_graph(graph_for(MockBackend::CHANNEL)).unwrap();
    e.shutdown(); // the profile is unloaded; its channels stay in the policy

    let report = tick(&mut e, 0.1);
    assert!(report.degraded);
    assert!(report.applied.failsafed.contains_key(&channel()));
}

#[test]
fn dropping_a_fan_node_releases_its_channel() {
    let mut e = engine();
    e.set_graph(graph_for(MockBackend::CHANNEL)).unwrap();
    assert!(e.acquired_channels().len() > 0);

    // A graph with no outputs at all.
    e.set_graph(Graph::default()).unwrap();
    assert!(
        e.acquired_channels().len() == 0,
        "a channel with no node responsible for it must be handed back"
    );
}

/// A backend whose sensors fail after the first read.
struct Flaky {
    inner: MockBackend,
    reads: usize,
}

impl SensorSource for Flaky {
    fn sensors(&self) -> Result<Vec<SensorInfo>, HalError> {
        self.inner.sensors()
    }
    fn read_all(&mut self) -> Result<OrdMap<SensorId, Scalar>, HalError> {
        self.reads += 1;
        if self.reads > 1 {
            Err(HalError::Io("bus wedged".into()))
        } else {
            self.inner.read_all()
        }
    }
}

impl OutputChannel for Flaky {
    fn channels(&self) -> Result<Vec<ChannelInfo>, HalError> {
        self.inner.channels()
    }
    fn acquire(&mut self, c: &ChannelId) -> Result<(), HalError> {
        self.inner.acquire(c)
    }
    fn set_duty(&mut self, c: &ChannelId, p: Scalar) -> Result<(), HalError> {
        self.inner.set_duty(c, p)
    }
    fn release(&mut self, c: &ChannelId) -> Result<(), HalError> {
        self.inner.release(c)
    }
    fn can_restore_firmware_control(&self) -> bool {
        true
    }
    fn hand_back_to_firmware(&mut self, c: &ChannelId) -> Result<(), HalError> {
        Err(HalError::Io(format!("{c} does not answer")))
    }
}

impl Backend for Flaky {
    fn name(&self) -> String {
        "flaky".into()
    }
}

#[test]
fn a_backend_that_stops_reading_failsafes_instead_of_reusing_stale_numbers() {
    let mut e = Engine::new(
        Flaky {
            inner: MockBackend::default(),
            reads: 0,
        },
        EngineConfig::default(),
    );
    e.set_graph(graph_for(MockBackend::CHANNEL)).unwrap();

    assert!(!tick(&mut e, 0.1).degraded);

    let report = tick(&mut e, 0.1);
    assert!(report.degraded);
    assert_eq!(
        report.sensors.error.as_deref(),
        Some("hardware I/O failed: bus wedged")
    );
    assert!(report.applied.commanded.len() == 0);
    assert!(report.applied.failsafed.contains_key(&channel()));
}

#[test]
fn a_wildly_long_gap_is_clamped_rather_than_integrated() {
    let config = EngineConfig::default();
    // Resume-from-sleep: hours of wall clock, which would saturate every integrator.
    assert_eq!(sanitize_dt(s(7200.0), &config), config.max_dt_seconds);
    // Nonsense values fall back to the nominal period instead of dividing by zero.
    assert_eq!(sanitize_dt(s(0.0), &config), config.tick_period_seconds());
    assert_eq!(sanitize_dt(s(f64::NAN), &config), config.tick_period_seconds());
    assert_eq!(sanitize_dt(s(-1.0), &config), config.tick_period_seconds());
    assert_eq!(sanitize_dt(s(0.05), &config), s(0.05));
}

#[test]
fn a_sensor_reporting_the_wrong_quantity_faults_rather_than_steering_on_it() {
    let mut e = engine();
    // Ask for the fan tachometer but declare it a temperature.
    let mut g = Graph::default();
    g.insert(
        "t",
        NodeKind::Sensor {
            sensor_id: MockBackend::RPM_SENSOR.into(),
            quantity: Quantity::Temperature,
        },
    );
    g.insert(
        "curve",
        NodeKind::Curve {
            points: vec![
                CurvePoint { x: s(30.0), y: s(0.0) },
                CurvePoint { x: s(80.0), y: s(100.0) },
            ],
        },
    );
    g.insert(
        "fan",
        NodeKind::FanOutput {
            channel: MockBackend::CHANNEL.into(),
        },
    );
    g.connect(PortRef::new("t", "out"), PortRef::new("curve", "in"));
    g.connect(PortRef::new("curve", "out"), PortRef::new("fan", "duty"));

    e.set_graph(g).unwrap();
    let report = tick(&mut e, 0.1);

    assert!(report.applied.commanded.len() == 0);
    assert!(report.faulted_channels.contains_key(&channel()));
}

#[test]
fn shutdown_hands_everything_back() {
    let mut e = engine();
    e.set_graph(graph_for(MockBackend::CHANNEL)).unwrap();
    tick(&mut e, 0.1);

    let applied = e.shutdown();
    assert_eq!(
        applied.failsafed.get(&channel()),
        Some(&FailsafeAction::RestoreFirmware)
    );
    assert!(e.acquired_channels().len() == 0);

    // Idempotent: a second call must not panic or error.
    let _ = e.shutdown();
}

#[test]
fn replacing_the_policy_cannot_drop_a_held_channel() {
    let mut e = engine();
    e.set_graph(graph_for(MockBackend::CHANNEL)).unwrap();

    // A policy that knows nothing about the channel we hold.
    e.set_policy(
        SafetyPolicy::new().with_channel("some/other/channel", ChannelPolicy::default()),
    );

    assert!(
        e.policy().channels().iter().any(|c| c == MockBackend::CHANNEL),
        "coverage must be re-asserted when the policy is replaced"
    );
}

#[test]
fn a_channel_that_cannot_be_handed_back_says_why() {
    let mut e = Engine::new(
        Flaky {
            inner: MockBackend::default(),
            reads: 0,
        },
        EngineConfig::default(),
    );
    assert_eq!(
        e.hand_back_to_firmware(&vec!["a".to_owned(), "b".to_owned()]),
        vec![
            ("a".to_owned(), Err("hardware I/O failed: a does not answer".to_owned())),
            ("b".to_owned(), Err("hardware I/O failed: b does not answer".to_owned())),
        ]
    );
}
