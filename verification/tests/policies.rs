//! What is written to the hardware on a tick, and what happens when a tick cannot be trusted.
use openfan::eval::SensorReadings;
use openfan::graph::{Graph, PortRef};
use openfan::hal::{ChannelId, ChannelInfo, HalError, OutputChannel};
use openfan::mock::MockBackend;
use openfan::node::{CurvePoint, MixMode, NodeKind};
use openfan::policy::{apply_tick, dying_breath, ChannelPolicy, FailsafeAction, SafetyPolicy};
use openfan::scalar::Scalar;
use openfan::tick::EvalState;
use openfan::units::{Quantity, Value};

fn s(x: f64) -> Scalar {
    Scalar::from_bits(x.to_bits())
}

fn channel() -> String {
    MockBackend::CHANNEL.to_owned()
}

fn reading(id: String, temperature: f64) -> SensorReadings {
    let mut out = SensorReadings::new();
    out.insert(id, Value::raw(Quantity::Temperature, s(temperature)));
    out
}

/// The engine's default 10 Hz cadence.
const DT: f64 = 0.1;

fn policy() -> SafetyPolicy {
    SafetyPolicy::new().with_channel(
        MockBackend::CHANNEL,
        ChannelPolicy {
            failsafe: FailsafeAction::RestoreFirmware,
            floor_duty: s(20.0),
        },
    )
}

fn graph() -> Graph {
    let mut g = Graph::default();
    g.insert(
        "t",
        NodeKind::Sensor {
            sensor_id: MockBackend::TEMP_SENSOR.into(),
            quantity: Quantity::Temperature,
        },
    );
    g.insert(
        "curve",
        NodeKind::Curve {
            points: vec![
                CurvePoint { x: s(30.0), y: s(0.0) },
                CurvePoint { x: s(80.0), y: s(100.0) },
            ],
        },
    );
    g.insert(
        "fan",
        NodeKind::FanOutput {
            channel: MockBackend::CHANNEL.into(),
        },
    );
    g.connect(PortRef::new("t", "out"), PortRef::new("curve", "in"));
    g.connect(PortRef::new("curve", "out"), PortRef::new("fan", "duty"));
    g
}

#[test]
fn a_healthy_tick_drives_the_channel() {
    let compiled = graph().validate().unwrap();
    let mut backend = MockBackend::default();
    backend.acquire(&channel()).unwrap();

    let readings = reading(MockBackend::TEMP_SENSOR.to_owned(), 55.0);
    let tick = compiled.tick_with(&readings, s(DT), &Vec::new(), &mut EvalState::new());
    let applied = apply_tick(&tick, &policy(), &mut backend);

    assert_eq!(*applied.commanded.get(&channel()).unwrap(), s(50.0));
    assert!(applied.failsafed.len() == 0);
}

#[test]
fn the_floor_duty_cannot_be_undercut_by_the_graph() {
    let compiled = graph().validate().unwrap();
    let mut backend = MockBackend::default();
    backend.acquire(&channel()).unwrap();

    // 25 °C is below the curve's first point, so the graph asks for 0 %.
    let readings = reading(MockBackend::TEMP_SENSOR.to_owned(), 25.0);
    let tick = compiled.tick_with(&readings, s(DT), &Vec::new(), &mut EvalState::new());
    let applied = apply_tick(&tick, &policy(), &mut backend);

    assert_eq!(
        *applied.commanded.get(&channel()).unwrap(), s(20.0),
        "floor must win over the graph"
    );
}

#[test]
fn a_faulted_channel_is_failsafed_not_left_at_its_last_value() {
    let compiled = graph().validate().unwrap();
    let mut backend = MockBackend::default();
    backend.acquire(&channel()).unwrap();
    let policy = policy();

    // Healthy tick first, so there is a "last value" to wrongly hold.
    let readings = reading(MockBackend::TEMP_SENSOR.to_owned(), 55.0);
    apply_tick(
        &compiled.tick_with(&readings, s(DT), &Vec::new(), &mut EvalState::new()),
        &policy,
        &mut backend,
    );

    // Now the sensor disappears.
    let tick = compiled.tick_with(&SensorReadings::new(), s(DT), &Vec::new(), &mut EvalState::new());
    let applied = apply_tick(&tick, &policy, &mut backend);

    assert!(applied.commanded.len() == 0);
    assert_eq!(
        *applied.failsafed.get(&channel()).unwrap(),
        FailsafeAction::RestoreFirmware
    );
    assert!(backend.released, "the header must actually be handed back");
}

#[test]
fn a_channel_the_graph_never_mentions_is_still_failsafed() {
    // The bug class: a user deletes the fan node but the channel stays acquired.
    let empty = Graph::default().validate().unwrap();
    let mut backend = MockBackend::default();
    backend.acquire(&channel()).unwrap();

    let applied = apply_tick(
        &empty.tick_with(&SensorReadings::new(), s(DT), &Vec::new(), &mut EvalState::new()),
        &policy(),
        &mut backend,
    );
    assert!(applied.failsafed.contains_key(&channel()));
}

/// A plant whose firmware control cannot be restored.
struct NoRestore(MockBackend);
impl OutputChannel for NoRestore {
    fn channels(&self) -> Result<Vec<ChannelInfo>, HalError> {
        self.0.channels()
    }
    fn acquire(&mut self, c: &ChannelId) -> Result<(), HalError> {
        self.0.acquire(c)
    }
    fn set_duty(&mut self, c: &ChannelId, p: Scalar) -> Result<(), HalError> {
        self.0.set_duty(c, p)
    }
    fn release(&mut self, c: &ChannelId) -> Result<(), HalError> {
        self.0.release(c)
    }
    fn can_restore_firmware_control(&self) -> bool {
        false
    }
    fn hand_back_to_firmware(&mut self, c: &ChannelId) -> Result<(), HalError> {
        self.0.hand_back_to_firmware(c)
    }
}

#[test]
fn restore_downgrades_to_full_duty_when_the_backend_cannot_restore() {
    let mut backend = NoRestore(MockBackend::default());
    backend.acquire(&channel()).unwrap();
    let applied = dying_breath(&policy(), &mut backend);

    assert_eq!(
        *applied.failsafed.get(&channel()).unwrap(),
        FailsafeAction::FixedDuty(s(100.0))
    );
    assert!(
        !backend.0.released,
        "must not release a header it cannot hand back"
    );
}

#[test]
fn the_dying_breath_covers_every_policy_channel() {
    let mut backend = MockBackend::default();
    backend.acquire(&channel()).unwrap();

    let applied = dying_breath(&policy(), &mut backend);
    assert_eq!(applied.failsafed.len(), 1);
    assert!(applied.write_errors.is_empty());
    assert!(backend.released);
}

#[test]
fn mixing_in_a_dead_sensor_failsafes_rather_than_cooling_less() {
    let mut g = Graph::default();
    g.insert(
        "a",
        NodeKind::Sensor {
            sensor_id: "a".into(),
            quantity: Quantity::Temperature,
        },
    );
    g.insert(
        "b",
        NodeKind::Sensor {
            sensor_id: "b".into(),
            quantity: Quantity::Temperature,
        },
    );
    g.insert("mix", NodeKind::Mix { mode: MixMode::Max });
    g.insert(
        "curve",
        NodeKind::Curve {
            points: vec![
                CurvePoint { x: s(30.0), y: s(0.0) },
                CurvePoint { x: s(80.0), y: s(100.0) },
            ],
        },
    );
    g.insert(
        "fan",
        NodeKind::FanOutput {
            channel: MockBackend::CHANNEL.into(),
        },
    );
    g.connect(PortRef::new("a", "out"), PortRef::new("mix", "in"));
    g.connect(PortRef::new("b", "out"), PortRef::new("mix", "in"));
    g.connect(PortRef::new("mix", "out"), PortRef::new("curve", "in"));
    g.connect(PortRef::new("curve", "out"), PortRef::new("fan", "duty"));

    let compiled = g.validate().unwrap();
    let mut backend = MockBackend::default();
    backend.acquire(&channel()).unwrap();

    let readings =
        reading("a".to_owned(), 95.0);
    let applied = apply_tick(
        &compiled.tick_with(&readings, s(DT), &Vec::new(), &mut EvalState::new()),
        &policy(),
        &mut backend,
    );

    assert!(applied.commanded.len() == 0);
    assert!(applied.failsafed.contains_key(&channel()));
}
