//! What can be asked of an engine, a graph and a profile without changing them.
use openfan::engine::{quantities_of, quantity_of, tachometers_of, Engine, EngineConfig};
use openfan::graph::{Graph, NodeInstance, PortRef};
use openfan::hal::{ChannelControl, HalError, OutputChannel, SensorKind, SensorSource};
use openfan::mock::MockBackend;
use openfan::node::NodeKind;
use openfan::presets::{presets, ChannelSummary, HardwareSummary};
use openfan::profile::CURRENT_SCHEMA;
use openfan::scalar::Scalar;
use openfan::units::Quantity;

fn s(x: f64) -> Scalar {
    Scalar::from_bits(x.to_bits())
}

fn engine() -> Engine<MockBackend> {
    Engine::new(MockBackend::default(), EngineConfig::default())
}

fn driving() -> Graph {
    let mut g = Graph::default();
    g.insert("duty", NodeKind::Constant { value: s(40.0) });
    g.insert("fan", NodeKind::FanOutput { channel: MockBackend::CHANNEL.into() });
    g.connect(PortRef::new("duty", "out"), PortRef::new("fan", "duty"));
    g
}

#[test]
fn an_engine_says_what_its_backend_has() {
    let e = engine();
    let inventory = e.inventory();
    assert_eq!(inventory.backend, e.backend_name());
    assert_eq!(inventory.sensors.len(), 2);
    assert_eq!(inventory.channels.len(), 1);
    assert_eq!(inventory.channels[0].id, MockBackend::CHANNEL);

    let available = e.available_sensors();
    assert_eq!(
        available.get(&MockBackend::TEMP_SENSOR.to_owned()),
        Some(&Quantity::Temperature)
    );
    assert_eq!(available.get(&MockBackend::RPM_SENSOR.to_owned()), Some(&Quantity::Rpm));
    assert!(e.compiled().is_none());

    let backend = MockBackend::default();
    assert_eq!(quantities_of(&backend.sensors().unwrap()).len(), available.len());
    assert_eq!(
        tachometers_of(&backend.channels().unwrap()).get(&MockBackend::CHANNEL.to_owned()),
        Some(&MockBackend::RPM_SENSOR.to_owned())
    );
    assert_eq!(quantity_of(SensorKind::Fan), Quantity::Rpm);
}

#[test]
fn a_backend_that_cannot_tell_says_so() {
    let e = engine();
    let controls = e.channel_controls();
    assert_eq!(controls, vec![(MockBackend::CHANNEL.to_owned(), ChannelControl::Unknown)]);
    assert!(!ChannelControl::Unknown.is_accounted_for());
    assert!(!ChannelControl::Foreign.is_accounted_for());
    assert!(ChannelControl::Firmware.is_accounted_for());
    assert!(ChannelControl::Ours.is_accounted_for());
}

#[test]
fn a_channel_we_hold_is_not_abandoned() {
    let mut e = engine();
    e.set_graph(driving()).unwrap();
    let channels = vec![MockBackend::CHANNEL.to_owned(), "elsewhere/pwm/1".to_owned()];
    let outcome = e.hand_back_to_firmware(&channels);
    assert_eq!(outcome.len(), 2);
    assert_eq!(outcome[0].0, MockBackend::CHANNEL);
    assert_eq!(
        outcome[0].1,
        Err("mock/pwm/1 is held by this engine; release it rather than overwriting                          its mode".to_owned())
    );
    let other = outcome[1].1.as_ref().unwrap_err();
    assert!(other.contains("cannot hand elsewhere/pwm/1 back to firmware control"), "{other}");
    // And nothing was let go.
    assert_eq!(e.acquired_channels().len(), 1);
}

#[test]
fn hardware_failures_explain_themselves() {
    for (error, said) in [
        (HalError::NotAcquired("c".into()), "c"),
        (HalError::UnknownChannel("c".into()), "c"),
        (HalError::Io("bus wedged".into()), "hardware I/O failed: bus wedged"),
        (HalError::PermissionDenied("x".into()), "x"),
        (HalError::DriverMissing("x".into()), "x"),
        (HalError::Unavailable("x".into()), "x"),
    ] {
        assert!(error.message().contains(said), "{}", error.message());
    }
}

#[test]
fn a_graph_says_what_it_reads_and_drives() {
    let mut g = driving();
    g.insert(
        "t",
        NodeKind::Sensor { sensor_id: "cpu".into(), quantity: Quantity::Temperature },
    );
    let sensors = g.required_sensors();
    assert_eq!(sensors.len(), 1);
    assert_eq!(sensors.get(&"cpu".to_owned()), Some(&Quantity::Temperature));
    let channels = g.output_channels();
    assert_eq!(channels.len(), 1);
    assert!(channels.contains_key(&MockBackend::CHANNEL.to_owned()));
}

#[test]
fn a_node_goes_by_its_label_or_by_its_kind() {
    let mut node = NodeInstance::new(NodeKind::Select);
    assert_eq!(node.display_name(), "Select");
    node.label = "Pick".to_owned();
    assert_eq!(node.display_name(), "Pick");
}

#[test]
fn ports_say_whether_their_type_is_inferred() {
    let clamp = NodeKind::Clamp { min: s(0.0), max: s(1.0) }.spec();
    assert!(clamp.inputs[0].ty.is_generic());
    assert_eq!(clamp.inputs[0].ty.concrete(), None);
    let fan = NodeKind::FanOutput { channel: "c".into() }.spec();
    assert!(!fan.inputs[0].ty.is_generic());
    assert_eq!(fan.inputs[0].ty.concrete(), Some(Quantity::Duty));
    assert!(fan.outputs[0].delayed, "a measured speed predates the tick");
}

#[test]
fn a_preset_becomes_a_profile_of_the_current_schema() {
    let hw = HardwareSummary {
        sensors: vec![],
        channels: vec![ChannelSummary {
            id: "chip/pwm/0".into(),
            label: "Fan".into(),
            tachometer: None,
        }],
    };
    let preset = presets(&hw).pop().unwrap();
    let name = preset.name.clone();
    let profile = preset.into_profile();
    assert_eq!((profile.schema, profile.name), (CURRENT_SCHEMA, name));
    assert!(profile.graph.output_channels().contains_key(&"chip/pwm/0".to_owned()));
}
