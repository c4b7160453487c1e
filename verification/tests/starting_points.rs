//! The configurations offered to somebody who has not built one yet.
use openfan::eval::{Decay, SensorReadings, Tachometers, TickInput};
use openfan::node::NodeKind;
use openfan::presets::{presets, ChannelSummary, HardwareSummary, SensorSummary};
use openfan::scalar::Scalar;
use openfan::tick::{EvalState, TickResult};
use openfan::units::{Quantity, Value};
use openfan::validate::CompiledGraph;

fn s(x: f64) -> Scalar {
    Scalar::from_bits(x.to_bits())
}

fn num(x: Scalar) -> f64 {
    f64::from_bits(x.to_bits())
}

fn hardware() -> HardwareSummary {
    HardwareSummary {
        sensors: vec![
            SensorSummary {
                id: "chip/temp/1".into(),
                label: "Systin".into(),
                quantity: Quantity::Temperature,
            },
            SensorSummary {
                id: "cpu/package".into(),
                label: "CPU Package".into(),
                quantity: Quantity::Temperature,
            },
            SensorSummary {
                id: "gpu/core".into(),
                label: "GPU Core".into(),
                quantity: Quantity::Temperature,
            },
            SensorSummary {
                id: "chip/fan/1".into(),
                label: "Front intake speed".into(),
                quantity: Quantity::Rpm,
            },
        ],
        channels: vec![
            ChannelSummary {
                id: "chip/pwm/1".into(),
                label: "Front intake".into(),
                tachometer: Some("chip/fan/1".into()),
            },
            ChannelSummary {
                id: "chip/pwm/2".into(),
                label: "Rear exhaust".into(),
                tachometer: None,
            },
        ],
    }
}

/// Plausible readings for every sensor the fixture advertises.
fn readings(hw: &HardwareSummary, temp: f64, rpm: f64) -> SensorReadings {
    let mut out = SensorReadings::new();
    for sensor in &hw.sensors {
        let scalar = match sensor.quantity {
            Quantity::Temperature => temp,
            Quantity::Rpm => rpm,
            _ => 0.0,
        };
        out.insert(sensor.id.clone(), Value::raw(sensor.quantity, s(scalar)));
    }
    out
}

fn tachometers(hw: &HardwareSummary) -> Tachometers {
    let mut out = Tachometers::new();
    for channel in &hw.channels {
        if let Some(tachometer) = &channel.tachometer {
            out.insert(channel.id.clone(), tachometer.clone());
        }
    }
    out
}

/// Ticks a graph at 10 Hz, handing in the exponentials that its filters need.
fn tick(
    compiled: &CompiledGraph,
    sensors: &SensorReadings,
    tachometers: &Tachometers,
    state: &mut EvalState,
) -> TickResult {
    let decays: Vec<Decay> = compiled
        .decay_exponents(s(0.1))
        .into_iter()
        .map(|exponent| Decay { exponent, factor: s(num(exponent).exp()) })
        .collect();
    compiled.tick(
        &TickInput::new(sensors, s(0.1)).with_tachometers(tachometers).with_decays(&decays),
        state,
    )
}

fn duty(out: &TickResult, channel: &str) -> f64 {
    num(out.commands.get(&channel.to_owned()).expect("the channel is commanded").scalar)
}

#[test]
fn every_preset_compiles_and_drives_every_channel() {
    // The whole promise of a preset: pick it and the machine is under control. A
    // starting point that silently fails to drive a fan is worse than none.
    let hw = hardware();
    let tachs = tachometers(&hw);

    for preset in presets(&hw) {
        let compiled = preset
            .graph
            .validate()
            .unwrap_or_else(|e| panic!("preset {:?} does not compile: {e:?}", preset.id));

        let out = tick(&compiled, &readings(&hw, 65.0, 900.0), &tachs, &mut EvalState::new());

        for channel in &hw.channels {
            assert!(
                out.commands.contains_key(&channel.id),
                "preset {:?} left {} uncommanded",
                preset.id,
                channel.id
            );
        }
        assert!(
            out.faulted_channels.len() == 0,
            "preset {:?} faulted: {:?}",
            preset.id,
            out.faulted_channels
        );
    }
}

#[test]
fn every_preset_responds_to_heat() {
    // A curve that never changes is indistinguishable from a fixed duty, which would
    // make most of these presets a lie.
    let hw = hardware();
    let tachs = tachometers(&hw);

    for preset in presets(&hw) {
        if preset.id == "fixed" {
            continue;
        }
        let compiled = preset.graph.validate().unwrap();
        let mut state = EvalState::new();

        let cool = tick(&compiled, &readings(&hw, 30.0, 900.0), &tachs, &mut state);
        // Enough ticks for filtering and rate limiting to settle.
        let mut hot = tick(&compiled, &readings(&hw, 95.0, 900.0), &tachs, &mut state);
        for _ in 0..1999 {
            hot = tick(&compiled, &readings(&hw, 95.0, 900.0), &tachs, &mut state);
        }

        let channel = &hw.channels[0].id;
        assert!(
            duty(&hot, channel) > duty(&cool, channel),
            "preset {:?} does not speed up when hot",
            preset.id
        );
    }
}

#[test]
fn stall_protection_drives_a_stopped_fan_to_full() {
    let hw = hardware();
    let tachs = tachometers(&hw);
    let preset = presets(&hw)
        .into_iter()
        .find(|p| p.id == "stall-protected")
        .expect("offered when a channel has a tachometer");

    let compiled = preset.graph.validate().unwrap();
    let mut state = EvalState::new();

    // Cool and spinning: the curve decides.
    let spinning = tick(&compiled, &readings(&hw, 30.0, 900.0), &tachs, &mut state);
    assert!(duty(&spinning, "chip/pwm/1") < 100.0);

    // Cool and stopped: full duty regardless of temperature.
    let stalled = tick(&compiled, &readings(&hw, 30.0, 0.0), &tachs, &mut state);
    assert_eq!(duty(&stalled, "chip/pwm/1"), 100.0);

    // The channel with no tachometer still follows the curve.
    assert!(duty(&stalled, "chip/pwm/2") < 100.0);
}

#[test]
fn presets_prefer_a_cpu_sensor_over_an_arbitrary_one() {
    let hw = hardware();
    let balanced = presets(&hw)
        .into_iter()
        .find(|p| p.id == "balanced")
        .unwrap();

    let uses_cpu = (0..balanced.graph.nodes.len()).any(
        |i| matches!(&balanced.graph.nodes.value_at(i).kind, NodeKind::Sensor { sensor_id, .. } if sensor_id == "cpu/package"),
    );
    assert!(uses_cpu, "should have picked the CPU package sensor");
}

#[test]
fn hardware_specific_presets_are_omitted_rather_than_offered_broken() {
    // No tachometer anywhere: stall protection cannot work, so it is not offered.
    let mut hw = hardware();
    for channel in &mut hw.channels {
        channel.tachometer = None;
    }
    assert!(!presets(&hw).iter().any(|p| p.id == "stall-protected"));

    // Only one temperature: nothing to compare against.
    let mut hw = hardware();
    hw.sensors
        .retain(|s| s.quantity != Quantity::Temperature || s.id == "cpu/package");
    assert!(!presets(&hw).iter().any(|p| p.id == "cpu-and-gpu"));
    // But the single-sensor ones are still there.
    assert!(presets(&hw).iter().any(|p| p.id == "balanced"));
}

#[test]
fn a_machine_with_no_sensors_still_gets_a_working_configuration() {
    // Degraded hardware support must not mean no way to control the fans at all.
    let hw = HardwareSummary {
        sensors: vec![],
        channels: hardware().channels,
    };
    let offered = presets(&hw);

    assert_eq!(offered.len(), 1);
    assert_eq!(offered[0].id, "fixed");
    assert!(offered[0].graph.validate().is_ok());
}

#[test]
fn a_machine_with_no_channels_is_offered_nothing() {
    let hw = HardwareSummary {
        sensors: hardware().sensors,
        channels: vec![],
    };
    assert!(presets(&hw).is_empty());
}

#[test]
fn preset_ids_are_unique_and_every_preset_is_named() {
    let hw = hardware();
    let offered = presets(&hw);

    let mut ids: Vec<&str> = offered.iter().map(|p| p.id.as_str()).collect();
    let total = ids.len();
    ids.sort_unstable();
    ids.dedup();
    assert_eq!(ids.len(), total, "duplicate preset ids");

    for preset in &offered {
        assert!(!preset.name.is_empty());
        assert!(!preset.description.is_empty());
    }
}

#[test]
fn a_preset_drives_no_channel_that_the_machine_does_not_have() {
    let hw = hardware();
    for preset in presets(&hw) {
        let driven = preset.graph.output_channels();
        assert_eq!(driven.len(), hw.channels.len());
        for channel in &hw.channels {
            assert!(driven.contains_key(&channel.id), "{}", channel.id);
        }
    }
}
