//! Bringing FanControl configurations across.
use openfan::fancontrol::{import, Control, Hysteresis, ImportError, RawCurve, Root, Section};
use openfan::graph::NodeId;
use openfan::import::{Calibration, CalibrationPoint, Fidelity, Imported, Note, Piece};
use openfan::node::NodeKind;
use openfan::presets::{ChannelSummary, HardwareSummary, SensorSummary};
use openfan::scalar::Scalar;
use openfan::units::Quantity;

fn s(x: f64) -> Scalar {
    Scalar::from_bits(x.to_bits())
}

fn num(x: Scalar) -> f64 {
    f64::from_bits(x.to_bits())
}

/// A note's sentence, as a person reads it.
fn detail(note: &Note) -> String {
    note.detail
        .iter()
        .map(|piece| match piece {
            Piece::Words(words) => words.clone(),
            Piece::Number(number) => format!("{}", num(*number)),
        })
        .collect()
}

/// The notes that a person has to act on.
fn needs_attention(imported: &Imported) -> Vec<&Note> {
    imported.needs_attention().into_iter().map(|i| &imported.notes[i]).collect()
}

/// What the imported graph is made of.
fn kinds(imported: &Imported) -> Vec<&NodeKind> {
    let nodes = &imported.profile.graph.nodes;
    (0..nodes.len()).map(|i| &nodes.value_at(i).kind).collect()
}

fn rows(table: &[(f64, f64)]) -> Vec<Vec<Option<Scalar>>> {
    table.iter().map(|&(duty, rpm)| vec![Some(s(duty)), Some(s(rpm)), None]).collect()
}

fn control(label: &str, index: usize, curve: &str, table: &[(f64, f64)]) -> Control {
    Control {
        nick_name: Some(label.to_owned()),
        name: None,
        identifier: format!("/lpc/nct6798d/control/{index}"),
        enable: true,
        selected_fan_curve: Some(curve.to_owned()),
        selected_start: None,
        selected_stop: None,
        minimum_percent: None,
        manual_control_value: None,
        manual_control: false,
        calibration: rows(table),
    }
}

fn fixed(name: &str, percent: f64) -> RawCurve {
    RawCurve {
        name: name.to_owned(),
        command_mode: 1,
        selected_temp_source: None,
        minimum_temperature: None,
        maximum_temperature: None,
        minimum_fan_speed: None,
        maximum_fan_speed: None,
        percent: Some(s(percent)),
        hysteresis: None,
    }
}

fn modern(controls: Vec<Control>, fan_curves: Vec<RawCurve>) -> Root {
    Root {
        version: Some("277".to_owned()),
        modern: Some(Section { controls, fan_curves }),
        legacy: None,
    }
}

/// The reference machine's own configuration: a case fan on a line, a chassis header that is
/// switched off, and a pump held at a speed in RPM.
fn v277() -> Root {
    let case_fan = [(0.0, 0.0), (5.0, 0.0), (8.0, 420.0), (50.0, 1100.0), (100.0, 1980.0)];
    let chassis = [(0.0, 0.0), (50.0, 0.0), (100.0, 0.0)];
    let pump = [(1.0, 970.0), (10.0, 979.0), (20.0, 1823.0), (30.0, 2927.0)];
    let line = RawCurve {
        command_mode: 0,
        selected_temp_source: Some("/lpc/nct6798d/temperature/1".to_owned()),
        minimum_temperature: Some(s(35.0)),
        maximum_temperature: Some(s(75.0)),
        minimum_fan_speed: Some(s(30.0)),
        maximum_fan_speed: Some(s(100.0)),
        percent: None,
        hysteresis: Some(Hysteresis {
            response_time_up: s(1.0),
            response_time_down: s(1.0),
            value_up: s(2.0),
            value_down: s(2.0),
        }),
        ..fixed("Linear", 0.0)
    };
    modern(
        vec![
            Control { enable: false, ..control("Chassis Fan", 0, "Linear", &chassis) },
            control("CPU Fan", 1, "Linear", &case_fan),
            control("AIO Pump", 4, "Pump", &pump),
        ],
        vec![line, fixed("Pump", 2200.0)],
    )
}

/// An older file: another section key, and calibration rows without the trailing flag.
fn v245() -> Root {
    let chassis = Control {
        calibration: vec![
            vec![Some(s(0.0)), Some(s(0.0))],
            vec![Some(s(100.0)), Some(s(1500.0))],
        ],
        ..control("Chassis Fan", 0, "Quiet", &[])
    };
    Root {
        version: Some("245".to_owned()),
        modern: None,
        legacy: Some(Section { controls: vec![chassis], fan_curves: vec![fixed("Quiet", 40.0)] }),
    }
}

/// The reference machine: an NCT6798D with seven PWM channels and two temperatures.
fn reference_machine() -> HardwareSummary {
    HardwareSummary {
        sensors: vec![
            SensorSummary {
                id: "nct6798d/temp/systin".into(),
                label: "System (SYSTIN)".into(),
                quantity: Quantity::Temperature,
            },
            SensorSummary {
                id: "nct6798d/temp/cputin".into(),
                label: "CPU socket (CPUTIN)".into(),
                quantity: Quantity::Temperature,
            },
        ],
        channels: (0..7)
            .map(|i| ChannelSummary {
                id: format!("nct6798d/pwm/{i}"),
                label: format!("PWM {i}"),
                tachometer: Some(format!("nct6798d/fan/{i}")),
            })
            .collect(),
    }
}

fn note_for<'a>(imported: &'a Imported, subject: &str) -> Vec<&'a Note> {
    imported.notes.iter().filter(|n| n.subject == subject).collect()
}

/// The single most important assertion in this file.
///
/// The pump's fixed curve stores `2200` in a field called `Percent`. Whatever that is, it
/// is not a percentage, and an importer that clamped it to 100 would produce a profile
/// that looks entirely reasonable and runs a pump flat out.
///
/// The rule is about the value rather than its cause, which we do not know: a number that
/// cannot be a percentage must never *become* one by being clipped into range.
#[test]
fn a_fixed_speed_that_is_not_a_percentage_is_never_clamped_into_one() {
    let imported = import(&v277(), &reference_machine()).expect("imports");

    for kind in kinds(&imported) {
        if let NodeKind::Constant { value } = kind {
            assert!(
                num(*value) <= 100.0,
                "a constant of {value:?} reached the graph; an out-of-range fixed speed \
                 must never be clamped into a duty"
            );
            assert_ne!(num(*value), 100.0, "2200 must not have become full speed");
        }
    }
}

#[test]
fn a_channel_is_left_alone_when_its_speed_cannot_be_worked_out() {
    // The measurements decide. Where they cannot reach the speed asked for, the channel
    // goes to the motherboard rather than being handed a guessed number — half a
    // translation is worse than none on a pump.
    let pump = [(0.0, 0.0), (50.0, 900.0), (100.0, 1800.0)];
    let unreachable = modern(vec![control("Pump", 4, "Fixed", &pump)], vec![fixed("Fixed", 5000.0)]);

    let imported = import(&unreachable, &reference_machine()).expect("imports");

    let drives_pump =
        kinds(&imported).into_iter().any(
            |n| matches!(n, NodeKind::FanOutput { channel } if channel == "nct6798d/pwm/4"),
        );
    assert!(
        !drives_pump,
        "a speed the fan was never measured reaching must not become a duty"
    );

    assert!(
        needs_attention(&imported).into_iter().any(|n| detail(n).contains("5000")),
        "and the user must be told which speed could not be worked out"
    );
}

#[test]
fn a_control_with_no_measurements_at_all_cannot_have_its_speed_converted() {
    // Without a table there is no bridge between duty and speed, so there is nothing to
    // interpolate and nothing to guess from.
    let no_table = modern(vec![control("Pump", 4, "Fixed", &[])], vec![fixed("Fixed", 2200.0)]);

    let imported = import(&no_table, &reference_machine()).expect("imports");
    assert!(
        imported.is_empty(),
        "nothing should be built without measurements to convert from"
    );
}

#[test]
fn an_enabled_control_with_a_line_curve_comes_across_with_its_shape_intact() {
    let imported = import(&v277(), &reference_machine()).expect("imports");

    // The CPU fan follows "Linear": 30 % at 35 °C rising to 100 % at 75 °C.
    let curve = kinds(&imported).into_iter()
        .find_map(|n| match n {
            NodeKind::Curve { points } => Some(points.clone()),
            _ => None,
        })
        .expect("a curve came across");

    assert_eq!(curve.len(), 2);
    assert_eq!((num(curve[0].x), num(curve[0].y)), (35.0, 30.0));
    assert_eq!((num(curve[1].x), num(curve[1].y)), (75.0, 100.0));

    // And it reaches the CPU fan's channel, PWM 1.
    assert!(
        kinds(&imported).into_iter().any(
            |n| matches!(n, NodeKind::FanOutput { channel } if channel == "nct6798d/pwm/1")
        ),
        "the CPU fan channel must be driven"
    );
}

#[test]
fn a_control_that_was_switched_off_stays_switched_off() {
    let imported = import(&v277(), &reference_machine()).expect("imports");

    // The chassis fan is disabled in this configuration. Importing it as an active
    // output would start driving a fan the user had deliberately left to the firmware —
    // a change to their machine they did not ask for.
    assert!(
        !kinds(&imported).into_iter().any(
            |n| matches!(n, NodeKind::FanOutput { channel } if channel == "nct6798d/pwm/0")
        ),
        "a disabled control must not become a driven channel"
    );

    let notes = note_for(&imported, "Chassis Fan");
    assert!(
        notes
            .iter()
            .any(|n| n.fidelity == Fidelity::Skipped && detail(n).contains("turned off")),
        "the user should be told why their chassis fan did not come across: {notes:?}"
    );
}

#[test]
fn hardware_this_machine_does_not_have_is_named_rather_than_addressed() {
    let imported = import(&v277(), &reference_machine()).expect("imports");

    // Every output addresses a channel the summary actually lists.
    for kind in kinds(&imported) {
        if let NodeKind::FanOutput { channel } = kind {
            assert!(
                reference_machine()
                    .channels
                    .iter()
                    .any(|c| c.id == *channel),
                "{channel} is not a channel this machine has"
            );
        }
    }
}

#[test]
fn a_temperature_binding_always_asks_to_be_checked() {
    let imported = import(&v277(), &reference_machine()).expect("imports");

    // Their temperatures are numbered by position and ours are keyed by function, so no
    // translation between them can be certain. Every curve that follows a temperature
    // must say so rather than presenting a guess as a fact.
    let uses_a_sensor = kinds(&imported).into_iter()
        .any(|n| matches!(n, NodeKind::Sensor { .. }));

    if uses_a_sensor {
        assert!(
            needs_attention(&imported).into_iter().any(|n| detail(n).contains("check")),
            "a guessed temperature binding must be flagged for review"
        );
    }
}

#[test]
fn the_measured_fan_speeds_come_across_including_where_the_fan_stops() {
    let imported = import(&v277(), &reference_machine()).expect("imports");

    let cpu = imported
        .calibration
        .iter()
        .find(|c| c.channel == "nct6798d/pwm/1")
        .expect("the CPU fan was calibrated");

    // Ascending, and the table covers the bottom of the range.
    assert!(
        cpu.points
            .windows(2)
            .all(|w| num(w[0].duty_percent) <= num(w[1].duty_percent))
    );
    assert_eq!(cpu.points.first().map(|p| p.duty_percent), Some(s(0.0)));

    // The measurement that matters: somebody already found where this fan stops, so we
    // do not have to go looking for it by running a fan down to a stall.
    assert!(
        cpu.found_the_stall(),
        "this table records a zero reading below a turning one"
    );
    let lowest = num(cpu.lowest_turning_duty().expect("some point turns"));
    assert!(
        lowest > 0.0 && lowest <= 10.0,
        "the fan was observed turning at {lowest} %"
    );
}

#[test]
fn calibration_is_taken_even_from_a_control_that_was_switched_off() {
    let imported = import(&v277(), &reference_machine()).expect("imports");

    // The chassis fan is disabled, and its measurements are still worth having: they
    // describe the fan, not the configuration.
    assert!(
        imported
            .calibration
            .iter()
            .any(|c| c.channel == "nct6798d/pwm/0"),
        "measurements should survive a disabled control"
    );
}

#[test]
fn a_table_that_never_reaches_zero_does_not_claim_to_have_found_the_stall() {
    // Guarding the inference itself: without a zero reading below a turning one, the
    // table says nothing about where this fan stops, and must not be read as proof that
    // low duties are safe.
    let never_stopped = Calibration {
        channel: "x".into(),
        label: "x".into(),
        points: vec![
            CalibrationPoint {
                duty_percent: s(20.0),
                rpm: s(600.0),
            },
            CalibrationPoint {
                duty_percent: s(100.0),
                rpm: s(2000.0),
            },
        ],
        start_percent: None,
        stop_percent: None,
        minimum_percent: None,
    };
    assert!(!never_stopped.found_the_stall());
    assert_eq!(never_stopped.lowest_turning_duty(), Some(s(20.0)));

    let all_stopped = Calibration {
        points: vec![CalibrationPoint {
            duty_percent: s(0.0),
            rpm: s(0.0),
        }],
        ..never_stopped.clone()
    };
    assert!(!all_stopped.found_the_stall());
    assert_eq!(all_stopped.lowest_turning_duty(), None);
}

#[test]
fn the_older_layout_is_read_too() {
    // The section key moved from `Main` to `FanControl` between versions. Both are real
    // files people have on disk.
    let imported = import(&v245(), &reference_machine()).expect("the old layout imports");
    assert!(
        !imported.notes.is_empty(),
        "an old configuration should still produce an account of itself"
    );
    assert!(
        imported
            .calibration
            .iter()
            .any(|c| c.channel == "nct6798d/pwm/0"),
        "the two-column calibration rows in the old format still parse"
    );
}

#[test]
fn a_machine_with_no_matching_hardware_produces_notes_and_no_graph() {
    // A configuration from somebody else's board. Nothing should be addressed.
    let elsewhere = HardwareSummary {
        sensors: vec![],
        channels: vec![ChannelSummary {
            id: "it8686e/pwm/0".into(),
            label: "PWM 0".into(),
            tachometer: None,
        }],
    };

    let imported = import(&v277(), &elsewhere).expect("imports");
    assert!(imported.is_empty(), "nothing should have been built");
    assert!(
        imported
            .notes
            .iter()
            .any(|n| n.fidelity == Fidelity::Skipped),
        "and the user should be told why"
    );
}

#[test]
fn something_that_is_not_a_fancontrol_configuration_is_refused_clearly() {
    let hw = reference_machine();
    let empty = Root { version: None, modern: None, legacy: None };
    let refused = import(&empty, &hw).unwrap_err();
    assert_eq!(refused, ImportError::UnknownLayout);
    assert!(refused.message().contains("neither a `FanControl` nor a `Main` section"));

    let unreadable = ImportError::Malformed("expected ident at line 1 column 2".to_owned());
    assert_eq!(
        unreadable.message(),
        "this file is not valid JSON: expected ident at line 1 column 2"
    );
}

#[test]
fn importing_never_produces_a_profile_that_drives_a_channel_twice() {
    // Two outputs on one channel would be two things commanding one fan — the tug-of-war
    // this whole product exists to end.
    let imported = import(&v277(), &reference_machine()).expect("imports");

    let mut seen = std::collections::BTreeSet::new();
    for kind in kinds(&imported) {
        if let NodeKind::FanOutput { channel } = kind {
            assert!(seen.insert(channel.clone()), "{channel} is driven twice");
        }
    }
}

#[test]
fn an_imported_profile_is_a_valid_graph_the_engine_would_accept() {
    // An import that produces something unloadable is not an import. This is the test
    // that makes the translation real rather than merely well-intentioned.
    let imported = import(&v277(), &reference_machine()).expect("imports");

    match imported.profile.graph.validate() {
        Ok(_) => {}
        Err(errors) => panic!("the imported profile does not validate: {errors:?}"),
    }
}

// --- rescuing a fixed speed given in RPM ------------------------------------------------

#[test]
fn a_fixed_speed_in_rpm_is_converted_using_the_measurements_in_the_same_file() {
    // The pump asks for 2200 rpm. Its own calibration puts 20 % at 1823 rpm and 30 % at
    // 2927 rpm, so 2200 rpm is inside the measured range and worth about 23 %. Refusing
    // it outright threw away data that was sitting in the same file.
    let imported = import(&v277(), &reference_machine()).expect("imports");

    let driven =
        kinds(&imported).into_iter().any(
            |n| matches!(n, NodeKind::FanOutput { channel } if channel == "nct6798d/pwm/4"),
        );
    assert!(driven, "the pump should now come across");

    let duty = kinds(&imported).into_iter()
        .find_map(|n| match n {
            NodeKind::Constant { value } => Some(num(*value)),
            _ => None,
        })
        .expect("a fixed duty was produced");

    // Interpolated between the two bracketing measurements, not clamped and not guessed.
    assert!(
        (23.0..=24.0).contains(&duty),
        "2200 rpm should land near 23 %, got {duty}"
    );

    // And it is still flagged, because holding a duty is not holding a speed.
    assert!(
        needs_attention(&imported).into_iter().any(|n| detail(n).contains("2200") && detail(n).contains('%')),
        "the conversion must be explained rather than presented as exact"
    );
}

#[test]
fn a_speed_the_measurements_never_reached_is_refused_rather_than_extrapolated() {
    let measured = Calibration {
        channel: "c".into(),
        label: "Pump".into(),
        points: vec![
            CalibrationPoint {
                duty_percent: s(20.0),
                rpm: s(1000.0),
            },
            CalibrationPoint {
                duty_percent: s(100.0),
                rpm: s(3000.0),
            },
        ],
        start_percent: None,
        stop_percent: None,
        minimum_percent: None,
    };

    // Inside the range, interpolated.
    assert_eq!(measured.duty_reaching(s(2000.0)), Some(s(60.0)));

    // Above anything measured: the fan may simply not go that fast, and guessing that it
    // does is how a pump ends up commanded flat out.
    assert_eq!(measured.duty_reaching(s(5000.0)), None);

    // Below anything measured: extrapolating downwards guesses towards a stall.
    assert_eq!(measured.duty_reaching(s(200.0)), None);

    assert_eq!(measured.duty_reaching(s(0.0)), None);
    assert_eq!(measured.duty_reaching(s(f64::NAN)), None);
}

#[test]
fn a_dead_zone_in_the_measurements_is_not_interpolated_across() {
    // The real shape of the reference machine's pump at the bottom: 970 rpm at 1 % and
    // 979 rpm at 10 %. Duty says almost nothing about speed there, so interpolating would
    // invent precision the measurements do not have.
    let measured = Calibration {
        channel: "c".into(),
        label: "Pump".into(),
        points: vec![
            CalibrationPoint {
                duty_percent: s(1.0),
                rpm: s(970.0),
            },
            CalibrationPoint {
                duty_percent: s(10.0),
                rpm: s(979.0),
            },
            CalibrationPoint {
                duty_percent: s(20.0),
                rpm: s(1823.0),
            },
        ],
        start_percent: None,
        stop_percent: None,
        minimum_percent: None,
    };

    assert_eq!(
        measured.duty_reaching(s(975.0)),
        None,
        "a nine-rpm spread over nine percent of duty is not a measurement to interpolate"
    );

    // The segment above it is a real rise, so that one is usable.
    let duty = num(measured.duty_reaching(s(1400.0)).expect("the rising segment works"));
    assert!((14.0..=16.0).contains(&duty), "got {duty}");
}

#[test]
fn the_quietest_duty_that_reaches_a_speed_wins() {
    // A table need not be monotonic. Where two stretches both reach a speed, the lower
    // duty is the right answer for a fan controller.
    let measured = Calibration {
        channel: "c".into(),
        label: "Fan".into(),
        points: vec![
            CalibrationPoint {
                duty_percent: s(10.0),
                rpm: s(500.0),
            },
            CalibrationPoint {
                duty_percent: s(20.0),
                rpm: s(1500.0),
            },
            CalibrationPoint {
                duty_percent: s(30.0),
                rpm: s(900.0),
            },
            CalibrationPoint {
                duty_percent: s(40.0),
                rpm: s(1900.0),
            },
        ],
        start_percent: None,
        stop_percent: None,
        minimum_percent: None,
    };

    let duty = num(measured.duty_reaching(s(1000.0)).expect("reachable"));
    assert!(duty < 20.0, "should pick the quieter stretch, got {duty}");
}

#[test]
fn two_fans_sharing_one_rpm_curve_each_get_their_own_duty() {
    // The trap in sharing: the duty that spins one fan at a given speed is not the duty
    // that spins another at the same speed, so an RPM curve cannot be cached by name the
    // way a temperature curve is.
    let a = [(0.0, 0.0), (50.0, 1000.0), (100.0, 2000.0)];
    let b = [(0.0, 0.0), (25.0, 1000.0), (100.0, 4000.0)];
    let config = modern(
        vec![control("A", 0, "Fixed", &a), control("B", 1, "Fixed", &b)],
        vec![fixed("Fixed", 1000.0)],
    );

    let imported = import(&config, &reference_machine()).expect("imports");
    let duties: Vec<f64> = kinds(&imported).into_iter()
        .filter_map(|n| match n {
            NodeKind::Constant { value } => Some(num(*value)),
            _ => None,
        })
        .collect();

    assert_eq!(duties.len(), 2, "each fan needs its own constant");
    assert!(
        duties.contains(&50.0) && duties.contains(&25.0),
        "each fan should get the duty its own measurements give for 1000 rpm, got {duties:?}"
    );
}

#[test]
fn a_converted_speed_is_presented_as_a_reading_not_as_a_fact() {
    // We cannot tell *why* a percentage field holds 2200. The file carries no unit and no
    // mode: the value was either set in rpm deliberately or written into the wrong field,
    // and from the outside those are indistinguishable. Reading it as rpm is the only
    // useful thing to do with it, but it stays a reading — so the note has to say that it
    // might be wrong and what goes wrong if it is.
    let imported = import(&v277(), &reference_machine()).expect("imports");

    let note = needs_attention(&imported).into_iter().find(|n| detail(n).contains("2200"))
        .expect("the converted speed is flagged");

    assert!(
        detail(note).contains("check") || detail(note).contains("Check"),
        "it must ask to be checked: {}",
        detail(note)
    );
    assert!(
        detail(note).contains("wrong"),
        "it must say what happens if the reading is wrong: {}",
        detail(note)
    );
    // And it must not claim to know the cause.
    assert!(
        !detail(note).contains("deliberate"),
        "the cause is unknown and must not be asserted: {}",
        detail(note)
    );
}

#[test]
fn a_floor_that_is_not_a_percentage_is_refused_rather_than_clamped() {
    let floored = |min: f64| {
        let lifted = Control { minimum_percent: Some(s(min)), ..control("Fan", 0, "F", &[]) };
        import(&modern(vec![lifted], vec![fixed("F", 30.0)]), &reference_machine()).expect("imports")
    };
    let imported = floored(2200.0);
    assert!(!kinds(&imported).iter().any(|k| matches!(k, NodeKind::Clamp { .. })));
    let notes = needs_attention(&imported);
    assert_eq!(notes.len(), 1);
    assert!(detail(notes[0]).contains("2200"), "{}", detail(notes[0]));
    // The fan still follows its curve.
    assert!(kinds(&imported).iter().any(|k| matches!(k, NodeKind::FanOutput { .. })));

    let imported = floored(25.0);
    assert!(kinds(&imported).iter().any(|k| match k {
        NodeKind::Clamp { min, max } => num(*min) == 25.0 && num(*max) == 100.0,
        _ => false,
    }));
}

#[test]
fn a_second_control_on_a_channel_is_left_out() {
    let file = modern(
        vec![control("First", 0, "F", &[]), control("Second", 0, "G", &[])],
        vec![fixed("F", 30.0), fixed("G", 80.0)],
    );
    let imported = import(&file, &reference_machine()).expect("imports");
    let outputs = kinds(&imported).iter().filter(|k| matches!(k, NodeKind::FanOutput { .. })).count();
    assert_eq!(outputs, 1);
    let note = imported.notes.iter().find(|n| n.subject == "Second").expect("a note");
    assert_eq!(note.fidelity, Fidelity::Skipped);
    assert!(imported.profile.graph.validate().is_ok());
}

#[test]
fn curves_whose_names_differ_in_signs_alone_stay_two_curves() {
    let file = modern(
        vec![control("First", 0, "A!", &[]), control("Second", 1, "A?", &[])],
        vec![fixed("A!", 30.0), fixed("A?", 80.0)],
    );
    let imported = import(&file, &reference_machine()).expect("imports");
    let mut values: Vec<f64> = kinds(&imported)
        .iter()
        .filter_map(|k| match k {
            NodeKind::Constant { value } => Some(num(*value)),
            _ => None,
        })
        .collect();
    values.sort_by(|a, b| a.partial_cmp(b).expect("numbers"));
    assert_eq!(values, vec![30.0, 80.0]);
    assert!(imported.profile.graph.validate().is_ok());
}

#[test]
fn no_control_is_dropped_in_silence() {
    let kinds_of_control = vec![
        Control { enable: false, ..control("Off", 0, "F", &[]) },
        Control { identifier: "/gpu/0/control/0".to_owned(), ..control("Elsewhere", 1, "F", &[]) },
        Control { manual_control: true, ..control("No value", 1, "F", &[]) },
        Control { selected_fan_curve: None, ..control("No curve", 2, "F", &[]) },
        control("Missing", 3, "nowhere", &[]),
        control("Untranslated", 4, "Odd", &[]),
        control("Speed", 5, "Fast", &[]),
        control("Driven", 6, "F", &[]),
        control("Again", 6, "F", &[]),
    ];
    let labels: Vec<String> =
        kinds_of_control.iter().map(|c| c.nick_name.clone().expect("a name")).collect();
    let odd = RawCurve { command_mode: 7, ..fixed("Odd", 0.0) };
    let file = modern(kinds_of_control, vec![fixed("F", 30.0), odd, fixed("Fast", 2200.0)]);
    let imported = import(&file, &reference_machine()).expect("imports");
    for label in labels {
        assert!(!note_for(&imported, &label).is_empty(), "nothing is said about {label}");
    }
}

#[test]
fn nodes_are_called_by_the_name_of_their_curve() {
    let imported = import(&v277(), &reference_machine()).expect("imports");
    let nodes = &imported.profile.graph.nodes;
    let mut ids: Vec<String> = (0..nodes.len()).map(|i| nodes.key_at(i).0.clone()).collect();
    ids.sort();
    assert_eq!(
        ids,
        ["fan-0", "fan-1", "hold-linear", "line-linear", "rpm-1", "smooth-linear", "temp-linear"]
    );

    // Only where a name is taken does the row tell two curves apart.
    let file = modern(
        vec![
            control("First", 0, "A!", &[]),
            control("Second", 1, "A?", &[]),
            control("Third", 2, "B", &[]),
        ],
        vec![fixed("A!", 30.0), fixed("A?", 80.0), fixed("B", 50.0)],
    );
    let imported = import(&file, &reference_machine()).expect("imports");
    let value = |id: &str| match imported.profile.graph.nodes.get(&NodeId(id.to_owned())) {
        Some(node) => match node.kind {
            NodeKind::Constant { value } => Some(num(value)),
            _ => None,
        },
        None => None,
    };
    assert_eq!(value("curve-a"), Some(30.0));
    assert_eq!(value("curve-a.1"), Some(80.0));
    assert_eq!(value("curve-b"), Some(50.0));
}
