//! What individual nodes compute.
use openfan::eval::{Decay, SensorReadings};
use openfan::graph::{Graph, GraphError, PortRef};
use openfan::node::{Compare, CurvePoint, MixMode, NodeKind};
use openfan::scalar::Scalar;
use openfan::tick::{EvalState, TickResult};
use openfan::units::{Quantity, Value};
use openfan::validate::CompiledGraph;

fn s(x: f64) -> Scalar {
    Scalar::from_bits(x.to_bits())
}

fn num(x: Scalar) -> f64 {
    f64::from_bits(x.to_bits())
}

/// A value on a wire, as a test reads it.
#[derive(Debug, Clone, Copy)]
struct Shown {
    quantity: Quantity,
    scalar: f64,
}

impl Shown {
    fn is_trustworthy(&self) -> bool {
        Value::raw(self.quantity, s(self.scalar)).is_trustworthy()
    }
}

fn wire(out: &TickResult, node: &str, port: &str) -> Shown {
    let value = out
        .wire_values
        .get(&PortRef::new(node, port))
        .expect("the port carries a value");
    Shown { quantity: value.quantity, scalar: num(value.scalar) }
}

fn command(out: &TickResult, channel: &str) -> f64 {
    num(out.commands.get(&channel.to_owned()).expect("the channel is commanded").scalar)
}

fn readings(pairs: &[(&str, Quantity, f64)]) -> SensorReadings {
    let mut out = SensorReadings::new();
    for &(k, q, v) in pairs {
        out.insert(k.to_owned(), Value::raw(q, s(v)));
    }
    out
}

/// Ticks a graph, handing in the exponentials that its filters need.
fn tick_for(
    compiled: &CompiledGraph,
    sensors: &SensorReadings,
    dt: f64,
    state: &mut EvalState,
) -> TickResult {
    let decays: Vec<Decay> = compiled
        .decay_exponents(s(dt))
        .into_iter()
        .map(|exponent| Decay { exponent, factor: s(num(exponent).exp()) })
        .collect();
    compiled.tick_with(sensors, s(dt), &decays, state)
}

/// The engine's default 10 Hz cadence.
const DT: f64 = 0.1;

/// A single-transform pipeline: sensor -> node under test.
fn pipeline(node: NodeKind, quantity: Quantity) -> Graph {
    let mut g = Graph::default();
    g.insert(
        "src",
        NodeKind::Sensor {
            sensor_id: "s".into(),
            quantity,
        },
    );
    g.insert("node", node);
    g.connect(PortRef::new("src", "out"), PortRef::new("node", "in"));
    g
}

/// Feed one value through a pipeline and read the node under test's output.
fn probe(g: &CompiledGraph, value: f64, q: Quantity, state: &mut EvalState) -> f64 {
    wire(&tick_for(g, &readings(&[("s", q, value)]), DT, state), "node", "out").scalar
}

// --- Filters: tuned in seconds, not ticks --------------------------------------------

#[test]
fn low_pass_reaches_63_percent_after_one_time_constant() {
    let g = pipeline(
        NodeKind::LowPass {
            tau_seconds: s(1.0),
        },
        Quantity::Temperature,
    )
    .validate()
    .unwrap();
    let mut state = EvalState::new();

    // The first sample is adopted outright, so a fresh start does not spend a time
    // constant ramping up from zero with the fans off.
    assert_eq!(probe(&g, 0.0, Quantity::Temperature, &mut state), 0.0);

    let mut y = 0.0;
    for _ in 0..10 {
        y = probe(&g, 100.0, Quantity::Temperature, &mut state);
    }
    assert!(
        (y - 63.2).abs() < 1.0,
        "expected ~63.2 after one time constant, got {y}"
    );
}

#[test]
fn low_pass_is_tuned_in_seconds_not_ticks() {
    // The same filter at half the tick rate must land in the same place after the same
    // wall-clock time. This is what makes the tick rate a performance knob rather than a
    // tuning knob, and what stops a busy machine from quietly changing fan behaviour.
    let run = |dt: f64, ticks: usize| {
        let g = pipeline(
            NodeKind::LowPass {
                tau_seconds: s(2.0),
            },
            Quantity::Temperature,
        )
        .validate()
        .unwrap();
        let mut state = EvalState::new();
        tick_for(&g, &readings(&[("s", Quantity::Temperature, 0.0)]), dt, &mut state);
        let mut y = 0.0;
        for _ in 0..ticks {
            let out = tick_for(&g, &readings(&[("s", Quantity::Temperature, 100.0)]), dt, &mut state);
            y = wire(&out, "node", "out").scalar;
        }
        y
    };

    let fast = run(0.05, 40); // 2 s
    let slow = run(0.20, 10); // 2 s
    assert!(
        (fast - slow).abs() < 0.5,
        "tick rate must not change the tuning: {fast} vs {slow}"
    );
}

#[test]
fn rate_limit_is_per_second_and_scales_with_dt() {
    let g = pipeline(
        NodeKind::RateLimit {
            max_delta_per_second: s(10.0),
        },
        Quantity::Duty,
    )
    .validate()
    .unwrap();
    let mut state = EvalState::new();

    assert_eq!(probe(&g, 0.0, Quantity::Duty, &mut state), 0.0);

    // 0.1 s at 10 %/s is one point.
    assert!((probe(&g, 100.0, Quantity::Duty, &mut state) - 1.0).abs() < 1e-9);

    // A longer tick moves proportionally further rather than being capped at one tick's
    // worth, which is how a late tick would otherwise stall a ramp.
    let out = tick_for(&g, &readings(&[("s", Quantity::Duty, 100.0)]), 0.5, &mut state);
    let y = wire(&out, "node", "out").scalar;
    assert!((y - 6.0).abs() < 1e-9, "expected 1 + 5, got {y}");
}

#[test]
fn moving_average_smooths_then_forgets_on_a_fault() {
    let g = pipeline(
        NodeKind::MovingAverage {
            samples: 4,
        },
        Quantity::Temperature,
    )
    .validate()
    .unwrap();
    let mut state = EvalState::new();

    probe(&g, 0.0, Quantity::Temperature, &mut state);
    probe(&g, 0.0, Quantity::Temperature, &mut state);
    let y = probe(&g, 100.0, Quantity::Temperature, &mut state);
    assert!((y - 33.333).abs() < 0.01, "got {y}");

    // A bad reading clears the window: the average of stale samples is not a
    // measurement of anything.
    let faulted = tick_for(&g, &SensorReadings::new(), DT, &mut state);
    assert!(!wire(&faulted, "node", "out").is_trustworthy());

    // Recovery starts clean rather than blending with pre-fault history.
    assert_eq!(probe(&g, 50.0, Quantity::Temperature, &mut state), 50.0);
}

#[test]
fn hold_ignores_noise_inside_its_band_but_follows_real_movement() {
    let g = pipeline(
        NodeKind::Hold {
            band: s(2.0),
        },
        Quantity::Temperature,
    )
    .validate()
    .unwrap();
    let mut state = EvalState::new();

    assert_eq!(probe(&g, 50.0, Quantity::Temperature, &mut state), 50.0);
    // Inside the band: held, so the fan does not twitch at sensor noise.
    assert_eq!(probe(&g, 51.5, Quantity::Temperature, &mut state), 50.0);
    assert_eq!(probe(&g, 48.5, Quantity::Temperature, &mut state), 50.0);
    // Outside: follows.
    assert_eq!(probe(&g, 53.0, Quantity::Temperature, &mut state), 53.0);
}

// --- Logic ---------------------------------------------------------------------------

#[test]
fn comparator_deadband_prevents_chatter_on_the_threshold() {
    let g = pipeline(
        NodeKind::Comparator {
            threshold: s(60.0),
            deadband: s(4.0),
            direction: Compare::Above,
        },
        Quantity::Temperature,
    )
    .validate()
    .unwrap();
    let mut state = EvalState::new();

    assert_eq!(probe(&g, 55.0, Quantity::Temperature, &mut state), 0.0);
    // Inside the deadband: no change, in either direction.
    assert_eq!(probe(&g, 61.0, Quantity::Temperature, &mut state), 0.0);
    // Clear of the upper edge: latches on.
    assert_eq!(probe(&g, 63.0, Quantity::Temperature, &mut state), 1.0);
    // Back inside the deadband: stays on.
    assert_eq!(probe(&g, 59.0, Quantity::Temperature, &mut state), 1.0);
    // Clear of the lower edge: releases.
    assert_eq!(probe(&g, 57.0, Quantity::Temperature, &mut state), 0.0);
}

#[test]
fn select_routes_between_two_inputs_and_faults_without_a_flag() {
    let mut g = Graph::default();
    g.insert(
        "flag",
        NodeKind::Sensor {
            sensor_id: "f".into(),
            quantity: Quantity::Boolean,
        },
    );
    g.insert(
        "quiet",
        NodeKind::Constant {
            value: s(30.0),
        },
    );
    g.insert(
        "loud",
        NodeKind::Constant {
            value: s(80.0),
        },
    );
    g.insert(
        "sel",
        NodeKind::Select,
    );
    g.insert(
        "fan",
        NodeKind::FanOutput {
            channel: "f1".into(),
        },
    );
    g.connect(PortRef::new("flag", "out"), PortRef::new("sel", "when"));
    g.connect(PortRef::new("loud", "out"), PortRef::new("sel", "if_true"));
    g.connect(
        PortRef::new("quiet", "out"),
        PortRef::new("sel", "if_false"),
    );
    g.connect(PortRef::new("sel", "out"), PortRef::new("fan", "duty"));

    let compiled = g.validate().unwrap();
    let mut state = EvalState::new();

    let off = tick_for(&compiled, &readings(&[("f", Quantity::Boolean, 0.0)]), DT, &mut state);
    assert_eq!(command(&off, "f1"), 30.0);

    let on = tick_for(&compiled, &readings(&[("f", Quantity::Boolean, 1.0)]), DT, &mut state);
    assert_eq!(command(&on, "f1"), 80.0);

    // A missing flag must not silently pick a branch.
    let broken = tick_for(&compiled, &SensorReadings::new(), DT, &mut state);
    assert!(broken.faulted_channels.contains_key(&"f1".to_owned()));
}

#[test]
fn a_boolean_cannot_be_wired_into_a_duty_input() {
    let mut g = Graph::default();
    g.insert(
        "flag",
        NodeKind::Sensor {
            sensor_id: "f".into(),
            quantity: Quantity::Boolean,
        },
    );
    g.insert(
        "fan",
        NodeKind::FanOutput {
            channel: "f1".into(),
        },
    );
    g.connect(PortRef::new("flag", "out"), PortRef::new("fan", "duty"));

    let errors = g.validate().unwrap_err();
    assert!(
        errors
            .iter()
            .any(|e| matches!(e, GraphError::TypeMismatch { .. })),
        "{errors:?}"
    );
}

// --- Arithmetic and the escape hatch -------------------------------------------------

#[test]
fn reinterpret_is_the_only_way_across_types() {
    // Load into a duty input is rejected...
    let mut g = Graph::default();
    g.insert(
        "load",
        NodeKind::Sensor {
            sensor_id: "l".into(),
            quantity: Quantity::Load,
        },
    );
    g.insert(
        "fan",
        NodeKind::FanOutput {
            channel: "f1".into(),
        },
    );
    g.connect(PortRef::new("load", "out"), PortRef::new("fan", "duty"));
    assert!(g.validate().is_err());

    // ...and legal only through a node that says, visibly, that the conversion is meant.
    let mut g = Graph::default();
    g.insert(
        "load",
        NodeKind::Sensor {
            sensor_id: "l".into(),
            quantity: Quantity::Load,
        },
    );
    g.insert(
        "cast",
        NodeKind::Reinterpret {
            from: Quantity::Load,
            to: Quantity::Duty,
        },
    );
    g.insert(
        "fan",
        NodeKind::FanOutput {
            channel: "f1".into(),
        },
    );
    g.connect(PortRef::new("load", "out"), PortRef::new("cast", "in"));
    g.connect(PortRef::new("cast", "out"), PortRef::new("fan", "duty"));

    let compiled = g.validate().unwrap();
    let out = tick_for(&compiled, &readings(&[("l", Quantity::Load, 70.0)]), DT, &mut EvalState::new());
    assert_eq!(command(&out, "f1"), 70.0);
}

#[test]
fn offset_and_scale_shift_a_value() {
    let g = pipeline(
        NodeKind::Offset {
            delta: s(-5.0),
        },
        Quantity::Temperature,
    )
    .validate()
    .unwrap();
    assert_eq!(
        probe(&g, 50.0, Quantity::Temperature, &mut EvalState::new()),
        45.0
    );

    let g = pipeline(
        NodeKind::Scale {
            factor: s(0.5),
        },
        Quantity::Duty,
    )
    .validate()
    .unwrap();
    assert_eq!(probe(&g, 80.0, Quantity::Duty, &mut EvalState::new()), 40.0);
}

// --- PID -----------------------------------------------------------------------------

#[test]
fn pid_is_proportional_with_no_derivative_kick_on_the_first_sample() {
    let g = pipeline(
        NodeKind::Pid {
            setpoint: s(50.0),
            kp: s(2.0),
            ki: s(0.0),
            kd: s(100.0),
            integral_limit: s(0.0),
        },
        Quantity::Temperature,
    )
    .validate()
    .unwrap();

    // 10 degrees over setpoint at kp=2 is 20 % duty. A large kd must contribute nothing
    // on the first sample, or every start would slam the fans to full.
    assert_eq!(
        probe(&g, 60.0, Quantity::Temperature, &mut EvalState::new()),
        20.0
    );
}

#[test]
fn pid_integral_is_bounded_by_its_contribution() {
    let g = pipeline(
        NodeKind::Pid {
            setpoint: s(50.0),
            kp: s(0.0),
            ki: s(1.0),
            kd: s(0.0),
            integral_limit: s(15.0),
        },
        Quantity::Temperature,
    )
    .validate()
    .unwrap();
    let mut state = EvalState::new();

    // Hold a large error for a long time. The integral must saturate at the configured
    // contribution rather than winding up and commanding full duty for minutes after the
    // load has gone away.
    let mut y = 0.0;
    for _ in 0..2000 {
        y = probe(&g, 90.0, Quantity::Temperature, &mut state);
    }
    assert!(
        (y - 15.0).abs() < 1e-6,
        "integral should saturate at 15, got {y}"
    );
}

#[test]
fn pid_does_not_integrate_across_a_sensor_fault() {
    let g = pipeline(
        NodeKind::Pid {
            setpoint: s(50.0),
            kp: s(0.0),
            ki: s(1.0),
            kd: s(10.0),
            integral_limit: s(100.0),
        },
        Quantity::Temperature,
    )
    .validate()
    .unwrap();
    let mut state = EvalState::new();

    probe(&g, 60.0, Quantity::Temperature, &mut state);
    let faulted = tick_for(&g, &SensorReadings::new(), DT, &mut state);
    assert!(!wire(&faulted, "node", "out").is_trustworthy());

    // The derivative restarts clean after a blind period rather than seeing a huge jump
    // from the last pre-fault error.
    assert!(probe(&g, 60.0, Quantity::Temperature, &mut state).is_finite());
}

// --- Catalogue hygiene ---------------------------------------------------------------

/// One instance of every node kind, so catalogue-wide properties can be asserted.
fn every_kind() -> Vec<NodeKind> {
    vec![
        NodeKind::Sensor {
            sensor_id: "s".into(),
            quantity: Quantity::Temperature,
        },
        NodeKind::Constant {
            value: s(0.0),
        },
        NodeKind::Curve {
                points: vec![CurvePoint { x: s(0.0), y: s(0.0) }],
        },
        NodeKind::Mix {
            mode: MixMode::Max,
        },
        NodeKind::Clamp {
            min: s(0.0),
            max: s(1.0),
        },
        NodeKind::Offset {
            delta: s(0.0),
        },
        NodeKind::Scale {
            factor: s(1.0),
        },
        NodeKind::Reinterpret {
            from: Quantity::Load,
            to: Quantity::Duty,
        },
        NodeKind::RateLimit {
            max_delta_per_second: s(1.0),
        },
        NodeKind::LowPass {
            tau_seconds: s(1.0),
        },
        NodeKind::MovingAverage {
            samples: 2,
        },
        NodeKind::Hold {
            band: s(1.0),
        },
        NodeKind::Comparator {
            threshold: s(0.0),
            deadband: s(0.0),
            direction: Compare::Above,
        },
        NodeKind::Select,
        NodeKind::Pid {
            setpoint: s(0.0),
            kp: s(0.0),
            ki: s(0.0),
            kd: s(0.0),
            integral_limit: s(0.0),
        },
        NodeKind::FanOutput {
            channel: "c".into(),
        },
    ]
}

#[test]
fn every_node_kind_is_distinctly_labelled_and_has_ports() {
    let kinds = every_kind();

    let mut labels: Vec<&str> = kinds.iter().map(|k| k.default_label()).collect();
    let total = labels.len();
    labels.sort_unstable();
    labels.dedup();
    assert_eq!(labels.len(), total, "duplicate node labels: {labels:?}");

    for kind in &kinds {
        let spec = kind.spec();
        assert!(
            !spec.inputs.is_empty() || !spec.outputs.is_empty(),
            "{kind:?} declares no ports"
        );
        // Port keys must be unique per side, or edges become ambiguous.
        let mut keys: Vec<&str> = spec.inputs.iter().map(|p| p.key).collect();
        let n = keys.len();
        keys.sort_unstable();
        keys.dedup();
        assert_eq!(keys.len(), n, "{kind:?} has duplicate input port keys");
    }
}


// --- Broken numbers, steps and delays ------------------------------------------------

#[test]
fn a_clamp_passes_an_infinite_reading_on_as_it_is() {
    let g = pipeline(NodeKind::Clamp { min: s(0.0), max: s(100.0) }, Quantity::Duty)
        .validate()
        .unwrap();
    for broken in [f64::INFINITY, f64::NEG_INFINITY, f64::NAN] {
        assert!(!probe(&g, broken, Quantity::Duty, &mut EvalState::new()).is_finite());
    }
    assert_eq!(probe(&g, 150.0, Quantity::Duty, &mut EvalState::new()), 100.0);
}

fn curve_at(points: &[(f64, f64)], x: f64) -> f64 {
    let points = points.iter().map(|&(x, y)| CurvePoint { x: s(x), y: s(y) }).collect();
    let g = pipeline(NodeKind::Curve { points }, Quantity::Temperature).validate().unwrap();
    probe(&g, x, Quantity::Temperature, &mut EvalState::new())
}

#[test]
fn a_vertical_step_takes_its_upper_value() {
    let rising = [(30.0, 20.0), (50.0, 40.0), (50.0, 80.0), (70.0, 100.0)];
    assert_eq!(curve_at(&rising, 50.0), 80.0);
    assert_eq!(curve_at(&rising, 40.0), 30.0);
    assert_eq!(curve_at(&rising, 60.0), 90.0);
    // Whichever way round the two points are stored, and at either end.
    assert_eq!(curve_at(&[(30.0, 20.0), (50.0, 80.0), (50.0, 40.0), (70.0, 60.0)], 50.0), 80.0);
    assert_eq!(curve_at(&[(50.0, 40.0), (50.0, 80.0), (70.0, 100.0)], 50.0), 80.0);
    assert_eq!(curve_at(&[(30.0, 20.0), (50.0, 80.0), (50.0, 40.0)], 50.0), 80.0);
    assert_eq!(curve_at(&[(30.0, 20.0), (50.0, 80.0), (50.0, 40.0)], 51.0), 40.0);
}

#[test]
fn a_delay_of_one_tick_emits_what_the_tick_before_was_given() {
    let g = pipeline(NodeKind::Delay { seconds: s(1.0) }, Quantity::Temperature)
        .validate()
        .unwrap();
    let mut state = EvalState::new();
    let mut next = |x: f64| {
        let out = tick_for(&g, &readings(&[("s", Quantity::Temperature, x)]), 1.0, &mut state);
        wire(&out, "node", "out").scalar
    };
    assert!(next(10.0).is_nan());
    assert_eq!(next(20.0), 10.0);
    assert_eq!(next(30.0), 20.0);
    assert_eq!(next(40.0), 30.0);
}

#[test]
fn what_is_no_finite_number_comes_out_of_no_transform_as_one() {
    let kinds = [
        NodeKind::Offset { delta: s(5.0) },
        NodeKind::Scale { factor: s(0.0) },
        NodeKind::Clamp { min: s(0.0), max: s(100.0) },
        NodeKind::RateLimit { max_delta_per_second: s(10.0) },
        NodeKind::LowPass { tau_seconds: s(1.0) },
        NodeKind::MovingAverage { samples: 3 },
        NodeKind::Hold { band: s(2.0) },
        NodeKind::Mix { mode: MixMode::Min },
    ];
    for kind in kinds {
        let g = pipeline(kind, Quantity::Temperature).validate().unwrap();
        for broken in [f64::INFINITY, f64::NEG_INFINITY, f64::NAN] {
            let mut state = EvalState::new();
            let before = probe(&g, 40.0, Quantity::Temperature, &mut state);
            assert!(before.is_finite(), "{:?}", g);
            let after = probe(&g, broken, Quantity::Temperature, &mut state);
            assert!(!after.is_finite(), "{broken} came out as {after}");
        }
    }
}

#[test]
fn a_low_pass_stays_between_what_it_remembers_and_what_comes_in() {
    let g = pipeline(NodeKind::LowPass { tau_seconds: s(2.0) }, Quantity::Temperature)
        .validate()
        .unwrap();
    let mut state = EvalState::new();
    let mut memory = probe(&g, 40.0, Quantity::Temperature, &mut state);
    for x in [90.0, 90.0, 20.0, 20.5, 90.0] {
        let y = probe(&g, x, Quantity::Temperature, &mut state);
        assert!(f64::min(memory, x) <= y && y <= f64::max(memory, x), "{memory} {x} {y}");
        memory = y;
    }
    // One that has settled stays where it is.
    let mut settled = EvalState::new();
    for _ in 0..3 {
        assert_eq!(probe(&g, 55.5, Quantity::Temperature, &mut settled), 55.5);
    }
}

#[test]
fn a_delay_emits_the_newest_of_what_came_long_enough_ago() {
    let g = pipeline(NodeKind::Delay { seconds: s(1.0) }, Quantity::Temperature)
        .validate()
        .unwrap();
    let mut state = EvalState::new();
    let mut next = |x: f64, dt: f64| {
        let out = tick_for(&g, &readings(&[("s", Quantity::Temperature, x)]), dt, &mut state);
        wire(&out, "node", "out").scalar
    };
    assert!(next(1.0, 0.5).is_nan(), "nothing has been given yet");
    // Nothing is a second old yet, so the first thing given stands in.
    assert_eq!(next(2.0, 0.25), 1.0);
    assert_eq!(next(3.0, 0.25), 1.0);
    assert_eq!(next(4.0, 0.5), 1.0);
    // A long tick ages everything at once: the newest that is old enough is the last.
    assert_eq!(next(5.0, 1.0), 4.0);
    assert_eq!(next(6.0, 0.75), 4.0);
    assert_eq!(next(7.0, 0.25), 5.0);
    assert_eq!(next(8.0, 0.75), 6.0);
}

#[test]
fn a_rate_limiter_moves_by_at_most_a_step_and_a_clamp_keeps_its_bounds() {
    let ramp = pipeline(NodeKind::RateLimit { max_delta_per_second: s(-20.0) }, Quantity::Duty)
        .validate()
        .unwrap();
    let mut state = EvalState::new();
    assert_eq!(probe(&ramp, 50.0, Quantity::Duty, &mut state), 50.0);
    // The sign of the rate does not matter: two points a tick either way.
    assert_eq!(probe(&ramp, 100.0, Quantity::Duty, &mut state), 52.0);
    assert_eq!(probe(&ramp, 0.0, Quantity::Duty, &mut state), 50.0);
    assert_eq!(probe(&ramp, 51.0, Quantity::Duty, &mut state), 51.0);
    let clamp = pipeline(NodeKind::Clamp { min: s(20.0), max: s(80.0) }, Quantity::Duty)
        .validate()
        .unwrap();
    for (x, y) in [(0.0, 20.0), (20.0, 20.0), (50.0, 50.0), (80.0, 80.0), (100.0, 80.0)] {
        assert_eq!(probe(&clamp, x, Quantity::Duty, &mut EvalState::new()), y);
    }
}

#[test]
fn two_ticks_leave_a_low_pass_where_one_of_twice_the_length_does() {
    let g = pipeline(NodeKind::LowPass { tau_seconds: s(2.0) }, Quantity::Temperature)
        .validate()
        .unwrap();
    for (memory, x, dt) in [(20.0, 90.0, 0.1), (90.0, 20.0, 0.7), (-40.0, 37.3, 3.0)] {
        let run = |cuts: &[f64]| {
            let mut state = EvalState::new();
            let mut y = probe(&g, memory, Quantity::Temperature, &mut state);
            for &dt in cuts {
                let sensors = readings(&[("s", Quantity::Temperature, x)]);
                y = wire(&tick_for(&g, &sensors, dt, &mut state), "node", "out").scalar;
            }
            y
        };
        let short = run(&[dt, dt]);
        let long = run(&[dt + dt]);
        let bound = 40.0 * f64::max(f64::abs(memory), f64::abs(x)) / 9_007_199_254_740_992.0;
        assert!((short - long).abs() <= bound, "{short} and {long}");
    }
}
