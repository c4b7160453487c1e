//! What holds of every imported configuration.
use crate::fancontrol::{
    above_zero, asked_speed, attached, begun, calibrated, called, channel_for, control_driven,
    control_imported, controls_imported, curve_built, curve_named, floored, foreign, has_channel,
    has_output, held, is_percentage, is_temperature_of, line_source, measured, measured_points,
    nth_temperature, put_by_duty, row_point,
    section_imported, sourced, speed_built, temperature_for, to_tenths, ControlView, CurveView,
    Progress, SectionView, Tip, Work, MODE_LINEAR,
};
use crate::graph::PortKey;
use crate::import::{
    measured_duties_are_percentages, reaching, CalibrationPoint, Fidelity, NoteView,
};
use crate::node::{CurvePoint, KindView};
use crate::presets::{HardwareView, SensorView, Sketch};
use crate::scalar::{tenths_stay_percentages, Scalar};
use crate::text::Text;
use crate::units::Quantity;
use vstd::prelude::*;

verus! {

// --- What may stand in an imported graph ---------------------------------------------------------

/// Whether a control that is switched on drives a channel, among the first `n`.
pub open spec fn claimed(section: SectionView, hw: HardwareView, n: nat, channel: Text) -> bool {
    exists|i: int|
        0 <= i < n && (#[trigger] section.controls[i]).enable && channel_for(
            section.controls[i].identifier,
            hw,
        ) == Some(channel)
}

/// Whether a machine reads a temperature.
pub open spec fn reads_temperature(hw: HardwareView, id: Text) -> bool {
    exists|i: int|
        0 <= i < hw.sensors.len() && (#[trigger] hw.sensors[i]).id == id && hw.sensors[i].quantity
            == Quantity::Temperature
}

/// Whether a node may stand in an imported graph: constants, floors and the heights of curves
/// are percentages, a sensor is a temperature that the machine reads, and an output drives a channel that a control which is switched on names
/// and the machine has.
pub open spec fn fitting(kind: KindView, section: SectionView, hw: HardwareView, n: nat) -> bool {
    match kind {
        KindView::Sensor { sensor_id, quantity } => quantity == Quantity::Temperature
            && reads_temperature(hw, sensor_id),
        KindView::Constant { value } => is_percentage(value),
        KindView::Clamp { min, max } => is_percentage(min) && max == crate::scalar::whole(100),
        KindView::Curve { points } => forall|i: int|
            0 <= i < points.len() ==> is_percentage((#[trigger] points[i]).y),
        KindView::FanOutput { channel } => has_channel(hw, channel) && claimed(
            section,
            hw,
            n,
            channel,
        ),
        _ => true,
    }
}

/// Whether every node of a sketch may stand in an imported graph.
pub open spec fn all_fitting(s: Sketch, section: SectionView, hw: HardwareView, n: nat) -> bool {
    forall|id: Text| #[trigger]
        s.nodes.dom().contains(id) ==> fitting(s.nodes[id].kind, section, hw, n)
}

/// Whether no channel of a sketch has two outputs.
pub open spec fn drives_once(s: Sketch) -> bool {
    forall|a: Text, b: Text|
        (#[trigger] s.nodes.dom().contains(a)) && (#[trigger] s.nodes.dom().contains(b))
            && s.nodes[a].kind is FanOutput && s.nodes[a].kind == s.nodes[b].kind ==> a == b
}

/// Whether one sketch has the outputs of another, except where something else took their
/// place.
pub open spec fn adds_no_output(before: Sketch, after: Sketch) -> bool {
    forall|id: Text| #[trigger]
        after.nodes.dom().contains(id) && after.nodes[id].kind is FanOutput
            ==> before.nodes.dom().contains(id) && before.nodes[id].kind == after.nodes[id].kind
}

/// Whether a step from one sketch to another keeps what fits, and adds no output.
pub open spec fn harmless(
    before: Sketch,
    after: Sketch,
    section: SectionView,
    hw: HardwareView,
    n: nat,
) -> bool {
    &&& all_fitting(before, section, hw, n) ==> all_fitting(after, section, hw, n)
    &&& adds_no_output(before, after)
}

proof fn lemma_put(
    s: Sketch,
    id: Text,
    kind: KindView,
    column: nat,
    row: nat,
    section: SectionView,
    hw: HardwareView,
    n: nat,
)
    requires
        fitting(kind, section, hw, n),
        !(kind is FanOutput),
    ensures
        harmless(s, s.put(id, kind, column, row), section, hw, n),
{
    let after = s.put(id, kind, column, row);
    assert forall|k: Text| #[trigger] after.nodes.dom().contains(k) implies k == id
        || s.nodes.dom().contains(k) by {}
}

proof fn lemma_tip(
    t: Tip,
    id: Text,
    kind: KindView,
    row: nat,
    note: crate::import::NoteView,
    section: SectionView,
    hw: HardwareView,
    n: nat,
)
    requires
        fitting(kind, section, hw, n),
        !(kind is FanOutput),
    ensures
        harmless(t.work.sketch, t.extended(id, kind, row, note).work.sketch, section, hw, n),
{
    lemma_put(t.work.sketch, id, kind, t.column, row, section, hw, n);
}

/// A temperature that is found is one that the machine reads.
proof fn lemma_temperature(sensors: Seq<SensorView>, chip: Text, index: int, i: int)
    requires
        0 <= i,
        nth_temperature(sensors, chip, index, i) is Some,
    ensures
        exists|k: int|
            0 <= k < sensors.len() && #[trigger] sensors[k] == nth_temperature(
                sensors,
                chip,
                index,
                i,
            )->0 && sensors[k].quantity == Quantity::Temperature,
    decreases sensors.len() - i,
{
    if i < sensors.len() {
        if is_temperature_of(sensors[i], chip) {
            if index == 0 {
                assert(sensors[i] == sensors[i]);
            } else {
                lemma_temperature(sensors, chip, index - 1, i + 1);
            }
        } else {
            lemma_temperature(sensors, chip, index, i + 1);
        }
    }
}

proof fn lemma_line_source(
    w: Work,
    raw: CurveView,
    tag: Text,
    sensor: Text,
    row: nat,
    section: SectionView,
    hw: HardwareView,
    n: nat,
)
    requires
        reads_temperature(hw, sensor),
    ensures
        harmless(w.sketch, line_source(w, raw, tag, sensor, row).work.sketch, section, hw, n),
{
    let id = "temp-"@ + tag;
    let kind = KindView::Sensor {
        sensor_id: sensor,
        quantity: Quantity::Temperature,
    };
    lemma_put(w.sketch, id, kind, 0, row, section, hw, n);
    let start = Tip {
        work: w.put(id, kind, 0, row),
        port: crate::presets::port(id, "out"@),
        column: 1,
    };
    if let Some(h) = raw.hysteresis {
        let band = h.value_up.larger(h.value_down);
        let hold = "hold-"@ + tag;
        lemma_tip(
            start,
            hold,
            KindView::Hold { band },
            row,
            crate::fancontrol::band_said(raw.name, band, h.value_up, h.value_down),
            section,
            hw,
            n,
        );
        let between = held(start, raw.name, tag, h, row);
        let response = h.response_time_up.smaller(h.response_time_down);
        lemma_tip(
            between,
            "smooth-"@ + tag,
            KindView::LowPass { tau_seconds: response },
            row,
            crate::fancontrol::response_said(
                raw.name,
                response,
                h.response_time_up,
                h.response_time_down,
            ),
            section,
            hw,
            n,
        );
    }
}

/// Building a curve keeps what fits, and adds no output.
pub proof fn lemma_curve(
    w: Work,
    raw: CurveView,
    hw: HardwareView,
    row: nat,
    section: SectionView,
    n: nat,
)
    ensures
        harmless(w.sketch, curve_built(w, raw, hw, row).0.sketch, section, hw, n),
{
    if raw.command_mode == crate::fancontrol::MODE_FLAT {
        if let Some(value) = raw.percent {
            if is_percentage(value) {
                lemma_put(
                    w.sketch,
                    "curve-"@ + called(w.sketch, "curve-"@, raw.name, row),
                    KindView::Constant { value },
                    2,
                    row,
                    section,
                    hw,
                    n,
                );
            }
        }
    } else if raw.command_mode == crate::fancontrol::MODE_LINEAR {
        if raw.minimum_temperature is Some && raw.maximum_temperature is Some
            && raw.minimum_fan_speed is Some && raw.maximum_fan_speed is Some {
            let from = CurvePoint { x: raw.minimum_temperature->0, y: raw.minimum_fan_speed->0 };
            let to = CurvePoint { x: raw.maximum_temperature->0, y: raw.maximum_fan_speed->0 };
            if let Some(identifier) = raw.selected_temp_source {
                let (sensor, note) = crate::fancontrol::temperature_for(identifier, hw, raw.name);
                if sensor is Some && is_percentage(from.y) && is_percentage(to.y) {
                    let sensor = sensor->0;
                    let tag = called(w.sketch, "line-"@, raw.name, row);
                    let id = foreign(identifier)->0;
                    lemma_temperature(hw.sensors, id.chip, id.index, 0);
                    let t = line_source(w.tell(note), raw, tag, sensor, row);
                    lemma_line_source(w.tell(note), raw, tag, sensor, row, section, hw, n);
                    let column = if t.column < 2 {
                        2
                    } else {
                        t.column
                    };
                    lemma_put(
                        t.work.sketch,
                        "line-"@ + tag,
                        KindView::Curve { points: seq![from, to] },
                        column,
                        row,
                        section,
                        hw,
                        n,
                    );
                }
            }
        }
    }
}

/// Working out a speed keeps what fits, and adds no output.
pub proof fn lemma_speed(
    w: Work,
    rpm: Scalar,
    raw: CurveView,
    control: ControlView,
    label: Text,
    row: nat,
    section: SectionView,
    hw: HardwareView,
    n: nat,
)
    ensures
        harmless(w.sketch, speed_built(w, rpm, raw, control, label, row).0.sketch, section, hw, n),
{
    if let Some(c) = measured(control, ""@, label) {
        if let Some(duty) = reaching(c.points, rpm, c.points.len()) {
            measured_duties_are_percentages(c.points, rpm, c.points.len());
            tenths_stay_percentages(duty);
            lemma_put(
                w.sketch,
                "rpm-"@ + crate::text::digits(row),
                KindView::Constant { value: to_tenths(duty) },
                2,
                row,
                section,
                hw,
                n,
            );
        }
    }
}

/// Whether a step from one sketch to another keeps what fits, and adds at most one output,
/// on one channel.
spec fn drives_only(
    before: Sketch,
    after: Sketch,
    channel: Text,
    section: SectionView,
    hw: HardwareView,
    n: nat,
) -> bool {
    &&& all_fitting(before, section, hw, n) && has_channel(hw, channel) && claimed(
        section,
        hw,
        n,
        channel,
    ) ==> all_fitting(after, section, hw, n)
    &&& exists|fan: Text| #[trigger] one_output(before, after, channel, fan)
}

spec fn one_output(before: Sketch, after: Sketch, channel: Text, fan: Text) -> bool {
    forall|id: Text| #[trigger]
        after.nodes.dom().contains(id) && after.nodes[id].kind is FanOutput ==> (id == fan
            && after.nodes[id].kind == KindView::FanOutput { channel })
            || (before.nodes.dom().contains(id) && before.nodes[id].kind == after.nodes[id].kind)
}

proof fn lemma_attached(
    before: Sketch,
    w: Work,
    source: PortKey,
    channel: Text,
    row: nat,
    section: SectionView,
    hw: HardwareView,
    n: nat,
)
    requires
        harmless(before, w.sketch, section, hw, n),
    ensures
        drives_only(
            before,
            attached(w, source, channel, row).sketch,
            channel,
            section,
            hw,
            n,
        ),
{
    let fan = "fan-"@ + crate::text::digits(row);
    let after = attached(w, source, channel, row).sketch;
    assert forall|k: Text| #[trigger] after.nodes.dom().contains(k) implies k == fan
        || w.sketch.nodes.dom().contains(k) by {}
    assert(one_output(before, after, channel, fan));
}

proof fn lemma_control(
    p: Progress,
    control: ControlView,
    channel: Text,
    curves: Seq<CurveView>,
    section: SectionView,
    hw: HardwareView,
    n: nat,
)
    ensures
        drives_only(
            p.work.sketch,
            control_driven(p, control, channel, curves, hw).work.sketch,
            channel,
            section,
            hw,
            n,
        ),
{
    let label = control.label();
    let after = control_driven(p, control, channel, curves, hw);
    if control.manual_control {
        if control.manual_control_value is Some && is_percentage(control.manual_control_value->0) {
            let value = control.manual_control_value->0;
            let id = "manual-"@ + crate::text::digits(p.row);
            lemma_put(
                p.work.sketch,
                id,
                KindView::Constant { value },
                2,
                p.row,
                section,
                hw,
                n,
            );
            lemma_attached(
                p.work.sketch,
                p.work.put(id, KindView::Constant { value }, 2, p.row),
                crate::presets::port(id, "out"@),
                channel,
                p.row,
                section,
                hw,
                n,
            );
        } else {
            assert(one_output(p.work.sketch, after.work.sketch, channel, ""@));
        }
    } else if control.selected_fan_curve is Some && curve_named(
        curves,
        control.selected_fan_curve->0,
        curves.len(),
    ) is Some {
        let name = control.selected_fan_curve->0;
        let raw = curve_named(curves, name, curves.len())->0;
        let (built, source) = sourced(p, control, label, name, raw, hw);
        if let Some(rpm) = asked_speed(raw) {
            lemma_speed(p.work, rpm, raw, control, label, p.row, section, hw, n);
        } else {
            lemma_curve(p.work, raw, hw, p.row, section, n);
        }
        assert(harmless(p.work.sketch, built.work.sketch, section, hw, n));
        if let Some(source) = source {
            let (lifted, end) = floored(built, source, control, label);
            if let Some(min) = above_zero(control.minimum_percent) {
                if is_percentage(min) {
                    lemma_put(
                        built.work.sketch,
                        "floor-"@ + crate::text::digits(p.row),
                        KindView::Clamp { min, max: crate::scalar::whole(100) },
                        3,
                        p.row,
                        section,
                        hw,
                        n,
                    );
                }
            }
            assert(harmless(p.work.sketch, lifted.work.sketch, section, hw, n));
            lemma_attached(
                p.work.sketch,
                lifted.work,
                end,
                channel,
                p.row,
                section,
                hw,
                n,
            );
        } else {
            assert(one_output(p.work.sketch, after.work.sketch, channel, ""@));
        }
    } else {
        assert(one_output(p.work.sketch, after.work.sketch, channel, ""@));
    }
}

proof fn lemma_fitting_grows(s: Sketch, section: SectionView, hw: HardwareView, n: nat)
    requires
        all_fitting(s, section, hw, n),
    ensures
        all_fitting(s, section, hw, n + 1),
{
    assert forall|id: Text| #[trigger] s.nodes.dom().contains(id) implies fitting(
        s.nodes[id].kind,
        section,
        hw,
        n + 1,
    ) by {
        if let KindView::FanOutput { channel } = s.nodes[id].kind {
            assert(claimed(section, hw, n, channel));
            let i = choose|i: int|
                0 <= i < n && (#[trigger] section.controls[i]).enable && channel_for(
                    section.controls[i].identifier,
                    hw,
                ) == Some(channel);
            assert(section.controls[i].enable);
        }
    }
}

/// What may stand in the graph after some controls.
pub proof fn lemma_fitting(start: Progress, section: SectionView, hw: HardwareView, n: nat)
    requires
        n <= section.controls.len(),
        start.work.sketch == Sketch::blank(),
    ensures
        all_fitting(controls_imported(start, section, hw, n).work.sketch, section, hw, n),
    decreases n,
{
    if n > 0 {
        let m = (n - 1) as nat;
        lemma_fitting(start, section, hw, m);
        let p = controls_imported(start, section, hw, m);
        lemma_fitting_grows(p.work.sketch, section, hw, m);
        let control = section.controls[m as int];
        if let Some(channel) = channel_for(control.identifier, hw) {
            let known = calibrated(p, control, channel);
            if control.enable {
                lemma_control(known, control, channel, section.fan_curves, section, hw, n);
                assert(claimed(section, hw, n, channel)) by {
                    assert(section.controls[m as int].enable);
                }
            }
        }
    }
}

// --- Laws ----------------------------------------------------------------------------------------

/// Every constant, every floor and every height of a curve in an imported graph is a
/// percentage, whatever the file held: a value that is not one is never clamped into one. Every
/// output drives a channel
/// that this machine has, and that a control which is switched on names: a control that was
/// switched off stays switched off.
pub proof fn imported_graphs_fit_the_machine(
    version: Option<Text>,
    section: SectionView,
    hw: HardwareView,
)
    ensures
        all_fitting(
            section_imported(version, section, hw).work.sketch,
            section,
            hw,
            section.controls.len(),
        ),
{
    lemma_fitting(begun(version), section, hw, section.controls.len());
}

proof fn lemma_drives_once(start: Progress, section: SectionView, hw: HardwareView, n: nat)
    requires
        n <= section.controls.len(),
        start.work.sketch == Sketch::blank(),
    ensures
        drives_once(controls_imported(start, section, hw, n).work.sketch),
    decreases n,
{
    if n > 0 {
        let m = (n - 1) as nat;
        lemma_drives_once(start, section, hw, m);
        let p = controls_imported(start, section, hw, m);
        let control = section.controls[m as int];
        if let Some(channel) = channel_for(control.identifier, hw) {
            let known = calibrated(p, control, channel);
            if control.enable && !has_output(p.work.sketch, channel) {
                lemma_control(known, control, channel, section.fan_curves, section, hw, n);
                let before = p.work.sketch;
                let after = control_imported(p, control, section.fan_curves, hw).work.sketch;
                let fan = choose|fan: Text| #[trigger] one_output(before, after, channel, fan);
                assert forall|a: Text, b: Text|
                    (#[trigger] after.nodes.dom().contains(a))
                        && (#[trigger] after.nodes.dom().contains(b))
                        && after.nodes[a].kind is FanOutput && after.nodes[a].kind
                        == after.nodes[b].kind implies a == b by {
                    if before.nodes.dom().contains(a) && before.nodes[a].kind == (
                    KindView::FanOutput { channel }) {
                        assert(has_output(before, channel));
                    }
                    if before.nodes.dom().contains(b) && before.nodes[b].kind == (
                    KindView::FanOutput { channel }) {
                        assert(has_output(before, channel));
                    }
                }
            }
        }
    }
}

/// Importing never produces a profile that drives a channel twice, whatever the file held.
pub proof fn imported_channels_are_driven_once(
    version: Option<Text>,
    section: SectionView,
    hw: HardwareView,
)
    ensures
        drives_once(section_imported(version, section, hw).work.sketch),
{
    lemma_drives_once(begun(version), section, hw, section.controls.len());
}

/// Whether measurements ascend by duty.
pub open spec fn ascending_by_duty(points: Seq<CalibrationPoint>) -> bool {
    forall|i: int, j: int|
        0 <= i < j < points.len() ==> !(#[trigger] points[j]).duty_percent.precedes(
            (#[trigger] points[i]).duty_percent,
        )
}

proof fn lemma_put_ascends(points: Seq<CalibrationPoint>, p: CalibrationPoint)
    requires
        ascending_by_duty(points),
    ensures
        ascending_by_duty(put_by_duty(points, p)),
        points.len() > 0 && p.duty_percent.precedes(points.last().duty_percent) ==> put_by_duty(
            points,
            p,
        ).last() == points.last(),
        forall|i: int|
            0 <= i < put_by_duty(points, p).len() ==> (#[trigger] put_by_duty(points, p)[i]) == p
                || points.contains(put_by_duty(points, p)[i]),
    decreases points.len(),
{
    let after = put_by_duty(points, p);
    if points.len() > 0 && p.duty_percent.precedes(points.last().duty_percent) {
        let rest = points.drop_last();
        let moved = put_by_duty(rest, p);
        lemma_put_ascends(rest, p);
        assert forall|i: int| 0 <= i < moved.len() implies (#[trigger] moved[i]) == p
            || points.contains(moved[i]) by {
            if moved[i] != p {
                let k = choose|k: int| 0 <= k < rest.len() && rest[k] == moved[i];
                assert(points[k] == moved[i]);
            }
        }
        assert(points.contains(points.last())) by {
            assert(points[points.len() - 1] == points.last());
        }
        assert forall|i: int, j: int| 0 <= i < j < after.len() implies !(
        #[trigger] after[j]).duty_percent.precedes((#[trigger] after[i]).duty_percent) by {
            if j == after.len() - 1 {
                assert(after[i] == moved[i]);
                if moved[i] != p {
                    let k = choose|k: int| 0 <= k < points.len() && points[k] == moved[i];
                    if k < points.len() - 1 {
                        assert(!points[points.len() - 1].duty_percent.precedes(
                            points[k].duty_percent,
                        ));
                    }
                }
            } else {
                assert(after[i] == moved[i]);
                assert(after[j] == moved[j]);
            }
        }
    } else {
        assert forall|i: int| 0 <= i < points.len() implies points.contains(#[trigger] after[i]) by {
            assert(after[i] == points[i]);
        }
        assert forall|i: int, j: int| 0 <= i < j < after.len() implies !(
        #[trigger] after[j]).duty_percent.precedes((#[trigger] after[i]).duty_percent) by {
            if j == points.len() {
                if i < points.len() - 1 {
                    assert(!points[points.len() - 1].duty_percent.precedes(
                        points[i].duty_percent,
                    ));
                }
            } else {
                assert(after[i] == points[i]);
                assert(after[j] == points[j]);
            }
        }
    }
}

/// Measurements that come across ascend by duty.
pub proof fn measurements_ascend(rows: Seq<Seq<Option<Scalar>>>, n: nat)
    requires
        n <= rows.len(),
    ensures
        ascending_by_duty(measured_points(rows, n)),
    decreases n,
{
    if n > 0 {
        measurements_ascend(rows, (n - 1) as nat);
        if let Some(p) = row_point(rows[n - 1]) {
            lemma_put_ascends(measured_points(rows, (n - 1) as nat), p);
        }
    }
}

// --- What is said --------------------------------------------------------------------------------

/// Whether something is said about a subject.
pub open spec fn noted(notes: Seq<NoteView>, subject: Text) -> bool {
    exists|k: int| 0 <= k < notes.len() && (#[trigger] notes[k]).subject == subject
}

/// Whether a person is asked to look at something.
pub open spec fn flagged(notes: Seq<NoteView>, subject: Text) -> bool {
    exists|k: int|
        0 <= k < notes.len() && (#[trigger] notes[k]).subject == subject && notes[k].fidelity
            == Fidelity::NeedsAttention
}

/// Whether nothing that was said is taken back.
pub open spec fn stands(before: Seq<NoteView>, after: Seq<NoteView>) -> bool {
    before.len() <= after.len() && forall|k: int|
        0 <= k < before.len() ==> #[trigger] after[k] == before[k]
}

proof fn lemma_stands(a: Seq<NoteView>, b: Seq<NoteView>, subject: Text)
    requires
        stands(a, b),
    ensures
        noted(a, subject) ==> noted(b, subject),
        flagged(a, subject) ==> flagged(b, subject),
{
    if noted(a, subject) {
        let k = choose|k: int| 0 <= k < a.len() && (#[trigger] a[k]).subject == subject;
        assert(b[k] == a[k]);
    }
    if flagged(a, subject) {
        let k = choose|k: int|
            0 <= k < a.len() && (#[trigger] a[k]).subject == subject && a[k].fidelity
                == Fidelity::NeedsAttention;
        assert(b[k] == a[k]);
    }
}

proof fn lemma_told(notes: Seq<NoteView>, note: NoteView)
    ensures
        stands(notes, notes.push(note)),
        noted(notes.push(note), note.subject),
        note.fidelity == Fidelity::NeedsAttention ==> flagged(notes.push(note), note.subject),
{
    assert(notes.push(note)[notes.len() as int] == note);
}

proof fn lemma_curve_stands(w: Work, raw: CurveView, hw: HardwareView, row: nat)
    ensures
        stands(w.notes, curve_built(w, raw, hw, row).0.notes),
{
}

proof fn lemma_sourced_stands(
    p: Progress,
    control: ControlView,
    label: Text,
    name: Text,
    raw: CurveView,
    hw: HardwareView,
)
    ensures
        stands(p.work.notes, sourced(p, control, label, name, raw, hw).0.work.notes),
{
    lemma_curve_stands(p.work, raw, hw, p.row);
}

/// One control takes nothing back, and leaves something said about itself.
proof fn lemma_control_noted(
    p: Progress,
    control: ControlView,
    curves: Seq<CurveView>,
    hw: HardwareView,
)
    ensures
        stands(p.work.notes, control_imported(p, control, curves, hw).work.notes),
        noted(control_imported(p, control, curves, hw).work.notes, control.label()),
{
    let label = control.label();
    let after = control_imported(p, control, curves, hw).work.notes;
    match channel_for(control.identifier, hw) {
        None => {
            assert(after[p.work.notes.len() as int].subject == label);
        },
        Some(channel) => {
            let known = calibrated(p, control, channel);
            assert(known.work == p.work);
            if !control.enable || has_output(p.work.sketch, channel) || control.manual_control
                || control.selected_fan_curve is None {
                assert(after[p.work.notes.len() as int].subject == label);
            } else {
                let name = control.selected_fan_curve->0;
                match curve_named(curves, name, curves.len()) {
                    None => {
                        assert(after[p.work.notes.len() as int].subject == label);
                    },
                    Some(raw) => {
                        lemma_sourced_stands(known, control, label, name, raw, hw);
                        let (built, source) = sourced(known, control, label, name, raw, hw);
                        match source {
                            None => {
                                assert(after[built.work.notes.len() as int].subject == label);
                            },
                            Some(source) => {
                                let (lifted, end) = floored(built, source, control, label);
                                assert(stands(built.work.notes, lifted.work.notes));
                                assert(after[lifted.work.notes.len() as int].subject == label);
                            },
                        }
                    },
                }
            }
        },
    }
}

proof fn lemma_controls_noted(
    start: Progress,
    section: SectionView,
    hw: HardwareView,
    n: nat,
    i: int,
)
    requires
        0 <= i < n <= section.controls.len(),
    ensures
        noted(controls_imported(start, section, hw, n).work.notes, section.controls[i].label()),
    decreases n,
{
    let before = controls_imported(start, section, hw, (n - 1) as nat);
    let control = section.controls[n - 1];
    lemma_control_noted(before, control, section.fan_curves, hw);
    if i < n - 1 {
        lemma_controls_noted(start, section, hw, (n - 1) as nat, i);
        lemma_stands(
            before.work.notes,
            controls_imported(start, section, hw, n).work.notes,
            section.controls[i].label(),
        );
    }
}

/// No control is dropped in silence: whatever came of it, something is said about it.
pub proof fn every_control_is_noted(
    version: Option<Text>,
    section: SectionView,
    hw: HardwareView,
    i: int,
)
    requires
        0 <= i < section.controls.len(),
    ensures
        noted(
            section_imported(version, section, hw).work.notes,
            section.controls[i].label(),
        ),
{
    lemma_controls_noted(begun(version), section, hw, section.controls.len(), i);
}

/// Whoever imports a line is asked to check the temperature it follows: that is the one
/// reference that cannot be carried over with certainty.
pub proof fn every_line_is_to_be_checked(w: Work, raw: CurveView, hw: HardwareView, row: nat)
    requires
        raw.command_mode == MODE_LINEAR,
        curve_built(w, raw, hw, row).1 is Some,
    ensures
        flagged(curve_built(w, raw, hw, row).0.notes, raw.name),
{
    let note = temperature_for(raw.selected_temp_source->0, hw, raw.name).1;
    lemma_told(w.notes, note);
    assert(note.fidelity == Fidelity::NeedsAttention);
    assert(stands(w.notes.push(note), curve_built(w, raw, hw, row).0.notes));
    lemma_stands(w.notes.push(note), curve_built(w, raw, hw, row).0.notes, raw.name);
}

} // verus!
