//! What an imported control does: which duty reaches its channel, and by which way.
use crate::fancontrol::{
    above_zero, asked_speed, begun, calibrated, called, channel_for, control_imported,
    controls_imported, curve_built, curve_driven, curve_named, eased, floored, has_output, held,
    is_percentage, line_source, measured, section_imported, sourced, temperature_for, to_tenths,
    ControlView, CurveView, Hysteresis, Progress, SectionView, Tip, Work, MODE_FLAT, MODE_LINEAR,
};
use crate::graph::{EdgeView, PortKey};
use crate::import::reaching;
use crate::import_guarantees::{fitting, lemma_fitting};
use crate::import_wiring::{
    in_order, lemma_ends_free, lemma_flat_free, lemma_line_free, lemma_names, lemma_stays_in_order,
};
use crate::node::{CurvePoint, KindView};
use crate::presets::{port, HardwareView, Sketch};
use crate::scalar::{whole, Scalar};
use crate::text::{digits, Text};
use crate::units::Quantity;
use vstd::prelude::*;

verus! {

// --- Ways through a graph ------------------------------------------------------------------------

/// Whether a connection leads from one port to another.
pub open spec fn linked(s: Sketch, from: PortKey, to: PortKey) -> bool {
    exists|k: int| 0 <= k < s.edges.len() && #[trigger] s.edges[k] == (EdgeView { from, to })
}

/// Whether a port is the output of a node of a kind.
pub open spec fn outlet(s: Sketch, r: PortKey, kind: KindView) -> bool {
    r.port == "out"@ && s.nodes.dom().contains(r.node) && s.nodes[r.node].kind == kind
}

/// Whether a value goes through one node of a kind on its way out of a port.
pub open spec fn through(s: Sketch, q: PortKey, r: PortKey, kind: KindView) -> bool {
    outlet(s, r, kind) && linked(s, q, port(r.node, "in"@))
}

/// Whether a port gives a temperature as it is read.
pub open spec fn reads(s: Sketch, r: PortKey, sensor: Text) -> bool {
    outlet(s, r, KindView::Sensor { sensor_id: sensor, quantity: Quantity::Temperature })
}

/// Whether a port gives a temperature, held by the wider of two bands where that is any.
pub open spec fn banded(s: Sketch, r: PortKey, sensor: Text, h: Hysteresis) -> bool {
    let band = h.value_up.larger(h.value_down);
    if whole(0).below(band) {
        exists|q: PortKey| #[trigger]
            through(s, q, r, KindView::Hold { band }) && reads(s, q, sensor)
    } else {
        reads(s, r, sensor)
    }
}

/// Whether a port gives a temperature, held, and smoothed by the shorter of two response times
/// where that is any.
pub open spec fn damped(s: Sketch, r: PortKey, sensor: Text, h: Option<Hysteresis>) -> bool {
    match h {
        None => reads(s, r, sensor),
        Some(h) => {
            let response = h.response_time_up.smaller(h.response_time_down);
            if whole(0).below(response) {
                exists|q: PortKey| #[trigger]
                    through(s, q, r, KindView::LowPass { tau_seconds: response }) && banded(
                        s,
                        q,
                        sensor,
                        h,
                    )
            } else {
                banded(s, r, sensor, h)
            }
        },
    }
}

/// The line that a curve of the file is: from its lower temperature and speed to its higher ones.
pub open spec fn line_of(raw: CurveView) -> KindView {
    KindView::Curve {
        points: seq![
            CurvePoint { x: raw.minimum_temperature->0, y: raw.minimum_fan_speed->0 },
            CurvePoint { x: raw.maximum_temperature->0, y: raw.maximum_fan_speed->0 },
        ],
    }
}

/// Whether a curve of the file can be brought across: a fixed duty that is a percentage; or a
/// line that rises from one temperature to another between two percentages, and follows a
/// temperature that this machine reads.
pub open spec fn translatable(raw: CurveView, hw: HardwareView) -> bool {
    if raw.command_mode == MODE_FLAT {
        raw.percent matches Some(value) && is_percentage(value)
    } else {
        &&& raw.command_mode == MODE_LINEAR
        &&& raw.minimum_temperature is Some && raw.maximum_temperature is Some
        &&& raw.minimum_fan_speed is Some && raw.maximum_fan_speed is Some
        &&& !(raw.maximum_temperature->0).at_most(raw.minimum_temperature->0)
        &&& is_percentage(raw.minimum_fan_speed->0) && is_percentage(raw.maximum_fan_speed->0)
        &&& raw.selected_temp_source is Some
        &&& temperature_for(raw.selected_temp_source->0, hw, raw.name).0 is Some
    }
}

/// Whether a port gives what a curve of the file asks for.
pub open spec fn gives(s: Sketch, r: PortKey, raw: CurveView, hw: HardwareView) -> bool {
    if raw.command_mode == MODE_FLAT {
        raw.percent matches Some(value) && outlet(s, r, KindView::Constant { value })
    } else {
        exists|q: PortKey| #[trigger]
            through(s, q, r, line_of(raw)) && damped(
                s,
                q,
                temperature_for(raw.selected_temp_source->0, hw, raw.name).0->0,
                raw.hysteresis,
            )
    }
}

/// Whether what a port gives reaches an output, through a floor where a control has one.
pub open spec fn reaches(s: Sketch, source: PortKey, fan: Text, control: ControlView) -> bool {
    match above_zero(control.minimum_percent) {
        Some(min) if is_percentage(min) => exists|c: PortKey| #[trigger]
            through(s, source, c, KindView::Clamp { min, max: whole(100) }) && linked(
                s,
                c,
                port(fan, "duty"@),
            ),
        _ => linked(s, source, port(fan, "duty"@)),
    }
}

/// Whether a node drives a channel.
pub open spec fn drives(s: Sketch, fan: Text, channel: Text) -> bool {
    s.nodes.dom().contains(fan) && s.nodes[fan].kind == (KindView::FanOutput { channel })
}

// --- Graphs that grow ----------------------------------------------------------------------------

/// Whether one sketch has everything that another has.
spec fn extends(a: Sketch, b: Sketch) -> bool {
    &&& a.nodes.submap_of(b.nodes)
    &&& a.edges.len() <= b.edges.len()
    &&& forall|k: int| 0 <= k < a.edges.len() ==> #[trigger] b.edges[k] == a.edges[k]
}

proof fn lemma_put(s: Sketch, id: Text, kind: KindView, column: nat, row: nat)
    requires
        !s.nodes.dom().contains(id),
    ensures
        extends(s, s.put(id, kind, column, row)),
        outlet(s.put(id, kind, column, row), port(id, "out"@), kind),
{
    assert(s.nodes.submap_of(s.put(id, kind, column, row).nodes));
}

proof fn lemma_wire(s: Sketch, from: PortKey, to: PortKey)
    ensures
        extends(s, s.wire(from, to)),
        linked(s.wire(from, to), from, to),
{
    let t = s.wire(from, to);
    assert(t.edges[s.edges.len() as int] == (EdgeView { from, to }));
}

proof fn lemma_steps(a: Sketch, b: Sketch, c: Sketch)
    requires
        extends(a, b),
        extends(b, c),
    ensures
        extends(a, c),
{
    assert forall|k: int| 0 <= k < a.edges.len() implies #[trigger] c.edges[k] == a.edges[k] by {
        assert(b.edges[k] == a.edges[k]);
    }
    assert(a.nodes.submap_of(c.nodes)) by {
        assert forall|id: Text| #[trigger] a.nodes.dom().contains(id) implies (
        #[trigger] c.nodes.dom().contains(id)) && a.nodes[id] == c.nodes[id] by {
            let x = a.nodes;
            let y = b.nodes;
            assert(x.submap_of(y));
            assert(x.dom().contains(id));
            assert(y.dom().contains(id));
            assert(x[id] == y[id]);
            let z = c.nodes;
            assert(y.submap_of(z));
            assert(z.dom().contains(id));
            assert(y[id] == z[id]);
        }
    }
}

proof fn lemma_linked(a: Sketch, b: Sketch, from: PortKey, to: PortKey)
    requires
        extends(a, b),
        linked(a, from, to),
    ensures
        linked(b, from, to),
{
    let k = choose|k: int| 0 <= k < a.edges.len() && #[trigger] a.edges[k] == (EdgeView { from, to });
    assert(b.edges[k] == a.edges[k]);
}

proof fn lemma_outlet(a: Sketch, b: Sketch, r: PortKey, kind: KindView)
    requires
        extends(a, b),
        outlet(a, r, kind),
    ensures
        outlet(b, r, kind),
{
    assert(b.nodes.dom().contains(r.node));
}

proof fn lemma_through(a: Sketch, b: Sketch, q: PortKey, r: PortKey, kind: KindView)
    requires
        extends(a, b),
        through(a, q, r, kind),
    ensures
        through(b, q, r, kind),
{
    lemma_outlet(a, b, r, kind);
    lemma_linked(a, b, q, port(r.node, "in"@));
}

proof fn lemma_damped(a: Sketch, b: Sketch, r: PortKey, sensor: Text, h: Option<Hysteresis>)
    requires
        extends(a, b),
        damped(a, r, sensor, h),
    ensures
        damped(b, r, sensor, h),
{
    let kind = KindView::Sensor { sensor_id: sensor, quantity: Quantity::Temperature };
    match h {
        None => {
            lemma_outlet(a, b, r, kind);
        },
        Some(h) => {
            let response = h.response_time_up.smaller(h.response_time_down);
            if whole(0).below(response) {
                let q = choose|q: PortKey| #[trigger]
                    through(a, q, r, KindView::LowPass { tau_seconds: response }) && banded(
                        a,
                        q,
                        sensor,
                        h,
                    );
                lemma_through(a, b, q, r, KindView::LowPass { tau_seconds: response });
                lemma_banded(a, b, q, sensor, h);
            } else {
                lemma_banded(a, b, r, sensor, h);
            }
        },
    }
}

proof fn lemma_banded(a: Sketch, b: Sketch, r: PortKey, sensor: Text, h: Hysteresis)
    requires
        extends(a, b),
        banded(a, r, sensor, h),
    ensures
        banded(b, r, sensor, h),
{
    let kind = KindView::Sensor { sensor_id: sensor, quantity: Quantity::Temperature };
    let band = h.value_up.larger(h.value_down);
    if whole(0).below(band) {
        let q = choose|q: PortKey| #[trigger]
            through(a, q, r, KindView::Hold { band }) && reads(a, q, sensor);
        lemma_through(a, b, q, r, KindView::Hold { band });
        lemma_outlet(a, b, q, kind);
    } else {
        lemma_outlet(a, b, r, kind);
    }
}

proof fn lemma_gives(a: Sketch, b: Sketch, r: PortKey, raw: CurveView, hw: HardwareView)
    requires
        extends(a, b),
        gives(a, r, raw, hw),
    ensures
        gives(b, r, raw, hw),
{
    if raw.command_mode == MODE_FLAT {
        lemma_outlet(a, b, r, KindView::Constant { value: raw.percent->0 });
    } else {
        let sensor = temperature_for(raw.selected_temp_source->0, hw, raw.name).0->0;
        let q = choose|q: PortKey| #[trigger]
            through(a, q, r, line_of(raw)) && damped(a, q, sensor, raw.hysteresis);
        lemma_through(a, b, q, r, line_of(raw));
        lemma_damped(a, b, q, sensor, raw.hysteresis);
    }
}

proof fn lemma_reaches(a: Sketch, b: Sketch, source: PortKey, fan: Text, control: ControlView)
    requires
        extends(a, b),
        reaches(a, source, fan, control),
    ensures
        reaches(b, source, fan, control),
{
    match above_zero(control.minimum_percent) {
        Some(min) if is_percentage(min) => {
            let kind = KindView::Clamp { min, max: whole(100) };
            let c = choose|c: PortKey| #[trigger]
                through(a, source, c, kind) && linked(a, c, port(fan, "duty"@));
            lemma_through(a, b, source, c, kind);
            lemma_linked(a, b, c, port(fan, "duty"@));
        },
        _ => {
            lemma_linked(a, b, source, port(fan, "duty"@));
        },
    }
}

// --- Building ------------------------------------------------------------------------------------

/// One node behind another.
proof fn lemma_extended(t: Tip, id: Text, kind: KindView, row: nat, note: crate::import::NoteView)
    requires
        !t.work.sketch.nodes.dom().contains(id),
    ensures
        ({
            let s = t.work.sketch;
            let u = t.extended(id, kind, row, note);
            &&& extends(s, u.work.sketch)
            &&& through(u.work.sketch, t.port, u.port, kind)
            &&& u.work.sketch.nodes == s.put(id, kind, t.column, row).nodes
        }),
{
    let s = t.work.sketch;
    let a = s.put(id, kind, t.column, row);
    let to = port(id, "in"@);
    lemma_put(s, id, kind, t.column, row);
    lemma_wire(a, t.port, to);
    lemma_steps(s, a, a.wire(t.port, to));
    lemma_outlet(a, a.wire(t.port, to), port(id, "out"@), kind);
}

proof fn lemma_line_source(p: Progress, w: Work, raw: CurveView, sensor: Text)
    requires
        in_order(p),
        w.sketch == p.work.sketch,
    ensures
        ({
            let x = called(p.work.sketch, "line-"@, raw.name, p.row);
            let t = line_source(w, raw, x, sensor, p.row);
            &&& extends(p.work.sketch, t.work.sketch)
            &&& damped(t.work.sketch, t.port, sensor, raw.hysteresis)
            &&& !t.work.sketch.nodes.dom().contains("line-"@ + x)
        }),
{
    let s = p.work.sketch;
    let x = called(s, "line-"@, raw.name, p.row);
    lemma_line_free(p, raw.name);
    lemma_names(x);
    let id = "temp-"@ + x;
    let kind = KindView::Sensor { sensor_id: sensor, quantity: Quantity::Temperature };
    lemma_put(s, id, kind, 0, p.row);
    let start = Tip { work: w.put(id, kind, 0, p.row), port: port(id, "out"@), column: 1 };
    if let Some(h) = raw.hysteresis {
        let band = h.value_up.larger(h.value_down);
        let response = h.response_time_up.smaller(h.response_time_down);
        let between = held(start, raw.name, x, h, p.row);
        if whole(0).below(band) {
            lemma_extended(
                start,
                "hold-"@ + x,
                KindView::Hold { band },
                p.row,
                crate::fancontrol::band_said(raw.name, band, h.value_up, h.value_down),
            );
            lemma_steps(s, start.work.sketch, between.work.sketch);
            lemma_outlet(start.work.sketch, between.work.sketch, start.port, kind);
        }
        assert(banded(between.work.sketch, between.port, sensor, h));
        if whole(0).below(response) {
            let last = eased(between, raw.name, x, h, p.row);
            lemma_extended(
                between,
                "smooth-"@ + x,
                KindView::LowPass { tau_seconds: response },
                p.row,
                crate::fancontrol::response_said(
                    raw.name,
                    response,
                    h.response_time_up,
                    h.response_time_down,
                ),
            );
            lemma_steps(s, between.work.sketch, last.work.sketch);
            lemma_banded(between.work.sketch, last.work.sketch, between.port, sensor, h);
        }
    }
}

/// What building a curve comes to.
proof fn lemma_curve(p: Progress, raw: CurveView, hw: HardwareView)
    requires
        in_order(p),
    ensures
        ({
            let (w, source) = curve_built(p.work, raw, hw, p.row);
            &&& extends(p.work.sketch, w.sketch)
            &&& source is Some <==> translatable(raw, hw)
            &&& source matches Some(r) ==> gives(w.sketch, r, raw, hw)
        }),
{
    let s = p.work.sketch;
    if raw.command_mode == MODE_FLAT {
        if let Some(value) = raw.percent {
            let id = "curve-"@ + called(s, "curve-"@, raw.name, p.row);
            lemma_flat_free(p, raw.name);
            lemma_put(s, id, KindView::Constant { value }, 2, p.row);
        }
    } else if translatable(raw, hw) {
        let from = CurvePoint { x: raw.minimum_temperature->0, y: raw.minimum_fan_speed->0 };
        let to = CurvePoint { x: raw.maximum_temperature->0, y: raw.maximum_fan_speed->0 };
        let (sensor, note) = temperature_for(raw.selected_temp_source->0, hw, raw.name);
        let x = called(s, "line-"@, raw.name, p.row);
        let t = line_source(p.work.tell(note), raw, x, sensor->0, p.row);
        lemma_line_source(p, p.work.tell(note), raw, sensor->0);
        let id = "line-"@ + x;
        let column = if t.column < 2 {
            2
        } else {
            t.column
        };
        let kind = KindView::Curve { points: seq![from, to] };
        let a = t.work.sketch.put(id, kind, column, p.row);
        let b = a.wire(t.port, port(id, "in"@));
        lemma_put(t.work.sketch, id, kind, column, p.row);
        lemma_wire(a, t.port, port(id, "in"@));
        lemma_steps(t.work.sketch, a, b);
        lemma_steps(s, t.work.sketch, b);
        lemma_outlet(a, b, port(id, "out"@), kind);
        lemma_damped(t.work.sketch, b, t.port, sensor->0, raw.hysteresis);
        assert(curve_built(p.work, raw, hw, p.row).0.sketch == b);
        assert(kind == line_of(raw));
        assert(through(b, t.port, port(id, "out"@), line_of(raw)));
    }
}

/// Whether what was built for a name is what the curve of that name asks for.
spec fn built_true(p: Progress, curves: Seq<CurveView>, hw: HardwareView) -> bool {
    forall|name: Text| #[trigger]
        p.built.dom().contains(name) ==> {
            let raw = curve_named(curves, name, curves.len());
            &&& raw is Some
            &&& p.built[name] is Some <==> translatable(raw->0, hw)
            &&& p.built[name] matches Some(r) ==> gives(p.work.sketch, r, raw->0, hw)
        }
}

proof fn lemma_built_true(p: Progress, q: Progress, curves: Seq<CurveView>, hw: HardwareView)
    requires
        built_true(p, curves, hw),
        extends(p.work.sketch, q.work.sketch),
        p.built == q.built,
    ensures
        built_true(q, curves, hw),
{
    assert forall|name: Text| #[trigger] q.built.dom().contains(name) implies {
        let raw = curve_named(curves, name, curves.len());
        &&& raw is Some
        &&& q.built[name] is Some <==> translatable(raw->0, hw)
        &&& q.built[name] matches Some(r) ==> gives(q.work.sketch, r, raw->0, hw)
    } by {
        assert(p.built.dom().contains(name));
        if let Some(r) = p.built[name] {
            let raw = curve_named(curves, name, curves.len())->0;
            lemma_gives(p.work.sketch, q.work.sketch, r, raw, hw);
        }
    }
}

/// What a port gives for a speed that was asked for.
pub open spec fn gives_speed(
    s: Sketch,
    r: PortKey,
    rpm: Scalar,
    control: ControlView,
    label: Text,
) -> bool {
    measured(control, ""@, label) matches Some(c) && (reaching(
        c.points,
        rpm,
        c.points.len(),
    ) matches Some(duty) && outlet(s, r, KindView::Constant { value: to_tenths(duty) }))
}

/// What the source of a control comes to.
proof fn lemma_sourced(
    p: Progress,
    control: ControlView,
    label: Text,
    name: Text,
    raw: CurveView,
    curves: Seq<CurveView>,
    hw: HardwareView,
)
    requires
        in_order(p),
        built_true(p, curves, hw),
        curve_named(curves, name, curves.len()) == Some(raw),
    ensures
        ({
            let (q, source) = sourced(p, control, label, name, raw, hw);
            &&& extends(p.work.sketch, q.work.sketch)
            &&& built_true(q, curves, hw)
            &&& q.row == p.row
            &&& asked_speed(raw) is None ==> (source is Some <==> translatable(raw, hw)) && (
            source matches Some(r) ==> gives(q.work.sketch, r, raw, hw))
            &&& asked_speed(raw) matches Some(rpm) ==> (source matches Some(r) ==> gives_speed(
                q.work.sketch,
                r,
                rpm,
                control,
                label,
            ))
            &&& !q.work.sketch.nodes.dom().contains("floor-"@ + digits(p.row))
            &&& !q.work.sketch.nodes.dom().contains("fan-"@ + digits(p.row))
        }),
{
    let (q, source) = sourced(p, control, label, name, raw, hw);
    let s = p.work.sketch;
    lemma_ends_free(p);
    crate::import_wiring::lemma_ends_stay_free(p, control, label, name, raw, hw);
    match asked_speed(raw) {
        Some(rpm) => {
            let id = "rpm-"@ + digits(p.row);
            if let Some(c) = measured(control, ""@, label) {
                if let Some(duty) = reaching(c.points, rpm, c.points.len()) {
                    lemma_put(s, id, KindView::Constant { value: to_tenths(duty) }, 2, p.row);
                }
            }
            lemma_built_true(p, q, curves, hw);
        },
        None => if !p.built.dom().contains(name) {
            lemma_curve(p, raw, hw);
            let (w, r) = curve_built(p.work, raw, hw, p.row);
            let half = Progress { work: w, ..p };
            lemma_built_true(p, half, curves, hw);
            assert forall|other: Text| #[trigger] q.built.dom().contains(other) implies {
                let raw = curve_named(curves, other, curves.len());
                &&& raw is Some
                &&& q.built[other] is Some <==> translatable(raw->0, hw)
                &&& q.built[other] matches Some(r) ==> gives(q.work.sketch, r, raw->0, hw)
            } by {
                if other != name {
                    assert(half.built.dom().contains(other));
                }
            }
        },
    }
}

/// Whether a control that follows a curve is brought across, in a sketch.
pub open spec fn followed(
    s: Sketch,
    control: ControlView,
    channel: Text,
    raw: CurveView,
    hw: HardwareView,
) -> bool {
    exists|fan: Text, source: PortKey| #[trigger]
        drives(s, fan, channel) && #[trigger] reaches(s, source, fan, control) && (match asked_speed(
            raw,
        ) {
            Some(rpm) => gives_speed(s, source, rpm, control, control.label()),
            None => gives(s, source, raw, hw),
        })
}

/// Whether a control that was pinned by hand is brought across, in a sketch.
pub open spec fn pinned(s: Sketch, channel: Text, value: Scalar) -> bool {
    exists|fan: Text, source: PortKey| #[trigger]
        drives(s, fan, channel) && #[trigger] outlet(s, source, KindView::Constant { value })
            && linked(s, source, port(fan, "duty"@))
}

proof fn lemma_followed(
    a: Sketch,
    b: Sketch,
    control: ControlView,
    channel: Text,
    raw: CurveView,
    hw: HardwareView,
)
    requires
        extends(a, b),
        followed(a, control, channel, raw, hw),
    ensures
        followed(b, control, channel, raw, hw),
{
    let (fan, source) = choose|fan: Text, source: PortKey| #[trigger]
        drives(a, fan, channel) && #[trigger] reaches(a, source, fan, control) && (match asked_speed(
            raw,
        ) {
            Some(rpm) => gives_speed(a, source, rpm, control, control.label()),
            None => gives(a, source, raw, hw),
        });
    assert(b.nodes.dom().contains(fan));
    lemma_reaches(a, b, source, fan, control);
    match asked_speed(raw) {
        Some(rpm) => {
            let c = measured(control, ""@, control.label())->0;
            let duty = reaching(c.points, rpm, c.points.len())->0;
            lemma_outlet(a, b, source, KindView::Constant { value: to_tenths(duty) });
        },
        None => {
            lemma_gives(a, b, source, raw, hw);
        },
    }
    assert(drives(b, fan, channel) && reaches(b, source, fan, control));
}

proof fn lemma_pinned(a: Sketch, b: Sketch, channel: Text, value: Scalar)
    requires
        extends(a, b),
        pinned(a, channel, value),
    ensures
        pinned(b, channel, value),
{
    let (fan, source) = choose|fan: Text, source: PortKey| #[trigger]
        drives(a, fan, channel) && #[trigger] outlet(a, source, KindView::Constant { value })
            && linked(a, source, port(fan, "duty"@));
    assert(b.nodes.dom().contains(fan));
    lemma_outlet(a, b, source, KindView::Constant { value });
    lemma_linked(a, b, source, port(fan, "duty"@));
    assert(drives(b, fan, channel) && outlet(b, source, KindView::Constant { value }));
}

/// What driving a channel from a curve comes to.
proof fn lemma_driven(
    p: Progress,
    control: ControlView,
    channel: Text,
    name: Text,
    raw: CurveView,
    curves: Seq<CurveView>,
    hw: HardwareView,
)
    requires
        in_order(p),
        built_true(p, curves, hw),
        curve_named(curves, name, curves.len()) == Some(raw),
    ensures
        ({
            let after = curve_driven(p, control, channel, control.label(), name, raw, hw);
            &&& extends(p.work.sketch, after.work.sketch)
            &&& built_true(after, curves, hw)
            &&& asked_speed(raw) is None && translatable(raw, hw) ==> followed(
                after.work.sketch,
                control,
                channel,
                raw,
                hw,
            )
            &&& sourced(p, control, control.label(), name, raw, hw).1 is Some ==> followed(
                after.work.sketch,
                control,
                channel,
                raw,
                hw,
            )
        }),
{
    let label = control.label();
    let (q, source) = sourced(p, control, label, name, raw, hw);
    let after = curve_driven(p, control, channel, label, name, raw, hw);
    lemma_sourced(p, control, label, name, raw, curves, hw);
    if let Some(source) = source {
        let (lifted, end) = floored(q, source, control, label);
        let s = q.work.sketch;
        let x = digits(p.row);
        lemma_names(x);
        let fan = "fan-"@ + x;
        let floor = "floor-"@ + x;
        if let Some(min) = above_zero(control.minimum_percent) {
            if is_percentage(min) {
                let kind = KindView::Clamp { min, max: whole(100) };
                let a = s.put(floor, kind, 3, p.row);
                lemma_put(s, floor, kind, 3, p.row);
                lemma_wire(a, source, port(floor, "in"@));
                lemma_steps(s, a, a.wire(source, port(floor, "in"@)));
                lemma_outlet(a, a.wire(source, port(floor, "in"@)), port(floor, "out"@), kind);
                assert(through(lifted.work.sketch, source, end, kind));
            }
        }
        let u = lifted.work.sketch;
        assert(extends(s, u));
        assert(!u.nodes.dom().contains(fan));
        let kind = KindView::FanOutput { channel };
        let b = u.put(fan, kind, 4, p.row);
        let c = b.wire(end, port(fan, "duty"@));
        lemma_put(u, fan, kind, 4, p.row);
        lemma_wire(b, end, port(fan, "duty"@));
        lemma_steps(u, b, c);
        lemma_steps(s, u, c);
        lemma_steps(p.work.sketch, s, c);
        assert(after.work.sketch == c);
        if let Some(min) = above_zero(control.minimum_percent) {
            if is_percentage(min) {
                lemma_through(u, c, source, end, KindView::Clamp { min, max: whole(100) });
            }
        }
        assert(reaches(c, source, fan, control));
        assert(drives(c, fan, channel)) by {
            assert(b.nodes.dom().contains(fan));
        }
        match asked_speed(raw) {
            Some(rpm) => {
                let m = measured(control, ""@, label)->0;
                let duty = reaching(m.points, rpm, m.points.len())->0;
                lemma_outlet(s, c, source, KindView::Constant { value: to_tenths(duty) });
            },
            None => {
                lemma_gives(s, c, source, raw, hw);
            },
        }
        lemma_built_true(q, after, curves, hw);
    } else {
        lemma_built_true(q, after, curves, hw);
    }
}

/// What one control comes to.
proof fn lemma_control(
    version: Option<Text>,
    section: SectionView,
    hw: HardwareView,
    n: nat,
)
    requires
        n < section.controls.len(),
        built_true(controls_imported(begun(version), section, hw, n), section.fan_curves, hw),
    ensures
        ({
            let p = controls_imported(begun(version), section, hw, n);
            let after = controls_imported(begun(version), section, hw, n + 1);
            &&& extends(p.work.sketch, after.work.sketch)
            &&& built_true(after, section.fan_curves, hw)
        }),
        follows_after(version, section, hw, n),
{
    let p = controls_imported(begun(version), section, hw, n);
    let after = controls_imported(begun(version), section, hw, n + 1);
    let control = section.controls[n as int];
    let curves = section.fan_curves;
    assert(after == control_imported(p, control, curves, hw));
    lemma_stays_in_order(version, section, hw, n);
    if let Some(channel) = channel_for(control.identifier, hw) {
        let known = calibrated(p, control, channel);
        assert(in_order(calibrated(p, control, channel)));
        assert(known.work == p.work && known.built == p.built);
        lemma_built_true(p, known, curves, hw);
        if control.enable && !has_output(p.work.sketch, channel) {
            if control.manual_control {
                if let Some(value) = control.manual_control_value {
                    if is_percentage(value) {
                        let s = p.work.sketch;
                        let x = digits(known.row);
                        lemma_ends_free(known);
                        lemma_names(x);
                        let id = "manual-"@ + x;
                        let fan = "fan-"@ + x;
                        let kind = KindView::Constant { value };
                        let a = s.put(id, kind, 2, known.row);
                        let drive = KindView::FanOutput { channel };
                        let b = a.put(fan, drive, 4, known.row);
                        let c = b.wire(port(id, "out"@), port(fan, "duty"@));
                        lemma_put(s, id, kind, 2, known.row);
                        lemma_put(a, fan, drive, 4, known.row);
                        lemma_wire(b, port(id, "out"@), port(fan, "duty"@));
                        lemma_steps(s, a, b);
                        lemma_steps(s, b, c);
                        lemma_steps(a, b, c);
                        lemma_outlet(a, c, port(id, "out"@), kind);
                        assert(drives(c, fan, channel)) by {
                            assert(b.nodes.dom().contains(fan));
                        }
                        assert(after.work.sketch == c);
                        assert(pinned(c, channel, value));
                    }
                }
            } else if let Some(name) = control.selected_fan_curve {
                if let Some(raw) = curve_named(curves, name, curves.len()) {
                    lemma_driven(known, control, channel, name, raw, curves, hw);
                }
            }
        }
    }
    if !curve_taken(p, section, hw, n) {
        lemma_built_true(p, after, curves, hw);
    }
}

/// Whether a control gets as far as having its curve built.
spec fn curve_taken(p: Progress, section: SectionView, hw: HardwareView, n: nat) -> bool {
    let control = section.controls[n as int];
    let curves = section.fan_curves;
    channel_for(control.identifier, hw) matches Some(channel) && control.enable && !has_output(
        p.work.sketch,
        channel,
    ) && !control.manual_control && (control.selected_fan_curve matches Some(name) && curve_named(
        curves,
        name,
        curves.len(),
    ) is Some)
}

/// What a control that is switched on, and whose channel nothing drives yet, comes to.
spec fn follows_after(version: Option<Text>, section: SectionView, hw: HardwareView, n: nat) -> bool {
    let p = controls_imported(begun(version), section, hw, n);
    let after = controls_imported(begun(version), section, hw, n + 1);
    let control = section.controls[n as int];
    let curves = section.fan_curves;
    match channel_for(control.identifier, hw) {
        None => true,
        Some(channel) => control.enable && !has_output(p.work.sketch, channel) ==> {
            &&& control.manual_control && (control.manual_control_value matches Some(value)
                && is_percentage(value)) ==> pinned(
                after.work.sketch,
                channel,
                control.manual_control_value->0,
            )
            &&& !control.manual_control && (control.selected_fan_curve matches Some(name)
                && curve_named(curves, name, curves.len()) is Some) ==> {
                let raw = curve_named(curves, control.selected_fan_curve->0, curves.len())->0;
                asked_speed(raw) is None && translatable(raw, hw) ==> followed(
                    after.work.sketch,
                    control,
                    channel,
                    raw,
                    hw,
                )
            }
        },
    }
}

proof fn lemma_all(version: Option<Text>, section: SectionView, hw: HardwareView, n: nat)
    requires
        n <= section.controls.len(),
    ensures
        built_true(controls_imported(begun(version), section, hw, n), section.fan_curves, hw),
    decreases n,
{
    if n > 0 {
        lemma_all(version, section, hw, (n - 1) as nat);
        lemma_control(version, section, hw, (n - 1) as nat);
    }
}

proof fn lemma_later(version: Option<Text>, section: SectionView, hw: HardwareView, m: nat, n: nat)
    requires
        m <= n <= section.controls.len(),
    ensures
        extends(
            controls_imported(begun(version), section, hw, m).work.sketch,
            controls_imported(begun(version), section, hw, n).work.sketch,
        ),
    decreases n,
{
    if m < n {
        let k = (n - 1) as nat;
        lemma_later(version, section, hw, m, k);
        lemma_all(version, section, hw, k);
        lemma_control(version, section, hw, k);
        lemma_steps(
            controls_imported(begun(version), section, hw, m).work.sketch,
            controls_imported(begun(version), section, hw, k).work.sketch,
            controls_imported(begun(version), section, hw, n).work.sketch,
        );
    }
}

/// Whether a control is the first that is switched on and means a channel.
pub open spec fn first_for(section: SectionView, hw: HardwareView, i: int, channel: Text) -> bool {
    &&& 0 <= i < section.controls.len()
    &&& section.controls[i].enable
    &&& channel_for(section.controls[i].identifier, hw) == Some(channel)
    &&& forall|j: int|
        0 <= j < i ==> !((#[trigger] section.controls[j]).enable && channel_for(
            section.controls[j].identifier,
            hw,
        ) == Some(channel))
}

proof fn lemma_first(version: Option<Text>, section: SectionView, hw: HardwareView, i: int, channel: Text)
    requires
        first_for(section, hw, i, channel),
    ensures
        !has_output(controls_imported(begun(version), section, hw, i as nat).work.sketch, channel),
{
    let n = i as nat;
    let s = controls_imported(begun(version), section, hw, n).work.sketch;
    lemma_fitting(begun(version), section, hw, n);
    if has_output(s, channel) {
        let id = choose|id: Text| #[trigger]
            s.nodes.dom().contains(id) && s.nodes[id].kind == (KindView::FanOutput { channel });
        assert(fitting(s.nodes[id].kind, section, hw, n));
        let j = choose|j: int|
            0 <= j < n && (#[trigger] section.controls[j]).enable && channel_for(
                section.controls[j].identifier,
                hw,
            ) == Some(channel);
        assert(section.controls[j].enable);
    }
}

// --- Laws ----------------------------------------------------------------------------------------

/// A control that follows a curve still does: its channel is driven by what the curve of that name
/// asks for, through the floor that the control has. A line follows the temperature that its
/// reference means, held by the wider of its bands and smoothed by the shorter of its times.
pub proof fn an_imported_control_follows_its_curve(
    version: Option<Text>,
    section: SectionView,
    hw: HardwareView,
    i: int,
    channel: Text,
    raw: CurveView,
)
    requires
        first_for(section, hw, i, channel),
        !section.controls[i].manual_control,
        section.controls[i].selected_fan_curve is Some,
        curve_named(
            section.fan_curves,
            section.controls[i].selected_fan_curve->0,
            section.fan_curves.len(),
        ) == Some(raw),
        asked_speed(raw) is None,
        translatable(raw, hw),
    ensures
        followed(
            section_imported(version, section, hw).work.sketch,
            section.controls[i],
            channel,
            raw,
            hw,
        ),
{
    let n = i as nat;
    lemma_first(version, section, hw, i, channel);
    lemma_all(version, section, hw, n);
    lemma_control(version, section, hw, n);
    lemma_later(version, section, hw, n + 1, section.controls.len());
    lemma_followed(
        controls_imported(begun(version), section, hw, n + 1).work.sketch,
        section_imported(version, section, hw).work.sketch,
        section.controls[i],
        channel,
        raw,
        hw,
    );
}

/// A control that was pinned by hand to a percentage still is.
pub proof fn an_imported_control_keeps_its_manual_duty(
    version: Option<Text>,
    section: SectionView,
    hw: HardwareView,
    i: int,
    channel: Text,
    value: Scalar,
)
    requires
        first_for(section, hw, i, channel),
        section.controls[i].manual_control,
        section.controls[i].manual_control_value == Some(value),
        is_percentage(value),
    ensures
        pinned(section_imported(version, section, hw).work.sketch, channel, value),
{
    let n = i as nat;
    lemma_first(version, section, hw, i, channel);
    lemma_all(version, section, hw, n);
    lemma_control(version, section, hw, n);
    lemma_later(version, section, hw, n + 1, section.controls.len());
    lemma_pinned(
        controls_imported(begun(version), section, hw, n + 1).work.sketch,
        section_imported(version, section, hw).work.sketch,
        channel,
        value,
    );
}

/// A curve is found by its name: the last one that has it, wherever there is one.
pub proof fn a_curve_is_found_by_its_name(curves: Seq<CurveView>, name: Text, n: nat)
    requires
        n <= curves.len(),
    ensures
        match curve_named(curves, name, n) {
            Some(raw) => exists|k: int|
                0 <= k < n && #[trigger] curves[k] == raw && raw.name == name && forall|j: int|
                    k < j < n ==> (#[trigger] curves[j]).name != name,
            None => forall|j: int| 0 <= j < n ==> (#[trigger] curves[j]).name != name,
        },
    decreases n,
{
    if n > 0 {
        if curves[n - 1].name == name {
            assert(curves[n - 1] == curves[n - 1]);
        } else {
            a_curve_is_found_by_its_name(curves, name, (n - 1) as nat);
            if let Some(raw) = curve_named(curves, name, (n - 1) as nat) {
                let k = choose|k: int|
                    0 <= k < n - 1 && #[trigger] curves[k] == raw && raw.name == name && forall|
                        j: int,
                    |
                        k < j < n - 1 ==> (#[trigger] curves[j]).name != name;
                assert(curves[k] == raw);
            }
        }
    }
}

} // verus!
