//! What is imported can be run: an imported graph compiles.
use crate::fancontrol::{
    above_zero, asked_speed, attached, begun, calibrated, called, channel_for, controls_imported,
    curve_built, curve_driven, curve_named, floored, hand_driven, has_output, held, is_percentage, line_built,
    line_ended, line_source, plain, sanitized, section_imported, sourced, speed_built, tagged,
    undashed_back, undashed_front, ControlView, CurveView, Progress, SectionView, Tip, Work,
};
use crate::graph::{EdgeView, GraphView, NodeView, PortKey};
use crate::node::{CurvePoint, KindView};
use crate::presets::{drawn, port, HardwareView, Sketch};
use crate::scalar::Scalar;
use crate::text::{digits, lemma_digits_injective, Text};
use crate::validate::compiles;
use crate::wiring::{
    complete, complete_graphs_compile, joins, lemma_link_added, lemma_ports_found,
    lemma_source_added,
};
use vstd::prelude::*;

verus! {

// --- Names ---------------------------------------------------------------------------------------

/// Whether a name begins with two characters.
pub open spec fn begins(s: Text, a: char, b: char) -> bool {
    s.len() >= 2 && s[0] == a && s[1] == b
}

/// What nodes are called says what they are for.
pub proof fn lemma_names(x: Text)
    ensures
        begins("curve-"@ + x, 'c', 'u'),
        begins("temp-"@ + x, 't', 'e'),
        begins("hold-"@ + x, 'h', 'o'),
        begins("smooth-"@ + x, 's', 'm'),
        begins("line-"@ + x, 'l', 'i'),
        begins("rpm-"@ + x, 'r', 'p'),
        begins("floor-"@ + x, 'f', 'l'),
        begins("manual-"@ + x, 'm', 'a'),
        begins("fan-"@ + x, 'f', 'a'),
{
    reveal_strlit("curve-");
    reveal_strlit("temp-");
    reveal_strlit("hold-");
    reveal_strlit("smooth-");
    reveal_strlit("line-");
    reveal_strlit("rpm-");
    reveal_strlit("floor-");
    reveal_strlit("manual-");
    reveal_strlit("fan-");
}

proof fn lemma_prefix(prefix: Text, a: Text, b: Text)
    requires
        prefix + a == prefix + b,
    ensures
        a == b,
{
    assert((prefix + a).skip(prefix.len() as int) =~= a);
    assert((prefix + b).skip(prefix.len() as int) =~= b);
}

/// Whether a node belongs to the curve with a tag.
spec fn of_curve(id: Text, x: Text) -> bool {
    ||| id == "curve-"@ + x
    ||| id == "temp-"@ + x
    ||| id == "hold-"@ + x
    ||| id == "smooth-"@ + x
    ||| id == "line-"@ + x
}

/// Whether a node belongs to a row, by itself or with the curve that was built in it.
spec fn of_row(id: Text, row: nat) -> bool {
    ||| id == "rpm-"@ + digits(row)
    ||| id == "floor-"@ + digits(row)
    ||| id == "manual-"@ + digits(row)
    ||| id == "fan-"@ + digits(row)
    ||| exists|name: Text| of_curve(id, #[trigger] tagged(name, row))
}

/// Whether a node belongs to a curve that is called by its name alone.
spec fn of_name(id: Text) -> bool {
    exists|name: Text| of_curve(id, #[trigger] sanitized(name))
}

proof fn lemma_undashed_front(s: Text)
    ensures
        forall|i: int| 0 <= i < undashed_front(s).len() ==> s.contains(#[trigger] undashed_front(s)[i]),
    decreases s.len(),
{
    if s.len() > 0 && s[0] == '-' {
        let rest = s.drop_first();
        lemma_undashed_front(rest);
        assert forall|i: int| 0 <= i < undashed_front(s).len() implies s.contains(
            #[trigger] undashed_front(s)[i],
        ) by {
            let c = undashed_front(rest)[i];
            assert(rest.contains(c));
            let k = rest.index_of(c);
            assert(s[k + 1] == c);
        }
    }
}

proof fn lemma_undashed_back(s: Text)
    ensures
        forall|i: int| 0 <= i < undashed_back(s).len() ==> s.contains(#[trigger] undashed_back(s)[i]),
    decreases s.len(),
{
    if s.len() > 0 && s.last() == '-' {
        let rest = s.drop_last();
        lemma_undashed_back(rest);
        assert forall|i: int| 0 <= i < undashed_back(s).len() implies s.contains(
            #[trigger] undashed_back(s)[i],
        ) by {
            let c = undashed_back(rest)[i];
            assert(rest.contains(c));
            let k = rest.index_of(c);
            assert(s[k] == c);
        }
    }
}

/// There is no dot in a name as node ids use it.
proof fn lemma_undotted(name: Text)
    ensures
        forall|i: int| 0 <= i < sanitized(name).len() ==> #[trigger] sanitized(name)[i] != '.',
{
    reveal_strlit("curve");
    let mapped = name.map_values(|c: char| plain(c));
    let front = undashed_front(mapped);
    lemma_undashed_front(mapped);
    lemma_undashed_back(front);
    assert forall|i: int| 0 <= i < sanitized(name).len() implies #[trigger] sanitized(name)[i]
        != '.' by {
        if undashed_back(front).len() > 0 {
            let c = undashed_back(front)[i];
            assert(front.contains(c));
            let k = front.index_of(c);
            assert(front[k] == c);
            assert(mapped.contains(c));
            let j = mapped.index_of(c);
            assert(mapped[j] == plain(name[j]));
        }
    }
}

/// Tags tell rows apart: what stands behind the first dot is the row.
proof fn lemma_tags_differ(a: Text, b: Text, row: nat, other: nat)
    requires
        tagged(a, row) == tagged(b, other),
    ensures
        row == other,
{
    reveal_strlit(".");
    let x = sanitized(a);
    let y = sanitized(b);
    let s = tagged(a, row);
    let t = tagged(b, other);
    lemma_undotted(a);
    lemma_undotted(b);
    assert(s[x.len() as int] == '.');
    assert(t[y.len() as int] == '.');
    if x.len() < y.len() {
        assert(t[x.len() as int] == y[x.len() as int]);
    } else if y.len() < x.len() {
        assert(s[y.len() as int] == x[y.len() as int]);
    }
    assert(s.skip(x.len() as int + 1) =~= digits(row));
    assert(t.skip(x.len() as int + 1) =~= digits(other));
    lemma_digits_injective(row, other);
}

/// A tag is no name.
proof fn lemma_tag_is_no_name(a: Text, b: Text, row: nat)
    ensures
        tagged(a, row) != sanitized(b),
{
    reveal_strlit(".");
    lemma_undotted(b);
    assert(tagged(a, row)[sanitized(a).len() as int] == '.');
}

/// Two curves whose nodes are called alike are called alike.
proof fn lemma_same_curve(id: Text, x: Text, y: Text)
    requires
        of_curve(id, x),
        of_curve(id, y),
    ensures
        x == y,
{
    lemma_names(x);
    lemma_names(y);
    if id == "curve-"@ + x {
        lemma_prefix("curve-"@, x, y);
    } else if id == "temp-"@ + x {
        lemma_prefix("temp-"@, x, y);
    } else if id == "hold-"@ + x {
        lemma_prefix("hold-"@, x, y);
    } else if id == "smooth-"@ + x {
        lemma_prefix("smooth-"@, x, y);
    } else {
        lemma_prefix("line-"@, x, y);
    }
}

proof fn lemma_owners_differ(id: Text, row: nat, other: nat)
    requires
        of_row(id, row),
        of_row(id, other),
    ensures
        row == other,
{
    lemma_names(digits(row));
    lemma_names(digits(other));
    if exists|name: Text| of_curve(id, #[trigger] tagged(name, row)) {
        let a = choose|name: Text| of_curve(id, #[trigger] tagged(name, row));
        lemma_names(tagged(a, row));
        let b = choose|name: Text| of_curve(id, #[trigger] tagged(name, other));
        lemma_names(tagged(b, other));
        assert(of_curve(id, tagged(b, other)));
        lemma_same_curve(id, tagged(a, row), tagged(b, other));
        lemma_tags_differ(a, b, row, other);
    } else {
        if exists|name: Text| of_curve(id, #[trigger] tagged(name, other)) {
            let b = choose|name: Text| of_curve(id, #[trigger] tagged(name, other));
            lemma_names(tagged(b, other));
        }
        if id == "rpm-"@ + digits(row) {
            lemma_prefix("rpm-"@, digits(row), digits(other));
        } else if id == "floor-"@ + digits(row) {
            lemma_prefix("floor-"@, digits(row), digits(other));
        } else if id == "manual-"@ + digits(row) {
            lemma_prefix("manual-"@, digits(row), digits(other));
        } else {
            lemma_prefix("fan-"@, digits(row), digits(other));
        }
        lemma_digits_injective(row, other);
    }
}

/// What belongs to a row belongs to no curve that is called by its name alone.
proof fn lemma_rows_are_no_names(id: Text, row: nat)
    requires
        of_row(id, row),
    ensures
        !of_name(id),
{
    if of_name(id) {
        let b = choose|name: Text| of_curve(id, #[trigger] sanitized(name));
        lemma_names(digits(row));
        lemma_names(sanitized(b));
        assert(exists|name: Text| of_curve(id, #[trigger] tagged(name, row)));
        let a = choose|name: Text| of_curve(id, #[trigger] tagged(name, row));
        lemma_same_curve(id, tagged(a, row), sanitized(b));
        lemma_tag_is_no_name(a, b, row);
    }
}

// --- What holds after every control --------------------------------------------------------------

/// Whether a row that is done owns a node.
spec fn in_rows(row: nat, id: Text) -> bool {
    exists|k: nat| k < row && #[trigger] of_row(id, k)
}

/// Whether a port carries a duty.
spec fn gives_duty(nodes: Map<Text, NodeView>, r: PortKey) -> bool {
    &&& nodes.dom().contains(r.node)
    &&& r.port == "out"@
    &&& nodes[r.node].kind is Constant || nodes[r.node].kind is Curve
}

/// Whether every node belongs to a row that is done, or to a curve called by its name.
spec fn owned(nodes: Map<Text, NodeView>, row: nat) -> bool {
    forall|id: Text| #[trigger] nodes.dom().contains(id) ==> in_rows(row, id) || of_name(id)
}

/// Whether what leads up to a line is not there without the line.
spec fn lines_are_whole(nodes: Map<Text, NodeView>) -> bool {
    forall|x: Text|
        #![trigger nodes.dom().contains("line-"@ + x)]
        nodes.dom().contains("temp-"@ + x) || nodes.dom().contains("hold-"@ + x)
            || nodes.dom().contains("smooth-"@ + x) ==> nodes.dom().contains("line-"@ + x)
}

/// Whether what was built gives duties.
spec fn built_well(nodes: Map<Text, NodeView>, built: Map<Text, Option<PortKey>>) -> bool {
    forall|name: Text| #[trigger]
        built.dom().contains(name) ==> (built[name] matches Some(r) ==> gives_duty(nodes, r))
}

/// What holds after every control.
pub closed spec fn in_order(p: Progress) -> bool {
    &&& complete(p.work.sketch.nodes, p.work.sketch.edges)
    &&& owned(p.work.sketch.nodes, p.row)
    &&& lines_are_whole(p.work.sketch.nodes)
    &&& built_well(p.work.sketch.nodes, p.built)
}

/// The nodes of a row that is not begun are not there.
proof fn lemma_row_free(p: Progress, id: Text)
    requires
        in_order(p),
        of_row(id, p.row),
    ensures
        !p.work.sketch.nodes.dom().contains(id),
{
    if p.work.sketch.nodes.dom().contains(id) {
        lemma_rows_are_no_names(id, p.row);
        let k = choose|k: nat| k < p.row && #[trigger] of_row(id, k);
        lemma_owners_differ(id, p.row, k);
    }
}

/// The nodes that a row puts before and behind a source are not there before it is begun.
pub proof fn lemma_ends_free(p: Progress)
    requires
        in_order(p),
    ensures
        ({
            let nodes = p.work.sketch.nodes;
            let x = digits(p.row);
            &&& !nodes.dom().contains("floor-"@ + x)
            &&& !nodes.dom().contains("fan-"@ + x)
            &&& !nodes.dom().contains("rpm-"@ + x)
            &&& !nodes.dom().contains("manual-"@ + x)
        }),
{
    let x = digits(p.row);
    lemma_row_free(p, "floor-"@ + x);
    lemma_row_free(p, "fan-"@ + x);
    lemma_row_free(p, "rpm-"@ + x);
    lemma_row_free(p, "manual-"@ + x);
}

/// The nodes of a line that is not built are not there.
pub proof fn lemma_line_free(p: Progress, name: Text)
    requires
        in_order(p),
    ensures
        ({
            let x = called(p.work.sketch, "line-"@, name, p.row);
            let nodes = p.work.sketch.nodes;
            &&& !nodes.dom().contains("temp-"@ + x)
            &&& !nodes.dom().contains("hold-"@ + x)
            &&& !nodes.dom().contains("smooth-"@ + x)
            &&& !nodes.dom().contains("line-"@ + x)
        }),
{
    let x = called(p.work.sketch, "line-"@, name, p.row);
    if x == tagged(name, p.row) {
        assert(of_curve("temp-"@ + x, tagged(name, p.row)));
        assert(of_curve("hold-"@ + x, tagged(name, p.row)));
        assert(of_curve("smooth-"@ + x, tagged(name, p.row)));
        assert(of_curve("line-"@ + x, tagged(name, p.row)));
        lemma_row_free(p, "temp-"@ + x);
        lemma_row_free(p, "hold-"@ + x);
        lemma_row_free(p, "smooth-"@ + x);
        lemma_row_free(p, "line-"@ + x);
    }
}

/// The node of a fixed curve that is not built is not there.
pub proof fn lemma_flat_free(p: Progress, name: Text)
    requires
        in_order(p),
    ensures
        !p.work.sketch.nodes.dom().contains(
            "curve-"@ + called(p.work.sketch, "curve-"@, name, p.row),
        ),
{
    let x = called(p.work.sketch, "curve-"@, name, p.row);
    if x == tagged(name, p.row) {
        assert(of_curve("curve-"@ + x, tagged(name, p.row)));
        lemma_row_free(p, "curve-"@ + x);
    }
}

/// What adding nodes that lead up to no line keeps.
proof fn lemma_lines_stay_whole(
    before: Map<Text, NodeView>,
    after: Map<Text, NodeView>,
    mine: spec_fn(Text) -> bool,
)
    requires
        lines_are_whole(before),
        before.submap_of(after),
        forall|id: Text| #[trigger]
            after.dom().contains(id) ==> before.dom().contains(id) || mine(id),
        forall|id: Text| #[trigger]
            mine(id) ==> !begins(id, 't', 'e') && !begins(id, 'h', 'o') && !begins(id, 's', 'm'),
    ensures
        lines_are_whole(after),
{
    assert forall|x: Text|
        #![trigger after.dom().contains("line-"@ + x)]
        after.dom().contains("temp-"@ + x) || after.dom().contains("hold-"@ + x)
            || after.dom().contains("smooth-"@ + x) implies after.dom().contains(
        "line-"@ + x,
    ) by {
        lemma_names(x);
        assert(before.dom().contains("line-"@ + x));
    }
}

// --- Building a curve ----------------------------------------------------------------------------

/// What adding nodes for one owner keeps.
spec fn grown(before: Sketch, after: Sketch, mine: spec_fn(Text) -> bool) -> bool {
    &&& complete(after.nodes, after.edges)
    &&& before.nodes.submap_of(after.nodes)
    &&& forall|id: Text| #[trigger]
        after.nodes.dom().contains(id) ==> before.nodes.dom().contains(id) || mine(id)
}

proof fn lemma_extended_tip(
    before: Sketch,
    t: Tip,
    id: Text,
    kind: KindView,
    row: nat,
    note: crate::import::NoteView,
    mine: spec_fn(Text) -> bool,
)
    requires
        grown(before, t.work.sketch, mine),
        mine(id),
        !t.work.sketch.nodes.dom().contains(id),
        t.work.sketch.nodes.dom().contains(t.port.node),
        t.port.port == "out"@,
        kind is Hold || kind is LowPass,
        t.work.sketch.nodes[t.port.node].kind is Hold
            || t.work.sketch.nodes[t.port.node].kind == (KindView::Sensor {
            sensor_id: t.work.sketch.nodes[t.port.node].kind->sensor_id,
            quantity: crate::units::Quantity::Temperature,
        }),
        kind is Hold ==> !(t.work.sketch.nodes[t.port.node].kind is Hold),
    ensures
        grown(before, t.extended(id, kind, row, note).work.sketch, mine),
{
    let s = t.work.sketch;
    let after = t.extended(id, kind, row, note).work.sketch;
    let e = EdgeView { from: t.port, to: port(id, "in"@) };
    lemma_ports_found(kind);
    lemma_ports_found(s.nodes[t.port.node].kind);
    assert(joins(s.nodes[t.port.node].kind, "out"@, kind, "in"@));
    lemma_link_added(s.nodes, s.edges, id, after.nodes[id], e);
}

proof fn lemma_line_source(
    p: Progress,
    w: Work,
    raw: CurveView,
    sensor: Text,
)
    requires
        in_order(p),
        w.sketch == p.work.sketch,
    ensures
        ({
            let x = called(p.work.sketch, "line-"@, raw.name, p.row);
            let t = line_source(w, raw, x, sensor, p.row);
            let nodes = t.work.sketch.nodes;
            &&& grown(p.work.sketch, t.work.sketch, |id: Text| of_curve(id, x))
            &&& nodes.dom().contains(t.port.node)
            &&& t.port.port == "out"@
            &&& nodes[t.port.node].kind is Hold || nodes[t.port.node].kind is LowPass
                || nodes[t.port.node].kind == (KindView::Sensor {
                sensor_id: sensor,
                quantity: crate::units::Quantity::Temperature,
            })
            &&& !nodes.dom().contains("line-"@ + x)
        }),
{
    let x = called(p.work.sketch, "line-"@, raw.name, p.row);
    let mine = |id: Text| of_curve(id, x);
    let before = p.work.sketch;
    let id = "temp-"@ + x;
    let hold = "hold-"@ + x;
    let smooth = "smooth-"@ + x;
    lemma_names(x);
    lemma_line_free(p, raw.name);
    let kind = KindView::Sensor {
        sensor_id: sensor,
        quantity: crate::units::Quantity::Temperature,
    };
    let start = Tip { work: w.put(id, kind, 0, p.row), port: port(id, "out"@), column: 1 };
    lemma_ports_found(kind);
    lemma_source_added(before.nodes, before.edges, id, start.work.sketch.nodes[id]);
    assert(grown(before, start.work.sketch, mine));
    if let Some(h) = raw.hysteresis {
        let band = h.value_up.larger(h.value_down);
        let response = h.response_time_up.smaller(h.response_time_down);
        let between = held(start, raw.name, x, h, p.row);
        if crate::scalar::whole(0).below(band) {
            lemma_extended_tip(
                before,
                start,
                hold,
                KindView::Hold { band },
                p.row,
                crate::fancontrol::band_said(raw.name, band, h.value_up, h.value_down),
                mine,
            );
        }
        if crate::scalar::whole(0).below(response) {
            lemma_extended_tip(
                before,
                between,
                smooth,
                KindView::LowPass { tau_seconds: response },
                p.row,
                crate::fancontrol::response_said(
                    raw.name,
                    response,
                    h.response_time_up,
                    h.response_time_down,
                ),
                mine,
            );
        }
    }
}

proof fn lemma_line(
    p: Progress,
    raw: CurveView,
    hw: HardwareView,
    from: CurvePoint,
    to: CurvePoint,
)
    requires
        in_order(p),
    ensures
        ({
            let (w, source) = line_built(p.work, raw, hw, p.row, from, to);
            let x = called(p.work.sketch, "line-"@, raw.name, p.row);
            &&& grown(p.work.sketch, w.sketch, |id: Text| of_curve(id, x))
            &&& lines_are_whole(w.sketch.nodes)
            &&& source matches Some(r) ==> gives_duty(w.sketch.nodes, r)
            &&& source is None ==> w.sketch == p.work.sketch
        }),
{
    let x = called(p.work.sketch, "line-"@, raw.name, p.row);
    let id = "line-"@ + x;
    if raw.selected_temp_source is Some {
        let (sensor, note) = crate::fancontrol::temperature_for(
            raw.selected_temp_source->0,
            hw,
            raw.name,
        );
        if let Some(sensor) = sensor {
            let w = p.work.tell(note);
            let t = line_source(w, raw, x, sensor, p.row);
            lemma_line_source(p, w, raw, sensor);
            let s = t.work.sketch;
            let kind = KindView::Curve { points: seq![from, to] };
            lemma_ports_found(kind);
            lemma_ports_found(s.nodes[t.port.node].kind);
            assert(joins(s.nodes[t.port.node].kind, "out"@, kind, "in"@));
            let after = line_ended(t, raw.name, x, from, to, p.row).0.sketch;
            lemma_link_added(
                s.nodes,
                s.edges,
                id,
                after.nodes[id],
                EdgeView { from: t.port, to: port(id, "in"@) },
            );
            let before = p.work.sketch.nodes;
            assert forall|y: Text|
                #![trigger after.nodes.dom().contains("line-"@ + y)]
                after.nodes.dom().contains("temp-"@ + y) || after.nodes.dom().contains(
                    "hold-"@ + y,
                ) || after.nodes.dom().contains("smooth-"@ + y) implies after.nodes.dom().contains(
                "line-"@ + y,
            ) by {
                if y != x {
                    assert(of_curve("temp-"@ + y, y) && of_curve("hold-"@ + y, y) && of_curve(
                        "smooth-"@ + y,
                        y,
                    ));
                    if of_curve("temp-"@ + y, x) {
                        lemma_same_curve("temp-"@ + y, x, y);
                    }
                    if of_curve("hold-"@ + y, x) {
                        lemma_same_curve("hold-"@ + y, x, y);
                    }
                    if of_curve("smooth-"@ + y, x) {
                        lemma_same_curve("smooth-"@ + y, x, y);
                    }
                    assert(before.dom().contains("line-"@ + y));
                }
            }
        }
    }
}

/// A node of a curve belongs to the row, or to the curve by its name.
proof fn lemma_of_curve(p: Progress, prefix: Text, name: Text, id: Text)
    requires
        of_curve(id, called(p.work.sketch, prefix, name, p.row)),
    ensures
        of_row(id, p.row) || of_name(id),
{
    if called(p.work.sketch, prefix, name, p.row) == tagged(name, p.row) {
        assert(of_curve(id, tagged(name, p.row)));
    } else {
        assert(of_curve(id, sanitized(name)));
    }
}

proof fn lemma_curve(p: Progress, raw: CurveView, hw: HardwareView)
    requires
        in_order(p),
    ensures
        ({
            let (w, source) = curve_built(p.work, raw, hw, p.row);
            &&& grown(p.work.sketch, w.sketch, |id: Text| of_row(id, p.row) || of_name(id))
            &&& forall|id: Text| #[trigger]
                w.sketch.nodes.dom().contains(id) ==> p.work.sketch.nodes.dom().contains(id)
                    || !begins(id, 'f', 'l') && !begins(id, 'f', 'a')
            &&& lines_are_whole(w.sketch.nodes)
            &&& source matches Some(r) ==> gives_duty(w.sketch.nodes, r)
            &&& source is None ==> w.sketch == p.work.sketch
        }),
{
    let s = p.work.sketch;
    if raw.command_mode == crate::fancontrol::MODE_FLAT {
        if let Some(value) = raw.percent {
            let x = called(s, "curve-"@, raw.name, p.row);
            let id = "curve-"@ + x;
            let kind = KindView::Constant { value };
            lemma_flat_free(p, raw.name);
            lemma_names(x);
            lemma_ports_found(kind);
            lemma_source_added(s.nodes, s.edges, id, s.put(id, kind, 2, p.row).nodes[id]);
            lemma_of_curve(p, "curve-"@, raw.name, id);
            if is_percentage(value) {
                lemma_lines_stay_whole(
                    s.nodes,
                    s.put(id, kind, 2, p.row).nodes,
                    |other: Text| other == id,
                );
            }
        }
    } else if raw.command_mode == crate::fancontrol::MODE_LINEAR {
        if raw.minimum_temperature is Some && raw.maximum_temperature is Some
            && raw.minimum_fan_speed is Some && raw.maximum_fan_speed is Some {
            lemma_line(
                p,
                raw,
                hw,
                CurvePoint { x: raw.minimum_temperature->0, y: raw.minimum_fan_speed->0 },
                CurvePoint { x: raw.maximum_temperature->0, y: raw.maximum_fan_speed->0 },
            );
            let x = called(s, "line-"@, raw.name, p.row);
            let after = curve_built(p.work, raw, hw, p.row).0.sketch.nodes;
            lemma_names(x);
            assert forall|id: Text| #[trigger] after.dom().contains(id) && !s.nodes.dom().contains(
                id,
            ) implies (of_row(id, p.row) || of_name(id)) && !begins(id, 'f', 'l') && !begins(
                id,
                'f',
                'a',
            ) by {
                assert(of_curve(id, x));
                lemma_of_curve(p, "line-"@, raw.name, id);
            }
        }
    }
}

proof fn lemma_speed(
    p: Progress,
    rpm: Scalar,
    raw: CurveView,
    control: ControlView,
    label: Text,
)
    requires
        in_order(p),
    ensures
        ({
            let (w, source) = speed_built(p.work, rpm, raw, control, label, p.row);
            &&& grown(p.work.sketch, w.sketch, |id: Text| id == "rpm-"@ + digits(p.row))
            &&& source matches Some(r) ==> gives_duty(w.sketch.nodes, r)
            &&& source is None ==> w.sketch == p.work.sketch
        }),
{
    let s = p.work.sketch;
    let id = "rpm-"@ + digits(p.row);
    lemma_row_free(p, id);
    if let Some(c) = crate::fancontrol::measured(control, ""@, label) {
        if let Some(duty) = crate::import::reaching(c.points, rpm, c.points.len()) {
            let kind = KindView::Constant { value: crate::fancontrol::to_tenths(duty) };
            lemma_ports_found(kind);
            lemma_source_added(s.nodes, s.edges, id, s.put(id, kind, 2, p.row).nodes[id]);
        }
    }
}

// --- Driving a channel ---------------------------------------------------------------------------

/// What building the source of a control keeps.
proof fn lemma_sourced(
    p: Progress,
    control: ControlView,
    label: Text,
    name: Text,
    raw: CurveView,
    hw: HardwareView,
)
    requires
        in_order(p),
    ensures
        ({
            let (q, source) = sourced(p, control, label, name, raw, hw);
            let nodes = q.work.sketch.nodes;
            &&& complete(nodes, q.work.sketch.edges)
            &&& forall|id: Text| #[trigger]
                nodes.dom().contains(id) ==> in_rows(p.row, id) || of_name(id) || of_row(
                    id,
                    p.row,
                )
            &&& lines_are_whole(nodes)
            &&& built_well(nodes, q.built)
            &&& q.row == p.row
            &&& source matches Some(r) ==> gives_duty(nodes, r)
            &&& !nodes.dom().contains("floor-"@ + digits(p.row))
            &&& !nodes.dom().contains("fan-"@ + digits(p.row))
            &&& source is None ==> owned(nodes, p.row)
        }),
{
    let (q, source) = sourced(p, control, label, name, raw, hw);
    let before = p.work.sketch;
    let after = q.work.sketch;
    let floor = "floor-"@ + digits(p.row);
    let fan = "fan-"@ + digits(p.row);
    lemma_names(digits(p.row));
    lemma_row_free(p, floor);
    lemma_row_free(p, fan);
    match asked_speed(raw) {
        Some(rpm) => {
            lemma_speed(p, rpm, raw, control, label);
            assert(before.nodes.submap_of(after.nodes));
            lemma_lines_stay_whole(
                before.nodes,
                after.nodes,
                |id: Text| id == "rpm-"@ + digits(p.row),
            );
            lemma_built_well(before.nodes, after.nodes, p.built);
        },
        None => if !p.built.dom().contains(name) {
            lemma_curve(p, raw, hw);
            assert(before.nodes.submap_of(after.nodes));
            lemma_built_well(before.nodes, after.nodes, p.built);
        },
    }
}

/// Building a source puts nothing where the floor and the output of its row go.
pub proof fn lemma_ends_stay_free(
    p: Progress,
    control: ControlView,
    label: Text,
    name: Text,
    raw: CurveView,
    hw: HardwareView,
)
    requires
        in_order(p),
    ensures
        ({
            let nodes = sourced(p, control, label, name, raw, hw).0.work.sketch.nodes;
            &&& !nodes.dom().contains("floor-"@ + digits(p.row))
            &&& !nodes.dom().contains("fan-"@ + digits(p.row))
        }),
{
    lemma_sourced(p, control, label, name, raw, hw);
}

/// Connecting a duty to a channel, in a row that has neither a floor nor an output yet.
proof fn lemma_attached(w: Work, source: PortKey, channel: Text, row: nat)
    requires
        complete(w.sketch.nodes, w.sketch.edges),
        w.sketch.nodes.dom().contains(source.node),
        source.port == "out"@,
        w.sketch.nodes[source.node].kind is Constant || w.sketch.nodes[source.node].kind is Curve
            || w.sketch.nodes[source.node].kind is Clamp,
        !w.sketch.nodes.dom().contains("fan-"@ + digits(row)),
    ensures
        complete(
            attached(w, source, channel, row).sketch.nodes,
            attached(w, source, channel, row).sketch.edges,
        ),
{
    let s = w.sketch;
    let fan = "fan-"@ + digits(row);
    let kind = KindView::FanOutput { channel };
    lemma_ports_found(kind);
    lemma_ports_found(s.nodes[source.node].kind);
    assert(joins(s.nodes[source.node].kind, "out"@, kind, "duty"@));
    lemma_link_added(
        s.nodes,
        s.edges,
        fan,
        attached(w, source, channel, row).sketch.nodes[fan],
        EdgeView { from: source, to: port(fan, "duty"@) },
    );
}

proof fn lemma_floored(q: Progress, source: PortKey, control: ControlView, label: Text)
    requires
        complete(q.work.sketch.nodes, q.work.sketch.edges),
        gives_duty(q.work.sketch.nodes, source),
        !q.work.sketch.nodes.dom().contains("floor-"@ + digits(q.row)),
    ensures
        ({
            let (lifted, end) = floored(q, source, control, label);
            let nodes = lifted.work.sketch.nodes;
            &&& complete(nodes, lifted.work.sketch.edges)
            &&& q.work.sketch.nodes.submap_of(nodes)
            &&& nodes.dom().contains(end.node)
            &&& end.port == "out"@
            &&& nodes[end.node].kind is Constant || nodes[end.node].kind is Curve
                || nodes[end.node].kind is Clamp
            &&& forall|id: Text| #[trigger]
                nodes.dom().contains(id) ==> q.work.sketch.nodes.dom().contains(id) || id
                    == "floor-"@ + digits(q.row)
        }),
{
    let s = q.work.sketch;
    let floor = "floor-"@ + digits(q.row);
    let (lifted, end) = floored(q, source, control, label);
    if above_zero(control.minimum_percent) is Some && is_percentage(
        above_zero(control.minimum_percent)->0,
    ) {
        let clamp = lifted.work.sketch.nodes[floor].kind;
        assert(clamp is Clamp);
        lemma_ports_found(clamp);
        lemma_ports_found(s.nodes[source.node].kind);
        assert(joins(s.nodes[source.node].kind, "out"@, clamp, "in"@));
        lemma_link_added(
            s.nodes,
            s.edges,
            floor,
            lifted.work.sketch.nodes[floor],
            EdgeView { from: source, to: port(floor, "in"@) },
        );
    }
}

/// Nodes that were there, and nodes of the row just done, are owned once it is.
proof fn lemma_owned(before: Map<Text, NodeView>, after: Map<Text, NodeView>, row: nat)
    requires
        forall|id: Text| #[trigger]
            before.dom().contains(id) ==> in_rows(row, id) || of_name(id) || of_row(id, row),
        forall|id: Text| #[trigger]
            after.dom().contains(id) ==> before.dom().contains(id) || of_row(id, row),
    ensures
        owned(after, row + 1),
{
    assert forall|id: Text| #[trigger] after.dom().contains(id) implies in_rows(row + 1, id)
        || of_name(id) by {
        if in_rows(row, id) {
            let k = choose|k: nat| k < row && #[trigger] of_row(id, k);
            assert(k < row + 1 && of_row(id, k));
        } else if of_row(id, row) {
            assert(row < row + 1 && of_row(id, row));
        }
    }
}

proof fn lemma_built_well(
    before: Map<Text, NodeView>,
    after: Map<Text, NodeView>,
    built: Map<Text, Option<PortKey>>,
)
    requires
        built_well(before, built),
        before.submap_of(after),
    ensures
        built_well(after, built),
{
    assert forall|n: Text| #[trigger] built.dom().contains(n) implies (built[n] matches Some(r)
        ==> gives_duty(after, r)) by {
        if let Some(r) = built[n] {
            assert(gives_duty(before, r));
            assert(after.dom().contains(r.node));
        }
    }
}

proof fn lemma_curve_driven(
    p: Progress,
    control: ControlView,
    channel: Text,
    label: Text,
    name: Text,
    raw: CurveView,
    hw: HardwareView,
)
    requires
        in_order(p),
    ensures
        in_order(curve_driven(p, control, channel, label, name, raw, hw)),
{
    let (q, source) = sourced(p, control, label, name, raw, hw);
    lemma_sourced(p, control, label, name, raw, hw);
    if let Some(source) = source {
        let (lifted, end) = floored(q, source, control, label);
        let after = curve_driven(p, control, channel, label, name, raw, hw);
        let start = q.work.sketch.nodes;
        let middle = lifted.work.sketch.nodes;
        let nodes = after.work.sketch.nodes;
        lemma_names(digits(p.row));
        lemma_floored(q, source, control, label);
        lemma_attached(lifted.work, end, channel, p.row);
        assert(start.submap_of(middle));
        assert(start.submap_of(nodes));
        lemma_built_well(start, nodes, q.built);
        lemma_owned(start, nodes, p.row);
        lemma_lines_stay_whole(
            start,
            nodes,
            |id: Text| id == "floor-"@ + digits(p.row) || id == "fan-"@ + digits(p.row),
        );
    }
}

proof fn lemma_hand_driven(
    p: Progress,
    value: Scalar,
    channel: Text,
    label: Text,
)
    requires
        in_order(p),
    ensures
        in_order(hand_driven(p, Some(value), channel, label)),
{
    let s = p.work.sketch;
    let id = "manual-"@ + digits(p.row);
    let fan = "fan-"@ + digits(p.row);
    let after = hand_driven(p, Some(value), channel, label);
    lemma_names(digits(p.row));
    lemma_row_free(p, id);
    lemma_row_free(p, fan);
    if is_percentage(value) {
        let kind = KindView::Constant { value };
        let w = p.work.put(id, kind, 2, p.row);
        lemma_ports_found(kind);
        lemma_source_added(s.nodes, s.edges, id, w.sketch.nodes[id]);
        lemma_attached(w, port(id, "out"@), channel, p.row);
        assert(s.nodes.submap_of(after.work.sketch.nodes));
    }
    lemma_built_well(s.nodes, after.work.sketch.nodes, p.built);
    lemma_owned(s.nodes, after.work.sketch.nodes, p.row);
    lemma_lines_stay_whole(
        s.nodes,
        after.work.sketch.nodes,
        |other: Text| other == id || other == fan,
    );
}

proof fn lemma_controls(start: Progress, section: SectionView, hw: HardwareView, n: nat)
    requires
        n <= section.controls.len(),
        in_order(start),
    ensures
        in_order(controls_imported(start, section, hw, n)),
    decreases n,
{
    if n > 0 {
        let m = (n - 1) as nat;
        lemma_controls(start, section, hw, m);
        let p = controls_imported(start, section, hw, m);
        let control = section.controls[m as int];
        let curves = section.fan_curves;
        let label = control.label();
        if let Some(channel) = channel_for(control.identifier, hw) {
            let known = calibrated(p, control, channel);
            assert(in_order(known));
            if control.enable && !has_output(p.work.sketch, channel) {
                if control.manual_control {
                    if let Some(value) = control.manual_control_value {
                        lemma_hand_driven(known, value, channel, label);
                    }
                } else if let Some(name) = control.selected_fan_curve {
                    if let Some(raw) = curve_named(curves, name, curves.len()) {
                        lemma_curve_driven(known, control, channel, label, name, raw, hw);
                    }
                }
            }
        }
    }
}

/// An import is in order after every control, and stays so while its measurements are noted.
pub proof fn lemma_stays_in_order(
    version: Option<Text>,
    section: SectionView,
    hw: HardwareView,
    n: nat,
)
    requires
        n <= section.controls.len(),
    ensures
        in_order(controls_imported(begun(version), section, hw, n)),
        forall|control: ControlView, channel: Text|
            in_order(
                #[trigger] calibrated(
                    controls_imported(begun(version), section, hw, n),
                    control,
                    channel,
                ),
            ),
{
    let start = begun(version);
    assert(complete(start.work.sketch.nodes, start.work.sketch.edges));
    lemma_controls(start, section, hw, n);
}

/// An import that produces something unloadable is not an import: whatever the file and
/// whatever the machine, the imported graph compiles.
pub proof fn imported_graphs_compile(
    version: Option<Text>,
    section: SectionView,
    hw: HardwareView,
    g: GraphView,
)
    requires
        drawn(g, section_imported(version, section, hw).work.sketch),
    ensures
        compiles(g),
{
    let start = begun(version);
    assert(complete(start.work.sketch.nodes, start.work.sketch.edges));
    lemma_controls(start, section, hw, section.controls.len());
    complete_graphs_compile(g);
}

} // verus!
