//! Bringing a FanControl configuration across.
//!
//! A control names a channel, whether it is enabled, and which curve drives it; a curve is
//! either a straight line between two temperature/speed pairs or a fixed value.
//!
//! **The section key moved.** Older files put everything under `Main`, newer ones under
//! `FanControl`. Both are accepted, and the key that is present selects the layout.
//!
//! # The trap that shaped this module
//!
//! A fixed-speed curve stores its value in a field called `Percent`, which may hold a speed
//! in RPM. Clamping 2200 into range would produce a perfectly plausible profile that runs a
//! pump at 100 %. So a value that cannot be a duty is never clipped into one: it is turned
//! into a duty by the measurements in the same file, or refused and named in a note.
//!
//! # What cannot come across
//!
//! * **Channels on hardware this machine does not drive.**
//! * **Start and stop thresholds.** The numbers are carried into [`Calibration`].
//! * **Curve kinds beyond a line and a constant.** Named in a note, not approximated.
use crate::graph::{Graph, NodeId, PortKey, PortRef};
use crate::import::{
    calibration_views, note_views, piece_views, reaching, words, Calibration, CalibrationPoint,
    CalibrationView, Fidelity, Imported, Note, NoteView, Piece, PieceView,
};
use crate::node::{CurvePoint, KindView, NodeKind};
use crate::ordmap::OrdMap;
use crate::presets::{drawn, place, port, wire, HardwareSummary, HardwareView, SensorView, Sketch};
use crate::profile::{Profile, CURRENT_SCHEMA};
use crate::scalar::{whole, Scalar};
use crate::text::{
    begins_with, blank, chars_of, decimal, digits, index_in, is_blank, is_digit, joined, lower_char,
    ascii_lower, numbered, parts_of, read_index, same, split_parts, stands_at, text_of, texts, Text,
};
use crate::units::Quantity;
use vstd::arithmetic::power2::{lemma_pow2_pos, pow2};
use vstd::prelude::*;

verus! {

/// Where FanControl keeps its configuration, relative to its install directory.
pub const CONFIG_LEAF: &'static str = "Configurations/userConfig.json";

/// Why a configuration could not be read.
#[derive(Debug, Clone, PartialEq)]
pub enum ImportError {
    /// The file is not valid JSON.
    Malformed(String),
    /// The file has neither a `FanControl` nor a `Main` section.
    UnknownLayout,
}

impl ImportError {
    /// What to tell the person whose file this is.
    pub fn message(&self) -> (r: String)
        ensures
            r@ == match *self {
                ImportError::Malformed(reason) => "this file is not valid JSON: "@ + reason@,
                ImportError::UnknownLayout => "this does not look like a FanControl configuration: it has neither a `FanControl` nor a `Main` section"@,
            },
    {
        match self {
            ImportError::Malformed(reason) => joined(
                "this file is not valid JSON: ",
                reason.as_str(),
            ),
            ImportError::UnknownLayout => "this does not look like a FanControl configuration: it has neither a `FanControl` nor a `Main` section".to_owned(),
        }
    }
}

// --- The file --------------------------------------------------------------------------------

/// A whole file.
#[derive(Debug, Clone, PartialEq)]
pub struct Root {
    pub version: Option<String>,
    /// What newer files call `FanControl`.
    pub modern: Option<Section>,
    /// What older files call `Main`.
    pub legacy: Option<Section>,
}

/// The part of a file that says what drives what.
#[derive(Debug, Clone, PartialEq)]
pub struct Section {
    pub controls: Vec<Control>,
    pub fan_curves: Vec<RawCurve>,
}

/// A channel and what drives it.
#[derive(Debug, Clone, PartialEq)]
pub struct Control {
    pub nick_name: Option<String>,
    pub name: Option<String>,
    pub identifier: String,
    pub enable: bool,
    /// The name of the curve that drives it.
    pub selected_fan_curve: Option<String>,
    pub selected_start: Option<Scalar>,
    pub selected_stop: Option<Scalar>,
    pub minimum_percent: Option<Scalar>,
    pub manual_control_value: Option<Scalar>,
    pub manual_control: bool,
    /// Rows of duty and speed, with a trailing flag in newer files. An entry that is not a
    /// number is nothing.
    pub calibration: Vec<Vec<Option<Scalar>>>,
}

/// A curve.
#[derive(Debug, Clone, PartialEq)]
pub struct RawCurve {
    pub name: String,
    /// 0 is a line between two points; 1 is a fixed value.
    pub command_mode: i64,
    /// The identifier of the temperature it follows.
    pub selected_temp_source: Option<String>,
    pub minimum_temperature: Option<Scalar>,
    pub maximum_temperature: Option<Scalar>,
    pub minimum_fan_speed: Option<Scalar>,
    pub maximum_fan_speed: Option<Scalar>,
    pub percent: Option<Scalar>,
    pub hysteresis: Option<Hysteresis>,
}

/// How reluctantly a curve reacts.
#[derive(Debug, Clone, Copy, PartialEq)]
pub struct Hysteresis {
    pub response_time_up: Scalar,
    pub response_time_down: Scalar,
    pub value_up: Scalar,
    pub value_down: Scalar,
}

pub const MODE_LINEAR: i64 = 0;

pub const MODE_FLAT: i64 = 1;

/// What an optional string says.
pub open spec fn said(s: Option<String>) -> Option<Text> {
    match s {
        Some(s) => Some(s@),
        None => None,
    }
}

/// A control, as contracts speak of it.
#[verifier::ext_equal]
pub struct ControlView {
    pub nick_name: Option<Text>,
    pub name: Option<Text>,
    pub identifier: Text,
    pub enable: bool,
    pub selected_fan_curve: Option<Text>,
    pub selected_start: Option<Scalar>,
    pub selected_stop: Option<Scalar>,
    pub minimum_percent: Option<Scalar>,
    pub manual_control_value: Option<Scalar>,
    pub manual_control: bool,
    pub calibration: Seq<Seq<Option<Scalar>>>,
}

impl View for Control {
    type V = ControlView;

    open spec fn view(&self) -> ControlView {
        ControlView {
            nick_name: said(self.nick_name),
            name: said(self.name),
            identifier: self.identifier@,
            enable: self.enable,
            selected_fan_curve: said(self.selected_fan_curve),
            selected_start: self.selected_start,
            selected_stop: self.selected_stop,
            minimum_percent: self.minimum_percent,
            manual_control_value: self.manual_control_value,
            manual_control: self.manual_control,
            calibration: Seq::new(self.calibration@.len(), |i: int| self.calibration@[i]@),
        }
    }
}

/// A curve, as contracts speak of it.
#[verifier::ext_equal]
pub struct CurveView {
    pub name: Text,
    pub command_mode: int,
    pub selected_temp_source: Option<Text>,
    pub minimum_temperature: Option<Scalar>,
    pub maximum_temperature: Option<Scalar>,
    pub minimum_fan_speed: Option<Scalar>,
    pub maximum_fan_speed: Option<Scalar>,
    pub percent: Option<Scalar>,
    pub hysteresis: Option<Hysteresis>,
}

impl View for RawCurve {
    type V = CurveView;

    open spec fn view(&self) -> CurveView {
        CurveView {
            name: self.name@,
            command_mode: self.command_mode as int,
            selected_temp_source: said(self.selected_temp_source),
            minimum_temperature: self.minimum_temperature,
            maximum_temperature: self.maximum_temperature,
            minimum_fan_speed: self.minimum_fan_speed,
            maximum_fan_speed: self.maximum_fan_speed,
            percent: self.percent,
            hysteresis: self.hysteresis,
        }
    }
}

/// A section, as contracts speak of it.
#[verifier::ext_equal]
pub struct SectionView {
    pub controls: Seq<ControlView>,
    pub fan_curves: Seq<CurveView>,
}

impl View for Section {
    type V = SectionView;

    open spec fn view(&self) -> SectionView {
        SectionView {
            controls: Seq::new(self.controls@.len(), |i: int| self.controls@[i]@),
            fan_curves: Seq::new(self.fan_curves@.len(), |i: int| self.fan_curves@[i]@),
        }
    }
}

/// A file, as contracts speak of it.
#[verifier::ext_equal]
pub struct RootView {
    pub version: Option<Text>,
    pub modern: Option<SectionView>,
    pub legacy: Option<SectionView>,
}

impl View for Root {
    type V = RootView;

    open spec fn view(&self) -> RootView {
        RootView {
            version: said(self.version),
            modern: match self.modern {
                Some(s) => Some(s@),
                None => None,
            },
            legacy: match self.legacy {
                Some(s) => Some(s@),
                None => None,
            },
        }
    }
}

impl ControlView {
    /// What a control is called: its nickname or else its name, unless that is blank.
    pub open spec fn label(self) -> Text {
        let given = match self.nick_name {
            Some(n) => Some(n),
            None => self.name,
        };
        match given {
            Some(n) => if blank(n) {
                self.identifier
            } else {
                n
            },
            None => self.identifier,
        }
    }
}

impl Control {
    /// What this control is called: its nickname or else its name, unless that is blank.
    pub fn label(&self) -> (r: String)
        ensures
            r@ == self@.label(),
    {
        let given = match &self.nick_name {
            Some(n) => Some(n),
            None => match &self.name {
                Some(n) => Some(n),
                None => None,
            },
        };
        match given {
            Some(n) => if is_blank(n.as_str()) {
                self.identifier.clone()
            } else {
                n.clone()
            },
            None => self.identifier.clone(),
        }
    }
}

// --- Identifiers -----------------------------------------------------------------------------

/// A hardware reference, split into its parts: `/lpc/<chip>/<kind>/<index>`.
#[derive(Debug, Clone, PartialEq)]
pub struct ForeignId {
    pub chip: String,
    pub kind: String,
    pub index: usize,
}

/// A hardware reference, as contracts speak of it.
pub struct ForeignView {
    pub chip: Text,
    pub kind: Text,
    pub index: int,
}

impl View for ForeignId {
    type V = ForeignView;

    open spec fn view(&self) -> ForeignView {
        ForeignView { chip: self.chip@, kind: self.kind@, index: self.index as int }
    }
}

/// The reference that a text writes, if it writes one.
pub open spec fn foreign(raw: Text) -> Option<ForeignView> {
    let parts = parts_of(raw, '/');
    if parts.len() == 4 && parts[0] == "lpc"@ {
        match index_in(parts[3]) {
            Some(index) => Some(ForeignView { chip: parts[1], kind: parts[2], index }),
            None => None,
        }
    } else {
        None
    }
}

impl ForeignId {
    /// Reads a reference.
    pub fn parse(raw: &str) -> (r: Option<ForeignId>)
        ensures
            match r {
                Some(id) => foreign(raw@) == Some(id@),
                None => foreign(raw@) is None,
            },
    {
        let parts = split_parts(raw, '/');
        let ghost views = parts_of(raw@, '/');
        assert(texts(parts@) == views);
        assert(parts@.len() == views.len());
        if parts.len() != 4 {
            return None;
        }
        assert(views[0] == parts@[0]@);
        assert(views[1] == parts@[1]@);
        assert(views[2] == parts@[2]@);
        assert(views[3] == parts@[3]@);
        if !same(parts[0].as_str(), "lpc") {
            return None;
        }
        match read_index(parts[3].as_str()) {
            Some(index) => Some(
                ForeignId { chip: parts[1].clone(), kind: parts[2].clone(), index },
            ),
            None => None,
        }
    }
}

// --- Values ----------------------------------------------------------------------------------

/// Whether a value is a percentage.
pub open spec fn is_percentage(value: Scalar) -> bool {
    value.finite() && whole(0).at_most(value) && value.at_most(whole(100))
}

/// A percentage, or nothing. A value out of range is refused rather than clamped, because
/// clamping produces a plausible profile that runs a fan flat out.
fn duty_percent(value: Scalar) -> (r: Option<Scalar>)
    ensures
        r == if is_percentage(value) {
            Some(value)
        } else {
            None
        },
{
    if value.is_finite() && Scalar::whole(0).le(value) && value.le(Scalar::whole(100)) {
        Some(value)
    } else {
        None
    }
}

/// A setting, unless it is unset by not being above zero.
pub open spec fn above_zero(value: Option<Scalar>) -> Option<Scalar> {
    match value {
        Some(v) => if whole(0).below(v) {
            Some(v)
        } else {
            None
        },
        None => None,
    }
}

fn positive(value: Option<Scalar>) -> (r: Option<Scalar>)
    ensures
        r == above_zero(value),
{
    match value {
        Some(v) => if Scalar::whole(0).lt(v) {
            Some(v)
        } else {
            None
        },
        None => None,
    }
}

/// A setting, or zero.
pub open spec fn or_zero(value: Option<Scalar>) -> Scalar {
    match value {
        Some(v) => v,
        None => whole(0),
    }
}

fn unwrap_or_zero(value: Option<Scalar>) -> (r: Scalar)
    ensures
        r == or_zero(value),
{
    match value {
        Some(v) => v,
        None => Scalar::whole(0),
    }
}

/// The speed a fixed curve asks for, when its value cannot be a percentage.
pub open spec fn asked_speed(raw: CurveView) -> Option<Scalar> {
    if raw.command_mode != MODE_FLAT {
        None
    } else {
        match raw.percent {
            Some(value) => if value.finite() && whole(100).below(value) {
                Some(value)
            } else {
                None
            },
            None => None,
        }
    }
}

fn fixed_rpm(raw: &RawCurve) -> (r: Option<Scalar>)
    ensures
        r == asked_speed(raw@),
{
    if raw.command_mode != MODE_FLAT {
        return None;
    }
    match raw.percent {
        Some(value) => if value.is_finite() && Scalar::whole(100).lt(value) {
            Some(value)
        } else {
            None
        },
        None => None,
    }
}

/// A whole number in decimal, with its sign.
pub open spec fn signed_digits(n: int) -> Text {
    if n < 0 {
        "-"@ + digits((-n) as nat)
    } else {
        digits(n as nat)
    }
}

fn signed_decimal(n: i64) -> (r: String)
    ensures
        r@ == signed_digits(n as int),
{
    if n < 0 {
        joined("-", decimal((-(n + 1)) as u64 + 1).as_str())
    } else {
        decimal(n as u64)
    }
}

// --- Names -----------------------------------------------------------------------------------

/// A character as node ids use it: a letter or digit in lower case, or a dash.
pub open spec fn plain(c: char) -> char {
    if is_digit(c) || 'a' <= c <= 'z' || 'A' <= c <= 'Z' {
        ascii_lower(c)
    } else {
        '-'
    }
}

/// A text without the dashes it starts with.
pub open spec fn undashed_front(s: Text) -> Text
    decreases s.len(),
{
    if s.len() > 0 && s[0] == '-' {
        undashed_front(s.drop_first())
    } else {
        s
    }
}

/// A text without the dashes it ends with.
pub open spec fn undashed_back(s: Text) -> Text
    decreases s.len(),
{
    if s.len() > 0 && s.last() == '-' {
        undashed_back(s.drop_last())
    } else {
        s
    }
}

/// A name as node ids use it.
pub open spec fn sanitized(name: Text) -> Text {
    let trimmed = undashed_back(undashed_front(name.map_values(|c: char| plain(c))));
    if trimmed.len() == 0 {
        "curve"@
    } else {
        trimmed
    }
}

/// A name with a number behind it, where the name alone is taken.
pub open spec fn tagged(name: Text, row: nat) -> Text {
    sanitized(name) + "."@ + digits(row)
}

/// What the nodes of a curve are called by: its name as node ids use it. Names that differ may
/// be the same as node ids use them, so where a node is called by it already, the row that the
/// curve is built in tells the two apart.
pub open spec fn called(s: Sketch, prefix: Text, name: Text, row: nat) -> Text {
    if s.nodes.dom().contains(prefix + sanitized(name)) {
        tagged(name, row)
    } else {
        sanitized(name)
    }
}

fn plain_char(c: char) -> (r: char)
    ensures
        r == plain(c),
{
    if ('0' <= c && c <= '9') || ('a' <= c && c <= 'z') || ('A' <= c && c <= 'Z') {
        lower_char(c)
    } else {
        '-'
    }
}

/// Makes a foreign name usable in a node id.
pub fn sanitize(name: &str) -> (r: String)
    ensures
        r@ == sanitized(name@),
{
    let chars = chars_of(name);
    let n: usize = chars.len();
    let mut cleaned: Vec<char> = Vec::new();
    let ghost mapped = name@.map_values(|c: char| plain(c));
    for i in 0..n
        invariant
            n == chars@.len(),
            chars@ == name@,
            mapped == name@.map_values(|c: char| plain(c)),
            cleaned@ == mapped.take(i as int),
    {
        cleaned.push(plain_char(chars[i]));
        assert(cleaned@ =~= mapped.take(i + 1));
    }
    assert(cleaned@ =~= mapped);
    let mut from: usize = 0;
    assert(mapped.skip(0) =~= mapped);
    while from < n && cleaned[from] == '-'
        invariant
            from <= n,
            n == cleaned@.len(),
            cleaned@ == mapped,
            undashed_front(mapped) == undashed_front(mapped.skip(from as int)),
        decreases n - from,
    {
        assert(mapped.skip(from as int).drop_first() =~= mapped.skip(from + 1));
        from += 1;
    }
    let ghost fronted = undashed_front(mapped);
    assert(fronted == mapped.skip(from as int));
    let mut to: usize = n;
    assert(mapped.subrange(from as int, n as int) =~= fronted);
    while to > from && cleaned[to - 1] == '-'
        invariant
            from <= to <= n,
            n == cleaned@.len(),
            cleaned@ == mapped,
            undashed_back(fronted) == undashed_back(mapped.subrange(from as int, to as int)),
        decreases to,
    {
        assert(mapped.subrange(from as int, to as int).drop_last() =~= mapped.subrange(
            from as int,
            to - 1,
        ));
        to -= 1;
    }
    assert(undashed_back(fronted) == mapped.subrange(from as int, to as int));
    if from == to {
        "curve".to_owned()
    } else {
        text_of(&cleaned, from, to)
    }
}

fn call(graph: &Graph, prefix: &str, name: &str, row: u64, Ghost(s): Ghost<Sketch>) -> (r: String)
    requires
        drawn(graph@, s),
    ensures
        r@ == called(s, prefix@, name@, row as nat),
{
    let clean = sanitize(name);
    if graph.nodes.contains_key(&NodeId(joined(prefix, clean.as_str()))) {
        numbered(joined(clean.as_str(), ".").as_str(), row)
    } else {
        clean
    }
}

// --- Notes -----------------------------------------------------------------------------------

/// Which format was read.
pub open spec fn version_said(version: Text) -> NoteView {
    NoteView {
        fidelity: Fidelity::Exact,
        subject: "Configuration"@,
        detail: seq![
            PieceView::Words("Read a FanControl configuration, format version "@),
            PieceView::Words(version),
            PieceView::Words("."@),
        ],
    }
}

fn version_note(version: &str) -> (r: Note)
    ensures
        r@ == version_said(version@),
{
    let detail = vec![
        words("Read a FanControl configuration, format version "),
        words(version),
        words("."),
    ];
    assert(piece_views(detail@) =~= version_said(version@).detail);
    Note::new(Fidelity::Exact, "Configuration", detail)
}

/// A control that drives nothing this machine has.
pub open spec fn skip_channel_said(label: Text, identifier: Text) -> NoteView {
    NoteView {
        fidelity: Fidelity::Skipped,
        subject: label,
        detail: seq![
            PieceView::Words("Drives "@),
            PieceView::Words(identifier),
            PieceView::Words(", which is not a fan header OpenFan controls on this machine."@),
        ],
    }
}

/// A control that drives nothing this machine has.
pub fn skip_channel_note(label: &str, identifier: &str) -> (r: Note)
    ensures
        r@ == skip_channel_said(label@, identifier@),
{
    let detail = vec![
        words("Drives "),
        words(identifier),
        words(", which is not a fan header OpenFan controls on this machine."),
    ];
    assert(piece_views(detail@) =~= skip_channel_said(label@, identifier@).detail);
    Note::new(Fidelity::Skipped, label, detail)
}

/// A control that was switched off stays off.
pub open spec fn switched_off_said(label: Text) -> NoteView {
    NoteView {
        fidelity: Fidelity::Skipped,
        subject: label,
        detail: seq![
            PieceView::Words("Was turned off, so it is left to the motherboard's own fan curve here too. Nothing about this fan changes."@),
        ],
    }
}

fn switched_off_note(label: &str) -> (r: Note)
    ensures
        r@ == switched_off_said(label@),
{
    let detail = vec![
        words("Was turned off, so it is left to the motherboard's own fan curve here too. Nothing about this fan changes."),
    ];
    assert(piece_views(detail@) =~= switched_off_said(label@).detail);
    Note::new(Fidelity::Skipped, label, detail)
}

/// Manual control with nothing to control by.
pub open spec fn no_value_said(label: Text) -> NoteView {
    NoteView {
        fidelity: Fidelity::Skipped,
        subject: label,
        detail: seq![
            PieceView::Words("Was set to manual control with no value recorded."@),
        ],
    }
}

fn no_value_note(label: &str) -> (r: Note)
    ensures
        r@ == no_value_said(label@),
{
    let detail = vec![
        words("Was set to manual control with no value recorded."),
    ];
    assert(piece_views(detail@) =~= no_value_said(label@).detail);
    Note::new(Fidelity::Skipped, label, detail)
}

/// A duty set by hand.
pub open spec fn manual_said(label: Text, duty: Scalar) -> NoteView {
    NoteView {
        fidelity: Fidelity::Exact,
        subject: label,
        detail: seq![
            PieceView::Words("Fixed at "@),
            PieceView::Number(duty),
            PieceView::Words(" %, as it was set manually."@),
        ],
    }
}

fn manual_note(label: &str, duty: Scalar) -> (r: Note)
    ensures
        r@ == manual_said(label@, duty),
{
    let detail = vec![
        words("Fixed at "),
        Piece::Number(duty),
        words(" %, as it was set manually."),
    ];
    assert(piece_views(detail@) =~= manual_said(label@, duty).detail);
    Note::new(Fidelity::Exact, label, detail)
}

/// A value that is not a percentage is refused, never clamped.
pub open spec fn not_a_duty_said(subject: Text, value: Scalar) -> NoteView {
    NoteView {
        fidelity: Fidelity::NeedsAttention,
        subject: subject,
        detail: seq![
            PieceView::Words("Holds the value "@),
            PieceView::Number(value),
            PieceView::Words(", which is not a percentage. It is most likely a fixed speed in RPM, which OpenFan cannot command directly yet. Left out deliberately: treating it as a percentage would run this fan at full speed."@),
        ],
    }
}

fn not_a_duty_note(subject: &str, value: Scalar) -> (r: Note)
    ensures
        r@ == not_a_duty_said(subject@, value),
{
    let detail = vec![
        words("Holds the value "),
        Piece::Number(value),
        words(", which is not a percentage. It is most likely a fixed speed in RPM, which OpenFan cannot command directly yet. Left out deliberately: treating it as a percentage would run this fan at full speed."),
    ];
    assert(piece_views(detail@) =~= not_a_duty_said(subject@, value).detail);
    Note::new(Fidelity::NeedsAttention, subject, detail)
}

/// An enabled control with no curve.
pub open spec fn no_curve_said(label: Text) -> NoteView {
    NoteView {
        fidelity: Fidelity::Skipped,
        subject: label,
        detail: seq![
            PieceView::Words("Was enabled but had no curve selected, so there was nothing to bring across. This fan is left to the motherboard."@),
        ],
    }
}

fn no_curve_note(label: &str) -> (r: Note)
    ensures
        r@ == no_curve_said(label@),
{
    let detail = vec![
        words("Was enabled but had no curve selected, so there was nothing to bring across. This fan is left to the motherboard."),
    ];
    assert(piece_views(detail@) =~= no_curve_said(label@).detail);
    Note::new(Fidelity::Skipped, label, detail)
}

/// A control whose curve is not in the file.
pub open spec fn missing_curve_said(label: Text, name: Text) -> NoteView {
    NoteView {
        fidelity: Fidelity::Skipped,
        subject: label,
        detail: seq![
            PieceView::Words("Refers to a curve called \""@),
            PieceView::Words(name),
            PieceView::Words("\" that is not in this file."@),
        ],
    }
}

fn missing_curve_note(label: &str, name: &str) -> (r: Note)
    ensures
        r@ == missing_curve_said(label@, name@),
{
    let detail = vec![
        words("Refers to a curve called \""),
        words(name),
        words("\" that is not in this file."),
    ];
    assert(piece_views(detail@) =~= missing_curve_said(label@, name@).detail);
    Note::new(Fidelity::Skipped, label, detail)
}

/// A control whose curve could not be brought across.
pub open spec fn untranslated_said(label: Text, name: Text) -> NoteView {
    NoteView {
        fidelity: Fidelity::Skipped,
        subject: label,
        detail: seq![
            PieceView::Words("Is driven by \""@),
            PieceView::Words(name),
            PieceView::Words("\", which could not be brought across. This fan is left to the motherboard."@),
        ],
    }
}

fn untranslated_note(label: &str, name: &str) -> (r: Note)
    ensures
        r@ == untranslated_said(label@, name@),
{
    let detail = vec![
        words("Is driven by \""),
        words(name),
        words("\", which could not be brought across. This fan is left to the motherboard."),
    ];
    assert(piece_views(detail@) =~= untranslated_said(label@, name@).detail);
    Note::new(Fidelity::Skipped, label, detail)
}

/// A floor that travels with its control.
pub open spec fn floor_said(label: Text, min: Scalar) -> NoteView {
    NoteView {
        fidelity: Fidelity::Exact,
        subject: label,
        detail: seq![
            PieceView::Words("Never commanded below "@),
            PieceView::Number(min),
            PieceView::Words(" %, as before."@),
        ],
    }
}

fn floor_note(label: &str, min: Scalar) -> (r: Note)
    ensures
        r@ == floor_said(label@, min),
{
    let detail = vec![
        words("Never commanded below "),
        Piece::Number(min),
        words(" %, as before."),
    ];
    assert(piece_views(detail@) =~= floor_said(label@, min).detail);
    Note::new(Fidelity::Exact, label, detail)
}

/// A floor that is not a percentage.
pub open spec fn no_floor_said(label: Text, min: Scalar) -> NoteView {
    NoteView {
        fidelity: Fidelity::NeedsAttention,
        subject: label,
        detail: seq![
            PieceView::Words("Had a lowest duty of "@),
            PieceView::Number(min),
            PieceView::Words(", which is not a percentage. Left out deliberately: treating it as one would run this fan at full speed."@),
        ],
    }
}

fn no_floor_note(label: &str, min: Scalar) -> (r: Note)
    ensures
        r@ == no_floor_said(label@, min),
{
    let detail = vec![
        words("Had a lowest duty of "),
        Piece::Number(min),
        words(", which is not a percentage. Left out deliberately: treating it as one would run this fan at full speed."),
    ];
    assert(piece_views(detail@) =~= no_floor_said(label@, min).detail);
    Note::new(Fidelity::NeedsAttention, label, detail)
}

/// A second control on a channel.
pub open spec fn driven_already_said(label: Text) -> NoteView {
    NoteView {
        fidelity: Fidelity::Skipped,
        subject: label,
        detail: seq![
            PieceView::Words("Drives a fan that another control in this file already drives. Left out: two controls on one fan would fight over it."@),
        ],
    }
}

fn driven_already_note(label: &str) -> (r: Note)
    ensures
        r@ == driven_already_said(label@),
{
    let detail = vec![
        words("Drives a fan that another control in this file already drives. Left out: two controls on one fan would fight over it."),
    ];
    assert(piece_views(detail@) =~= driven_already_said(label@).detail);
    Note::new(Fidelity::Skipped, label, detail)
}

/// Which curve drives a control.
pub open spec fn driven_said(label: Text, name: Text) -> NoteView {
    NoteView {
        fidelity: Fidelity::Exact,
        subject: label,
        detail: seq![
            PieceView::Words("Driven by \""@),
            PieceView::Words(name),
            PieceView::Words("\"."@),
        ],
    }
}

fn driven_note(label: &str, name: &str) -> (r: Note)
    ensures
        r@ == driven_said(label@, name@),
{
    let detail = vec![
        words("Driven by \""),
        words(name),
        words("\"."),
    ];
    assert(piece_views(detail@) =~= driven_said(label@, name@).detail);
    Note::new(Fidelity::Exact, label, detail)
}

/// A fan that was allowed to stop will keep turning.
pub open spec fn stop_said(label: Text, stop: Scalar, start: Scalar) -> NoteView {
    NoteView {
        fidelity: Fidelity::NeedsAttention,
        subject: label,
        detail: seq![
            PieceView::Words("Was allowed to stop below "@),
            PieceView::Number(stop),
            PieceView::Words(" % and restarted at "@),
            PieceView::Number(start),
            PieceView::Words(" %. OpenFan has no stop-and-restart control yet, so this fan will keep turning instead of stopping. The measured speeds are kept, so nothing has to be rediscovered by running the fan down to a stall again."@),
        ],
    }
}

fn stop_note(label: &str, stop: Scalar, start: Scalar) -> (r: Note)
    ensures
        r@ == stop_said(label@, stop, start),
{
    let detail = vec![
        words("Was allowed to stop below "),
        Piece::Number(stop),
        words(" % and restarted at "),
        Piece::Number(start),
        words(" %. OpenFan has no stop-and-restart control yet, so this fan will keep turning instead of stopping. The measured speeds are kept, so nothing has to be rediscovered by running the fan down to a stall again."),
    ];
    assert(piece_views(detail@) =~= stop_said(label@, stop, start).detail);
    Note::new(Fidelity::NeedsAttention, label, detail)
}

/// A speed that the measurements do not reach.
pub open spec fn unreachable_said(label: Text, rpm: Scalar) -> NoteView {
    NoteView {
        fidelity: Fidelity::NeedsAttention,
        subject: label,
        detail: seq![
            PieceView::Words("Was held at a fixed "@),
            PieceView::Number(rpm),
            PieceView::Words(" rpm. OpenFan commands a percentage rather than a speed, and the measurements in this configuration do not say which percentage produces "@),
            PieceView::Number(rpm),
            PieceView::Words(" rpm on this fan — so it is left to the motherboard rather than given a guessed number."@),
        ],
    }
}

fn unreachable_note(label: &str, rpm: Scalar) -> (r: Note)
    ensures
        r@ == unreachable_said(label@, rpm),
{
    let detail = vec![
        words("Was held at a fixed "),
        Piece::Number(rpm),
        words(" rpm. OpenFan commands a percentage rather than a speed, and the measurements in this configuration do not say which percentage produces "),
        Piece::Number(rpm),
        words(" rpm on this fan — so it is left to the motherboard rather than given a guessed number."),
    ];
    assert(piece_views(detail@) =~= unreachable_said(label@, rpm).detail);
    Note::new(Fidelity::NeedsAttention, label, detail)
}

/// A speed turned into a duty by the fan's own measurements.
pub open spec fn converted_said(label: Text, rpm: Scalar, name: Text, rounded: Scalar) -> NoteView {
    NoteView {
        fidelity: Fidelity::NeedsAttention,
        subject: label,
        detail: seq![
            PieceView::Words("Was held at a fixed "@),
            PieceView::Number(rpm),
            PieceView::Words(" rpm by \""@),
            PieceView::Words(name),
            PieceView::Words("\", and is set to "@),
            PieceView::Number(rounded),
            PieceView::Words(" % here. OpenFan commands a percentage rather than a speed, and "@),
            PieceView::Number(rounded),
            PieceView::Words(" % is what your own measurements in that configuration give for "@),
            PieceView::Number(rpm),
            PieceView::Words(" rpm on this fan. Worth knowing: it is the percentage that is held steady now, not the speed, so nothing will compensate if this fan slows with age. Please check it: the file gives this value no unit, and if reading it as a speed is wrong, this percentage is wrong too."@),
        ],
    }
}

fn converted_note(label: &str, rpm: Scalar, name: &str, rounded: Scalar) -> (r: Note)
    ensures
        r@ == converted_said(label@, rpm, name@, rounded),
{
    let detail = vec![
        words("Was held at a fixed "),
        Piece::Number(rpm),
        words(" rpm by \""),
        words(name),
        words("\", and is set to "),
        Piece::Number(rounded),
        words(" % here. OpenFan commands a percentage rather than a speed, and "),
        Piece::Number(rounded),
        words(" % is what your own measurements in that configuration give for "),
        Piece::Number(rpm),
        words(" rpm on this fan. Worth knowing: it is the percentage that is held steady now, not the speed, so nothing will compensate if this fan slows with age. Please check it: the file gives this value no unit, and if reading it as a speed is wrong, this percentage is wrong too."),
    ];
    assert(piece_views(detail@) =~= converted_said(label@, rpm, name@, rounded).detail);
    Note::new(Fidelity::NeedsAttention, label, detail)
}

/// A curve that is one duty.
pub open spec fn fixed_said(name: Text, duty: Scalar) -> NoteView {
    NoteView {
        fidelity: Fidelity::Exact,
        subject: name,
        detail: seq![
            PieceView::Words("A fixed "@),
            PieceView::Number(duty),
            PieceView::Words(" %."@),
        ],
    }
}

fn fixed_note(name: &str, duty: Scalar) -> (r: Note)
    ensures
        r@ == fixed_said(name@, duty),
{
    let detail = vec![
        words("A fixed "),
        Piece::Number(duty),
        words(" %."),
    ];
    assert(piece_views(detail@) =~= fixed_said(name@, duty).detail);
    Note::new(Fidelity::Exact, name, detail)
}

/// A line that does not rise is not guessed at.
pub open spec fn not_rising_said(name: Text, from: Scalar, to: Scalar) -> NoteView {
    NoteView {
        fidelity: Fidelity::Skipped,
        subject: name,
        detail: seq![
            PieceView::Words("Runs from "@),
            PieceView::Number(from),
            PieceView::Words(" °C to "@),
            PieceView::Number(to),
            PieceView::Words(" °C, which is not a rising range. Refusing to guess what was meant."@),
        ],
    }
}

fn not_rising_note(name: &str, from: Scalar, to: Scalar) -> (r: Note)
    ensures
        r@ == not_rising_said(name@, from, to),
{
    let detail = vec![
        words("Runs from "),
        Piece::Number(from),
        words(" °C to "),
        Piece::Number(to),
        words(" °C, which is not a rising range. Refusing to guess what was meant."),
    ];
    assert(piece_views(detail@) =~= not_rising_said(name@, from, to).detail);
    Note::new(Fidelity::Skipped, name, detail)
}

/// One band where there were two: the wider.
pub open spec fn band_said(name: Text, band: Scalar, up: Scalar, down: Scalar) -> NoteView {
    NoteView {
        fidelity: Fidelity::Approximated,
        subject: name,
        detail: seq![
            PieceView::Words("Held steady until the temperature moves "@),
            PieceView::Number(band),
            PieceView::Words(" °C. The original had separate rising and falling bands ("@),
            PieceView::Number(up),
            PieceView::Words(" and "@),
            PieceView::Number(down),
            PieceView::Words("); the wider one is used."@),
        ],
    }
}

fn band_note(name: &str, band: Scalar, up: Scalar, down: Scalar) -> (r: Note)
    ensures
        r@ == band_said(name@, band, up, down),
{
    let detail = vec![
        words("Held steady until the temperature moves "),
        Piece::Number(band),
        words(" °C. The original had separate rising and falling bands ("),
        Piece::Number(up),
        words(" and "),
        Piece::Number(down),
        words("); the wider one is used."),
    ];
    assert(piece_views(detail@) =~= band_said(name@, band, up, down).detail);
    Note::new(Fidelity::Approximated, name, detail)
}

/// One response time where there were two: the quicker.
pub open spec fn response_said(name: Text, response: Scalar, up: Scalar, down: Scalar) -> NoteView {
    NoteView {
        fidelity: Fidelity::Approximated,
        subject: name,
        detail: seq![
            PieceView::Words("Smoothed over "@),
            PieceView::Number(response),
            PieceView::Words(" s. The original had separate rising and falling response times ("@),
            PieceView::Number(up),
            PieceView::Words(" s and "@),
            PieceView::Number(down),
            PieceView::Words(" s); the quicker one is used, so this never reacts more slowly than it did."@),
        ],
    }
}

fn response_note(name: &str, response: Scalar, up: Scalar, down: Scalar) -> (r: Note)
    ensures
        r@ == response_said(name@, response, up, down),
{
    let detail = vec![
        words("Smoothed over "),
        Piece::Number(response),
        words(" s. The original had separate rising and falling response times ("),
        Piece::Number(up),
        words(" s and "),
        Piece::Number(down),
        words(" s); the quicker one is used, so this never reacts more slowly than it did."),
    ];
    assert(piece_views(detail@) =~= response_said(name@, response, up, down).detail);
    Note::new(Fidelity::Approximated, name, detail)
}

/// A line between two points.
pub open spec fn line_said(name: Text, low: Scalar, from: Scalar, high: Scalar, to: Scalar) -> NoteView {
    NoteView {
        fidelity: Fidelity::Exact,
        subject: name,
        detail: seq![
            PieceView::Number(low),
            PieceView::Words(" % at "@),
            PieceView::Number(from),
            PieceView::Words(" °C rising to "@),
            PieceView::Number(high),
            PieceView::Words(" % at "@),
            PieceView::Number(to),
            PieceView::Words(" °C."@),
        ],
    }
}

fn line_note(name: &str, low: Scalar, from: Scalar, high: Scalar, to: Scalar) -> (r: Note)
    ensures
        r@ == line_said(name@, low, from, high, to),
{
    let detail = vec![
        Piece::Number(low),
        words(" % at "),
        Piece::Number(from),
        words(" °C rising to "),
        Piece::Number(high),
        words(" % at "),
        Piece::Number(to),
        words(" °C."),
    ];
    assert(piece_views(detail@) =~= line_said(name@, low, from, high, to).detail);
    Note::new(Fidelity::Exact, name, detail)
}

/// A kind of curve there is no model for.
pub open spec fn unknown_mode_said(name: Text, mode: int) -> NoteView {
    NoteView {
        fidelity: Fidelity::Skipped,
        subject: name,
        detail: seq![
            PieceView::Words("Is a kind of curve OpenFan does not model yet (mode "@),
            PieceView::Words(signed_digits(mode)),
            PieceView::Words("). It is left out rather than approximated — guessing at the shape of a fan curve is not something this should do on its own."@),
        ],
    }
}

fn unknown_mode_note(name: &str, mode: i64) -> (r: Note)
    ensures
        r@ == unknown_mode_said(name@, mode as int),
{
    let detail = vec![
        words("Is a kind of curve OpenFan does not model yet (mode "),
        Piece::Words(signed_decimal(mode)),
        words("). It is left out rather than approximated — guessing at the shape of a fan curve is not something this should do on its own."),
    ];
    assert(piece_views(detail@) =~= unknown_mode_said(name@, mode as int).detail);
    Note::new(Fidelity::Skipped, name, detail)
}

/// A source that is not a sensor.
pub open spec fn not_a_sensor_said(subject: Text, identifier: Text) -> NoteView {
    NoteView {
        fidelity: Fidelity::Skipped,
        subject: subject,
        detail: seq![
            PieceView::Words("Follows "@),
            PieceView::Words(identifier),
            PieceView::Words(", which is not a sensor OpenFan reads."@),
        ],
    }
}

fn not_a_sensor_note(subject: &str, identifier: &str) -> (r: Note)
    ensures
        r@ == not_a_sensor_said(subject@, identifier@),
{
    let detail = vec![
        words("Follows "),
        words(identifier),
        words(", which is not a sensor OpenFan reads."),
    ];
    assert(piece_views(detail@) =~= not_a_sensor_said(subject@, identifier@).detail);
    Note::new(Fidelity::Skipped, subject, detail)
}

/// A source that is not a temperature.
pub open spec fn not_a_temperature_said(subject: Text, identifier: Text) -> NoteView {
    NoteView {
        fidelity: Fidelity::Skipped,
        subject: subject,
        detail: seq![
            PieceView::Words("Follows "@),
            PieceView::Words(identifier),
            PieceView::Words(", which is not a temperature."@),
        ],
    }
}

fn not_a_temperature_note(subject: &str, identifier: &str) -> (r: Note)
    ensures
        r@ == not_a_temperature_said(subject@, identifier@),
{
    let detail = vec![
        words("Follows "),
        words(identifier),
        words(", which is not a temperature."),
    ];
    assert(piece_views(detail@) =~= not_a_temperature_said(subject@, identifier@).detail);
    Note::new(Fidelity::Skipped, subject, detail)
}

/// A temperature the machine does not have.
pub open spec fn too_few_said(subject: Text, identifier: Text, chip: Text) -> NoteView {
    NoteView {
        fidelity: Fidelity::Skipped,
        subject: subject,
        detail: seq![
            PieceView::Words("Follows "@),
            PieceView::Words(identifier),
            PieceView::Words(", and this machine does not report that many temperatures on "@),
            PieceView::Words(chip),
            PieceView::Words(". The curve is left out rather than pointed at a different sensor."@),
        ],
    }
}

fn too_few_note(subject: &str, identifier: &str, chip: &str) -> (r: Note)
    ensures
        r@ == too_few_said(subject@, identifier@, chip@),
{
    let detail = vec![
        words("Follows "),
        words(identifier),
        words(", and this machine does not report that many temperatures on "),
        words(chip),
        words(". The curve is left out rather than pointed at a different sensor."),
    ];
    assert(piece_views(detail@) =~= too_few_said(subject@, identifier@, chip@).detail);
    Note::new(Fidelity::Skipped, subject, detail)
}

/// A temperature that a person has to check.
pub open spec fn follows_said(subject: Text, label: Text, identifier: Text) -> NoteView {
    NoteView {
        fidelity: Fidelity::NeedsAttention,
        subject: subject,
        detail: seq![
            PieceView::Words("Now follows "@),
            PieceView::Words(label),
            PieceView::Words(". The original named its temperature by position ("@),
            PieceView::Words(identifier),
            PieceView::Words(") and OpenFan names sensors by what they measure, so the two cannot be matched up with certainty — please check this is the temperature you meant before relying on it."@),
        ],
    }
}

fn follows_note(subject: &str, label: &str, identifier: &str) -> (r: Note)
    ensures
        r@ == follows_said(subject@, label@, identifier@),
{
    let detail = vec![
        words("Now follows "),
        words(label),
        words(". The original named its temperature by position ("),
        words(identifier),
        words(") and OpenFan names sensors by what they measure, so the two cannot be matched up with certainty — please check this is the temperature you meant before relying on it."),
    ];
    assert(piece_views(detail@) =~= follows_said(subject@, label@, identifier@).detail);
    Note::new(Fidelity::NeedsAttention, subject, detail)
}

// --- Finding hardware ------------------------------------------------------------------------

/// Whether the machine has a channel.
pub open spec fn has_channel(hw: HardwareView, id: Text) -> bool {
    exists|i: int| 0 <= i < hw.channels.len() && (#[trigger] hw.channels[i]).id == id
}

/// The channel that a control's identifier means on this machine, if it has it: their
/// `control/N` is `pwm/N` on the same chip.
pub open spec fn channel_for(identifier: Text, hw: HardwareView) -> Option<Text> {
    match foreign(identifier) {
        Some(id) => {
            let candidate = id.chip + "/pwm/"@ + digits(id.index as nat);
            if id.kind == "control"@ && has_channel(hw, candidate) {
                Some(candidate)
            } else {
                None
            }
        },
        None => None,
    }
}

fn resolve_channel(identifier: &str, hw: &HardwareSummary) -> (r: Option<String>)
    ensures
        said(r) == channel_for(identifier@, hw@),
{
    let id = match ForeignId::parse(identifier) {
        Some(id) => id,
        None => {
            return None;
        },
    };
    if !same(id.kind.as_str(), "control") {
        return None;
    }
    let candidate = joined(
        joined(id.chip.as_str(), "/pwm/").as_str(),
        decimal(id.index as u64).as_str(),
    );
    let n: usize = hw.channels.len();
    for i in 0..n
        invariant
            n == hw.channels@.len(),
            foreign(identifier@) == Some(id@),
            id@.kind == "control"@,
            candidate@ == id@.chip + "/pwm/"@ + digits(id@.index as nat),
            forall|k: int| 0 <= k < i ==> (#[trigger] hw@.channels[k]).id != candidate@,
    {
        assert(hw@.channels[i as int] == hw.channels@[i as int]@);
        if same(hw.channels[i].id.as_str(), candidate.as_str()) {
            return Some(candidate);
        }
    }
    None
}

/// Whether a sensor is a temperature of a chip.
pub open spec fn is_temperature_of(s: SensorView, chip: Text) -> bool {
    s.quantity == Quantity::Temperature && stands_at(s.id, chip + "/temp/"@, 0)
}

/// The temperature of a chip that has `index` others before it, from position `i` on.
pub open spec fn nth_temperature(
    sensors: Seq<SensorView>,
    chip: Text,
    index: int,
    i: int,
) -> Option<SensorView>
    decreases sensors.len() - i,
{
    if i >= sensors.len() {
        None
    } else if is_temperature_of(sensors[i], chip) {
        if index == 0 {
            Some(sensors[i])
        } else {
            nth_temperature(sensors, chip, index - 1, i + 1)
        }
    } else {
        nth_temperature(sensors, chip, index, i + 1)
    }
}

/// The temperature that an identifier means on this machine, and what is said about it.
///
/// Their temperatures are numbered by position, ours are keyed by what the input measures.
/// There is no faithful translation, so the chip's Nth temperature is taken and a person is
/// asked to check it.
pub open spec fn temperature_for(identifier: Text, hw: HardwareView, subject: Text) -> (
    Option<Text>,
    NoteView,
) {
    match foreign(identifier) {
        None => (None, not_a_sensor_said(subject, identifier)),
        Some(id) => if id.kind != "temperature"@ {
            (None, not_a_temperature_said(subject, identifier))
        } else {
            match nth_temperature(hw.sensors, id.chip, id.index, 0) {
                None => (None, too_few_said(subject, identifier, id.chip)),
                Some(s) => (Some(s.id), follows_said(subject, s.label, identifier)),
            }
        },
    }
}

fn find_temperature<'a>(hw: &'a HardwareSummary, chip: &str, index: usize) -> (r: Option<usize>)
    ensures
        match r {
            Some(i) => i < hw.sensors@.len() && nth_temperature(
                hw@.sensors,
                chip@,
                index as int,
                0,
            ) == Some(hw.sensors@[i as int]@),
            None => nth_temperature(hw@.sensors, chip@, index as int, 0) is None,
        },
{
    let prefix = joined(chip, "/temp/");
    let n: usize = hw.sensors.len();
    let mut left: usize = index;
    for i in 0..n
        invariant
            n == hw.sensors@.len(),
            prefix@ == chip@ + "/temp/"@,
            nth_temperature(hw@.sensors, chip@, index as int, 0) == nth_temperature(
                hw@.sensors,
                chip@,
                left as int,
                i as int,
            ),
    {
        assert(hw@.sensors[i as int] == hw.sensors@[i as int]@);
        if hw.sensors[i].quantity == Quantity::Temperature && begins_with(
            hw.sensors[i].id.as_str(),
            prefix.as_str(),
        ) {
            if left == 0 {
                return Some(i);
            }
            left -= 1;
        }
    }
    None
}

/// Appends a note.
fn tell(notes: &mut Vec<Note>, note: Note)
    ensures
        note_views(final(notes)@) == note_views(old(notes)@).push(note@),
{
    let ghost before = note_views(notes@);
    notes.push(note);
    assert(note_views(notes@) =~= before.push(note@));
}

fn resolve_temperature(
    identifier: &str,
    hw: &HardwareSummary,
    subject: &str,
    notes: &mut Vec<Note>,
) -> (r: Option<String>)
    ensures
        said(r) == temperature_for(identifier@, hw@, subject@).0,
        note_views(final(notes)@) == note_views(old(notes)@).push(
            temperature_for(identifier@, hw@, subject@).1,
        ),
{
    let id = match ForeignId::parse(identifier) {
        Some(id) => id,
        None => {
            tell(notes, not_a_sensor_note(subject, identifier));
            return None;
        },
    };
    if !same(id.kind.as_str(), "temperature") {
        tell(notes, not_a_temperature_note(subject, identifier));
        return None;
    }
    match find_temperature(hw, id.chip.as_str(), id.index) {
        None => {
            tell(notes, too_few_note(subject, identifier, id.chip.as_str()));
            None
        },
        Some(i) => {
            tell(notes, follows_note(subject, hw.sensors[i].label.as_str(), identifier));
            Some(hw.sensors[i].id.clone())
        },
    }
}

// --- Measurements ----------------------------------------------------------------------------

/// The measurement in a row: a duty and a speed, if both are there and make sense.
pub open spec fn row_point(row: Seq<Option<Scalar>>) -> Option<CalibrationPoint> {
    if row.len() >= 2 && row[0] is Some && row[1] is Some && row[1]->0.finite() && is_percentage(
        row[0]->0,
    ) {
        Some(CalibrationPoint { duty_percent: row[0]->0, rpm: row[1]->0 })
    } else {
        None
    }
}

/// Measurements with one more among them, after those that do not come later.
pub open spec fn put_by_duty(points: Seq<CalibrationPoint>, p: CalibrationPoint) -> Seq<
    CalibrationPoint,
>
    decreases points.len(),
{
    if points.len() > 0 && p.duty_percent.precedes(points.last().duty_percent) {
        put_by_duty(points.drop_last(), p).push(points.last())
    } else {
        points.push(p)
    }
}

/// The measurements in the first `n` rows, ascending by duty; of equal ones the earlier
/// first.
pub open spec fn measured_points(rows: Seq<Seq<Option<Scalar>>>, n: nat) -> Seq<CalibrationPoint>
    decreases n,
{
    if n == 0 {
        Seq::empty()
    } else {
        let before = measured_points(rows, (n - 1) as nat);
        match row_point(rows[n - 1]) {
            Some(p) => put_by_duty(before, p),
            None => before,
        }
    }
}

/// What was measured about the fan of a control, if anything was.
pub open spec fn measured(control: ControlView, channel: Text, label: Text) -> Option<
    CalibrationView,
> {
    let points = measured_points(control.calibration, control.calibration.len());
    if points.len() == 0 {
        None
    } else {
        Some(
            CalibrationView {
                channel,
                label,
                points,
                start_percent: above_zero(control.selected_start),
                stop_percent: above_zero(control.selected_stop),
                minimum_percent: above_zero(control.minimum_percent),
            },
        )
    }
}

proof fn lemma_put_by_duty(points: Seq<CalibrationPoint>, p: CalibrationPoint, j: int)
    requires
        0 <= j <= points.len(),
        forall|k: int|
            j <= k < points.len() ==> p.duty_percent.precedes((#[trigger] points[k]).duty_percent),
        j > 0 ==> !p.duty_percent.precedes(points[j - 1].duty_percent),
    ensures
        put_by_duty(points, p) == points.insert(j, p),
    decreases points.len(),
{
    if j < points.len() {
        assert forall|k: int| j <= k < points.drop_last().len() implies p.duty_percent.precedes(
            (#[trigger] points.drop_last()[k]).duty_percent,
        ) by {
            assert(points.drop_last()[k] == points[k]);
        }
        lemma_put_by_duty(points.drop_last(), p, j);
        assert(points.drop_last().insert(j, p).push(points.last()) =~= points.insert(j, p));
    } else {
        assert(points.push(p) =~= points.insert(j, p));
    }
}

fn insert_by_duty(points: &mut Vec<CalibrationPoint>, p: CalibrationPoint)
    ensures
        final(points)@ == put_by_duty(old(points)@, p),
{
    let mut j: usize = points.len();
    while j > 0 && p.duty_percent.comes_before(points[j - 1].duty_percent)
        invariant
            j <= points@.len(),
            points@ == old(points)@,
            forall|k: int|
                j <= k < points@.len() ==> p.duty_percent.precedes(
                    (#[trigger] points@[k]).duty_percent,
                ),
        decreases j,
    {
        j -= 1;
    }
    proof {
        lemma_put_by_duty(points@, p, j as int);
    }
    points.insert(j, p);
}

fn read_row(row: &Vec<Option<Scalar>>) -> (r: Option<CalibrationPoint>)
    ensures
        r == row_point(row@),
{
    if row.len() < 2 {
        return None;
    }
    match (row[0], row[1]) {
        (Some(duty), Some(rpm)) => if rpm.is_finite() && duty_percent(duty).is_some() {
            Some(CalibrationPoint { duty_percent: duty, rpm })
        } else {
            None
        },
        _ => None,
    }
}

/// Pulls the measured duty/speed table out of a control.
fn read_calibration(control: &Control, channel: &str, label: &str) -> (r: Option<Calibration>)
    ensures
        match r {
            Some(c) => measured(control@, channel@, label@) == Some(c@),
            None => measured(control@, channel@, label@) is None,
        },
{
    let mut points: Vec<CalibrationPoint> = Vec::new();
    let n: usize = control.calibration.len();
    for i in 0..n
        invariant
            n == control.calibration@.len(),
            points@ == measured_points(control@.calibration, i as nat),
    {
        assert(control@.calibration[i as int] == control.calibration@[i as int]@);
        if let Some(p) = read_row(&control.calibration[i]) {
            insert_by_duty(&mut points, p);
        }
    }
    if points.len() == 0 {
        return None;
    }
    Some(
        Calibration {
            channel: channel.to_owned(),
            label: label.to_owned(),
            points,
            start_percent: positive(control.selected_start),
            stop_percent: positive(control.selected_stop),
            minimum_percent: positive(control.minimum_percent),
        },
    )
}

// --- Curves ----------------------------------------------------------------------------------

/// A graph under construction, and what has been said about it.
#[verifier::ext_equal]
pub struct Work {
    pub sketch: Sketch,
    pub notes: Seq<NoteView>,
}

impl Work {
    /// With one more thing said.
    pub open spec fn tell(self, note: NoteView) -> Work {
        Work { notes: self.notes.push(note), ..self }
    }

    /// With a node.
    pub open spec fn put(self, id: Text, kind: KindView, column: nat, row: nat) -> Work {
        Work { sketch: self.sketch.put(id, kind, column, row), ..self }
    }

    /// With a connection.
    pub open spec fn wire(self, from: PortKey, to: PortKey) -> Work {
        Work { sketch: self.sketch.wire(from, to), ..self }
    }

    /// Whether a graph and some notes are this.
    pub open spec fn shown(self, graph: Graph, notes: Seq<Note>) -> bool {
        drawn(graph@, self.sketch) && note_views(notes) == self.notes
    }
}

/// What an optional port says.
pub open spec fn port_said(p: Option<PortRef>) -> Option<PortKey> {
    match p {
        Some(p) => Some(p@),
        None => None,
    }
}

/// A duty wired into a channel.
pub open spec fn attached(w: Work, source: PortKey, channel: Text, row: nat) -> Work {
    w.put("fan-"@ + digits(row), KindView::FanOutput { channel }, 4, row).wire(
        source,
        port("fan-"@ + digits(row), "duty"@),
    )
}

/// Adds a node.
fn put(graph: &mut Graph, id: &str, kind: NodeKind, column: u64, row: u64, Ghost(s): Ghost<Sketch>)
    requires
        drawn(old(graph)@, s),
    ensures
        drawn(final(graph)@, s.put(id@, kind@, column as nat, row as nat)),
{
    place(graph, id, kind, column, row);
}

/// Adds a connection.
fn link(graph: &mut Graph, from: &PortRef, node: &str, key: &str, Ghost(s): Ghost<Sketch>)
    requires
        drawn(old(graph)@, s),
    ensures
        drawn(final(graph)@, s.wire(from@, port(node@, key@))),
{
    wire(graph, from, PortRef::new(node, key));
}

/// Wires a duty source into a channel.
fn attach(
    graph: &mut Graph,
    source: &PortRef,
    channel: &str,
    row: u64,
    notes: &Vec<Note>,
    Ghost(w): Ghost<Work>,
)
    requires
        w.shown(*old(graph), notes@),
    ensures
        attached(w, source@, channel@, row as nat).shown(*final(graph), notes@),
{
    let id = numbered("fan-", row);
    let kind = NodeKind::FanOutput { channel: channel.to_owned() };
    let ghost s = w.sketch.put(id@, kind@, 4, row as nat);
    put(graph, id.as_str(), kind, 4, row, Ghost(w.sketch));
    link(graph, source, id.as_str(), "duty", Ghost(s));
}

/// A fixed curve.
pub open spec fn flat_built(w: Work, raw: CurveView, value: Scalar, row: nat) -> (
    Work,
    Option<PortKey>,
) {
    if is_percentage(value) {
        let id = "curve-"@ + called(w.sketch, "curve-"@, raw.name, row);
        (
            w.put(id, KindView::Constant { value }, 2, row).tell(fixed_said(raw.name, value)),
            Some(port(id, "out"@)),
        )
    } else {
        (w.tell(not_a_duty_said(raw.name, value)), None)
    }
}

/// The work so far, where its value comes out, and the next free column.
#[verifier::ext_equal]
pub struct Tip {
    pub work: Work,
    pub port: PortKey,
    pub column: nat,
}

impl Tip {
    /// With one more node behind it.
    pub open spec fn extended(self, id: Text, kind: KindView, row: nat, note: NoteView) -> Tip {
        Tip {
            work: self.work.put(id, kind, self.column, row).wire(self.port, port(id, "in"@)).tell(
                note,
            ),
            port: port(id, "out"@),
            column: self.column + 1,
        }
    }
}

/// One band where the file has two. The wider holds the fan steady across at least as much
/// movement as was asked for.
pub open spec fn held(t: Tip, name: Text, tag: Text, h: Hysteresis, row: nat) -> Tip {
    let band = h.value_up.larger(h.value_down);
    if whole(0).below(band) {
        t.extended(
            "hold-"@ + tag,
            KindView::Hold { band },
            row,
            band_said(name, band, h.value_up, h.value_down),
        )
    } else {
        t
    }
}

/// One response time where the file has two. The shorter responds no later than was
/// configured.
pub open spec fn eased(t: Tip, name: Text, tag: Text, h: Hysteresis, row: nat) -> Tip {
    let response = h.response_time_up.smaller(h.response_time_down);
    if whole(0).below(response) {
        t.extended(
            "smooth-"@ + tag,
            KindView::LowPass { tau_seconds: response },
            row,
            response_said(name, response, h.response_time_up, h.response_time_down),
        )
    } else {
        t
    }
}

/// The start of a line: its sensor, and what damps it.
pub open spec fn line_source(w: Work, raw: CurveView, tag: Text, sensor: Text, row: nat) -> Tip {
    let id = "temp-"@ + tag;
    let start = Tip {
        work: w.put(
            id,
            KindView::Sensor { sensor_id: sensor, quantity: Quantity::Temperature },
            0,
            row,
        ),
        port: port(id, "out"@),
        column: 1,
    };
    match raw.hysteresis {
        Some(h) => eased(held(start, raw.name, tag, h, row), raw.name, tag, h, row),
        None => start,
    }
}

/// A line between two points behind its source.
pub open spec fn line_ended(
    t: Tip,
    name: Text,
    tag: Text,
    from: CurvePoint,
    to: CurvePoint,
    row: nat,
) -> (Work, Option<PortKey>) {
    let id = "line-"@ + tag;
    let column = if t.column < 2 {
        2
    } else {
        t.column
    };
    (
        t.work.put(id, KindView::Curve { points: seq![from, to] }, column, row).wire(
            t.port,
            port(id, "in"@),
        ).tell(line_said(name, from.y, from.x, to.y, to.x)),
        Some(port(id, "out"@)),
    )
}

/// A line between two temperature/speed pairs, if it makes sense and its temperature can be
/// found.
pub open spec fn line_built(
    w: Work,
    raw: CurveView,
    hw: HardwareView,
    row: nat,
    from: CurvePoint,
    to: CurvePoint,
) -> (Work, Option<PortKey>) {
    if to.x.at_most(from.x) {
        (w.tell(not_rising_said(raw.name, from.x, to.x)), None)
    } else if !is_percentage(from.y) || !is_percentage(to.y) {
        (w.tell(not_a_duty_said(raw.name, from.y.larger(to.y))), None)
    } else {
        match raw.selected_temp_source {
            None => (w, None),
            Some(identifier) => {
                let (sensor, note) = temperature_for(identifier, hw, raw.name);
                let tag = called(w.sketch, "line-"@, raw.name, row);
                match sensor {
                    None => (w.tell(note), None),
                    Some(sensor) => line_ended(
                        line_source(w.tell(note), raw, tag, sensor, row),
                        raw.name,
                        tag,
                        from,
                        to,
                        row,
                    ),
                }
            },
        }
    }
}

/// The nodes for one curve, and where its duty comes out if it could be brought across.
pub open spec fn curve_built(w: Work, raw: CurveView, hw: HardwareView, row: nat) -> (
    Work,
    Option<PortKey>,
) {
    if raw.command_mode == MODE_FLAT {
        match raw.percent {
            Some(value) => flat_built(w, raw, value, row),
            None => (w, None),
        }
    } else if raw.command_mode == MODE_LINEAR {
        match (
            raw.minimum_temperature,
            raw.maximum_temperature,
            raw.minimum_fan_speed,
            raw.maximum_fan_speed,
        ) {
            (Some(min_t), Some(max_t), Some(min_s), Some(max_s)) => line_built(
                w,
                raw,
                hw,
                row,
                CurvePoint { x: min_t, y: min_s },
                CurvePoint { x: max_t, y: max_s },
            ),
            _ => (w, None),
        }
    } else {
        (w.tell(unknown_mode_said(raw.name, raw.command_mode)), None)
    }
}

fn flat_curve(
    graph: &mut Graph,
    raw: &RawCurve,
    value: Scalar,
    notes: &mut Vec<Note>,
    row: u64,
    Ghost(w): Ghost<Work>,
) -> (r: Option<PortRef>)
    requires
        w.shown(*old(graph), old(notes)@),
    ensures
        flat_built(w, raw@, value, row as nat).0.shown(*final(graph), final(notes)@),
        port_said(r) == flat_built(w, raw@, value, row as nat).1,
{
    match duty_percent(value) {
        Some(duty) => {
            let name = call(graph, "curve-", raw.name.as_str(), row, Ghost(w.sketch));
            let id = joined("curve-", name.as_str());
            put(graph, id.as_str(), NodeKind::Constant { value: duty }, 2, row, Ghost(w.sketch));
            tell(notes, fixed_note(raw.name.as_str(), duty));
            Some(PortRef::new(id.as_str(), "out"))
        },
        None => {
            tell(notes, not_a_duty_note(raw.name.as_str(), value));
            None
        },
    }
}

/// Adds a node behind the tip.
fn extend(
    graph: &mut Graph,
    from: &PortRef,
    id: &str,
    kind: NodeKind,
    column: u64,
    row: u64,
    notes: &mut Vec<Note>,
    note: Note,
    Ghost(t): Ghost<Tip>,
) -> (r: PortRef)
    requires
        t.work.shown(*old(graph), old(notes)@),
        t.port == from@,
        t.column == column,
    ensures
        t.extended(id@, kind@, row as nat, note@).work.shown(*final(graph), final(notes)@),
        r@ == t.extended(id@, kind@, row as nat, note@).port,
{
    let ghost s = t.work.sketch.put(id@, kind@, column as nat, row as nat);
    put(graph, id, kind, column, row, Ghost(t.work.sketch));
    link(graph, from, id, "in", Ghost(s));
    tell(notes, note);
    PortRef::new(id, "out")
}

fn line_start(
    graph: &mut Graph,
    raw: &RawCurve,
    name: &str,
    sensor: String,
    notes: &mut Vec<Note>,
    row: u64,
    Ghost(w): Ghost<Work>,
) -> (r: (PortRef, u64))
    requires
        w.shown(*old(graph), old(notes)@),
    ensures
        line_source(w, raw@, name@, sensor@, row as nat).work.shown(*final(graph), final(notes)@),
        line_source(w, raw@, name@, sensor@, row as nat).port == r.0@,
        line_source(w, raw@, name@, sensor@, row as nat).column == r.1,
        r.1 <= 3,
{
    let id = joined("temp-", name);
    let kind = NodeKind::Sensor { sensor_id: sensor, quantity: Quantity::Temperature };
    let ghost mut t = Tip {
        work: w.put(id@, kind@, 0, row as nat),
        port: port(id@, "out"@),
        column: 1,
    };
    put(graph, id.as_str(), kind, 0, row, Ghost(w.sketch));
    let mut tip = PortRef::new(id.as_str(), "out");
    let mut column: u64 = 1;
    if let Some(h) = raw.hysteresis {
        let ghost before = t;
        let band = h.value_up.max(h.value_down);
        if Scalar::whole(0).lt(band) {
            let hold = joined("hold-", name);
            let note = band_note(raw.name.as_str(), band, h.value_up, h.value_down);
            tip = extend(
                graph,
                &tip,
                hold.as_str(),
                NodeKind::Hold { band },
                column,
                row,
                notes,
                note,
                Ghost(t),
            );
            column += 1;
            proof {
                t = held(t, raw@.name, name@, h, row as nat);
            }
        }
        assert(t == held(before, raw@.name, name@, h, row as nat));
        let response = h.response_time_up.min(h.response_time_down);
        let ghost between = t;
        if Scalar::whole(0).lt(response) {
            let smooth = joined("smooth-", name);
            let note = response_note(
                raw.name.as_str(),
                response,
                h.response_time_up,
                h.response_time_down,
            );
            tip = extend(
                graph,
                &tip,
                smooth.as_str(),
                NodeKind::LowPass { tau_seconds: response },
                column,
                row,
                notes,
                note,
                Ghost(t),
            );
            column += 1;
            proof {
                t = eased(t, raw@.name, name@, h, row as nat);
            }
        }
        assert(t == eased(between, raw@.name, name@, h, row as nat));
    }
    (tip, column)
}

fn line_curve(
    graph: &mut Graph,
    raw: &RawCurve,
    hw: &HardwareSummary,
    notes: &mut Vec<Note>,
    row: u64,
    from: CurvePoint,
    to: CurvePoint,
    Ghost(w): Ghost<Work>,
) -> (r: Option<PortRef>)
    requires
        w.shown(*old(graph), old(notes)@),
    ensures
        line_built(w, raw@, hw@, row as nat, from, to).0.shown(*final(graph), final(notes)@),
        port_said(r) == line_built(w, raw@, hw@, row as nat, from, to).1,
{
    if to.x.le(from.x) {
        tell(notes, not_rising_note(raw.name.as_str(), from.x, to.x));
        return None;
    }
    if duty_percent(from.y).is_none() || duty_percent(to.y).is_none() {
        tell(notes, not_a_duty_note(raw.name.as_str(), from.y.max(to.y)));
        return None;
    }
    let identifier = match &raw.selected_temp_source {
        Some(identifier) => identifier,
        None => {
            return None;
        },
    };
    let found = resolve_temperature(identifier.as_str(), hw, raw.name.as_str(), notes);
    let ghost told = w.tell(temperature_for(identifier@, hw@, raw@.name).1);
    let sensor = match found {
        Some(sensor) => sensor,
        None => {
            return None;
        },
    };
    let name = call(graph, "line-", raw.name.as_str(), row, Ghost(w.sketch));
    let ghost t = line_source(told, raw@, name@, sensor@, row as nat);
    let (tip, column) = line_start(graph, raw, name.as_str(), sensor, notes, row, Ghost(told));
    let id = joined("line-", name.as_str());
    let last: u64 = if column < 2 {
        2
    } else {
        column
    };
    let points = vec![from, to];
    assert(points@ =~= seq![from, to]);
    let kind = NodeKind::Curve { points };
    let ghost s = t.work.sketch.put(id@, kind@, last as nat, row as nat);
    put(graph, id.as_str(), kind, last, row, Ghost(t.work.sketch));
    link(graph, &tip, id.as_str(), "in", Ghost(s));
    tell(notes, line_note(raw.name.as_str(), from.y, from.x, to.y, to.x));
    Some(PortRef::new(id.as_str(), "out"))
}

/// Builds the nodes for one curve, returning where its duty comes out.
///
/// `None` means the curve could not be brought across; the caller turns that into a note
/// against every control that used it.
fn build_curve(
    graph: &mut Graph,
    raw: &RawCurve,
    hw: &HardwareSummary,
    notes: &mut Vec<Note>,
    row: u64,
    Ghost(w): Ghost<Work>,
) -> (r: Option<PortRef>)
    requires
        w.shown(*old(graph), old(notes)@),
    ensures
        curve_built(w, raw@, hw@, row as nat).0.shown(*final(graph), final(notes)@),
        port_said(r) == curve_built(w, raw@, hw@, row as nat).1,
{
    if raw.command_mode == MODE_FLAT {
        match raw.percent {
            Some(value) => flat_curve(graph, raw, value, notes, row, Ghost(w)),
            None => None,
        }
    } else if raw.command_mode == MODE_LINEAR {
        match (
            raw.minimum_temperature,
            raw.maximum_temperature,
            raw.minimum_fan_speed,
            raw.maximum_fan_speed,
        ) {
            (Some(min_t), Some(max_t), Some(min_s), Some(max_s)) => line_curve(
                graph,
                raw,
                hw,
                notes,
                row,
                CurvePoint { x: min_t, y: min_s },
                CurvePoint { x: max_t, y: max_s },
                Ghost(w),
            ),
            _ => None,
        }
    } else {
        tell(notes, unknown_mode_note(raw.name.as_str(), raw.command_mode));
        None
    }
}

// --- Controls --------------------------------------------------------------------------------

/// A duty to the nearest tenth of a percent.
pub open spec fn to_tenths(duty: Scalar) -> Scalar {
    duty.times(whole(10)).rounded().over(whole(10))
}

/// A fixed speed as a duty, by the measurements of the fan itself. Nothing comes out where
/// there are no measurements or they do not reach the speed.
pub open spec fn speed_built(
    w: Work,
    rpm: Scalar,
    raw: CurveView,
    control: ControlView,
    label: Text,
    row: nat,
) -> (Work, Option<PortKey>) {
    match measured(control, ""@, label) {
        None => (w, None),
        Some(c) => match reaching(c.points, rpm, c.points.len()) {
            None => (w.tell(unreachable_said(label, rpm)), None),
            Some(duty) => {
                let id = "rpm-"@ + digits(row);
                (
                    w.put(id, KindView::Constant { value: to_tenths(duty) }, 2, row).tell(
                        converted_said(label, rpm, raw.name, to_tenths(duty)),
                    ),
                    Some(port(id, "out"@)),
                )
            },
        },
    }
}

/// How far an import has come.
#[verifier::ext_equal]
pub struct Progress {
    pub work: Work,
    pub calibration: Seq<CalibrationView>,
    /// Curves are built once and shared by name: two fans on one curve stay two fans on one
    /// curve.
    pub built: Map<Text, Option<PortKey>>,
    pub row: nat,
}

impl Progress {
    /// With one more thing said.
    pub open spec fn tell(self, note: NoteView) -> Progress {
        Progress { work: self.work.tell(note), ..self }
    }

    /// With a channel driven.
    pub open spec fn drive(self, source: PortKey, channel: Text) -> Progress {
        Progress { work: attached(self.work, source, channel, self.row), ..self }
    }

    /// At the next row.
    pub open spec fn next_row(self) -> Progress {
        Progress { row: self.row + 1, ..self }
    }
}

/// The last of the first `n` curves that has a name.
pub open spec fn curve_named(curves: Seq<CurveView>, name: Text, n: nat) -> Option<CurveView>
    decreases n,
{
    if n == 0 {
        None
    } else if curves[n - 1].name == name {
        Some(curves[n - 1])
    } else {
        curve_named(curves, name, (n - 1) as nat)
    }
}

/// Where the duty of a control comes out, building what is not built yet.
///
/// A speed is worked out for each control and not shared: the duty that spins one fan at a
/// speed is not the duty that spins another at it.
pub open spec fn sourced(
    p: Progress,
    control: ControlView,
    label: Text,
    name: Text,
    raw: CurveView,
    hw: HardwareView,
) -> (Progress, Option<PortKey>) {
    match asked_speed(raw) {
        Some(rpm) => {
            let (work, source) = speed_built(p.work, rpm, raw, control, label, p.row);
            (Progress { work, ..p }, source)
        },
        None => if p.built.dom().contains(name) {
            (p, p.built[name])
        } else {
            let (work, source) = curve_built(p.work, raw, hw, p.row);
            (Progress { work, built: p.built.insert(name, source), ..p }, source)
        },
    }
}

/// A floor that is part of how a fan was tuned travels with its control. One that is not a
/// percentage is refused rather than brought into range.
pub open spec fn floored(p: Progress, source: PortKey, control: ControlView, label: Text) -> (
    Progress,
    PortKey,
) {
    match above_zero(control.minimum_percent) {
        Some(min) => if is_percentage(min) {
            let id = "floor-"@ + digits(p.row);
            let kind = KindView::Clamp { min, max: whole(100) };
            (
                Progress {
                    work: p.work.put(id, kind, 3, p.row).wire(source, port(id, "in"@)).tell(
                        floor_said(label, min),
                    ),
                    ..p
                },
                port(id, "out"@),
            )
        } else {
            (p.tell(no_floor_said(label, min)), source)
        },
        None => (p, source),
    }
}

/// Whether a control may let its fan stop.
pub open spec fn may_stop(control: ControlView) -> bool {
    above_zero(control.selected_stop) is Some || above_zero(control.selected_start) is Some
}

/// What is said of a fan that was allowed to stop.
pub open spec fn warned(p: Progress, control: ControlView, label: Text) -> Progress {
    if may_stop(control) {
        p.tell(stop_said(label, or_zero(control.selected_stop), or_zero(control.selected_start)))
    } else {
        p
    }
}

/// A control that follows a curve.
pub open spec fn curve_driven(
    p: Progress,
    control: ControlView,
    channel: Text,
    label: Text,
    name: Text,
    raw: CurveView,
    hw: HardwareView,
) -> Progress {
    let (built, source) = sourced(p, control, label, name, raw, hw);
    match source {
        None => built.tell(untranslated_said(label, name)),
        Some(source) => {
            let (lifted, end) = floored(built, source, control, label);
            warned(
                lifted.drive(end, channel).tell(driven_said(label, name)),
                control,
                label,
            ).next_row()
        },
    }
}

/// A control pinned to a value.
pub open spec fn hand_driven(
    p: Progress,
    value: Option<Scalar>,
    channel: Text,
    label: Text,
) -> Progress {
    match value {
        None => p.tell(no_value_said(label)),
        Some(value) => if is_percentage(value) {
            let id = "manual-"@ + digits(p.row);
            Progress { work: p.work.put(id, KindView::Constant { value }, 2, p.row), ..p }.drive(
                port(id, "out"@),
                channel,
            ).tell(manual_said(label, value)).next_row()
        } else {
            p.tell(not_a_duty_said(label, value)).next_row()
        },
    }
}

/// What driving an enabled control comes to.
pub open spec fn control_driven(
    p: Progress,
    control: ControlView,
    channel: Text,
    curves: Seq<CurveView>,
    hw: HardwareView,
) -> Progress {
    let label = control.label();
    if control.manual_control {
        hand_driven(p, control.manual_control_value, channel, label)
    } else {
        match control.selected_fan_curve {
            None => p.tell(no_curve_said(label)),
            Some(name) => match curve_named(curves, name, curves.len()) {
                None => p.tell(missing_curve_said(label, name)),
                Some(raw) => curve_driven(p, control, channel, label, name, raw, hw),
            },
        }
    }
}

/// With what was measured about the fan of a control.
pub open spec fn calibrated(p: Progress, control: ControlView, channel: Text) -> Progress {
    match measured(control, channel, control.label()) {
        Some(c) => Progress { calibration: p.calibration.push(c), ..p },
        None => p,
    }
}

/// Whether a sketch has an output on a channel.
pub open spec fn has_output(s: Sketch, channel: Text) -> bool {
    exists|id: Text| #[trigger] s.nodes.dom().contains(id) && s.nodes[id].kind
        == (KindView::FanOutput { channel })
}

/// What one control comes to. Its measurements are taken even where it is switched off: they
/// describe the fan, not the configuration. A channel is never driven twice: where two controls
/// that are switched on mean one fan, the first that can be brought across drives it.
pub open spec fn control_imported(
    p: Progress,
    control: ControlView,
    curves: Seq<CurveView>,
    hw: HardwareView,
) -> Progress {
    let label = control.label();
    match channel_for(control.identifier, hw) {
        None => p.tell(skip_channel_said(label, control.identifier)),
        Some(channel) => {
            let known = calibrated(p, control, channel);
            if !control.enable {
                known.tell(switched_off_said(label))
            } else if has_output(p.work.sketch, channel) {
                known.tell(driven_already_said(label))
            } else {
                control_driven(known, control, channel, curves, hw)
            }
        },
    }
}

/// What the first `n` controls come to.
pub open spec fn controls_imported(
    start: Progress,
    section: SectionView,
    hw: HardwareView,
    n: nat,
) -> Progress
    decreases n,
{
    if n == 0 {
        start
    } else {
        control_imported(
            controls_imported(start, section, hw, (n - 1) as nat),
            section.controls[n - 1],
            section.fan_curves,
            hw,
        )
    }
}

/// The section of a file: whichever key is present, the newer one first.
pub open spec fn section_of(root: RootView) -> Option<SectionView> {
    match root.modern {
        Some(s) => Some(s),
        None => root.legacy,
    }
}

/// An import before its first control.
pub open spec fn begun(version: Option<Text>) -> Progress {
    Progress {
        work: Work {
            sketch: Sketch::blank(),
            notes: match version {
                Some(v) => seq![version_said(v)],
                None => Seq::empty(),
            },
        },
        calibration: Seq::empty(),
        built: Map::empty(),
        row: 0,
    }
}

/// What a section comes to.
pub open spec fn section_imported(
    version: Option<Text>,
    section: SectionView,
    hw: HardwareView,
) -> Progress {
    controls_imported(begun(version), section, hw, section.controls.len())
}

/// An import under way.
struct Run {
    graph: Graph,
    notes: Vec<Note>,
    calibration: Vec<Calibration>,
    built: OrdMap<String, Option<PortRef>>,
    row: u64,
}

/// What the curves built so far say.
pub open spec fn built_said(built: Map<Text, Option<PortRef>>) -> Map<Text, Option<PortKey>> {
    Map::new(|k: Text| built.dom().contains(k), |k: Text| port_said(built[k]))
}

impl Run {
    /// Whether this is how far an import has come.
    spec fn at(self, p: Progress) -> bool {
        &&& p.work.shown(self.graph, self.notes@)
        &&& calibration_views(self.calibration@) == p.calibration
        &&& built_said(self.built@) == p.built
        &&& self.row == p.row
    }

    fn tell(&mut self, note: Note, Ghost(p): Ghost<Progress>)
        requires
            old(self).at(p),
        ensures
            final(self).at(p.tell(note@)),
    {
        tell(&mut self.notes, note);
    }

    fn drive(&mut self, source: &PortRef, channel: &str, Ghost(p): Ghost<Progress>)
        requires
            old(self).at(p),
        ensures
            final(self).at(p.drive(source@, channel@)),
    {
        attach(&mut self.graph, source, channel, self.row, &self.notes, Ghost(p.work));
    }

    fn speed(
        &mut self,
        rpm: Scalar,
        raw: &RawCurve,
        control: &Control,
        label: &str,
        Ghost(p): Ghost<Progress>,
    ) -> (r: Option<PortRef>)
        requires
            old(self).at(p),
            rpm.finite(),
            whole(100).below(rpm),
        ensures
            final(self).at(
                Progress {
                    work: speed_built(p.work, rpm, raw@, control@, label@, p.row).0,
                    ..p
                },
            ),
            port_said(r) == speed_built(p.work, rpm, raw@, control@, label@, p.row).1,
    {
        let table = match read_calibration(control, "", label) {
            Some(table) => table,
            None => {
                return None;
            },
        };
        proof {
            crate::scalar::whole_is_exact(100);
            crate::scalar::whole_is_exact(0);
            crate::scalar::order_is_by_value(whole(100), rpm);
            crate::scalar::order_is_by_value(rpm, whole(0));
            assert(100 * pow2(1074) > 0 * pow2(1074)) by {
                lemma_pow2_pos(1074);
            }
        }
        assert(!rpm.at_most(whole(0)));
        match table.duty_reaching(rpm) {
            None => {
                tell(&mut self.notes, unreachable_note(label, rpm));
                None
            },
            Some(duty) => {
                let rounded = duty.mul(Scalar::whole(10)).round().div(Scalar::whole(10));
                let id = numbered("rpm-", self.row);
                put(
                    &mut self.graph,
                    id.as_str(),
                    NodeKind::Constant { value: rounded },
                    2,
                    self.row,
                    Ghost(p.work.sketch),
                );
                tell(&mut self.notes, converted_note(label, rpm, raw.name.as_str(), rounded));
                Some(PortRef::new(id.as_str(), "out"))
            },
        }
    }

    fn source(
        &mut self,
        control: &Control,
        label: &str,
        name: &String,
        raw: &RawCurve,
        hw: &HardwareSummary,
        Ghost(p): Ghost<Progress>,
    ) -> (r: Option<PortRef>)
        requires
            old(self).at(p),
        ensures
            final(self).at(sourced(p, control@, label@, name@, raw@, hw@).0),
            port_said(r) == sourced(p, control@, label@, name@, raw@, hw@).1,
    {
        if let Some(rpm) = fixed_rpm(raw) {
            return self.speed(rpm, raw, control, label, Ghost(p));
        }
        let known = match self.built.get(name) {
            Some(found) => Some(
                match found {
                    Some(port) => Some(port.copy()),
                    None => None,
                },
            ),
            None => None,
        };
        match known {
            Some(port) => port,
            None => {
                let made = build_curve(
                    &mut self.graph,
                    raw,
                    hw,
                    &mut self.notes,
                    self.row,
                    Ghost(p.work),
                );
                let kept = match &made {
                    Some(port) => Some(port.copy()),
                    None => None,
                };
                let ghost before = self.built@;
                self.built.insert(name.clone(), kept);
                assert(built_said(self.built@) =~= built_said(before).insert(
                    name@,
                    port_said(made),
                ));
                made
            },
        }
    }

    fn floor(
        &mut self,
        source: PortRef,
        control: &Control,
        label: &str,
        Ghost(p): Ghost<Progress>,
    ) -> (r: PortRef)
        requires
            old(self).at(p),
        ensures
            final(self).at(floored(p, source@, control@, label@).0),
            r@ == floored(p, source@, control@, label@).1,
    {
        match positive(control.minimum_percent) {
            Some(min) => {
                if duty_percent(min).is_none() {
                    self.tell(no_floor_note(label, min), Ghost(p));
                    return source;
                }
                let id = numbered("floor-", self.row);
                let kind = NodeKind::Clamp { min, max: Scalar::whole(100) };
                let ghost s = p.work.sketch.put(id@, kind@, 3, p.row);
                put(&mut self.graph, id.as_str(), kind, 3, self.row, Ghost(p.work.sketch));
                link(&mut self.graph, &source, id.as_str(), "in", Ghost(s));
                tell(&mut self.notes, floor_note(label, min));
                PortRef::new(id.as_str(), "out")
            },
            None => source,
        }
    }

    fn follow_curve(
        &mut self,
        control: &Control,
        channel: &str,
        label: &str,
        name: &String,
        raw: &RawCurve,
        hw: &HardwareSummary,
        Ghost(p): Ghost<Progress>,
    )
        requires
            old(self).at(p),
            p.row < u64::MAX,
        ensures
            final(self).at(curve_driven(p, control@, channel@, label@, name@, raw@, hw@)),
    {
        let ghost (built, _) = sourced(p, control@, label@, name@, raw@, hw@);
        let source = match self.source(control, label, name, raw, hw, Ghost(p)) {
            Some(source) => source,
            None => {
                self.tell(untranslated_note(label, name.as_str()), Ghost(built));
                return ;
            },
        };
        let ghost (lifted, _) = floored(built, source@, control@, label@);
        let end = self.floor(source, control, label, Ghost(built));
        let ghost driven = lifted.drive(end@, channel@);
        self.drive(&end, channel, Ghost(lifted));
        let ghost told = driven.tell(driven_said(label@, name@));
        self.tell(driven_note(label, name.as_str()), Ghost(driven));
        if positive(control.selected_stop).is_some() || positive(
            control.selected_start,
        ).is_some() {
            self.tell(
                stop_note(
                    label,
                    unwrap_or_zero(control.selected_stop),
                    unwrap_or_zero(control.selected_start),
                ),
                Ghost(told),
            );
        }
        self.row = self.row + 1;
    }

    fn follow_hand(
        &mut self,
        value: Option<Scalar>,
        channel: &str,
        label: &str,
        Ghost(p): Ghost<Progress>,
    )
        requires
            old(self).at(p),
            p.row < u64::MAX,
        ensures
            final(self).at(hand_driven(p, value, channel@, label@)),
    {
        let value = match value {
            Some(value) => value,
            None => {
                self.tell(no_value_note(label), Ghost(p));
                return ;
            },
        };
        match duty_percent(value) {
            Some(duty) => {
                let id = numbered("manual-", self.row);
                put(
                    &mut self.graph,
                    id.as_str(),
                    NodeKind::Constant { value: duty },
                    2,
                    self.row,
                    Ghost(p.work.sketch),
                );
                let ghost placed = Progress {
                    work: p.work.put(id@, KindView::Constant { value }, 2, p.row),
                    ..p
                };
                let out = PortRef::new(id.as_str(), "out");
                self.drive(&out, channel, Ghost(placed));
                let ghost driven = placed.drive(out@, channel@);
                self.tell(manual_note(label, duty), Ghost(driven));
            },
            None => {
                self.tell(not_a_duty_note(label, value), Ghost(p));
            },
        }
        self.row = self.row + 1;
    }

    fn control(
        &mut self,
        control: &Control,
        curves: &Vec<RawCurve>,
        hw: &HardwareSummary,
        Ghost(p): Ghost<Progress>,
        Ghost(views): Ghost<Seq<CurveView>>,
    )
        requires
            old(self).at(p),
            p.row < u64::MAX,
            views == Seq::new(curves@.len(), |i: int| curves@[i]@),
        ensures
            final(self).at(control_imported(p, control@, views, hw@)),
    {
        let label = control.label();
        let channel = match resolve_channel(control.identifier.as_str(), hw) {
            Some(channel) => channel,
            None => {
                self.tell(
                    skip_channel_note(label.as_str(), control.identifier.as_str()),
                    Ghost(p),
                );
                return ;
            },
        };
        if let Some(c) = read_calibration(control, channel.as_str(), label.as_str()) {
            let ghost before = calibration_views(self.calibration@);
            self.calibration.push(c);
            assert(calibration_views(self.calibration@) =~= before.push(c@));
        }
        let ghost known = calibrated(p, control@, channel@);
        if !control.enable {
            self.tell(switched_off_note(label.as_str()), Ghost(known));
            return ;
        }
        let channels = self.graph.output_channels();
        assert(channels@.dom().contains(channel@) <==> self.graph@.drives(channel@));
        assert(self.graph@.drives(channel@) <==> has_output(p.work.sketch, channel@));
        if channels.contains_key(&channel) {
            self.tell(driven_already_note(label.as_str()), Ghost(known));
            return ;
        }
        if control.manual_control {
            self.follow_hand(
                control.manual_control_value,
                channel.as_str(),
                label.as_str(),
                Ghost(known),
            );
            return ;
        }
        let name = match &control.selected_fan_curve {
            Some(name) => name,
            None => {
                self.tell(no_curve_note(label.as_str()), Ghost(known));
                return ;
            },
        };
        match find_curve(curves, name.as_str()) {
            Some(i) => {
                assert(views[i as int] == curves@[i as int]@);
                self.follow_curve(
                    control,
                    channel.as_str(),
                    label.as_str(),
                    name,
                    &curves[i],
                    hw,
                    Ghost(known),
                );
            },
            None => {
                self.tell(missing_curve_note(label.as_str(), name.as_str()), Ghost(known));
            },
        }
    }
}

fn find_curve(curves: &Vec<RawCurve>, name: &str) -> (r: Option<usize>)
    ensures
        match r {
            Some(i) => i < curves@.len() && curve_named(
                Seq::new(curves@.len(), |i: int| curves@[i]@),
                name@,
                curves@.len(),
            ) == Some(curves@[i as int]@),
            None => curve_named(
                Seq::new(curves@.len(), |i: int| curves@[i]@),
                name@,
                curves@.len(),
            ) is None,
        },
{
    let mut n: usize = curves.len();
    let ghost views = Seq::new(curves@.len(), |i: int| curves@[i]@);
    while n > 0
        invariant
            n <= curves@.len(),
            views == Seq::new(curves@.len(), |i: int| curves@[i]@),
            curve_named(views, name@, curves@.len()) == curve_named(views, name@, n as nat),
        decreases n,
    {
        assert(views[n - 1] == curves@[n - 1]@);
        if same(curves[n - 1].name.as_str(), name) {
            return Some(n - 1);
        }
        n -= 1;
    }
    None
}

proof fn lemma_rows(start: Progress, section: SectionView, hw: HardwareView, n: nat)
    requires
        n <= section.controls.len(),
    ensures
        start.row <= controls_imported(start, section, hw, n).row <= start.row + n,
    decreases n,
{
    if n > 0 {
        lemma_rows(start, section, hw, (n - 1) as nat);
    }
}

/// Translates a FanControl configuration into a profile to review.
///
/// `hw` is what this machine has. Every reference is checked against it, so a configuration
/// written on another machine produces notes instead of a graph that addresses channels
/// which are not there.
pub fn import(root: &Root, hw: &HardwareSummary) -> (r: Result<Imported, ImportError>)
    ensures
        match r {
            Ok(imported) => match section_of(root@) {
                Some(section) => {
                    let p = section_imported(root@.version, section, hw@);
                    &&& imported.profile.schema == CURRENT_SCHEMA
                    &&& imported.profile.name@ == "Imported from FanControl"@
                    &&& p.work.shown(imported.profile.graph, imported.notes@)
                    &&& calibration_views(imported.calibration@) == p.calibration
                },
                None => false,
            },
            Err(e) => e == ImportError::UnknownLayout && section_of(root@) is None,
        },
{
    let section = match &root.modern {
        Some(s) => s,
        None => match &root.legacy {
            Some(s) => s,
            None => {
                return Err(ImportError::UnknownLayout);
            },
        },
    };
    let mut notes: Vec<Note> = Vec::new();
    if let Some(version) = &root.version {
        notes.push(version_note(version.as_str()));
    }
    let graph = Graph::new();
    let ghost start = begun(root@.version);
    let mut run = Run {
        graph,
        notes,
        calibration: Vec::new(),
        built: OrdMap::new(),
        row: 0,
    };
    proof {
        assert(note_views(run.notes@) =~= start.work.notes);
        assert(calibration_views(run.calibration@) =~= start.calibration);
        assert(built_said(run.built@) =~= start.built);
        assert(drawn(run.graph@, Sketch::blank()));
    }
    let n: usize = section.controls.len();
    for i in 0..n
        invariant
            n == section.controls@.len(),
            run.at(controls_imported(start, section@, hw@, i as nat)),
            start.row == 0,
    {
        let ghost p = controls_imported(start, section@, hw@, i as nat);
        proof {
            lemma_rows(start, section@, hw@, i as nat);
        }
        assert(section@.controls[i as int] == section.controls@[i as int]@);
        run.control(
            &section.controls[i],
            &section.fan_curves,
            hw,
            Ghost(p),
            Ghost(section@.fan_curves),
        );
    }
    let Run { graph, notes, calibration, built: _, row: _ } = run;
    Ok(
        Imported {
            profile: Profile::new("Imported from FanControl", graph),
            notes,
            calibration,
        },
    )
}

} // verus!
