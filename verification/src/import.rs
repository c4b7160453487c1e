//! What an importer of another tool's configuration produces.
//!
//! An import is **never applied to hardware by the act of importing**. It produces a
//! [`Profile`] for a person to look at, and notes that say what came across and what did
//! not. A value that cannot be interpreted is never guessed at and never clamped into range.
use crate::profile::Profile;
use crate::scalar::{whole, Scalar};
use crate::text::Text;
use vstd::prelude::*;

verus! {

/// How faithfully one piece of a foreign configuration crossed over.
#[derive(Debug, Clone, Copy, PartialEq, Eq, Structural)]
pub enum Fidelity {
    /// Came across with the same meaning it had.
    Exact,
    /// Came across as the nearest thing this model can express.
    Approximated,
    /// Came across, but a person has to confirm it is right.
    NeedsAttention,
    /// Did not come across. The detail says why.
    Skipped,
}

/// A piece of a sentence: words, or a number to be shown as the reader's locale shows it.
#[derive(Debug, Clone, PartialEq)]
pub enum Piece {
    Words(String),
    Number(Scalar),
}

/// A piece of a sentence, as contracts speak of it.
pub enum PieceView {
    Words(Text),
    Number(Scalar),
}

impl View for Piece {
    type V = PieceView;

    open spec fn view(&self) -> PieceView {
        match *self {
            Piece::Words(s) => PieceView::Words(s@),
            Piece::Number(n) => PieceView::Number(n),
        }
    }
}

/// What the pieces of a sentence say.
pub open spec fn piece_views(list: Seq<Piece>) -> Seq<PieceView> {
    Seq::new(list.len(), |i: int| list[i]@)
}

/// Words.
pub fn words(s: &str) -> (r: Piece)
    ensures
        r@ == PieceView::Words(s@),
{
    Piece::Words(s.to_owned())
}

/// One thing an importer did, or declined to do.
#[derive(Debug, Clone, PartialEq)]
pub struct Note {
    pub fidelity: Fidelity,
    /// What this is about, in the source tool's own words: a control or curve name.
    pub subject: String,
    /// What happened, phrased for the person who wrote the original configuration.
    pub detail: Vec<Piece>,
}

/// A note, as contracts speak of it.
#[verifier::ext_equal]
pub struct NoteView {
    pub fidelity: Fidelity,
    pub subject: Text,
    pub detail: Seq<PieceView>,
}

impl View for Note {
    type V = NoteView;

    open spec fn view(&self) -> NoteView {
        NoteView {
            fidelity: self.fidelity,
            subject: self.subject@,
            detail: piece_views(self.detail@),
        }
    }
}

/// What a list of notes says.
pub open spec fn note_views(list: Seq<Note>) -> Seq<NoteView> {
    Seq::new(list.len(), |i: int| list[i]@)
}

impl Note {
    /// A note.
    pub fn new(fidelity: Fidelity, subject: &str, detail: Vec<Piece>) -> (r: Note)
        ensures
            r@ == (NoteView { fidelity, subject: subject@, detail: piece_views(detail@) }),
    {
        Note { fidelity, subject: subject.to_owned(), detail }
    }
}

/// A measured point on a fan's duty-to-speed relationship.
#[derive(Debug, Clone, Copy, PartialEq)]
pub struct CalibrationPoint {
    pub duty_percent: Scalar,
    pub rpm: Scalar,
}

/// What another tool measured about a fan.
#[derive(Debug, Clone, PartialEq)]
pub struct Calibration {
    /// Our channel id, already translated.
    pub channel: String,
    /// What the other tool called it.
    pub label: String,
    /// Measured duty/speed pairs, ascending by duty.
    pub points: Vec<CalibrationPoint>,
    /// Duty the fan needed in order to start turning, if recorded.
    pub start_percent: Option<Scalar>,
    /// Duty below which the fan stopped, if recorded.
    pub stop_percent: Option<Scalar>,
    /// Floor the other tool refused to command below.
    pub minimum_percent: Option<Scalar>,
}

/// A measurement, as contracts speak of it.
#[verifier::ext_equal]
pub struct CalibrationView {
    pub channel: Text,
    pub label: Text,
    pub points: Seq<CalibrationPoint>,
    pub start_percent: Option<Scalar>,
    pub stop_percent: Option<Scalar>,
    pub minimum_percent: Option<Scalar>,
}

impl View for Calibration {
    type V = CalibrationView;

    open spec fn view(&self) -> CalibrationView {
        CalibrationView {
            channel: self.channel@,
            label: self.label@,
            points: self.points@,
            start_percent: self.start_percent,
            stop_percent: self.stop_percent,
            minimum_percent: self.minimum_percent,
        }
    }
}

/// What a list of measurements says.
pub open spec fn calibration_views(list: Seq<Calibration>) -> Seq<CalibrationView> {
    Seq::new(list.len(), |i: int| list[i]@)
}

/// The lower of a number and another one, when there is another one.
pub open spec fn lower_of(best: Option<Scalar>, duty: Scalar) -> Option<Scalar> {
    match best {
        Some(b) => Some(b.smaller(duty)),
        None => Some(duty),
    }
}

/// The lowest duty at which a fan was observed turning, among its first `n` points.
pub open spec fn lowest_turning(points: Seq<CalibrationPoint>, n: nat) -> Option<Scalar>
    decreases n,
{
    if n == 0 {
        None
    } else {
        let before = lowest_turning(points, (n - 1) as nat);
        if whole(0).below(points[n - 1].rpm) {
            lower_of(before, points[n - 1].duty_percent)
        } else {
            before
        }
    }
}

/// Whether a point reads zero below the lowest point that turns.
pub open spec fn stall_found(points: Seq<CalibrationPoint>) -> bool {
    match lowest_turning(points, points.len()) {
        Some(lowest) => exists|i: int|
            0 <= i < points.len() && (#[trigger] points[i]).rpm.equals(whole(0))
                && points[i].duty_percent.below(lowest),
        None => false,
    }
}

/// The duty between two measurements that reaches a speed. `None` where the speed is not
/// between them, where they barely differ in speed, or where no duty comes out.
pub open spec fn duty_between(low: CalibrationPoint, high: CalibrationPoint, rpm: Scalar) -> Option<
    Scalar,
> {
    let rise = high.rpm.minus(low.rpm);
    if rise.below(whole(50)) || !(low.rpm.at_most(rpm) && rpm.at_most(high.rpm)) {
        None
    } else {
        let duty = low.duty_percent.plus(
            rpm.minus(low.rpm).over(rise).times(high.duty_percent.minus(low.duty_percent)),
        );
        if whole(0).at_most(duty) && duty.at_most(whole(100)) {
            Some(duty)
        } else {
            None
        }
    }
}

/// The lowest duty that reaches a speed, over the first `n` measurements.
pub open spec fn reaching(points: Seq<CalibrationPoint>, rpm: Scalar, n: nat) -> Option<Scalar>
    decreases n,
{
    if n <= 1 {
        None
    } else {
        let before = reaching(points, rpm, (n - 1) as nat);
        match duty_between(points[n - 2], points[n - 1], rpm) {
            Some(duty) => lower_of(before, duty),
            None => before,
        }
    }
}

impl Calibration {
    /// The lowest duty at which this fan was observed still turning.
    ///
    /// Derived from the measurements rather than from settings: a setting records an
    /// intention and a measurement records the fan. `None` when nothing was measured turning.
    pub fn lowest_turning_duty(&self) -> (r: Option<Scalar>)
        ensures
            r == lowest_turning(self@.points, self@.points.len()),
    {
        let mut best: Option<Scalar> = None;
        let zero = Scalar::whole(0);
        let n: usize = self.points.len();
        for i in 0..n
            invariant
                n == self.points@.len(),
                zero == whole(0),
                best == lowest_turning(self.points@, i as nat),
        {
            if zero.lt(self.points[i].rpm) {
                best = lower(best, self.points[i].duty_percent);
            }
        }
        best
    }

    /// Whether this table contains a stall: a point that reads zero below a point that turns.
    ///
    /// A table with no zero reading has not found the bottom, so it must not be treated as
    /// proof that low duties are safe.
    pub fn found_the_stall(&self) -> (r: bool)
        ensures
            r == stall_found(self@.points),
    {
        match self.lowest_turning_duty() {
            Some(lowest) => {
                let zero = Scalar::whole(0);
                let n: usize = self.points.len();
                for i in 0..n
                    invariant
                        n == self.points@.len(),
                        zero == whole(0),
                        lowest_turning(self.points@, self.points@.len()) == Some(lowest),
                        forall|k: int|
                            0 <= k < i ==> !((#[trigger] self.points@[k]).rpm.equals(whole(0))
                                && self.points@[k].duty_percent.below(lowest)),
                {
                    if self.points[i].rpm.same(zero) && self.points[i].duty_percent.lt(lowest) {
                        return true;
                    }
                }
                false
            },
            None => false,
        }
    }

    /// The lowest duty measured to reach `rpm`, if these measurements reach it at all.
    ///
    /// Refuses anything outside the measured range, and any flat stretch, where duty says
    /// almost nothing about speed. The *lowest* qualifying duty wins, because a table need
    /// not be monotonic and the quietest way to reach a speed is the right bias.
    pub fn duty_reaching(&self, rpm: Scalar) -> (r: Option<Scalar>)
        ensures
            r == if !rpm.finite() || rpm.at_most(whole(0)) {
                None
            } else {
                reaching(self@.points, rpm, self@.points.len())
            },
    {
        if !rpm.is_finite() || rpm.le(Scalar::whole(0)) {
            return None;
        }
        let mut best: Option<Scalar> = None;
        let n: usize = self.points.len();
        if n == 0 {
            return None;
        }
        for i in 1..n
            invariant
                n == self.points@.len(),
                best == reaching(self.points@, rpm, i as nat),
        {
            if let Some(duty) = interpolate(self.points[i - 1], self.points[i], rpm) {
                best = lower(best, duty);
            }
        }
        best
    }
}

fn lower(best: Option<Scalar>, duty: Scalar) -> (r: Option<Scalar>)
    ensures
        r == lower_of(best, duty),
{
    match best {
        Some(b) => Some(b.min(duty)),
        None => Some(duty),
    }
}

fn interpolate(low: CalibrationPoint, high: CalibrationPoint, rpm: Scalar) -> (r: Option<Scalar>)
    ensures
        r == duty_between(low, high, rpm),
{
    let rise = high.rpm.sub(low.rpm);
    if rise.lt(Scalar::whole(50)) || !(low.rpm.le(rpm) && rpm.le(high.rpm)) {
        return None;
    }
    let duty = low.duty_percent.add(
        rpm.sub(low.rpm).div(rise).mul(high.duty_percent.sub(low.duty_percent)),
    );
    if Scalar::whole(0).le(duty) && duty.le(Scalar::whole(100)) {
        Some(duty)
    } else {
        None
    }
}

/// A duty worked out from measurements is a percentage.
pub proof fn measured_duties_are_percentages(points: Seq<CalibrationPoint>, rpm: Scalar, n: nat)
    requires
        n <= points.len(),
        reaching(points, rpm, n) is Some,
    ensures
        whole(0).at_most(reaching(points, rpm, n)->0),
        (reaching(points, rpm, n)->0).at_most(whole(100)),
    decreases n,
{
    if n > 1 && reaching(points, rpm, (n - 1) as nat) is Some {
        measured_duties_are_percentages(points, rpm, (n - 1) as nat);
    }
}

/// The result of reading somebody else's configuration.
#[derive(Debug)]
pub struct Imported {
    /// A profile to review. **Not applied by importing.**
    pub profile: Profile,
    /// What came across, what did not, and what needs looking at.
    pub notes: Vec<Note>,
    /// Fan measurements found alongside the configuration.
    pub calibration: Vec<Calibration>,
}

/// Where the first `n` notes need attention.
pub open spec fn urgent(notes: Seq<NoteView>, n: nat) -> Seq<int>
    decreases n,
{
    if n == 0 {
        Seq::empty()
    } else {
        let before = urgent(notes, (n - 1) as nat);
        if notes[n - 1].fidelity == Fidelity::NeedsAttention {
            before.push(n - 1)
        } else {
            before
        }
    }
}

impl Imported {
    /// The positions of the notes a person must act on before this profile should be
    /// trusted.
    pub fn needs_attention(&self) -> (r: Vec<usize>)
        ensures
            r@.map_values(|i: usize| i as int) == urgent(
                note_views(self.notes@),
                self.notes@.len(),
            ),
    {
        let mut out: Vec<usize> = Vec::new();
        let n: usize = self.notes.len();
        let ghost views = note_views(self.notes@);
        assert(out@.map_values(|i: usize| i as int) =~= Seq::empty());
        for i in 0..n
            invariant
                n == self.notes@.len(),
                views == note_views(self.notes@),
                out@.map_values(|i: usize| i as int) == urgent(views, i as nat),
        {
            assert(views[i as int] == self.notes@[i as int]@);
            if self.notes[i].fidelity == Fidelity::NeedsAttention {
                let ghost before = out@.map_values(|i: usize| i as int);
                out.push(i);
                assert(out@.map_values(|i: usize| i as int) =~= before.push(i as int));
            }
        }
        out
    }

    /// Whether nothing at all was translated.
    pub fn is_empty(&self) -> (r: bool)
        ensures
            r == (self.profile.graph@.ids.len() == 0),
    {
        self.profile.graph.nodes.len() == 0
    }
}

} // verus!
