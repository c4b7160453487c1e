//! What measurements of a fan say: where it turns, where it stalls, and which duty reaches a
//! speed; and what becomes of them, and of the controls they come with, in an import.
use crate::curve_guarantees::{lemma_line, lemma_pieces, line_slack, moderate, off_line};
use crate::eval::between;
use crate::fancontrol::{
    above_zero, asked_speed, begun, calibrated, channel_for, control_imported, controls_imported,
    curve_named, has_output, measured_points, put_by_duty, section_imported, sourced, ControlView,
    CurveView, Progress, SectionView,
};
use crate::import::{
    duty_between, lowest_turning, reaching, stall_found, urgent, CalibrationPoint, CalibrationView,
    Fidelity, NoteView,
};
use crate::import_guarantees::{harmless, lemma_curve, lemma_speed};
use crate::node::{CurvePoint, KindView};
use crate::presets::HardwareView;
use crate::rounding::{factors_may_be_swapped, LENGTH};
use crate::scalar::{
    doubles_round_to_themselves, order_is_by_value, rounding_keeps_order, whole, whole_is_exact,
    Scalar,
};
use crate::text::Text;
use vstd::arithmetic::power2::{lemma2_to64, lemma_pow2_adds, lemma_pow2_pos, pow2};
use vstd::prelude::*;

verus! {

// --- Turning and stalling ------------------------------------------------------------------------

/// Whether every measurement is made of finite numbers.
pub open spec fn in_numbers(points: Seq<CalibrationPoint>) -> bool {
    forall|i: int|
        0 <= i < points.len() ==> (#[trigger] points[i]).rpm.finite()
            && points[i].duty_percent.finite()
}

/// Whether a fan was seen turning.
pub open spec fn turning(p: CalibrationPoint) -> bool {
    p.rpm.value() > 0
}

proof fn lemma_turning(p: CalibrationPoint)
    requires
        p.rpm.finite(),
    ensures
        whole(0).below(p.rpm) <==> turning(p),
        p.rpm.equals(whole(0)) <==> p.rpm.value() == 0,
{
    whole_is_exact(0);
    assert(0 * pow2(1074) == 0);
    order_is_by_value(whole(0), p.rpm);
    order_is_by_value(p.rpm, whole(0));
}

proof fn lemma_lowest(points: Seq<CalibrationPoint>, n: nat)
    requires
        in_numbers(points),
        n <= points.len(),
    ensures
        match lowest_turning(points, n) {
            Some(d) => d.finite() && (exists|i: int|
                0 <= i < n && turning(#[trigger] points[i]) && points[i].duty_percent == d)
                && forall|i: int|
                0 <= i < n && turning(#[trigger] points[i]) ==> d.value()
                    <= points[i].duty_percent.value(),
            None => forall|i: int| 0 <= i < n ==> !turning(#[trigger] points[i]),
        },
    decreases n,
{
    if n > 0 {
        let m = (n - 1) as nat;
        lemma_lowest(points, m);
        let p = points[n - 1];
        lemma_turning(p);
        let before = lowest_turning(points, m);
        if turning(p) {
            if let Some(b) = before {
                order_is_by_value(p.duty_percent, b);
                let i = choose|i: int|
                    0 <= i < m && turning(#[trigger] points[i]) && points[i].duty_percent == b;
                assert(turning(points[i]));
            }
            assert(turning(points[n - 1]));
        } else if let Some(b) = before {
            let i = choose|i: int|
                0 <= i < m && turning(#[trigger] points[i]) && points[i].duty_percent == b;
            assert(turning(points[i]));
        }
    }
}

/// The lowest turning duty is one at which the fan was seen turning, and at no lower one was it.
/// There is one wherever the fan was seen turning at all.
pub proof fn the_lowest_turning_duty_was_measured(points: Seq<CalibrationPoint>)
    requires
        in_numbers(points),
    ensures
        match lowest_turning(points, points.len()) {
            Some(d) => (exists|i: int|
                0 <= i < points.len() && turning(#[trigger] points[i]) && points[i].duty_percent
                    == d) && forall|i: int|
                0 <= i < points.len() && turning(#[trigger] points[i]) ==> d.value()
                    <= points[i].duty_percent.value(),
            None => forall|i: int| 0 <= i < points.len() ==> !turning(#[trigger] points[i]),
        },
{
    lemma_lowest(points, points.len());
}

/// A stall was found where the fan was seen standing at a duty below every one at which it was
/// seen turning, and it was seen turning at some.
pub proof fn a_stall_is_below_everything_that_turns(points: Seq<CalibrationPoint>)
    requires
        in_numbers(points),
    ensures
        stall_found(points) <==> (exists|j: int|
            0 <= j < points.len() && turning(#[trigger] points[j])) && exists|i: int|
            0 <= i < points.len() && (#[trigger] points[i]).rpm.value() == 0 && forall|j: int|
                0 <= j < points.len() && turning(#[trigger] points[j])
                    ==> points[i].duty_percent.value() < points[j].duty_percent.value(),
{
    lemma_lowest(points, points.len());
    if let Some(d) = lowest_turning(points, points.len()) {
        let l = choose|l: int|
            0 <= l < points.len() && turning(#[trigger] points[l]) && points[l].duty_percent == d;
        assert(turning(points[l]));
        if stall_found(points) {
            let i = choose|i: int|
                0 <= i < points.len() && (#[trigger] points[i]).rpm.equals(whole(0))
                    && points[i].duty_percent.below(d);
            lemma_turning(points[i]);
            order_is_by_value(points[i].duty_percent, d);
            assert(points[i].rpm.value() == 0);
        }
        if exists|i: int|
            0 <= i < points.len() && (#[trigger] points[i]).rpm.value() == 0 && forall|j: int|
                0 <= j < points.len() && turning(#[trigger] points[j])
                    ==> points[i].duty_percent.value() < points[j].duty_percent.value() {
            let i = choose|i: int|
                0 <= i < points.len() && (#[trigger] points[i]).rpm.value() == 0 && forall|j: int|
                    0 <= j < points.len() && turning(#[trigger] points[j])
                        ==> points[i].duty_percent.value() < points[j].duty_percent.value();
            lemma_turning(points[i]);
            order_is_by_value(points[i].duty_percent, d);
            assert(points[i].rpm.equals(whole(0)));
        }
    }
}

// --- Reaching a speed ----------------------------------------------------------------------------

/// A measurement as a point of a curve from speed to duty.
pub open spec fn by_speed(p: CalibrationPoint) -> CurvePoint {
    CurvePoint { x: p.rpm, y: p.duty_percent }
}

/// Whether a measurement is one of a percentage and of a speed that is no larger than `2^51`.
pub open spec fn plain(p: CalibrationPoint) -> bool {
    &&& moderate(p.rpm)
    &&& p.duty_percent.finite()
    &&& 0 <= p.duty_percent.value() <= 100 * pow2(1074)
}

/// Whether two measurements carry a speed: it lies between theirs, which differ by fifty at
/// least.
pub open spec fn carries(low: CalibrationPoint, high: CalibrationPoint, rpm: Scalar) -> bool {
    &&& low.rpm.value() <= rpm.value() <= high.rpm.value()
    &&& high.rpm.minus(low.rpm).value() >= 50 * pow2(1074)
}

/// How far from the exact line a duty may be.
pub open spec fn tolerance(low: CalibrationPoint, high: CalibrationPoint) -> int {
    line_slack((100 * pow2(1074)) as nat) * (high.rpm.value() - low.rpm.value())
}

proof fn lemma_rise(low: CalibrationPoint, high: CalibrationPoint)
    requires
        moderate(low.rpm),
        moderate(high.rpm),
    ensures
        high.rpm.minus(low.rpm).finite(),
        high.rpm.minus(low.rpm).below(whole(50)) <==> high.rpm.minus(low.rpm).value() < 50 * pow2(
            1074,
        ),
        high.rpm.minus(low.rpm).value() >= 50 * pow2(1074) ==> high.rpm.value() - low.rpm.value()
            >= pow2(1022),
{
    reveal(Scalar::plus);
    let unit = pow2(1074);
    let w = crate::curve_guarantees::WIDE as nat;
    crate::scalar::lemma_difference_within(high.rpm, low.rpm, w, w);
    whole_is_exact(1);
    whole_is_exact(50);
    let rise = high.rpm.minus(low.rpm);
    order_is_by_value(rise, whole(50));
    lemma_pow2_pos(1074);
    lemma_pow2_pos(1022);
    lemma_pow2_adds(1022, 52);
    lemma2_to64();
    assert(unit >= pow2(1022)) by (nonlinear_arith)
        requires
            unit == pow2(1022) * pow2(52),
            pow2(52) >= 1,
            pow2(1022) >= 0,
    ;
    let exact = high.rpm.value() - low.rpm.value();
    assert(low.rpm.negated().value() == -low.rpm.value());
    if rise.value() >= 50 * unit && exact < unit {
        if exact > 0 {
            rounding_keeps_order(exact as nat, 1, (1 * unit) as nat, 1);
            doubles_round_to_themselves(whole(1).pattern());
            assert(whole(1).magnitude() == 1 * unit);
            assert(rise.pattern() <= whole(1).pattern());
            order_is_by_value(rise, whole(1));
        }
    }
}

/// What two measurements give for a speed that they carry.
proof fn lemma_between(low: CalibrationPoint, high: CalibrationPoint, rpm: Scalar)
    requires
        plain(low),
        plain(high),
        rpm.finite(),
    ensures
        duty_between(low, high, rpm) matches Some(d) ==> {
            &&& carries(low, high, rpm)
            &&& d.finite()
            &&& 0 <= d.value() <= 100 * pow2(1074)
            &&& off_line(by_speed(low), by_speed(high), rpm, d) <= tolerance(low, high)
        },
        carries(low, high, rpm) && ({
            let across = high.rpm.value() - low.rpm.value();
            let exact = low.duty_percent.value() * across + (high.duty_percent.value()
                - low.duty_percent.value()) * (rpm.value() - low.rpm.value());
            &&& LENGTH * exact >= tolerance(low, high)
            &&& LENGTH * (100 * pow2(1074) * across - exact) >= tolerance(low, high)
        }) ==> duty_between(low, high, rpm) is Some,
{
    let unit = pow2(1074);
    lemma_pow2_pos(1074);
    lemma_pow2_pos(1022);
    lemma_rise(low, high);
    order_is_by_value(low.rpm, rpm);
    order_is_by_value(rpm, high.rpm);
    whole_is_exact(0);
    whole_is_exact(100);
    assert(0 * unit == 0);
    let a = by_speed(low);
    let b = by_speed(high);
    if carries(low, high, rpm) {
        let wide = crate::curve_guarantees::WIDE;
        assert(100 * unit <= wide * unit) by (nonlinear_arith)
            requires
                wide >= 100,
                unit > 0,
        ;
        let rise = high.rpm.minus(low.rpm);
        let part = rpm.minus(low.rpm).over(rise);
        let climb = high.duty_percent.minus(low.duty_percent);
        let duty = low.duty_percent.plus(part.times(climb));
        let across = high.rpm.value() - low.rpm.value();
        let along = rpm.value() - low.rpm.value();
        let exact = low.duty_percent.value() * across + (high.duty_percent.value()
            - low.duty_percent.value()) * along;
        assert(duty.finite() && off_line(a, b, rpm, duty) <= tolerance(low, high)) by {
            if low.rpm.value() < rpm.value() {
                lemma_pieces(a, b, rpm);
                factors_may_be_swapped(part, climb);
                assert(duty == between(a, b, rpm));
                lemma_line(a, b, rpm, (100 * unit) as nat);
            } else {
                lemma_at_start(low, high, rpm);
                assert((high.duty_percent.value() - low.duty_percent.value()) * along == 0)
                    by (nonlinear_arith)
                    requires
                        along == 0,
                ;
                assert(tolerance(low, high) >= 0) by (nonlinear_arith)
                    requires
                        tolerance(low, high) == line_slack((100 * unit) as nat) * across,
                        across >= 0,
                        line_slack((100 * unit) as nat) >= 0,
                ;
            }
        }
        order_is_by_value(whole(0), duty);
        order_is_by_value(duty, whole(100));
        let got = duty.value() * across;
        let l = LENGTH as int;
        if l * exact >= tolerance(low, high) && l * (100 * unit * across - exact) >= tolerance(
            low,
            high,
        ) {
            assert(got >= 0);
            assert(got <= 100 * unit * across);
            assert(duty.value() >= 0) by (nonlinear_arith)
                requires
                    got == duty.value() * across,
                    got >= 0,
                    across > 0,
            ;
            assert(duty.value() <= 100 * unit) by (nonlinear_arith)
                requires
                    got == duty.value() * across,
                    got <= 100 * unit * across,
                    across > 0,
            ;
        }
    }
}

/// At the first of two measurements the duty is that of the first.
proof fn lemma_at_start(low: CalibrationPoint, high: CalibrationPoint, rpm: Scalar)
    requires
        plain(low),
        plain(high),
        rpm.finite(),
        rpm.value() == low.rpm.value(),
        carries(low, high, rpm),
    ensures
        ({
            let rise = high.rpm.minus(low.rpm);
            let duty = low.duty_percent.plus(
                rpm.minus(low.rpm).over(rise).times(high.duty_percent.minus(low.duty_percent)),
            );
            duty.finite() && duty.value() == low.duty_percent.value()
        }),
{
    let unit = pow2(1074);
    lemma_pow2_pos(1074);
    lemma_rise(low, high);
    let rise = high.rpm.minus(low.rpm);
    let way = rpm.minus(low.rpm);
    let climb = high.duty_percent.minus(low.duty_percent);
    crate::scalar::lemma_difference_within(high.duty_percent, low.duty_percent, 100, 100);
    assert(way.pattern() == 0) by {
        reveal(Scalar::plus);
        assert(low.rpm.negated().value() == -low.rpm.value());
    }
    let part = way.over(rise);
    assert(part.pattern() == 0) by {
        reveal(Scalar::over);
        assert(way.magnitude() == 0);
        assert(way.magnitude() * unit == 0) by (nonlinear_arith)
            requires
                way.magnitude() == 0,
        ;
        assert(rise.magnitude() > 0);
        rounding_keeps_order(0, rise.magnitude(), 0, 1);
        doubles_round_to_themselves(0);
    }
    let product = part.times(climb);
    assert(product.pattern() == 0) by {
        reveal(Scalar::times);
        assert(part.magnitude() == 0);
        assert(part.magnitude() * climb.magnitude() == 0) by (nonlinear_arith)
            requires
                part.magnitude() == 0,
        ;
        rounding_keeps_order(0, unit, 0, 1);
        doubles_round_to_themselves(0);
    }
    assert(product.value() == 0);
    crate::scalar::exact_sums_are_exact(low.duty_percent, product, low.duty_percent);
    order_is_by_value(low.duty_percent.plus(product), low.duty_percent);
}

/// Whether a stretch between two measurements gives a duty for a speed beyond doubt: it carries
/// the speed, and the line between the two is a percentage there by more than rounding can blur.
pub open spec fn surely_reaches(points: Seq<CalibrationPoint>, i: int, rpm: Scalar) -> bool {
    let low = points[i];
    let high = points[i + 1];
    let across = high.rpm.value() - low.rpm.value();
    let exact = exact_at(low, high, rpm);
    &&& carries(low, high, rpm)
    &&& LENGTH * exact >= tolerance(low, high)
    &&& LENGTH * (100 * pow2(1074) * across - exact) >= tolerance(low, high)
}

/// The exact duty between two measurements, over the whole way across.
pub open spec fn exact_at(low: CalibrationPoint, high: CalibrationPoint, rpm: Scalar) -> int {
    low.duty_percent.value() * (high.rpm.value() - low.rpm.value()) + (high.duty_percent.value()
        - low.duty_percent.value()) * (rpm.value() - low.rpm.value())
}

proof fn lemma_reaching(points: Seq<CalibrationPoint>, rpm: Scalar, n: nat)
    requires
        n <= points.len(),
        rpm.finite(),
        forall|i: int| 0 <= i < points.len() ==> plain(#[trigger] points[i]),
    ensures
        match reaching(points, rpm, n) {
            Some(d) => d.finite() && (exists|i: int|
                0 <= i < n - 1 && duty_between(#[trigger] points[i], points[i + 1], rpm) == Some(d))
                && forall|i: int|
                0 <= i < n - 1 && duty_between(#[trigger] points[i], points[i + 1], rpm) is Some
                    ==> d.value() <= (duty_between(points[i], points[i + 1], rpm)->0).value(),
            None => forall|i: int|
                0 <= i < n - 1 ==> duty_between(#[trigger] points[i], points[i + 1], rpm) is None,
        },
    decreases n,
{
    if n > 1 {
        let m = (n - 1) as nat;
        lemma_reaching(points, rpm, m);
        let low = points[n - 2];
        let high = points[n - 1];
        lemma_between(low, high, rpm);
        let before = reaching(points, rpm, m);
        let mine = duty_between(low, high, rpm);
        if let Some(b) = before {
            let i = choose|i: int|
                0 <= i < m - 1 && duty_between(#[trigger] points[i], points[i + 1], rpm) == Some(b);
            assert(duty_between(points[i], points[i + 1], rpm) == Some(b));
            if let Some(d) = mine {
                order_is_by_value(d, b);
            }
        }
        if mine is Some {
            assert(duty_between(points[n - 2], points[n - 2 + 1], rpm) == mine);
        }
    }
}

/// The duty for a speed lies on the line between two neighbouring measurements that carry the
/// speed, within rounding, and no stretch that carries the speed would reach it with less. There
/// is one wherever a stretch carries the speed beyond doubt, and none where none does.
pub proof fn a_speed_is_reached_on_a_measured_stretch(points: Seq<CalibrationPoint>, rpm: Scalar)
    requires
        rpm.finite(),
        forall|i: int| 0 <= i < points.len() ==> plain(#[trigger] points[i]),
    ensures
        match reaching(points, rpm, points.len()) {
            Some(d) => {
                &&& exists|i: int|
                    0 <= i < points.len() - 1 && carries(#[trigger] points[i], points[i + 1], rpm)
                        && off_line(by_speed(points[i]), by_speed(points[i + 1]), rpm, d)
                        <= tolerance(points[i], points[i + 1])
                &&& forall|i: int|
                    #![trigger points[i]]
                    0 <= i < points.len() - 1 && surely_reaches(points, i, rpm) ==> LENGTH * (
                    d.value() * (points[i + 1].rpm.value() - points[i].rpm.value()) - exact_at(
                        points[i],
                        points[i + 1],
                        rpm,
                    )) <= tolerance(points[i], points[i + 1])
            },
            None => forall|i: int|
                #![trigger points[i]]
                0 <= i < points.len() - 1 ==> !surely_reaches(points, i, rpm),
        },
{
    let n = points.len();
    lemma_reaching(points, rpm, n);
    assert forall|i: int|
        #![trigger points[i]]
        0 <= i < n - 1 && surely_reaches(points, i, rpm) implies duty_between(
        points[i],
        points[i + 1],
        rpm,
    ) is Some by {
        lemma_between(points[i], points[i + 1], rpm);
    }
    if let Some(d) = reaching(points, rpm, n) {
        let i = choose|i: int|
            0 <= i < n - 1 && duty_between(#[trigger] points[i], points[i + 1], rpm) == Some(d);
        lemma_between(points[i], points[i + 1], rpm);
        assert(carries(points[i], points[i + 1], rpm));
        assert forall|i: int|
            #![trigger points[i]]
            0 <= i < n - 1 && surely_reaches(points, i, rpm) implies LENGTH * (d.value() * (points[i
            + 1].rpm.value() - points[i].rpm.value()) - exact_at(points[i], points[i + 1], rpm))
            <= tolerance(points[i], points[i + 1]) by {
            lemma_between(points[i], points[i + 1], rpm);
            lemma_rise(points[i], points[i + 1]);
            let e = duty_between(points[i], points[i + 1], rpm)->0;
            let across = points[i + 1].rpm.value() - points[i].rpm.value();
            assert(d.value() * across <= e.value() * across) by (nonlinear_arith)
                requires
                    d.value() <= e.value(),
                    across >= 0,
            ;
        }
    }
}

// --- What is taken over --------------------------------------------------------------------------

/// Whether a row of a table is a measurement: a duty that is a percentage, and a speed.
pub open spec fn is_measurement(row: Seq<Option<Scalar>>, p: CalibrationPoint) -> bool {
    &&& row.len() >= 2
    &&& row[0] == Some(p.duty_percent)
    &&& row[1] == Some(p.rpm)
    &&& p.rpm.finite()
    &&& p.duty_percent.finite()
    &&& 0 <= p.duty_percent.value() <= 100 * pow2(1074)
}

/// Whether a row of a table is a measurement.
pub open spec fn measures(row: Seq<Option<Scalar>>) -> bool {
    exists|p: CalibrationPoint| is_measurement(row, p)
}

proof fn lemma_row(row: Seq<Option<Scalar>>, p: CalibrationPoint)
    ensures
        crate::fancontrol::row_point(row) == Some(p) <==> is_measurement(row, p),
{
    whole_is_exact(0);
    whole_is_exact(100);
    assert(0 * pow2(1074) == 0);
    if p.duty_percent.finite() {
        order_is_by_value(whole(0), p.duty_percent);
        order_is_by_value(p.duty_percent, whole(100));
    }
}

proof fn lemma_put(points: Seq<CalibrationPoint>, p: CalibrationPoint)
    ensures
        put_by_duty(points, p).len() == points.len() + 1,
        forall|o: CalibrationPoint| #[trigger]
            put_by_duty(points, p).contains(o) <==> points.contains(o) || o == p,
    decreases points.len(),
{
    let after = put_by_duty(points, p);
    if points.len() > 0 && p.duty_percent.precedes(points.last().duty_percent) {
        let rest = points.drop_last();
        lemma_put(rest, p);
        let moved = put_by_duty(rest, p);
        assert forall|o: CalibrationPoint| #[trigger] after.contains(o) <==> points.contains(o) || o
            == p by {
            if after.contains(o) {
                let k = after.index_of(o);
                if k < moved.len() {
                    assert(moved[k] == o);
                    assert(moved.contains(o));
                    if o != p {
                        let j = rest.index_of(o);
                        assert(points[j] == o);
                    }
                } else {
                    assert(points[points.len() - 1] == o);
                }
            }
            if points.contains(o) || o == p {
                if points.contains(o) && points.index_of(o) == points.len() - 1 {
                    assert(after[moved.len() as int] == o);
                } else {
                    if points.contains(o) {
                        assert(rest[points.index_of(o)] == o);
                    }
                    assert(moved.contains(o));
                    let k = moved.index_of(o);
                    assert(after[k] == o);
                }
            }
        }
    } else {
        assert forall|o: CalibrationPoint| #[trigger] after.contains(o) <==> points.contains(o) || o
            == p by {
            if after.contains(o) {
                let k = after.index_of(o);
                if k < points.len() {
                    assert(points[k] == o);
                }
            }
            if points.contains(o) {
                assert(after[points.index_of(o)] == o);
            }
            assert(after[points.len() as int] == p);
        }
    }
}

/// How many of the first `n` rows are measurements.
pub open spec fn measurements(rows: Seq<Seq<Option<Scalar>>>, n: nat) -> nat
    decreases n,
{
    if n == 0 {
        0
    } else {
        measurements(rows, (n - 1) as nat) + if measures(rows[n - 1]) {
            1nat
        } else {
            0
        }
    }
}

/// Every row that is a measurement is taken over as it stands, once, and nothing else is.
pub proof fn every_measurement_is_taken_over(rows: Seq<Seq<Option<Scalar>>>, n: nat)
    requires
        n <= rows.len(),
    ensures
        measured_points(rows, n).len() == measurements(rows, n),
        forall|p: CalibrationPoint| #[trigger]
            measured_points(rows, n).contains(p) <==> exists|i: int|
                0 <= i < n && is_measurement(#[trigger] rows[i], p),
    decreases n,
{
    if n > 0 {
        let m = (n - 1) as nat;
        every_measurement_is_taken_over(rows, m);
        let before = measured_points(rows, m);
        let after = measured_points(rows, n);
        let row = rows[n - 1];
        assert forall|p: CalibrationPoint| crate::fancontrol::row_point(row) == Some(p)
            <==> #[trigger] is_measurement(row, p) by {
            lemma_row(row, p);
        }
        if let Some(p) = crate::fancontrol::row_point(rows[n - 1]) {
            lemma_put(before, p);
            assert(is_measurement(rows[n - 1], p));
        }
        assert forall|p: CalibrationPoint| #[trigger] after.contains(p) <==> exists|i: int|
            0 <= i < n && is_measurement(#[trigger] rows[i], p) by {
            if before.contains(p) {
                let i = choose|i: int| 0 <= i < m && is_measurement(#[trigger] rows[i], p);
                assert(is_measurement(rows[i], p));
            }
            if exists|i: int| 0 <= i < n && is_measurement(#[trigger] rows[i], p) {
                let i = choose|i: int| 0 <= i < n && is_measurement(#[trigger] rows[i], p);
                if i < m {
                    assert(before.contains(p));
                }
            }
            if after.contains(p) && !before.contains(p) {
                assert(is_measurement(rows[n - 1], p));
            }
        }
    } else {
        assert(measured_points(rows, 0) =~= Seq::empty());
    }
}

/// The notes that need attention are listed by where they stand, in order, all of them and no
/// others.
pub proof fn what_needs_attention_is_listed(notes: Seq<NoteView>, n: nat)
    requires
        n <= notes.len(),
    ensures
        forall|i: int|
            0 <= i < n ==> ((#[trigger] notes[i]).fidelity == Fidelity::NeedsAttention <==> urgent(
                notes,
                n,
            ).contains(i)),
        forall|k: int|
            0 <= k < urgent(notes, n).len() ==> 0 <= #[trigger] urgent(notes, n)[k] < n,
        forall|j: int, k: int|
            0 <= j < k < urgent(notes, n).len() ==> #[trigger] urgent(notes, n)[j]
                < #[trigger] urgent(notes, n)[k],
    decreases n,
{
    if n > 0 {
        let m = (n - 1) as nat;
        what_needs_attention_is_listed(notes, m);
        let before = urgent(notes, m);
        let after = urgent(notes, n);
        assert forall|i: int| 0 <= i < n implies ((#[trigger] notes[i]).fidelity
            == Fidelity::NeedsAttention <==> after.contains(i)) by {
            if i < m {
                if before.contains(i) {
                    assert(after[before.index_of(i)] == i);
                }
                if after.contains(i) {
                    let k = after.index_of(i);
                    assert(k < before.len());
                    assert(before[k] == i);
                }
            } else {
                if notes[i].fidelity == Fidelity::NeedsAttention {
                    assert(after[before.len() as int] == i);
                } else if after.contains(i) {
                    let k = after.index_of(i);
                    assert(before[k] == i);
                }
            }
        }
    }
}

// --- Controls ------------------------------------------------------------------------------------

/// Whether the fan of a control is one of this machine's and was measured.
pub open spec fn was_measured(control: ControlView, hw: HardwareView) -> bool {
    channel_for(control.identifier, hw) is Some && measurements(
        control.calibration,
        control.calibration.len(),
    ) > 0
}

/// Whether a calibration is that of a control's fan: under the channel that the control names and
/// the control's own label, with all that was measured and the control's settings.
pub open spec fn calibrates(c: CalibrationView, control: ControlView, hw: HardwareView) -> bool {
    &&& channel_for(control.identifier, hw) == Some(c.channel)
    &&& c.label == control.label()
    &&& c.points == measured_points(control.calibration, control.calibration.len())
    &&& c.start_percent == above_zero(control.selected_start)
    &&& c.stop_percent == above_zero(control.selected_stop)
    &&& c.minimum_percent == above_zero(control.minimum_percent)
}

proof fn lemma_calibrated(
    p: Progress,
    control: ControlView,
    curves: Seq<CurveView>,
    hw: HardwareView,
)
    ensures
        ({
            let after = control_imported(p, control, curves, hw).calibration;
            if was_measured(control, hw) {
                &&& after.len() == p.calibration.len() + 1
                &&& after.drop_last() == p.calibration
                &&& calibrates(after.last(), control, hw)
            } else {
                after == p.calibration
            }
        }),
{
    every_measurement_is_taken_over(control.calibration, control.calibration.len());
    if let Some(channel) = channel_for(control.identifier, hw) {
        let known = calibrated(p, control, channel);
        assert(control_imported(p, control, curves, hw).calibration == known.calibration);
        if was_measured(control, hw) {
            assert(known.calibration.drop_last() =~= p.calibration);
        }
    }
}

/// Whether positions pick the measured ones of the first `n` controls, in order.
pub open spec fn picks_measured(section: SectionView, hw: HardwareView, n: nat, at: Seq<int>) -> bool {
    &&& forall|k: int|
        0 <= k < at.len() ==> 0 <= #[trigger] at[k] < n && was_measured(
            section.controls[at[k]],
            hw,
        )
    &&& forall|j: int, k: int| 0 <= j < k < at.len() ==> #[trigger] at[j] < #[trigger] at[k]
    &&& forall|i: int|
        0 <= i < n && was_measured(#[trigger] section.controls[i], hw) ==> at.contains(i)
}

proof fn lemma_all_calibrated(
    version: Option<Text>,
    section: SectionView,
    hw: HardwareView,
    n: nat,
) -> (at: Seq<int>)
    requires
        n <= section.controls.len(),
    ensures
        picks_measured(section, hw, n, at),
        at.len() == controls_imported(begun(version), section, hw, n).calibration.len(),
        forall|k: int|
            0 <= k < at.len() ==> calibrates(
                controls_imported(begun(version), section, hw, n).calibration[k],
                section.controls[#[trigger] at[k]],
                hw,
            ),
    decreases n,
{
    if n == 0 {
        Seq::empty()
    } else {
        let m = (n - 1) as nat;
        let before = lemma_all_calibrated(version, section, hw, m);
        let p = controls_imported(begun(version), section, hw, m);
        let q = controls_imported(begun(version), section, hw, n);
        let control = section.controls[n - 1];
        lemma_calibrated(p, control, section.fan_curves, hw);
        if was_measured(control, hw) {
            let at = before.push(n - 1);
            assert forall|i: int|
                0 <= i < n && was_measured(#[trigger] section.controls[i], hw) implies at.contains(
                i,
            ) by {
                if i < m {
                    assert(at[before.index_of(i)] == i);
                } else {
                    assert(at[before.len() as int] == i);
                }
            }
            assert forall|k: int| 0 <= k < at.len() implies calibrates(
                q.calibration[k],
                section.controls[#[trigger] at[k]],
                hw,
            ) by {
                if k < before.len() {
                    assert(at[k] == before[k]);
                    assert(q.calibration.drop_last()[k] == q.calibration[k]);
                }
            }
            at
        } else {
            before
        }
    }
}

/// What was measured of a fan is taken over for every control that names a channel of this
/// machine, whether it is switched on or not, once each and in order.
pub proof fn every_measured_fan_is_taken_over(
    version: Option<Text>,
    section: SectionView,
    hw: HardwareView,
) -> (at: Seq<int>)
    ensures
        picks_measured(section, hw, section.controls.len(), at),
        at.len() == section_imported(version, section, hw).calibration.len(),
        forall|k: int|
            0 <= k < at.len() ==> calibrates(
                section_imported(version, section, hw).calibration[k],
                section.controls[#[trigger] at[k]],
                hw,
            ),
{
    lemma_all_calibrated(version, section, hw, section.controls.len())
}

/// Whether a setting is more than nothing.
pub open spec fn is_set(v: Option<Scalar>) -> bool {
    v matches Some(x) && x.finite() && x.value() > 0
}

proof fn lemma_set(v: Option<Scalar>)
    requires
        is_set(v),
    ensures
        above_zero(v) is Some,
{
    whole_is_exact(0);
    assert(0 * pow2(1074) == 0);
    order_is_by_value(whole(0), v->0);
}

/// A control whose channel is not there, that is switched off, or whose channel another control
/// drives already is left out, and said to be.
pub proof fn what_is_left_out_is_said_to_be(
    p: Progress,
    control: ControlView,
    curves: Seq<CurveView>,
    hw: HardwareView,
)
    requires
        channel_for(control.identifier, hw) matches Some(channel) ==> !control.enable || has_output(
            p.work.sketch,
            channel,
        ),
    ensures
        ({
            let q = control_imported(p, control, curves, hw);
            &&& q.work.sketch == p.work.sketch
            &&& q.work.notes.len() == p.work.notes.len() + 1
            &&& q.work.notes.last().subject == control.label()
            &&& q.work.notes.last().fidelity is Skipped
        }),
{
}

proof fn lemma_no_output_from_a_source(
    p: Progress,
    control: ControlView,
    name: Text,
    raw: CurveView,
    section: SectionView,
    hw: HardwareView,
    channel: Text,
)
    ensures
        has_output(
            sourced(p, control, control.label(), name, raw, hw).0.work.sketch,
            channel,
        ) ==> has_output(p.work.sketch, channel),
{
    let label = control.label();
    let before = p.work.sketch;
    let after = sourced(p, control, label, name, raw, hw).0.work.sketch;
    if let Some(rpm) = asked_speed(raw) {
        lemma_speed(p.work, rpm, raw, control, label, p.row, section, hw, 0);
    } else {
        lemma_curve(p.work, raw, hw, p.row, section, 0);
    }
    assert(harmless(before, after, section, hw, 0));
    if has_output(after, channel) {
        let id = choose|id: Text| #[trigger]
            after.nodes.dom().contains(id) && after.nodes[id].kind == (KindView::FanOutput {
                channel,
            });
        assert(before.nodes.dom().contains(id));
    }
}

/// A fan that was allowed to stop is not left without a warning: where its control follows a
/// curve here, the last thing said of it asks for attention.
pub proof fn a_fan_that_may_stop_is_warned_of(
    p: Progress,
    control: ControlView,
    curves: Seq<CurveView>,
    hw: HardwareView,
    channel: Text,
)
    requires
        channel_for(control.identifier, hw) == Some(channel),
        control.enable,
        !control.manual_control,
        !has_output(p.work.sketch, channel),
        has_output(control_imported(p, control, curves, hw).work.sketch, channel),
        is_set(control.selected_stop) || is_set(control.selected_start),
    ensures
        ({
            let notes = control_imported(p, control, curves, hw).work.notes;
            &&& notes.last().subject == control.label()
            &&& notes.last().fidelity is NeedsAttention
        }),
{
    if is_set(control.selected_stop) {
        lemma_set(control.selected_stop);
    }
    if is_set(control.selected_start) {
        lemma_set(control.selected_start);
    }
    let known = calibrated(p, control, channel);
    assert(known.work == p.work);
    let name = control.selected_fan_curve->0;
    let raw = curve_named(curves, name, curves.len())->0;
    if control.selected_fan_curve is Some && curve_named(curves, name, curves.len()) is Some {
        let section = SectionView { controls: seq![control], fan_curves: curves };
        lemma_no_output_from_a_source(known, control, name, raw, section, hw, channel);
    }
}

} // verus!
