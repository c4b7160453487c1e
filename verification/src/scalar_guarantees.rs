//! What comparing, choosing and rounding numbers comes to, in terms of what the numbers stand for.
use crate::chip_guarantees::{lemma_rounded, lemma_unit};
use crate::eval::{evaluated, first, InputsView, StateView, TickView};
use crate::fancontrol::{above_zero, is_percentage, to_tenths};
use crate::nct6775::if_believable;
use crate::node::KindView;
use crate::node_behaviour::lemma_quotient;
use crate::rounding::{apart, products_round_closely, slip, LENGTH};
use crate::scalar::{
    doubles_round_to_themselves, lemma_whole_pattern, lemma_within, order_is_by_value,
    rounding_keeps_order, tenths_stay_percentages, whole, whole_is_exact, Scalar,
};
use crate::text::Text;
use crate::units::{Quantity, Value};
use vstd::arithmetic::power2::{lemma_pow2_pos, pow2};
use vstd::prelude::*;

verus! {

// --- Choosing ------------------------------------------------------------------------------------

/// Of two numbers the larger is one of them and no less than either.
pub proof fn the_larger_is_no_less_than_either(a: Scalar, b: Scalar)
    requires
        a.finite(),
        b.finite(),
    ensures
        a.larger(b) == a || a.larger(b) == b,
        a.larger(b).value() >= a.value(),
        a.larger(b).value() >= b.value(),
{
    order_is_by_value(a, b);
}

/// Of two numbers the smaller is one of them and no more than either.
pub proof fn the_smaller_is_no_more_than_either(a: Scalar, b: Scalar)
    requires
        a.finite(),
        b.finite(),
    ensures
        a.smaller(b) == a || a.smaller(b) == b,
        a.smaller(b).value() <= a.value(),
        a.smaller(b).value() <= b.value(),
{
    order_is_by_value(b, a);
}

/// What is no number is not chosen over a number.
pub proof fn a_number_is_chosen_over_none(a: Scalar, b: Scalar)
    requires
        a.nan(),
    ensures
        a.larger(b) == b,
        a.smaller(b) == b,
        !b.nan() ==> b.larger(a) == b && b.smaller(a) == b,
{
}

/// A number is confined to the nearest between two bounds.
pub proof fn what_is_confined_is_the_nearest_between(x: Scalar, low: Scalar, high: Scalar)
    requires
        x.finite(),
        low.finite(),
        high.finite(),
        low.value() <= high.value(),
    ensures
        low.value() <= x.confined(low, high).value() <= high.value(),
        low.value() <= x.value() <= high.value() ==> x.confined(low, high) == x,
        x.value() < low.value() ==> x.confined(low, high) == low,
        x.value() > high.value() ==> x.confined(low, high) == high,
{
    order_is_by_value(x, low);
    order_is_by_value(high, x);
}

/// Numbers that differ stand in the order of what they stand for, and every two patterns stand in
/// one order.
pub proof fn numbers_are_sorted_by_value(a: Scalar, b: Scalar)
    requires
        a.finite(),
        b.finite(),
    ensures
        a.value() < b.value() ==> a.precedes(b),
        a.precedes(b) ==> a.value() <= b.value(),
        !(a.precedes(b) && b.precedes(a)),
{
    order_is_by_value(a, b);
    order_is_by_value(b, a);
}

// --- Ranges --------------------------------------------------------------------------------------

/// Only duties and loads have a range, which goes from nothing to a hundred.
pub proof fn duties_and_loads_are_percentages(q: Quantity, v: Scalar)
    requires
        v.finite(),
    ensures
        q is Duty || q is Load ==> 0 <= q.clamped(v).value() <= 100 * pow2(1074),
        0 <= v.value() <= 100 * pow2(1074) ==> q.clamped(v) == v,
        !(q is Duty) && !(q is Load) ==> q.clamped(v) == v,
{
    whole_is_exact(0);
    whole_is_exact(100);
    lemma_pow2_pos(1074);
    assert(0 * pow2(1074) == 0);
    order_is_by_value(v, whole(0));
    order_is_by_value(whole(100), v);
}

/// A percentage goes from nothing to a hundred.
pub proof fn a_percentage_goes_from_nothing_to_a_hundred(v: Scalar)
    ensures
        is_percentage(v) <==> v.finite() && 0 <= v.value() <= 100 * pow2(1074),
{
    whole_is_exact(0);
    whole_is_exact(100);
    assert(0 * pow2(1074) == 0);
    if v.finite() {
        order_is_by_value(whole(0), v);
        order_is_by_value(v, whole(100));
    }
}

/// A setting counts where it is more than nothing.
pub proof fn a_setting_counts_above_nothing(v: Option<Scalar>)
    requires
        v matches Some(x) ==> x.finite(),
    ensures
        above_zero(v) == if v is Some && (v->0).value() > 0 {
            v
        } else {
            None
        },
{
    whole_is_exact(0);
    assert(0 * pow2(1074) == 0);
    if let Some(x) = v {
        order_is_by_value(whole(0), x);
    }
}

/// A temperature is believed from forty degrees below nothing to a hundred and fifty above.
pub proof fn a_believable_temperature_is_kept(celsius: Scalar)
    requires
        celsius.finite(),
    ensures
        if_believable(celsius) == if -40 * (pow2(1074) as int) <= celsius.value() <= 150 * (pow2(
            1074,
        ) as int) {
            Some(celsius)
        } else {
            None
        },
{
    whole_is_exact(40);
    whole_is_exact(150);
    let low = whole(40).negated();
    order_is_by_value(low, celsius);
    order_is_by_value(celsius, whole(150));
}

// --- Outputs -------------------------------------------------------------------------------------

/// An output commands its channel, and no other, to what it is given, brought between nothing and
/// a hundred.
pub proof fn an_output_commands_what_it_is_given(
    channel: Text,
    inputs: InputsView,
    tick: TickView,
    state: StateView,
    out_type: Option<Quantity>,
    v: Value,
)
    requires
        first(inputs, "duty"@) == Some(v),
        v.scalar.finite(),
    ensures
        ({
            let said = evaluated(
                KindView::FanOutput { channel },
                inputs,
                tick,
                state,
                out_type,
            ).0;
            &&& said.faults.len() == 0
            &&& said.commands.len() == 1
            &&& said.commands[0].0 == channel
            &&& said.commands[0].1.quantity is Duty
            &&& 0 <= said.commands[0].1.scalar.value() <= 100 * pow2(1074)
            &&& 0 <= v.scalar.value() <= 100 * pow2(1074) ==> said.commands[0].1.scalar == v.scalar
            &&& v.scalar.value() < 0 ==> said.commands[0].1.scalar.value() == 0
            &&& v.scalar.value() > 100 * pow2(1074) ==> said.commands[0].1.scalar.value() == 100
                * pow2(1074)
        }),
{
    whole_is_exact(0);
    whole_is_exact(100);
    lemma_pow2_pos(1074);
    assert(0 * pow2(1074) == 0);
    order_is_by_value(v.scalar, whole(0));
    order_is_by_value(whole(100), v.scalar);
}

// --- Tenths --------------------------------------------------------------------------------------

proof fn lemma_tenfold(duty: Scalar)
    requires
        duty.finite(),
        0 <= duty.value() <= 100 * pow2(1074),
    ensures
        ({
            let r = duty.times(whole(10));
            &&& r.finite()
            &&& 0 <= r.value() <= 1000 * pow2(1074)
            &&& 1000 * apart(r.value(), duty.value() * 10) <= pow2(1074)
        }),
{
    let unit = pow2(1074);
    lemma_unit();
    lemma_pow2_pos(1074);
    whole_is_exact(10);
    let w = whole(10);
    let r = duty.times(w);
    let m = duty.magnitude();
    assert(m <= 100 * unit);
    assert(r.finite() && r.magnitude() <= 1000 * unit) by {
        reveal(Scalar::times);
        assert((m * (10 * unit)) * 1 <= (1000 * unit) * unit) by (nonlinear_arith)
            requires
                m <= 100 * unit,
                unit > 0,
        ;
        rounding_keeps_order(m * (10 * unit), unit, 1000 * unit, 1);
        lemma_whole_pattern(1000);
        lemma_within(r, 1000);
    }
    assert(r.value() >= 0) by {
        reveal(Scalar::times);
        if duty.neg() {
            assert(m == 0);
            assert(m * w.magnitude() == 0) by (nonlinear_arith)
                requires
                    m == 0,
            ;
            rounding_keeps_order(0, unit, 0, 1);
            doubles_round_to_themselves(0);
        }
    }
    let size = (1000 * unit) as nat;
    let d = duty.value();
    assert(apart(d * (10 * unit), 0) <= size * unit) by (nonlinear_arith)
        requires
            0 <= d <= 100 * unit,
            size == 1000 * unit,
            unit > 0,
    ;
    products_round_closely(duty, w, size);
    let l = LENGTH as int;
    let e = slip(size) as int;
    let share = size / LENGTH as nat;
    assert(l * share <= size) by (nonlinear_arith)
        requires
            share == size / LENGTH as nat,
            l == LENGTH,
            l > 0,
    ;
    let off = apart(r.value(), d * 10) as int;
    assert(off <= e) by {
        let x = r.value() - d * 10;
        assert(r.value() * unit - d * (10 * unit) == x * unit) by (nonlinear_arith)
            requires
                x == r.value() - d * 10,
        ;
        assert(apart(r.value() * unit, d * (10 * unit)) == off * unit) by (nonlinear_arith)
            requires
                r.value() * unit - d * (10 * unit) == x * unit,
                x == r.value() - d * 10,
                off == apart(r.value(), d * 10),
                unit > 0,
        ;
        assert(off <= e) by (nonlinear_arith)
            requires
                off * unit <= e * unit,
                unit > 0,
        ;
    }
    assert(1000 * off <= unit) by (nonlinear_arith)
        requires
            off <= e,
            e == share + 2,
            l * share <= size,
            size == 1000 * unit,
            l == 0x20_0000_0000_0000,
            unit >= 0x1000_0000_0000_0000_0000,
    ;
}

/// A duty is rounded to the nearest tenth of a percent: to a number of tenths, which is within
/// half a tenth of it and a hair.
pub proof fn a_duty_is_rounded_to_the_nearest_tenth(duty: Scalar) -> (n: nat)
    requires
        duty.finite(),
        0 <= duty.value() <= 100 * pow2(1074),
    ensures
        to_tenths(duty).finite(),
        n <= 1000,
        500 * apart(to_tenths(duty).value() * 10, n * pow2(1074) as int) <= pow2(1074),
        500 * apart(n * pow2(1074) as int, duty.value() * 10) <= 251 * pow2(1074),
{
    let unit = pow2(1074);
    lemma_unit();
    lemma_pow2_pos(1074);
    whole_is_exact(0);
    whole_is_exact(100);
    whole_is_exact(10);
    assert(0 * unit == 0);
    order_is_by_value(whole(0), duty);
    order_is_by_value(duty, whole(100));
    tenths_stay_percentages(duty);
    lemma_tenfold(duty);
    let x = duty.times(whole(10));
    let n = lemma_rounded(x);
    let r = x.rounded();
    assert(n <= 1000) by (nonlinear_arith)
        requires
            2 * apart(n * unit as int, x.value()) <= unit,
            x.value() <= 1000 * unit,
            unit > 0,
    ;
    lemma_quotient(r, 10);
    let l = LENGTH as int;
    let off = apart(r.over(whole(10)).value() * 10, r.value()) as int;
    assert(r.magnitude() <= 1000 * unit) by {
        assert(n * unit <= 1000 * unit) by (nonlinear_arith)
            requires
                n <= 1000,
                unit > 0,
        ;
    }
    assert(500 * off <= unit) by (nonlinear_arith)
        requires
            l * off <= 1000 * unit + l * 10,
            l == 0x20_0000_0000_0000,
            unit >= 0x1000_0000_0000_0000_0000,
            off >= 0,
    ;
    n
}

} // verus!
