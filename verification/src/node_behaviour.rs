//! What every kind of node does to the numbers that reach it.
use crate::eval::{
    decay_exponent, decay_for, evaluated, interpolated, mixed, smallest, total, window_after,
    InputsView, StateView, TickView,
};
use crate::node::{Compare, CurvePoint, KindView, MixMode};
use crate::rounding::{
    apart, blur, factors_may_be_swapped, means_round_closely, products_round_closely, slip,
    sums_round_closely, the_nearest_is_near, LENGTH,
};
use crate::scalar::{
    exact_sums_are_exact, lemma_magnitude_order, magnitude_of, nearest, order_is_by_value, whole,
    whole_is_exact, Scalar, EPSILON_BITS,
};
use crate::text::Text;
use crate::units::{Quantity, Value};
use vstd::arithmetic::power2::{lemma_pow2_pos, pow2};
use vstd::prelude::*;

verus! {

// --- What reaches a node, and what it makes ------------------------------------------------------

/// Whether a value is the first on a port.
pub open spec fn reached(inputs: InputsView, key: Text, v: Value) -> bool {
    inputs.dom().contains(key) && inputs[key].len() > 0 && inputs[key][0] == v
}

/// The one value that a node puts on its output.
pub open spec fn made(
    kind: KindView,
    inputs: InputsView,
    t: TickView,
    state: StateView,
    out: Option<Quantity>,
) -> Value {
    evaluated(kind, inputs, t, state, out).0.outputs[0].1
}

/// What a node remembers after a tick.
pub open spec fn kept(
    kind: KindView,
    inputs: InputsView,
    t: TickView,
    state: StateView,
    out: Option<Quantity>,
) -> StateView {
    evaluated(kind, inputs, t, state, out).1
}

/// Every kind of node but an output and a delay puts one value on one output. What transforms a
/// value keeps what it measures; a curve and a controller give a duty, a comparator gives a
/// flag, and what says what it gives, gives that.
pub proof fn nodes_give_what_they_measure(
    kind: KindView,
    inputs: InputsView,
    t: TickView,
    state: StateView,
    out: Option<Quantity>,
    v: Value,
)
    requires
        !(kind is FanOutput),
        !(kind is Delay),
        reached(inputs, "in"@, v),
    ensures
        ({
            let made = evaluated(kind, inputs, t, state, out).0;
            let q = made.outputs[0].1.quantity;
            &&& made.outputs.len() == 1
            &&& made.outputs[0].0 == "out"@
            &&& made.commands.len() == 0
            &&& made.faults.len() == 0
            &&& match kind {
                KindView::Sensor { quantity, .. } => q == quantity,
                KindView::Constant { .. } => out matches Some(o) ==> q == o,
                KindView::Curve { .. } | KindView::Pid { .. } => q == Quantity::Duty,
                KindView::Comparator { .. } => q == Quantity::Boolean,
                KindView::Reinterpret { to, .. } => q == to,
                KindView::Select => true,
                _ => q == v.quantity,
            }
        }),
{
}

// --- Sources -------------------------------------------------------------------------------------

/// A sensor gives what was read, and no number where nothing was, or something else.
pub proof fn a_sensor_gives_its_reading(
    id: Text,
    quantity: Quantity,
    inputs: InputsView,
    t: TickView,
    state: StateView,
    out: Option<Quantity>,
)
    ensures
        ({
            let kind = KindView::Sensor { sensor_id: id, quantity };
            let y = made(kind, inputs, t, state, out).scalar;
            &&& t.sensors.dom().contains(id) && t.sensors[id].quantity == quantity ==> y
                == t.sensors[id].scalar
            &&& !t.sensors.dom().contains(id) || t.sensors[id].quantity != quantity ==> y.nan()
        }),
{
}

/// A constant gives its value, and never more than its quantity allows.
pub proof fn a_constant_gives_its_value(
    value: Scalar,
    inputs: InputsView,
    t: TickView,
    state: StateView,
    out: Option<Quantity>,
)
    requires
        value.finite(),
    ensures
        ({
            let y = made(KindView::Constant { value }, inputs, t, state, out).scalar;
            &&& out != Some(Quantity::Duty) && out != Some(Quantity::Load) ==> y == value
            &&& 0 <= value.value() <= 100 * pow2(1074) ==> y == value
            &&& (out == Some(Quantity::Duty) || out == Some(Quantity::Load)) && value.value() < 0
                ==> y == whole(0)
            &&& (out == Some(Quantity::Duty) || out == Some(Quantity::Load)) && value.value() > 100
                * pow2(1074) ==> y == whole(100)
        }),
{
    lemma_percents(value);
}

proof fn lemma_percents(value: Scalar)
    requires
        value.finite(),
    ensures
        whole(0).finite(),
        whole(100).finite(),
        value.below(whole(0)) <==> value.value() < 0,
        whole(100).below(value) <==> value.value() > 100 * pow2(1074),
        whole(0).at_most(value) <==> value.value() >= 0,
{
    whole_is_exact(0);
    whole_is_exact(100);
    lemma_pow2_pos(1074);
    assert(0 * pow2(1074) == 0);
    order_is_by_value(value, whole(0));
    order_is_by_value(whole(0), value);
    order_is_by_value(whole(100), value);
}

// --- Arithmetic ----------------------------------------------------------------------------------

/// A clamp gives the nearest number within its bounds, and passes on what is no number.
pub proof fn a_clamp_gives_the_nearest_within_bounds(
    min: Scalar,
    max: Scalar,
    inputs: InputsView,
    t: TickView,
    state: StateView,
    out: Option<Quantity>,
    v: Value,
)
    requires
        reached(inputs, "in"@, v),
        min.finite(),
        max.finite(),
        min.value() <= max.value(),
    ensures
        ({
            let y = made(KindView::Clamp { min, max }, inputs, t, state, out).scalar;
            let x = v.scalar;
            if !x.finite() {
                y == x
            } else if x.value() < min.value() {
                y == min
            } else if max.value() < x.value() {
                y == max
            } else {
                y == x
            }
        }),
{
    if v.scalar.finite() {
        order_is_by_value(v.scalar, min);
        order_is_by_value(max, v.scalar);
    }
}

/// An offset adds to what reaches it, within rounding.
pub proof fn an_offset_adds(
    delta: Scalar,
    inputs: InputsView,
    t: TickView,
    state: StateView,
    out: Option<Quantity>,
    v: Value,
    size: nat,
)
    requires
        reached(inputs, "in"@, v),
        v.scalar.finite(),
        delta.finite(),
        made(KindView::Offset { delta }, inputs, t, state, out).scalar.finite(),
        apart(v.scalar.value() + delta.value(), 0) <= size,
    ensures
        apart(
            made(KindView::Offset { delta }, inputs, t, state, out).scalar.value(),
            v.scalar.value() + delta.value(),
        ) <= slip(size),
{
    sums_round_closely(v.scalar, delta, size);
}

/// A factor multiplies what reaches it, within rounding.
pub proof fn a_factor_multiplies(
    factor: Scalar,
    inputs: InputsView,
    t: TickView,
    state: StateView,
    out: Option<Quantity>,
    v: Value,
    size: nat,
)
    requires
        reached(inputs, "in"@, v),
        v.scalar.finite(),
        factor.finite(),
        made(KindView::Scale { factor }, inputs, t, state, out).scalar.finite(),
        apart(v.scalar.value() * factor.value(), 0) <= size * pow2(1074),
    ensures
        apart(
            made(KindView::Scale { factor }, inputs, t, state, out).scalar.value() * pow2(1074),
            v.scalar.value() * factor.value(),
        ) <= slip(size) * pow2(1074),
{
    products_round_closely(v.scalar, factor, size);
}

/// Calling a number something else does not change it.
pub proof fn a_reinterpreted_number_stays(
    kind: KindView,
    inputs: InputsView,
    t: TickView,
    state: StateView,
    out: Option<Quantity>,
    v: Value,
)
    requires
        kind is Reinterpret,
        reached(inputs, "in"@, v),
    ensures
        made(kind, inputs, t, state, out).scalar == v.scalar,
{
}

/// A curve gives the duty that it has at what reaches it.
pub proof fn a_curve_gives_its_height(
    points: Seq<CurvePoint>,
    inputs: InputsView,
    t: TickView,
    state: StateView,
    out: Option<Quantity>,
    v: Value,
)
    requires
        reached(inputs, "in"@, v),
    ensures
        made(KindView::Curve { points }, inputs, t, state, out) == (Value {
            quantity: Quantity::Duty,
            scalar: interpolated(points, v.scalar),
        }),
{
}

// --- Mixing --------------------------------------------------------------------------------------

/// A mix takes all that reaches it, in order.
pub proof fn a_mix_takes_all_that_reaches_it(
    mode: MixMode,
    inputs: InputsView,
    t: TickView,
    state: StateView,
    out: Option<Quantity>,
    values: Seq<Scalar>,
)
    requires
        inputs.dom().contains("in"@),
        values.len() == inputs["in"@].len(),
        forall|i: int| 0 <= i < values.len() ==> values[i] == (#[trigger] inputs["in"@][i]).scalar,
    ensures
        made(KindView::Mix { mode }, inputs, t, state, out).scalar == mixed(mode, values),
{
    assert(inputs["in"@].map_values(|v: Value| v.scalar) =~= values);
}

/// A minimum is one of its inputs, and none is below it.
pub proof fn a_minimum_is_the_lowest(values: Seq<Scalar>)
    requires
        values.len() > 0,
        forall|i: int| 0 <= i < values.len() ==> (#[trigger] values[i]).finite(),
    ensures
        mixed(MixMode::Min, values).finite(),
        exists|i: int| 0 <= i < values.len() && #[trigger] values[i] == mixed(MixMode::Min, values),
        forall|i: int|
            0 <= i < values.len() ==> mixed(MixMode::Min, values).value() <= (
            #[trigger] values[i]).value(),
    decreases values.len(),
{
    if values.len() > 1 {
        let rest = values.drop_last();
        assert forall|i: int| 0 <= i < rest.len() implies (#[trigger] rest[i]).finite() by {
            assert(rest[i] == values[i]);
        }
        a_minimum_is_the_lowest(rest);
        let k = choose|k: int| 0 <= k < rest.len() && #[trigger] rest[k] == smallest(rest);
        assert(values[k] == rest[k]);
        let last = values[values.len() - 1];
        order_is_by_value(last, smallest(rest));
        assert forall|i: int| 0 <= i < values.len() implies smallest(values).value() <= (
        #[trigger] values[i]).value() by {
            if i < rest.len() {
                assert(values[i] == rest[i]);
            }
        }
    } else {
        assert(values[0].finite());
    }
}

/// What numbers come to when they are added up exactly.
pub open spec fn exact_sum(values: Seq<Scalar>) -> int
    decreases values.len(),
{
    if values.len() == 0 {
        0
    } else {
        exact_sum(values.drop_last()) + values.last().value()
    }
}

/// How far from zero numbers are, all together.
pub open spec fn all_magnitudes(values: Seq<Scalar>) -> nat
    decreases values.len(),
{
    if values.len() == 0 {
        0
    } else {
        all_magnitudes(values.drop_last()) + values.last().magnitude()
    }
}

proof fn lemma_total(values: Seq<Scalar>, size: nat)
    requires
        values.len() > 0,
        forall|i: int| 0 <= i < values.len() ==> (#[trigger] values[i]).finite(),
        total(values).finite(),
        all_magnitudes(values) + values.len() * slip(size) <= size,
    ensures
        apart(total(values).value(), exact_sum(values)) <= values.len() * slip(size),
        apart(exact_sum(values), 0) <= all_magnitudes(values),
    decreases values.len(),
{
    let n = values.len();
    let s = slip(size);
    if n == 1 {
        assert(values.drop_last() =~= Seq::empty());
        assert(exact_sum(values.drop_last()) == 0);
        assert(all_magnitudes(values.drop_last()) == 0);
        assert(values.last() == values[0]);
    } else {
        let rest = values.drop_last();
        let last = values[n - 1];
        assert forall|i: int| 0 <= i < rest.len() implies (#[trigger] rest[i]).finite() by {
            assert(rest[i] == values[i]);
        }
        assert(n * s == (n - 1) * s + s) by (nonlinear_arith);
        assert((n - 1) * s >= 0) by (nonlinear_arith)
            requires
                n >= 1,
                s >= 0,
        ;
        assert(total(rest).finite()) by {
            if !total(rest).finite() {
                crate::scalar::what_is_not_finite_is_kept(total(rest), last);
            }
        }
        lemma_total(rest, size);
        sums_round_closely(total(rest), last, size);
    }
}

/// A sum adds up all its inputs, and an average divides that by how many they are: within the
/// rounding of the additions, and of the division.
pub proof fn a_sum_adds_up_its_inputs(values: Seq<Scalar>, size: nat)
    requires
        values.len() > 0,
        forall|i: int| 0 <= i < values.len() ==> (#[trigger] values[i]).finite(),
        mixed(MixMode::Sum, values).finite(),
        all_magnitudes(values) + values.len() * slip(size) <= size,
    ensures
        apart(mixed(MixMode::Sum, values).value(), exact_sum(values)) <= values.len() * slip(size),
{
    lemma_total(values, size);
}

/// An average is its inputs' sum divided by how many they are, within rounding.
pub proof fn an_average_divides_the_sum(values: Seq<Scalar>)
    requires
        0 < values.len() < 0x20_0000_0000_0000,
        forall|i: int| 0 <= i < values.len() ==> (#[trigger] values[i]).finite(),
        mixed(MixMode::Sum, values).finite(),
        mixed(MixMode::Average, values).finite(),
    ensures
        ({
            let sum = mixed(MixMode::Sum, values);
            LENGTH * apart(
                mixed(MixMode::Average, values).value() * values.len(),
                sum.value(),
            ) <= sum.magnitude() + LENGTH * values.len()
        }),
{
    let sum = mixed(MixMode::Sum, values);
    let n = values.len();
    whole_is_exact(n);
    lemma_quotient(sum, n);
}

/// A quotient by a whole number, times that number, is near what was divided.
pub proof fn lemma_quotient(sum: Scalar, n: nat)
    requires
        0 < n < 0x20_0000_0000_0000,
        sum.finite(),
        sum.over(whole(n)).finite(),
    ensures
        LENGTH * apart(sum.over(whole(n)).value() * n, sum.value()) <= sum.magnitude() + LENGTH * n,
{
    reveal(Scalar::over);
    let unit = pow2(1074);
    lemma_pow2_pos(1074);
    whole_is_exact(n);
    let w = whole(n);
    let r = sum.over(w);
    let a = (sum.magnitude() * unit) as nat;
    let d = w.magnitude();
    assert(n * unit > 0) by (nonlinear_arith)
        requires
            n > 0,
            unit > 0,
    ;
    assert(d == n * unit && !w.neg() && !w.zero());
    the_nearest_is_near(a, d);
    let m = magnitude_of(nearest(a, d) as int);
    assert(r.magnitude() == m);
    lemma_divided(m as int, n as int, sum.magnitude() as int, unit as int);
    if m == 0 {
        assert(m * n == 0) by (nonlinear_arith)
            requires
                m == 0,
        ;
    }
    assert(r.value() * n == if r.neg() {
        -((m * n) as int)
    } else {
        (m * n) as int
    }) by (nonlinear_arith)
        requires
            r.value() == if r.neg() {
                -(m as int)
            } else {
                m as int
            },
    ;
}

proof fn lemma_divided(m: int, n: int, s: int, unit: int)
    requires
        unit > 0,
        n > 0,
        m >= 0,
        s >= 0,
        LENGTH * apart(m * (n * unit), s * unit) <= s * unit + LENGTH * (n * unit),
    ensures
        LENGTH * apart(m * n, s) <= s + LENGTH * n,
{
    let l = LENGTH as int;
    let e = m * n - s;
    assert(m * (n * unit) - s * unit == e * unit) by (nonlinear_arith)
        requires
            e == m * n - s,
    ;
    let ea = apart(m * n, s) as int;
    assert(apart(m * (n * unit), s * unit) == ea * unit) by (nonlinear_arith)
        requires
            m * (n * unit) - s * unit == e * unit,
            e == m * n - s,
            ea == apart(m * n, s),
            unit > 0,
    ;
    assert((l * ea) * unit <= (s + l * n) * unit) by (nonlinear_arith)
        requires
            l * (ea * unit) <= s * unit + l * (n * unit),
    ;
    assert(l * ea <= s + l * n) by (nonlinear_arith)
        requires
            (l * ea) * unit <= (s + l * n) * unit,
            unit > 0,
    ;
}

// --- Memory --------------------------------------------------------------------------------------

/// What a node that remembers one number does first: it adopts what reaches it.
pub proof fn a_first_value_is_adopted(
    kind: KindView,
    inputs: InputsView,
    t: TickView,
    state: StateView,
    out: Option<Quantity>,
    v: Value,
)
    requires
        kind is RateLimit || kind is LowPass || kind is Hold,
        reached(inputs, "in"@, v),
        v.scalar.finite(),
        state.last is None,
    ensures
        made(kind, inputs, t, state, out).scalar == v.scalar,
        kept(kind, inputs, t, state, out).last == Some(v.scalar),
{
}

/// A node that remembers a number remembers what it gave, and forgets nothing over a broken
/// reading.
pub proof fn what_was_given_is_remembered(
    kind: KindView,
    inputs: InputsView,
    t: TickView,
    state: StateView,
    out: Option<Quantity>,
    v: Value,
)
    requires
        kind is RateLimit || kind is LowPass || kind is Hold,
        reached(inputs, "in"@, v),
    ensures
        ({
            let y = made(kind, inputs, t, state, out).scalar;
            let after = kept(kind, inputs, t, state, out).last;
            &&& y.finite() ==> after == Some(y)
            &&& !v.scalar.finite() ==> y.nan() && after == state.last
        }),
{
}

/// A rate limiter goes all the way where that is within one step, and one step towards its input
/// where it is not, within rounding.
pub proof fn a_rate_limiter_moves_towards_its_input(
    rate: Scalar,
    inputs: InputsView,
    t: TickView,
    state: StateView,
    out: Option<Quantity>,
    v: Value,
    memory: Scalar,
    size: nat,
)
    requires
        reached(inputs, "in"@, v),
        state.last == Some(memory),
        memory.finite(),
        v.scalar.finite(),
        v.scalar.minus(memory).finite(),
        rate.absolute().times(t.dt).finite(),
        rate.absolute().times(t.dt).value() >= 0,
        made(KindView::RateLimit { max_delta_per_second: rate }, inputs, t, state, out).scalar.finite(),
        memory.magnitude() + v.scalar.magnitude() + slip(size) <= size,
        memory.magnitude() + rate.absolute().times(t.dt).magnitude() <= size,
    ensures
        ({
            let kind = KindView::RateLimit { max_delta_per_second: rate };
            let y = made(kind, inputs, t, state, out).scalar.value();
            let step = rate.absolute().times(t.dt).value();
            let way = v.scalar.minus(memory).value();
            &&& -step <= way <= step ==> apart(y, v.scalar.value()) <= 2 * slip(size)
            &&& way > step ==> apart(y, memory.value() + step) <= slip(size)
            &&& way < -step ==> apart(y, memory.value() - step) <= slip(size)
        }),
{
    let x = v.scalar;
    let step = rate.absolute().times(t.dt);
    let way = x.minus(memory);
    assert(step.negated().value() == -step.value());
    assert(memory.negated().value() == -memory.value());
    order_is_by_value(way, step.negated());
    order_is_by_value(step, way);
    let part = way.confined(step.negated(), step);
    sums_round_closely(x, memory.negated(), size);
    if way.value() > step.value() {
        sums_round_closely(memory, step, size);
    } else if way.value() < -step.value() {
        sums_round_closely(memory, step.negated(), size);
    } else {
        assert(part == way);
        sums_round_closely(memory, way, size);
    }
}

/// A held value is kept while the input is no further from it than the band, and given up for the
/// input once it is.
pub proof fn a_held_value_is_given_up_beyond_its_band(
    band: Scalar,
    inputs: InputsView,
    t: TickView,
    state: StateView,
    out: Option<Quantity>,
    v: Value,
    memory: Scalar,
)
    requires
        reached(inputs, "in"@, v),
        state.last == Some(memory),
        memory.finite(),
        v.scalar.finite(),
        v.scalar.minus(memory).finite(),
        band.finite(),
    ensures
        ({
            let y = made(KindView::Hold { band }, inputs, t, state, out).scalar;
            if v.scalar.minus(memory).magnitude() <= band.magnitude() {
                y == memory
            } else {
                y == v.scalar
            }
        }),
{
    let way = v.scalar.minus(memory);
    assert(way.absolute().value() == way.magnitude());
    assert(band.absolute().value() == band.magnitude());
    order_is_by_value(way.absolute(), band.absolute());
}

/// A low-pass filter goes the part of the way to its input that the exponential does not leave,
/// within rounding.
pub proof fn a_filter_goes_part_of_the_way(
    tau: Scalar,
    inputs: InputsView,
    t: TickView,
    state: StateView,
    out: Option<Quantity>,
    v: Value,
    memory: Scalar,
    size: nat,
)
    requires
        reached(inputs, "in"@, v),
        state.last == Some(memory),
        v.scalar.finite(),
        made(KindView::LowPass { tau_seconds: tau }, inputs, t, state, out).scalar.finite(),
        ({
            let factor = decay_for(t.decays, decay_exponent(tau, t.dt));
            factor.finite() && 0 <= factor.value() <= pow2(1074)
        }),
        memory.magnitude() <= size,
        v.scalar.magnitude() <= size,
    ensures
        ({
            let y = made(KindView::LowPass { tau_seconds: tau }, inputs, t, state, out).scalar;
            let left = decay_for(t.decays, decay_exponent(tau, t.dt)).value();
            let part = whole(1).minus(decay_for(t.decays, decay_exponent(tau, t.dt))).value();
            &&& apart(part, pow2(1074) - left) <= slip(pow2(1074))
            &&& apart(
                y.value() * pow2(1074),
                memory.value() * (pow2(1074) - part) + v.scalar.value() * part,
            ) <= blur(size) * pow2(1074)
        }),
{
    let factor = decay_for(t.decays, decay_exponent(tau, t.dt));
    let x = v.scalar;
    let unit = pow2(1074);
    lemma_pow2_pos(1074);
    whole_is_exact(1);
    assert(1 * unit == unit);
    let part = whole(1).minus(factor);
    assert(factor.negated().value() == -factor.value());
    factors_may_be_swapped(part, x.minus(memory));
    lemma_part(factor);
    sums_round_closely(whole(1), factor.negated(), unit);
    means_round_closely(memory, x, part, size);
}

proof fn lemma_part(factor: Scalar)
    requires
        factor.finite(),
        0 <= factor.value() <= pow2(1074),
    ensures
        whole(1).minus(factor).finite(),
        0 <= whole(1).minus(factor).value() <= pow2(1074),
{
    let unit = pow2(1074);
    lemma_pow2_pos(1074);
    whole_is_exact(0);
    whole_is_exact(1);
    assert(0 * unit == 0 && 1 * unit == unit);
    let one = whole(1);
    assert(factor.negated().value() == -factor.value());
    let zero = whole(0);
    let minus_one = one.negated();
    assert(minus_one.value() == -unit);
    order_is_by_value(factor.negated(), zero);
    order_is_by_value(minus_one, factor.negated());
    crate::scalar::sums_keep_order(one, factor.negated(), zero);
    crate::scalar::sums_keep_order(one, minus_one, factor.negated());
    exact_sums_are_exact(one, zero, one);
    exact_sums_are_exact(one, minus_one, zero);
    let part = one.minus(factor);
    assert(part.finite()) by {
        crate::scalar::lemma_difference_within(one, factor, 1, 1);
    }
    order_is_by_value(one.plus(zero), one);
    order_is_by_value(one.plus(minus_one), zero);
    order_is_by_value(part, one.plus(zero));
    order_is_by_value(one.plus(minus_one), part);
}

/// The exponential is looked up by what it is the exponential of, and the first that was handed
/// in for it counts.
pub proof fn an_exponential_is_found_by_its_exponent(
    decays: Seq<crate::eval::Decay>,
    exponent: Scalar,
    k: int,
)
    requires
        0 <= k < decays.len(),
        decays[k].exponent == exponent,
        forall|j: int| 0 <= j < k ==> (#[trigger] decays[j]).exponent != exponent,
    ensures
        decay_for(decays, exponent) == decays[k].factor,
    decreases k,
{
    if k > 0 {
        let rest = decays.drop_first();
        assert forall|j: int| 0 <= j < k - 1 implies (#[trigger] rest[j]).exponent != exponent by {
            assert(rest[j] == decays[j + 1]);
        }
        assert(rest[k - 1] == decays[k]);
        assert(decays[0].exponent != exponent);
        an_exponential_is_found_by_its_exponent(rest, exponent, k - 1);
    }
}

/// What a filter needs the exponential of is how long the tick was in time constants, and
/// negative, within rounding.
pub proof fn the_exponent_counts_time_constants(tau: Scalar, dt: Scalar)
    requires
        tau.finite(),
        dt.finite(),
        (Scalar { bits: EPSILON_BITS }).below(tau),
        dt.value() >= 0,
        decay_exponent(tau, dt).finite(),
    ensures
        decay_exponent(tau, dt).value() <= 0,
        LENGTH * apart(
            -(decay_exponent(tau, dt).value() * tau.value()),
            dt.value() * pow2(1074),
        ) <= dt.value() * pow2(1074) + LENGTH * tau.value(),
{
    reveal(Scalar::over);
    let unit = pow2(1074);
    lemma_pow2_pos(1074);
    let r = decay_exponent(tau, dt);
    assert(tau.larger(Scalar { bits: EPSILON_BITS }) == tau);
    assert(tau.pattern() > 0 && !tau.neg());
    lemma_magnitude_order(0, tau.pattern());
    let top = dt.negated();
    assert(top.magnitude() == dt.magnitude());
    let n = (dt.magnitude() * unit) as nat;
    let d = tau.magnitude();
    the_nearest_is_near(n, d);
    let m = magnitude_of(nearest(n, d) as int);
    assert(r.magnitude() == m);
    if dt.neg() {
        if dt.pattern() > 0 {
            lemma_magnitude_order(0, dt.pattern());
        }
        assert(dt.magnitude() == 0);
        assert(n == 0) by (nonlinear_arith)
            requires
                n == dt.magnitude() * unit,
                dt.magnitude() == 0,
        ;
        crate::scalar::rounding_keeps_order(0, d, 0, 1);
        crate::scalar::doubles_round_to_themselves(0);
        assert(m == 0);
    } else {
        assert(r.neg());
        assert(-((-(m as int)) * tau.value()) == m * d) by (nonlinear_arith)
            requires
                tau.value() == d,
        ;
    }
}

// --- Windows -------------------------------------------------------------------------------------

/// What a moving average remembers after some numbers have reached it, from a fresh start.
pub open spec fn window_of(xs: Seq<Scalar>, samples: nat) -> Seq<Scalar>
    decreases xs.len(),
{
    if xs.len() == 0 {
        Seq::empty()
    } else {
        window_after(window_of(xs.drop_last(), samples), xs.last(), samples)
    }
}

/// A moving average remembers the last numbers that reached it, as many as it was told to, and
/// all of them while there are fewer.
pub proof fn a_window_holds_the_last_samples(xs: Seq<Scalar>, samples: nat)
    requires
        samples >= 1,
    ensures
        xs.len() <= samples ==> window_of(xs, samples) == xs,
        xs.len() > samples ==> window_of(xs, samples) == xs.skip(xs.len() - samples),
    decreases xs.len(),
{
    if xs.len() > 0 {
        let rest = xs.drop_last();
        a_window_holds_the_last_samples(rest, samples);
        if xs.len() <= samples {
            assert(rest.push(xs.last()) =~= xs);
        } else {
            let before = window_of(rest, samples);
            assert(before.push(xs.last()).skip(1) =~= xs.skip(xs.len() - samples) || before.len()
                < samples);
            if rest.len() <= samples {
                assert(rest.push(xs.last()) =~= xs);
            } else {
                assert(before.push(xs.last()).skip(
                    before.len() + 1 - samples,
                ) =~= xs.skip(xs.len() - samples));
            }
        }
    }
}

/// A moving average gives the average of its window, with the newest number in it, and starts
/// over after a broken reading.
pub proof fn a_moving_average_averages_its_window(
    samples: nat,
    inputs: InputsView,
    t: TickView,
    state: StateView,
    out: Option<Quantity>,
    v: Value,
)
    requires
        reached(inputs, "in"@, v),
        forall|i: int| 0 <= i < state.history.len() ==> (#[trigger] state.history[i]).finite(),
    ensures
        ({
            let kind = KindView::MovingAverage { samples };
            let y = made(kind, inputs, t, state, out).scalar;
            let after = kept(kind, inputs, t, state, out).history;
            &&& v.scalar.finite() ==> after == window_after(state.history, v.scalar, samples)
                && after.len() > 0 && after.last() == v.scalar && y == mixed(
                MixMode::Average,
                after,
            )
            &&& !v.scalar.finite() ==> y.nan() && after.len() == 0
        }),
{
    if v.scalar.finite() {
        let after = window_after(state.history, v.scalar, samples);
        let all = state.history.push(v.scalar);
        assert forall|i: int| 0 <= i < after.len() implies (#[trigger] after[i]).finite() by {
            let o = i + all.len() - after.len();
            assert(after[i] == all[o]);
            if o < state.history.len() {
                assert(all[o] == state.history[o]);
            }
        }
    }
}

// --- Decisions -----------------------------------------------------------------------------------

/// A comparator switches once its input clears the threshold by half the deadband, to the side
/// that it looks at, and stays as it was in between. A broken reading gives no flag and changes
/// none.
pub proof fn a_comparator_switches_beyond_its_deadband(
    threshold: Scalar,
    deadband: Scalar,
    direction: Compare,
    inputs: InputsView,
    t: TickView,
    state: StateView,
    out: Option<Quantity>,
    v: Value,
)
    requires
        reached(inputs, "in"@, v),
        threshold.plus(deadband.absolute().over(whole(2))).finite(),
        threshold.minus(deadband.absolute().over(whole(2))).finite(),
        threshold.minus(deadband.absolute().over(whole(2))).value() <= threshold.plus(
            deadband.absolute().over(whole(2)),
        ).value(),
    ensures
        ({
            let kind = KindView::Comparator { threshold, deadband, direction };
            let y = made(kind, inputs, t, state, out).scalar;
            let after = kept(kind, inputs, t, state, out).flag;
            let half = deadband.absolute().over(whole(2));
            let x = v.scalar;
            if !x.finite() {
                y.nan() && after == state.flag
            } else {
                &&& y == if after {
                    whole(1)
                } else {
                    whole(0)
                }
                &&& x.value() > threshold.plus(half).value() ==> after == (direction is Above)
                &&& x.value() < threshold.minus(half).value() ==> after == (direction is Below)
                &&& threshold.minus(half).value() <= x.value() <= threshold.plus(half).value()
                    ==> after == state.flag
            }
        }),
{
    let half = deadband.absolute().over(whole(2));
    if v.scalar.finite() {
        order_is_by_value(threshold.plus(half), v.scalar);
        order_is_by_value(v.scalar, threshold.minus(half));
    }
}

/// A selector gives the one branch while its flag is up and the other while it is down; what is
/// on the branch not taken does not matter.
pub proof fn a_selector_takes_the_branch_of_its_flag(
    inputs: InputsView,
    t: TickView,
    state: StateView,
    out: Option<Quantity>,
    flag: Value,
    yes: Value,
    no: Value,
)
    requires
        reached(inputs, "when"@, flag),
        reached(inputs, "if_true"@, yes),
        reached(inputs, "if_false"@, no),
    ensures
        ({
            let y = made(KindView::Select, inputs, t, state, out);
            &&& flag.scalar == whole(1) ==> y.scalar == yes.scalar
            &&& flag.scalar == whole(0) ==> y.scalar == no.scalar
            &&& y.quantity == yes.quantity
        }),
{
    crate::preset_behaviour::lemma_halves();
}

// --- Control -------------------------------------------------------------------------------------

proof fn lemma_nothing_added(a: Scalar, b: Scalar)
    requires
        a.finite(),
        b.finite(),
        b.value() == 0,
    ensures
        a.plus(b).finite(),
        a.plus(b).value() == a.value(),
{
    exact_sums_are_exact(a, b, a);
    order_is_by_value(a.plus(b), a);
}

proof fn lemma_times_nothing(a: Scalar, b: Scalar)
    requires
        a.finite(),
        b.finite(),
        a.value() == 0 || b.value() == 0,
    ensures
        a.times(b).finite(),
        a.times(b).value() == 0,
{
    reveal(Scalar::times);
    let unit = pow2(1074);
    lemma_pow2_pos(1074);
    assert(a.magnitude() * b.magnitude() == 0) by (nonlinear_arith)
        requires
            a.magnitude() == 0 || b.magnitude() == 0,
    ;
    crate::scalar::rounding_keeps_order(0, unit, 0, 1);
    crate::scalar::doubles_round_to_themselves(0);
}

/// Whether a duty is what a number comes to between nothing and everything.
pub open spec fn percent_of(y: Scalar, wanted: Scalar) -> bool {
    &&& y.finite()
    &&& y.value() == if wanted.value() < 0 {
        0
    } else if wanted.value() > 100 * pow2(1074) {
        (100 * pow2(1074)) as int
    } else {
        wanted.value()
    }
}

/// What a controller makes of the error is the sum of its three terms, each with its own gain:
/// with the other two gains at nothing a controller asks for its one term, brought into range.
/// The error is how far its input is above the setpoint.
pub proof fn a_controller_weighs_its_three_terms(
    setpoint: Scalar,
    kp: Scalar,
    ki: Scalar,
    kd: Scalar,
    limit: Scalar,
    inputs: InputsView,
    t: TickView,
    state: StateView,
    out: Option<Quantity>,
    v: Value,
    prev: Scalar,
)
    requires
        reached(inputs, "in"@, v),
        v.scalar.finite(),
        t.dt.finite(),
        t.dt.value() > 0,
        kp.finite(),
        ki.finite(),
        kd.finite(),
        state.prev_error == Some(prev),
        v.scalar.minus(setpoint).finite(),
        v.scalar.minus(setpoint).minus(prev).over(t.dt).finite(),
        kept(
            KindView::Pid { setpoint, kp, ki, kd, integral_limit: limit },
            inputs,
            t,
            state,
            out,
        ).integral.finite(),
    ensures
        ({
            let kind = KindView::Pid { setpoint, kp, ki, kd, integral_limit: limit };
            let y = made(kind, inputs, t, state, out).scalar;
            let error = v.scalar.minus(setpoint);
            let after = kept(kind, inputs, t, state, out);
            let slope = error.minus(prev).over(t.dt);
            &&& after.prev_error == Some(error)
            &&& ki.value() == 0 && kd.value() == 0 && kp.times(error).finite() ==> percent_of(
                y,
                kp.times(error),
            )
            &&& kp.value() == 0 && kd.value() == 0 && ki.times(after.integral).finite()
                ==> percent_of(y, ki.times(after.integral))
            &&& kp.value() == 0 && ki.value() == 0 && kd.times(slope).finite() ==> percent_of(
                y,
                kd.times(slope),
            )
        }),
{
    let kind = KindView::Pid { setpoint, kp, ki, kd, integral_limit: limit };
    let error = v.scalar.minus(setpoint);
    let integral = kept(kind, inputs, t, state, out).integral;
    let slope = error.minus(prev).over(t.dt);
    let a = kp.times(error);
    let b = ki.times(integral);
    let d = kd.times(slope);
    let sum = a.plus(b).plus(d);
    whole_is_exact(0);
    assert(0 * pow2(1074) == 0);
    order_is_by_value(t.dt, whole(0));
    if kp.value() == 0 {
        lemma_times_nothing(kp, error);
    }
    if ki.value() == 0 {
        lemma_times_nothing(ki, integral);
    }
    if kd.value() == 0 {
        lemma_times_nothing(kd, slope);
    }
    if ki.value() == 0 && kd.value() == 0 && a.finite() {
        lemma_nothing_added(a, b);
        lemma_nothing_added(a.plus(b), d);
        lemma_confined(sum);
    }
    if kp.value() == 0 && kd.value() == 0 && b.finite() {
        exact_sums_are_exact(a, b, b);
        order_is_by_value(a.plus(b), b);
        lemma_nothing_added(a.plus(b), d);
        lemma_confined(sum);
    }
    if kp.value() == 0 && ki.value() == 0 && d.finite() {
        lemma_nothing_added(a, b);
        exact_sums_are_exact(a.plus(b), d, d);
        order_is_by_value(sum, d);
        lemma_confined(sum);
    }
}

proof fn lemma_confined(x: Scalar)
    requires
        x.finite(),
    ensures
        percent_of(x.confined(whole(0), whole(100)), x),
{
    lemma_percents(x);
    whole_is_exact(0);
    whole_is_exact(100);
    assert(0 * pow2(1074) == 0);
}

/// The integral grows by the error times the time it stood, while that stays within what the
/// limit allows.
pub proof fn the_integral_adds_up_the_error(
    setpoint: Scalar,
    kp: Scalar,
    ki: Scalar,
    kd: Scalar,
    limit: Scalar,
    inputs: InputsView,
    t: TickView,
    state: StateView,
    out: Option<Quantity>,
    v: Value,
)
    requires
        reached(inputs, "in"@, v),
        v.scalar.finite(),
        t.dt.finite(),
        t.dt.value() > 0,
        ki.finite(),
        ki.value() != 0,
        limit.over(ki).finite(),
        state.integral.plus(v.scalar.minus(setpoint).times(t.dt)).finite(),
    ensures
        ({
            let kind = KindView::Pid { setpoint, kp, ki, kd, integral_limit: limit };
            let after = kept(kind, inputs, t, state, out).integral;
            let grown = state.integral.plus(v.scalar.minus(setpoint).times(t.dt));
            let bound = limit.over(ki).magnitude();
            if grown.value() < -(bound as int) {
                after.value() == -(bound as int)
            } else if grown.value() > bound {
                after.value() == bound
            } else {
                after == grown
            }
        }),
{
    let grown = state.integral.plus(v.scalar.minus(setpoint).times(t.dt));
    let bound = limit.over(ki).absolute();
    whole_is_exact(0);
    assert(0 * pow2(1074) == 0);
    order_is_by_value(t.dt, whole(0));
    order_is_by_value(ki, whole(0));
    assert(bound.value() == limit.over(ki).magnitude());
    assert(bound.negated().value() == -bound.value());
    order_is_by_value(grown, bound.negated());
    order_is_by_value(bound, grown);
}

/// A controller gives no number for a broken reading, nor where no time has passed, and then
/// forgets the error it had, so that the next gives no kick.
pub proof fn a_controller_needs_a_reading_and_time(
    kind: KindView,
    inputs: InputsView,
    t: TickView,
    state: StateView,
    out: Option<Quantity>,
    v: Value,
)
    requires
        kind is Pid,
        reached(inputs, "in"@, v),
        !v.scalar.finite() || (t.dt.finite() && t.dt.value() <= 0),
    ensures
        made(kind, inputs, t, state, out).scalar.nan(),
        kept(kind, inputs, t, state, out).prev_error is None,
        kept(kind, inputs, t, state, out).integral == state.integral,
{
    whole_is_exact(0);
    assert(0 * pow2(1074) == 0);
    if t.dt.finite() {
        order_is_by_value(t.dt, whole(0));
    }
}

} // verus!
