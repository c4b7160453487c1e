//! Filters are tuned in seconds: what a low-pass filter comes to does not hang on how the time
//! is cut into ticks.
use crate::eval::{
    decay_exponent, decay_for, evaluated, low_passed, number, InputsView, StateView, TickView,
};
use crate::node::KindView;
use crate::rounding::{
    apart, blur, doubling_rounds_alike, factors_may_be_swapped, means_round_closely, products_round_closely, slip,
    sums_round_closely,
};
use crate::scalar::{
    lemma_magnitude_order, nearest, order_is_by_value, whole, whole_is_exact, Scalar, EPSILON_BITS,
    HIDDEN, INFINITY_BITS,
};
use crate::units::Quantity;
use vstd::arithmetic::power2::{lemma2_to64, lemma2_to64_rest, lemma_pow2_adds, lemma_pow2_pos, pow2};
use vstd::prelude::*;

verus! {

/// Whether a factor is what an exponential may be.
pub open spec fn is_decay(factor: Scalar) -> bool {
    whole(0).at_most(factor) && factor.at_most(whole(1))
}

/// Whether one factor is the square of another, to within four roundings of one: as the
/// exponential of twice an exponent is the square of the exponential.
pub open spec fn is_square(factor: Scalar, root: Scalar) -> bool {
    apart(factor.value() * pow2(1074), root.value() * root.value()) <= 4 * slip(pow2(1074)) * pow2(
        1074,
    )
}

/// The larger of the distances of two numbers from zero.
pub open spec fn size_of(a: Scalar, b: Scalar) -> nat {
    if a.magnitude() < b.magnitude() {
        b.magnitude()
    } else {
        a.magnitude()
    }
}

/// How far two short ticks and a long one may end apart: forty parts in `2^53` of the larger of
/// what a filter remembers and what it is given, and 32 units of `2^-1074`.
pub open spec fn drift(size: nat) -> nat {
    40 * size / crate::rounding::LENGTH as nat + 32
}

/// The unit is many times as large as a double is long.
proof fn lemma_unit()
    ensures
        pow2(1074) >= 64 * crate::rounding::LENGTH,
{
    lemma2_to64();
    lemma2_to64_rest();
    lemma_pow2_adds(60, 1014);
    lemma_pow2_pos(1014);
    assert(pow2(60) * pow2(1014) >= pow2(60)) by (nonlinear_arith)
        requires
            pow2(1014) >= 1,
    ;
}

proof fn lemma_decay(factor: Scalar)
    requires
        is_decay(factor),
    ensures
        factor.finite(),
        0 <= factor.value() <= pow2(1074),
        is_decay(whole(1).minus(factor)),
        whole(1).minus(factor).finite(),
        0 <= whole(1).minus(factor).value() <= pow2(1074),
        apart(whole(1).minus(factor).value(), pow2(1074) - factor.value()) <= slip(pow2(1074)),
{
    let unit = pow2(1074);
    let one = whole(1);
    let zero = whole(0);
    whole_is_exact(0);
    whole_is_exact(1);
    assert(0 * unit == 0);
    assert(1 * unit == unit);
    order_is_by_value(zero, factor);
    order_is_by_value(factor, one);
    let less = factor.negated();
    assert(less.value() == -factor.value());
    assert(one.negated().value() == -one.value());
    order_is_by_value(one.negated(), less);
    order_is_by_value(less, zero);
    crate::scalar::sums_keep_order(one, one.negated(), less);
    crate::scalar::sums_keep_order(one, less, zero);
    crate::scalar::exact_sums_are_exact(one, one.negated(), zero);
    crate::scalar::exact_sums_are_exact(one, zero, one);
    let left = one.minus(factor);
    assert(zero.at_most(left) && left.at_most(one));
    order_is_by_value(zero, left);
    order_is_by_value(left, one);
    sums_round_closely(one, less, unit);
}

/// The rounded square of a factor will do as its square.
pub proof fn a_rounded_square_is_a_square(factor: Scalar)
    requires
        is_decay(factor),
    ensures
        is_square(factor.times(factor), factor),
{
    let unit = pow2(1074);
    lemma_decay(factor);
    lemma_pow2_pos(1074);
    crate::scalar::parts_lie_between(factor, factor);
    let f = factor.value();
    assert(apart(f * f, 0) <= unit * unit) by (nonlinear_arith)
        requires
            0 <= f <= unit,
    ;
    products_round_closely(factor, factor, unit);
    assert(slip(unit) * unit <= 4 * slip(unit) * unit) by (nonlinear_arith)
        requires
            unit >= 0,
    ;
}

/// One step of a filter, against the mean it stands for.
proof fn lemma_step(memory: Scalar, x: Scalar, factor: Scalar, size: nat)
    requires
        x.finite(),
        is_decay(factor),
        low_passed(Some(memory), x, factor).finite(),
        memory.magnitude() <= size,
        x.magnitude() <= size,
    ensures
        ({
            let left = whole(1).minus(factor).value();
            let y = low_passed(Some(memory), x, factor).value();
            &&& apart(
                (y - x.value()) * pow2(1074),
                (memory.value() - x.value()) * (pow2(1074) - left),
            ) <= blur(size) * pow2(1074)
            &&& apart(y, 0) <= size + blur(size)
        }),
{
    let unit = pow2(1074);
    lemma_pow2_pos(1074);
    lemma_decay(factor);
    let part = whole(1).minus(factor);
    factors_may_be_swapped(part, x.minus(memory));
    means_round_closely(memory, x, part, size);
    let p = memory.value();
    let v = x.value();
    let t = part.value();
    let y = low_passed(Some(memory), x, factor).value();
    assert((y - v) * unit - (p - v) * (unit - t) == y * unit - (p * (unit - t) + v * t))
        by (nonlinear_arith);
    let target = p * (unit - t) + v * t;
    assert(-(size * unit) <= target <= size * unit) by (nonlinear_arith)
        requires
            target == p * (unit - t) + v * t,
            0 <= t <= unit,
            -(size as int) <= p <= size,
            -(size as int) <= v <= size,
    ;
    let b = blur(size);
    assert(apart(y, 0) <= size + b) by (nonlinear_arith)
        requires
            apart(y * unit, target) <= b * unit,
            -(size * unit) <= target <= size * unit,
            unit > 0,
    ;
}

/// The weights that two short ticks and a long one leave what was remembered with.
proof fn lemma_weights(f: int, g: int, c: int, e: int, k: nat, unit: nat)
    requires
        0 <= f <= unit,
        0 <= c <= unit,
        apart(c, f) <= k,
        apart(e, g) <= k,
        apart(g * unit, f * f) <= 4 * k * unit,
    ensures
        apart(c * c, e * unit) <= 7 * k * unit,
{
    assert(-(2 * k * unit) <= c * c - f * f <= 2 * k * unit) by (nonlinear_arith)
        requires
            0 <= f <= unit,
            0 <= c <= unit,
            -(k as int) <= c - f <= k,
    {
        assert(c * c - f * f == (c - f) * (c + f));
    }
    assert(-(k * unit) <= (g - e) * unit <= k * unit) by (nonlinear_arith)
        requires
            -(k as int) <= g - e <= k,
            unit >= 0,
    ;
    assert((g - e) * unit == g * unit - e * unit) by (nonlinear_arith);
    assert(7 * k * unit == 2 * k * unit + 4 * k * unit + k * unit) by (nonlinear_arith);
}

proof fn lemma_ends(
    p: int,
    x: int,
    y1: int,
    y2: int,
    z: int,
    c: int,
    e: int,
    b1: nat,
    b2: nat,
    k: nat,
    size: nat,
    unit: nat,
)
    requires
        unit > 0,
        0 <= c <= unit,
        apart((y1 - x) * unit, (p - x) * c) <= b1 * unit,
        apart((y2 - x) * unit, (y1 - x) * c) <= b2 * unit,
        apart((z - x) * unit, (p - x) * e) <= b1 * unit,
        apart(c * c, e * unit) <= 7 * k * unit,
        apart(p, x) <= 2 * size,
    ensures
        apart(y2, z) * unit <= 14 * size * k + (2 * b1 + b2) * unit,
{
    let t1 = (y1 - x) * unit - (p - x) * c;
    let t2 = (y2 - x) * unit - (y1 - x) * c;
    let t3 = (z - x) * unit - (p - x) * e;
    let w = c * c - e * unit;
    let off = (y2 - z) * unit;
    assert(off * unit == (p - x) * w + c * t1 + unit * t2 - unit * t3) by (nonlinear_arith)
        requires
            t1 == (y1 - x) * unit - (p - x) * c,
            t2 == (y2 - x) * unit - (y1 - x) * c,
            t3 == (z - x) * unit - (p - x) * e,
            w == c * c - e * unit,
            off == (y2 - z) * unit,
    ;
    let a1 = b1 * unit;
    let a2 = b2 * unit;
    let aw = 7 * k * unit;
    assert(-(2 * size * aw) <= (p - x) * w <= 2 * size * aw) by (nonlinear_arith)
        requires
            -(2 * size) <= p - x <= 2 * size,
            -(aw as int) <= w <= aw,
    ;
    assert(-(unit * a1) <= c * t1 <= unit * a1) by (nonlinear_arith)
        requires
            0 <= c <= unit,
            -(a1 as int) <= t1 <= a1,
    ;
    assert(-(unit * a2) <= unit * t2 <= unit * a2) by (nonlinear_arith)
        requires
            -(a2 as int) <= t2 <= a2,
            unit > 0,
    ;
    assert(-(unit * a1) <= unit * t3 <= unit * a1) by (nonlinear_arith)
        requires
            -(a1 as int) <= t3 <= a1,
            unit > 0,
    ;
    let bound = 14 * size * k + (2 * b1 + b2) * unit;
    assert(2 * size * aw + unit * a1 + unit * a2 + unit * a1 == bound * unit) by (nonlinear_arith)
        requires
            a1 == b1 * unit,
            a2 == b2 * unit,
            aw == 7 * k * unit,
            bound == 14 * size * k + (2 * b1 + b2) * unit,
    ;
    assert(-(bound as int) <= off <= bound) by (nonlinear_arith)
        requires
            -(bound * unit) <= off * unit <= bound * unit,
            unit > 0,
    ;
    assert(apart(y2, z) * unit == apart(off, 0)) by (nonlinear_arith)
        requires
            off == (y2 - z) * unit,
            unit > 0,
    ;
}

/// What is left once the unit is divided out.
proof fn lemma_drift(off: nat, size: nat, b1: nat, b2: nat, k: nat, unit: nat)
    requires
        unit >= 64 * crate::rounding::LENGTH,
        k == slip(unit),
        b1 == blur(size),
        b2 == blur(size + b1),
        off * unit <= 14 * size * k + (2 * b1 + b2) * unit,
    ensures
        off <= drift(size),
{
    let length = crate::rounding::LENGTH as nat;
    // Two units are next to nothing beside what a unit slips by.
    assert(length * (14 * k) <= 15 * unit);
    assert(length * (off * unit) <= (15 * size + length * (2 * b1 + b2)) * unit) by (nonlinear_arith)
        requires
            off * unit <= 14 * size * k + (2 * b1 + b2) * unit,
            length * (14 * k) <= 15 * unit,
            length > 0,
    ;
    assert(length * off <= 15 * size + length * (2 * b1 + b2)) by (nonlinear_arith)
        requires
            length * (off * unit) <= (15 * size + length * (2 * b1 + b2)) * unit,
            unit > 0,
    ;
}

/// Two steps of a filter with a factor come to one step with its square, but for rounding.
pub proof fn two_steps_come_to_one(memory: Scalar, x: Scalar, factor: Scalar, square: Scalar)
    requires
        x.finite(),
        is_decay(factor),
        is_decay(square),
        is_square(square, factor),
        low_passed(Some(memory), x, factor).finite(),
        low_passed(Some(low_passed(Some(memory), x, factor)), x, factor).finite(),
        low_passed(Some(memory), x, square).finite(),
    ensures
        apart(
            low_passed(Some(low_passed(Some(memory), x, factor)), x, factor).value(),
            low_passed(Some(memory), x, square).value(),
        ) <= drift(size_of(memory, x)),
{
    let unit = pow2(1074);
    let size = size_of(memory, x);
    let once = low_passed(Some(memory), x, factor);
    let twice = low_passed(Some(once), x, factor);
    let long = low_passed(Some(memory), x, square);
    let b1 = blur(size);
    let b2 = blur(size + b1);
    let k = slip(unit);
    lemma_unit();
    lemma_decay(factor);
    lemma_decay(square);
    lemma_step(memory, x, factor, size);
    lemma_step(once, x, factor, size + b1);
    lemma_step(memory, x, square, size);
    let c = unit - whole(1).minus(factor).value();
    let e = unit - whole(1).minus(square).value();
    lemma_weights(factor.value(), square.value(), c, e, k, unit);
    lemma_ends(
        memory.value(),
        x.value(),
        once.value(),
        twice.value(),
        long.value(),
        c,
        e,
        b1,
        b2,
        k,
        size,
        unit,
    );
    lemma_drift(apart(twice.value(), long.value()), size, b1, b2, k, unit);
}

/// Twice the time asks for the exponential of twice the exponent, unless that is next to
/// nothing or too large: so what is handed in for the longer tick is the square of what is handed
/// in for the shorter one.
pub proof fn twice_the_time_is_twice_the_exponent(tau: Scalar, dt: Scalar)
    requires
        dt.finite(),
        dt.plus(dt).finite(),
        dt.plus(dt).value() == 2 * dt.value(),
        tau.finite(),
        HIDDEN < decay_exponent(tau, dt).pattern(),
        decay_exponent(tau, dt).pattern() + HIDDEN < INFINITY_BITS,
    ensures
        decay_exponent(tau, dt.plus(dt)).finite(),
        decay_exponent(tau, dt.plus(dt)).value() == 2 * decay_exponent(tau, dt).value(),
{
    reveal(Scalar::over);
    let unit = pow2(1074);
    let over = tau.larger(Scalar { bits: EPSILON_BITS });
    let twice = dt.plus(dt);
    let n = dt.magnitude() * unit;
    assert(over.pattern() >= EPSILON_BITS);
    lemma_magnitude_order(0, over.pattern());
    assert(twice.magnitude() == 2 * dt.magnitude());
    assert(twice.magnitude() * unit == 2 * n) by (nonlinear_arith)
        requires
            twice.magnitude() == 2 * dt.magnitude(),
            n == dt.magnitude() * unit,
    ;
    assert(dt.negated().magnitude() == dt.magnitude());
    assert(twice.negated().magnitude() == twice.magnitude());
    assert(dt.magnitude() > 0) by {
        if dt.magnitude() == 0 {
            assert(n == 0) by (nonlinear_arith)
                requires
                    n == dt.magnitude() * unit,
                    dt.magnitude() == 0,
            ;
            crate::scalar::rounding_keeps_order(0, over.magnitude(), 0, 1);
            crate::scalar::doubles_round_to_themselves(0);
        }
    }
    assert(!over.zero() && over.finite());
    assert(nearest(n, over.magnitude()) == decay_exponent(tau, dt).pattern());
    doubling_rounds_alike(n, over.magnitude());
    assert(twice.neg() == dt.neg());
}

/// What a low-pass filter makes of an input on a tick.
pub open spec fn filtered(
    tau: Scalar,
    inputs: InputsView,
    t: TickView,
    state: StateView,
    out: Option<Quantity>,
) -> StateView {
    evaluated(KindView::LowPass { tau_seconds: tau }, inputs, t, state, out).1
}

/// The exponential that was handed in for a filter on a tick.
pub open spec fn decay_of(tau: Scalar, t: TickView) -> Scalar {
    decay_for(t.decays, decay_exponent(tau, t.dt))
}

/// A low-pass filter is tuned in seconds, not ticks: with the same input, two ticks leave it
/// remembering what one tick of twice the length does, but for rounding. What overflows on the
/// way is left out, and the exponential of the longer tick has to be the square of the other, as
/// it is of an exponential.
pub proof fn two_ticks_come_to_one_of_twice_the_length(
    tau: Scalar,
    inputs: InputsView,
    short: TickView,
    long: TickView,
    state: StateView,
    out: Option<Quantity>,
)
    requires
        state.last is Some,
        number(inputs, "in"@).finite(),
        long.dt == short.dt.plus(short.dt),
        is_decay(decay_of(tau, short)),
        is_decay(decay_of(tau, long)),
        is_square(decay_of(tau, long), decay_of(tau, short)),
        ({
            let x = number(inputs, "in"@);
            let once = low_passed(state.last, x, decay_of(tau, short));
            &&& once.finite()
            &&& low_passed(Some(once), x, decay_of(tau, short)).finite()
            &&& low_passed(state.last, x, decay_of(tau, long)).finite()
        }),
    ensures
        ({
            let once = filtered(tau, inputs, short, state, out);
            let twice = filtered(tau, inputs, short, once, out);
            let all = filtered(tau, inputs, long, state, out);
            &&& twice.last is Some
            &&& all.last is Some
            &&& apart((twice.last->0).value(), (all.last->0).value()) <= drift(
                size_of(state.last->0, number(inputs, "in"@)),
            )
        }),
{
    two_steps_come_to_one(
        state.last->0,
        number(inputs, "in"@),
        decay_of(tau, short),
        decay_of(tau, long),
    );
}

} // verus!
