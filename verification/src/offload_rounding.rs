//! What a reduction promises between the points of its curve: there a step that is folded into
//! the curve rounds otherwise than one that follows it, and no more than that.
use crate::eval::{
    all_finite, between, interpolated, largest, left_to_right, maximum_is_the_hottest, mixed,
    on_segment, sorting_keeps_the_points, standing, StateView, TickView,
};
use crate::graph::{GraphView, PortKey};
use crate::node::{CurvePoint, KindView, MixMode};
use crate::offload::{
    folded, folded_duty, lemma_sorted_mapped, mapped_points, outputs_naming, reduced,
    source_of,
};
use crate::offload_guarantees::{described, lemma_naming, lemma_source, read_from};
use crate::rounding::{
    apart, blur, means_round_closely, products_round_closely, slip, sums_round_closely,
    terms_may_be_swapped,
};
use crate::scalar::{
    lemma_fraction_within, lemma_magnitude_order, lemma_nearer, order_is_by_value,
    rounding_keeps_order, sums_keep_order, whole, whole_is_exact, Scalar, EPSILON_BITS,
};
use crate::text::Text;
use crate::tick::ticked;
use crate::units::Quantity;
use crate::validate::CompiledView;
use crate::wires::{channels_follow_their_output, drives_alone, wires_carry_their_nodes_work};
use crate::wiring::lemma_ports_found;
use vstd::arithmetic::div_mod::{lemma_fundamental_div_mod, lemma_mod_bound};
use vstd::arithmetic::power2::{lemma_pow2_pos, pow2};
use vstd::prelude::*;

verus! {

// --- Steps ---------------------------------------------------------------------------------------

/// What some steps make of a duty, the first of them first.
pub open spec fn applied(steps: Seq<KindView>, duty: Scalar) -> Scalar
    decreases steps.len(),
{
    if steps.len() == 0 {
        duty
    } else {
        folded_duty(steps.last(), applied(steps.drop_last(), duty))
    }
}

/// Whether steps add and scale, and bound nothing.
pub open spec fn straight(steps: Seq<KindView>) -> bool {
    forall|i: int| 0 <= i < steps.len() ==> (#[trigger] steps[i]) is Offset || steps[i] is Scale
}

/// Whether no step turns a curve upside down.
pub open spec fn upright(steps: Seq<KindView>) -> bool {
    forall|i: int|
        0 <= i < steps.len() ==> ((#[trigger] steps[i]) matches KindView::Scale { factor }
            ==> !factor.below(whole(0)))
}

/// How large a height may become by some steps, and how far folding them into a curve may take
/// it from applying them afterwards. Every step adds its own roundings, one where it follows
/// the curve and one where it is folded in, and scaling scales what there is.
pub open spec fn strayed(steps: Seq<KindView>, height: nat) -> (nat, nat)
    decreases steps.len(),
{
    if steps.len() == 0 {
        (height + blur(height), blur(height))
    } else {
        let (size, slack) = strayed(steps.drop_last(), height);
        match steps.last() {
            KindView::Offset { delta } => {
                let sum = size + delta.magnitude();
                (sum + slip(sum), slack + 2 * slip(sum))
            },
            KindView::Scale { factor } => {
                let product = size * factor.magnitude() / pow2(1074) + 1;
                (
                    product + slip(product),
                    slack * factor.magnitude() / pow2(1074) + 1 + 2 * slip(product),
                )
            },
            _ => (size, slack),
        }
    }
}

/// How far the duty that a reduction describes may be from the one that is commanded.
pub open spec fn tolerance(steps: Seq<KindView>, height: nat) -> nat {
    strayed(steps, height).1 + blur(strayed(steps, height).0)
}

// --- Where a curve is read -----------------------------------------------------------------------

/// The first segment from `i` on that holds `x`; the last point where there is none.
pub open spec fn segment_at(sorted: Seq<CurvePoint>, x: Scalar, i: int) -> int
    decreases sorted.len() - i,
{
    if i + 1 >= sorted.len() {
        sorted.len() - 1
    } else if sorted[i].x.at_most(x) && x.at_most(sorted[i + 1].x) {
        i
    } else {
        segment_at(sorted, x, i + 1)
    }
}

/// Whether two points are so close that they count as a vertical step.
pub open spec fn steep(a: CurvePoint, b: CurvePoint) -> bool {
    b.x.minus(a.x).absolute().below(Scalar { bits: EPSILON_BITS })
}

/// Whether a curve is flat at `x`: left of its first point or right of its last.
pub open spec fn flat(sorted: Seq<CurvePoint>, x: Scalar) -> bool {
    x.at_most(sorted[0].x) || sorted.last().x.at_most(x) || segment_at(sorted, x, 0) + 1
        >= sorted.len()
}

/// Whether a curve is read on a vertical step.
pub open spec fn on_a_step(points: Seq<CurvePoint>, x: Scalar) -> bool {
    let sorted = left_to_right(points);
    let k = segment_at(sorted, x, 0);
    standing(sorted, x, sorted.len()).len() > 1 || (!flat(sorted, x) && steep(
        sorted[k],
        sorted[k + 1],
    ))
}

proof fn lemma_segment(sorted: Seq<CurvePoint>, x: Scalar, i: int)
    requires
        0 <= i < sorted.len(),
    ensures
        ({
            let k = segment_at(sorted, x, i);
            &&& i <= k < sorted.len()
            &&& k + 1 < sorted.len() ==> sorted[k].x.at_most(x) && x.at_most(sorted[k + 1].x)
                && on_segment(sorted, x, i) == between(sorted[k], sorted[k + 1], x)
            &&& k + 1 == sorted.len() ==> on_segment(sorted, x, i) == sorted.last().y
        }),
    decreases sorted.len() - i,
{
    if i + 1 < sorted.len() && !(sorted[i].x.at_most(x) && x.at_most(sorted[i + 1].x)) {
        lemma_segment(sorted, x, i + 1);
    }
}

proof fn lemma_segment_mapped(
    sorted: Seq<CurvePoint>,
    f: spec_fn(Scalar) -> Scalar,
    x: Scalar,
    i: int,
)
    requires
        0 <= i < sorted.len(),
    ensures
        segment_at(mapped_points(sorted, f), x, i) == segment_at(sorted, x, i),
    decreases sorted.len() - i,
{
    if i + 1 < sorted.len() && !(sorted[i].x.at_most(x) && x.at_most(sorted[i + 1].x)) {
        lemma_segment_mapped(sorted, f, x, i + 1);
    }
}

// --- Steps keep numbers and their order ----------------------------------------------------------

/// What comes out of a step as a number went in as one.
proof fn lemma_step_finite(kind: KindView, duty: Scalar)
    requires
        kind is Offset || kind is Scale,
        folded_duty(kind, duty).finite(),
    ensures
        duty.finite(),
        kind matches KindView::Offset { delta } ==> delta.finite(),
        kind matches KindView::Scale { factor } ==> factor.finite(),
{
    reveal(Scalar::plus);
    reveal(Scalar::times);
}

proof fn lemma_applied_finite(steps: Seq<KindView>, duty: Scalar)
    requires
        straight(steps),
        applied(steps, duty).finite(),
    ensures
        duty.finite(),
    decreases steps.len(),
{
    if steps.len() > 0 {
        assert(steps[steps.len() - 1] == steps.last());
        lemma_step_finite(steps.last(), applied(steps.drop_last(), duty));
        assert(straight(steps.drop_last())) by {
            assert forall|i: int| 0 <= i < steps.drop_last().len() implies (
            #[trigger] steps.drop_last()[i]) is Offset || steps.drop_last()[i] is Scale by {
                assert(steps[i] == steps.drop_last()[i]);
            }
        }
        lemma_applied_finite(steps.drop_last(), duty);
    }
}

/// Scaling by nothing negative keeps order.
pub proof fn products_keep_order(a: Scalar, b: Scalar, factor: Scalar)
    requires
        a.finite(),
        b.finite(),
        factor.finite(),
        a.at_most(b),
        !factor.below(whole(0)),
    ensures
        a.times(factor).at_most(b.times(factor)),
{
    reveal(Scalar::times);
    let unit = pow2(1074);
    lemma_pow2_pos(1074);
    whole_is_exact(0);
    assert(0 * unit == 0);
    order_is_by_value(a, b);
    order_is_by_value(factor, whole(0));
    let f = factor.magnitude();
    if factor.pattern() > 0 {
        lemma_magnitude_order(0, factor.pattern());
    }
    let m = a.magnitude();
    let n = b.magnitude();
    if f == 0 {
        assert(m * f == 0) by (nonlinear_arith)
            requires
                f == 0,
        ;
        assert(n * f == 0) by (nonlinear_arith)
            requires
                f == 0,
        ;
        rounding_keeps_order(0, unit, 0, 1);
        rounding_keeps_order(0, 1, 0, unit);
        crate::scalar::doubles_round_to_themselves(0);
    } else {
        crate::scalar::doubles_round_to_themselves(0);
        if m <= n {
            assert((m * f) * unit <= (n * f) * unit) by (nonlinear_arith)
                requires
                    m <= n,
            ;
            rounding_keeps_order(m * f, unit, n * f, unit);
        }
        if n <= m {
            assert((n * f) * unit <= (m * f) * unit) by (nonlinear_arith)
                requires
                    n <= m,
            ;
            rounding_keeps_order(n * f, unit, m * f, unit);
        }
        if m == 0 {
            assert(m * f == 0) by (nonlinear_arith)
                requires
                    m == 0,
            ;
            rounding_keeps_order(0, unit, 0, 1);
        }
        if n == 0 {
            assert(n * f == 0) by (nonlinear_arith)
                requires
                    n == 0,
            ;
            rounding_keeps_order(0, unit, 0, 1);
        }
    }
}

proof fn lemma_prefix(steps: Seq<KindView>)
    requires
        steps.len() > 0,
    ensures
        straight(steps) ==> straight(steps.drop_last()) && (steps.last() is Offset
            || steps.last() is Scale),
        upright(steps) ==> upright(steps.drop_last()) && (steps.last() matches KindView::Scale {
            factor,
        } ==> !factor.below(whole(0))),
{
    assert(steps[steps.len() - 1] == steps.last());
    assert forall|i: int| 0 <= i < steps.drop_last().len() implies (#[trigger] steps.drop_last()[i])
        == steps[i] by {}
}

proof fn lemma_applied_order(steps: Seq<KindView>, a: Scalar, b: Scalar)
    requires
        straight(steps),
        upright(steps),
        applied(steps, a).finite(),
        applied(steps, b).finite(),
        a.at_most(b),
    ensures
        applied(steps, a).at_most(applied(steps, b)),
    decreases steps.len(),
{
    if steps.len() > 0 {
        lemma_prefix(steps);
        let rest = steps.drop_last();
        let p = applied(rest, a);
        let q = applied(rest, b);
        lemma_step_finite(steps.last(), p);
        lemma_step_finite(steps.last(), q);
        lemma_applied_order(rest, a, b);
        match steps.last() {
            KindView::Offset { delta } => {
                terms_may_be_swapped(p, delta);
                terms_may_be_swapped(q, delta);
                sums_keep_order(delta, p, q);
            },
            KindView::Scale { factor } => {
                products_keep_order(p, q, factor);
            },
            _ => {},
        }
    }
}

// --- On a step -----------------------------------------------------------------------------------

/// Whether every height at `x` is a number, whatever is done to it.
spec fn heights_hold(points: Seq<CurvePoint>, f: spec_fn(Scalar) -> Scalar) -> bool {
    forall|i: int|
        0 <= i < points.len() ==> (#[trigger] points[i]).y.finite() && f(points[i].y).finite()
}

proof fn lemma_standing_heights(
    points: Seq<CurvePoint>,
    f: spec_fn(Scalar) -> Scalar,
    x: Scalar,
    n: nat,
)
    requires
        n <= points.len(),
        heights_hold(points, f),
    ensures
        ({
            let here = standing(points, x, n);
            let there = standing(mapped_points(points, f), x, n);
            &&& there.len() == here.len()
            &&& all_finite(here)
            &&& all_finite(there)
            &&& forall|i: int| 0 <= i < here.len() ==> #[trigger] there[i] == f(here[i])
        }),
    decreases n,
{
    if n > 0 {
        let m = (n - 1) as nat;
        lemma_standing_heights(points, f, x, m);
        let mapped = mapped_points(points, f);
        let here = standing(points, x, n);
        let there = standing(mapped, x, n);
        let before = standing(points, x, m);
        let prior = standing(mapped, x, m);
        assert(points[n - 1].y.finite());
        assert forall|i: int| 0 <= i < here.len() implies #[trigger] there[i] == f(here[i])
            && here[i].finite() && there[i].finite() by {
            if i < before.len() {
                assert(here[i] == before[i]);
                assert(there[i] == prior[i]);
            }
        }
    }
}

/// On a vertical step, steps that turn nothing upside down make of the upper value the upper
/// value of what they make.
proof fn lemma_largest_applied(here: Seq<Scalar>, there: Seq<Scalar>, steps: Seq<KindView>)
    requires
        here.len() > 0,
        there.len() == here.len(),
        all_finite(here),
        all_finite(there),
        straight(steps),
        upright(steps),
        forall|i: int| 0 <= i < here.len() ==> #[trigger] there[i] == applied(steps, here[i]),
    ensures
        largest(there).value() == applied(steps, largest(here)).value(),
{
    maximum_is_the_hottest(here);
    maximum_is_the_hottest(there);
    assert(mixed(MixMode::Max, here) == largest(here));
    assert(mixed(MixMode::Max, there) == largest(there));
    let i = choose|i: int| 0 <= i < here.len() && #[trigger] here[i] == largest(here);
    let j = choose|j: int| 0 <= j < there.len() && #[trigger] there[j] == largest(there);
    assert(there[i] == applied(steps, here[i]));
    assert(there[j] == applied(steps, here[j]));
    assert(here[j].at_most(largest(here)));
    assert(there[i].at_most(largest(there)));
    assert(there[i].finite() && there[j].finite());
    lemma_applied_order(steps, here[j], here[i]);
    order_is_by_value(there[j], there[i]);
    order_is_by_value(there[i], there[j]);
}

// --- Between points ------------------------------------------------------------------------------

/// How far along a segment a reading is: no less than nothing, no more than all of it.
proof fn lemma_part(a: Scalar, b: Scalar, x: Scalar)
    requires
        x.finite(),
        a.at_most(x),
        x.at_most(b),
        !b.minus(a).absolute().below(Scalar { bits: EPSILON_BITS }),
        x.minus(a).over(b.minus(a)).finite(),
    ensures
        0 <= x.minus(a).over(b.minus(a)).value() <= pow2(1074),
{
    let span = b.minus(a);
    let way = x.minus(a);
    let part = way.over(span);
    lemma_pow2_pos(1074);
    reveal(Scalar::plus);
    reveal(Scalar::over);
    if span.finite() {
        assert(a.finite() && b.finite());
        assert(span.pattern() > 0);
        lemma_magnitude_order(0, span.pattern());
        lemma_nearer(a, x, b);
        lemma_fraction_within(way, span);
        order_is_by_value(a, x);
        order_is_by_value(x, b);
        assert(a.negated().value() == -a.value());
        assert(!span.neg());
        if way.neg() {
            assert(way.pattern() == 0);
            assert(way.magnitude() == 0);
            assert(0 * pow2(1074) == 0);
            rounding_keeps_order(0, span.magnitude(), 0, 1);
            crate::scalar::doubles_round_to_themselves(0);
            assert(part.pattern() == 0);
        }
    } else {
        assert(!span.nan());
        assert(part.pattern() == 0);
    }
}

/// What a product is divided by a unit, and a unit more, is no less than it.
proof fn lemma_per_unit(product: nat, unit: nat)
    requires
        unit > 0,
    ensures
        product <= (product / unit + 1) * unit,
{
    lemma_fundamental_div_mod(product as int, unit as int);
    lemma_mod_bound(product as int, unit as int);
    assert((product / unit + 1) * unit == unit * (product / unit) + unit) by (nonlinear_arith);
}

/// One more step, on what follows the curve and on the heights at either end.
proof fn lemma_strays(
    kind: KindView,
    v: Scalar,
    a: Scalar,
    b: Scalar,
    t: int,
    size: nat,
    slack: nat,
)
    requires
        kind is Offset || kind is Scale,
        0 <= t <= pow2(1074),
        folded_duty(kind, v).finite(),
        folded_duty(kind, a).finite(),
        folded_duty(kind, b).finite(),
        v.magnitude() <= size,
        a.magnitude() <= size,
        b.magnitude() <= size,
        apart(v.value() * pow2(1074), a.value() * (pow2(1074) - t) + b.value() * t) <= slack
            * pow2(1074),
    ensures
        ({
            let unit = pow2(1074);
            let (w, c, d) = (folded_duty(kind, v), folded_duty(kind, a), folded_duty(kind, b));
            let (most, off) = match kind {
                KindView::Offset { delta } => {
                    let sum = size + delta.magnitude();
                    (sum + slip(sum), slack + 2 * slip(sum))
                },
                KindView::Scale { factor } => {
                    let product = size * factor.magnitude() / unit + 1;
                    (
                        product + slip(product),
                        slack * factor.magnitude() / unit + 1 + 2 * slip(product),
                    )
                },
                _ => (size, slack),
            };
            &&& w.magnitude() <= most
            &&& c.magnitude() <= most
            &&& d.magnitude() <= most
            &&& apart(w.value() * unit, c.value() * (unit - t) + d.value() * t) <= off * unit
        }),
{
    let unit = pow2(1074);
    lemma_pow2_pos(1074);
    lemma_step_finite(kind, v);
    lemma_step_finite(kind, a);
    lemma_step_finite(kind, b);
    let w = folded_duty(kind, v).value();
    let c = folded_duty(kind, a).value();
    let d = folded_duty(kind, b).value();
    match kind {
        KindView::Offset { delta } => {
            let sum = size + delta.magnitude();
            let s = slip(sum);
            sums_round_closely(v, delta, sum);
            sums_round_closely(a, delta, sum);
            sums_round_closely(b, delta, sum);
            let k = delta.value();
            lemma_offset(v.value(), a.value(), b.value(), k, w, c, d, t, s, slack, unit);
        },
        KindView::Scale { factor } => {
            let k = factor.value();
            let f = factor.magnitude();
            let product = size * f / unit + 1;
            let s = slip(product);
            lemma_per_unit(size * f, unit);
            lemma_per_unit(slack * f, unit);
            lemma_size(v.value(), k, size, f, product, unit);
            lemma_size(a.value(), k, size, f, product, unit);
            lemma_size(b.value(), k, size, f, product, unit);
            products_round_closely(v, factor, product);
            products_round_closely(a, factor, product);
            products_round_closely(b, factor, product);
            lemma_landed(v.value() * k, w, product, s, unit);
            lemma_landed(a.value() * k, c, product, s, unit);
            lemma_landed(b.value() * k, d, product, s, unit);
            let off = slack * f / unit + 1;
            lemma_scaled(v.value(), a.value(), b.value(), k, w, c, d, t, s, slack, off, f, unit);
        },
        _ => {},
    }
}

proof fn lemma_size(v: int, k: int, size: nat, f: nat, product: nat, unit: nat)
    by (nonlinear_arith)
    requires
        -(size as int) <= v <= size,
        -(f as int) <= k <= f,
        size * f <= product * unit,
    ensures
        apart(v * k, 0) <= product * unit,
{
}

proof fn lemma_landed(exact: int, w: int, product: nat, s: nat, unit: nat)
    by (nonlinear_arith)
    requires
        unit > 0,
        apart(exact, 0) <= product * unit,
        apart(w * unit, exact) <= s * unit,
    ensures
        apart(w, 0) <= product + s,
{
}

proof fn lemma_offset(
    v: int,
    a: int,
    b: int,
    k: int,
    w: int,
    c: int,
    d: int,
    t: int,
    s: nat,
    slack: nat,
    unit: nat,
)
    requires
        0 <= t <= unit,
        apart(w, v + k) <= s,
        apart(c, a + k) <= s,
        apart(d, b + k) <= s,
        apart(v * unit, a * (unit - t) + b * t) <= slack * unit,
    ensures
        apart(w * unit, c * (unit - t) + d * t) <= (slack + 2 * s) * unit,
{
    let e = w - (v + k);
    let g = c - (a + k);
    let h = d - (b + k);
    let line = a * (unit - t) + b * t;
    assert(w * unit - (c * (unit - t) + d * t) == (v * unit - line) + e * unit - (g * (unit - t) + h
        * t)) by (nonlinear_arith)
        requires
            e == w - (v + k),
            g == c - (a + k),
            h == d - (b + k),
            line == a * (unit - t) + b * t,
    ;
    assert(-(s * unit) <= g * (unit - t) + h * t <= s * unit) by (nonlinear_arith)
        requires
            0 <= t <= unit,
            -(s as int) <= g <= s,
            -(s as int) <= h <= s,
    ;
    assert(-(s * unit) <= e * unit <= s * unit) by (nonlinear_arith)
        requires
            -(s as int) <= e <= s,
            unit >= 0,
    ;
    assert((slack + 2 * s) * unit == slack * unit + s * unit + s * unit) by (nonlinear_arith);
}

proof fn lemma_scaled(
    v: int,
    a: int,
    b: int,
    k: int,
    w: int,
    c: int,
    d: int,
    t: int,
    s: nat,
    slack: nat,
    off: nat,
    f: nat,
    unit: nat,
)
    requires
        unit > 0,
        0 <= t <= unit,
        -(f as int) <= k <= f,
        apart(w * unit, v * k) <= s * unit,
        apart(c * unit, a * k) <= s * unit,
        apart(d * unit, b * k) <= s * unit,
        apart(v * unit, a * (unit - t) + b * t) <= slack * unit,
        slack * f <= off * unit,
    ensures
        apart(w * unit, c * (unit - t) + d * t) <= (off + 2 * s) * unit,
{
    let e = w * unit - v * k;
    let g = c * unit - a * k;
    let h = d * unit - b * k;
    let gap = v * unit - (a * (unit - t) + b * t);
    let end = w * unit - (c * (unit - t) + d * t);
    let r = unit - t;
    let (p, q, o) = (w * unit, c * unit, d * unit);
    assert(end * unit == p * unit - (q * r + o * t)) by {
        assert((c * r + d * t) * unit == q * r + o * t) by (nonlinear_arith)
            requires
                q == c * unit,
                o == d * unit,
        ;
        assert(end == p - (c * r + d * t));
        assert(end * unit == p * unit - (c * r + d * t) * unit) by (nonlinear_arith)
            requires
                end == p - (c * r + d * t),
        ;
    }
    assert(p * unit == e * unit + k * (v * unit)) by (nonlinear_arith)
        requires
            p == e + v * k,
    ;
    assert(q * r == g * r + k * (a * r)) by (nonlinear_arith)
        requires
            q == g + a * k,
    ;
    assert(o * t == h * t + k * (b * t)) by (nonlinear_arith)
        requires
            o == h + b * k,
    ;
    assert(k * gap == k * (v * unit) - k * (a * r) - k * (b * t)) by (nonlinear_arith)
        requires
            gap == v * unit - (a * r + b * t),
    ;
    let most = s * unit;
    assert(-(most * unit) <= g * (unit - t) + h * t <= most * unit) by (nonlinear_arith)
        requires
            0 <= t <= unit,
            -(most as int) <= g <= most,
            -(most as int) <= h <= most,
    ;
    assert(-(most * unit) <= e * unit <= most * unit) by (nonlinear_arith)
        requires
            -(most as int) <= e <= most,
            unit >= 0,
    ;
    let wide = slack * unit;
    assert(-(f * wide) <= k * gap <= f * wide) by (nonlinear_arith)
        requires
            -(f as int) <= k <= f,
            -(wide as int) <= gap <= wide,
    ;
    assert(f * wide <= (off * unit) * unit) by (nonlinear_arith)
        requires
            wide == slack * unit,
            slack * f <= off * unit,
    ;
    let bound = (off + 2 * s) * unit;
    assert((off * unit) * unit + most * unit + most * unit == bound * unit) by (nonlinear_arith)
        requires
            most == s * unit,
            bound == (off + 2 * s) * unit,
    ;
    assert(-(bound as int) <= end <= bound) by (nonlinear_arith)
        requires
            -(bound * unit) <= end * unit <= bound * unit,
            unit > 0,
    ;
}

/// All the steps, on what follows the curve and on the heights at either end.
proof fn lemma_all_stray(
    steps: Seq<KindView>,
    v: Scalar,
    a: Scalar,
    b: Scalar,
    t: int,
    height: nat,
)
    requires
        straight(steps),
        0 <= t <= pow2(1074),
        applied(steps, v).finite(),
        applied(steps, a).finite(),
        applied(steps, b).finite(),
        v.magnitude() <= height + blur(height),
        a.magnitude() <= height,
        b.magnitude() <= height,
        apart(v.value() * pow2(1074), a.value() * (pow2(1074) - t) + b.value() * t) <= blur(height)
            * pow2(1074),
    ensures
        ({
            let unit = pow2(1074);
            let (w, c, d) = (applied(steps, v), applied(steps, a), applied(steps, b));
            let (size, slack) = strayed(steps, height);
            &&& w.magnitude() <= size
            &&& c.magnitude() <= size
            &&& d.magnitude() <= size
            &&& apart(w.value() * unit, c.value() * (unit - t) + d.value() * t) <= slack * unit
        }),
    decreases steps.len(),
{
    if steps.len() > 0 {
        lemma_prefix(steps);
        let rest = steps.drop_last();
        lemma_step_finite(steps.last(), applied(rest, v));
        lemma_step_finite(steps.last(), applied(rest, a));
        lemma_step_finite(steps.last(), applied(rest, b));
        lemma_all_stray(rest, v, a, b, t, height);
        let (size, slack) = strayed(rest, height);
        lemma_strays(
            steps.last(),
            applied(rest, v),
            applied(rest, a),
            applied(rest, b),
            t,
            size,
            slack,
        );
    }
}

/// On a segment: the line between heights that steps were folded into is near what the steps
/// make of the line.
proof fn lemma_line_near(
    a: CurvePoint,
    b: CurvePoint,
    x: Scalar,
    steps: Seq<KindView>,
    height: nat,
)
    requires
        straight(steps),
        x.finite(),
        a.x.at_most(x),
        x.at_most(b.x),
        !steep(a, b),
        a.y.magnitude() <= height,
        b.y.magnitude() <= height,
        applied(steps, a.y).finite(),
        applied(steps, b.y).finite(),
        applied(steps, between(a, b, x)).finite(),
        between(
            CurvePoint { x: a.x, y: applied(steps, a.y) },
            CurvePoint { x: b.x, y: applied(steps, b.y) },
            x,
        ).finite(),
    ensures
        apart(
            applied(steps, between(a, b, x)).value(),
            between(
                CurvePoint { x: a.x, y: applied(steps, a.y) },
                CurvePoint { x: b.x, y: applied(steps, b.y) },
                x,
            ).value(),
        ) <= tolerance(steps, height),
{
    let unit = pow2(1074);
    lemma_pow2_pos(1074);
    let part = x.minus(a.x).over(b.x.minus(a.x));
    let v = between(a, b, x);
    let c = applied(steps, a.y);
    let d = applied(steps, b.y);
    let folded = between(CurvePoint { x: a.x, y: c }, CurvePoint { x: b.x, y: d }, x);
    assert(v == a.y.plus(b.y.minus(a.y).times(part)));
    assert(folded == c.plus(d.minus(c).times(part)));
    lemma_applied_finite(steps, v);
    assert(part.finite()) by {
        reveal(Scalar::plus);
        reveal(Scalar::times);
    }
    lemma_part(a.x, b.x, x);
    let t = part.value();
    means_round_closely(a.y, b.y, part, height);
    let line = a.y.value() * (unit - t) + b.y.value() * t;
    let e = blur(height);
    assert(-(height * unit) <= line <= height * unit) by (nonlinear_arith)
        requires
            line == a.y.value() * (unit - t) + b.y.value() * t,
            0 <= t <= unit,
            -(height as int) <= a.y.value() <= height,
            -(height as int) <= b.y.value() <= height,
    ;
    let u = v.value();
    assert(apart(u, 0) <= height + e) by (nonlinear_arith)
        requires
            apart(u * unit, line) <= e * unit,
            -(height * unit) <= line <= height * unit,
            unit > 0,
    ;
    lemma_all_stray(steps, v, a.y, b.y, t, height);
    let (size, slack) = strayed(steps, height);
    means_round_closely(c, d, part, size);
    let w = applied(steps, v).value();
    let y = folded.value();
    let mean = c.value() * (unit - t) + d.value() * t;
    let rest = blur(size);
    assert(apart(w, y) <= slack + rest) by (nonlinear_arith)
        requires
            apart(w * unit, mean) <= slack * unit,
            apart(y * unit, mean) <= rest * unit,
            unit > 0,
    ;
}

/// Folding steps into a curve is near applying them afterwards, wherever the curve is read.
pub proof fn folding_is_close_everywhere(
    points: Seq<CurvePoint>,
    steps: Seq<KindView>,
    x: Scalar,
    height: nat,
)
    requires
        points.len() > 0,
        x.finite(),
        straight(steps),
        upright(steps) || !on_a_step(points, x),
        forall|i: int|
            0 <= i < points.len() ==> applied(steps, (#[trigger] points[i]).y).finite()
                && points[i].y.magnitude() <= height,
        applied(steps, interpolated(points, x)).finite(),
        interpolated(mapped_points(points, |d: Scalar| applied(steps, d)), x).finite(),
    ensures
        apart(
            applied(steps, interpolated(points, x)).value(),
            interpolated(mapped_points(points, |d: Scalar| applied(steps, d)), x).value(),
        ) <= tolerance(steps, height),
{
    broadcast use vstd::seq_lib::group_to_multiset_ensures;

    let f = |d: Scalar| applied(steps, d);
    let sorted = left_to_right(points);
    let images = mapped_points(sorted, f);
    sorting_keeps_the_points(points);
    lemma_sorted_mapped(points, f);
    assert forall|i: int| 0 <= i < sorted.len() implies f((#[trigger] sorted[i]).y).finite()
        && sorted[i].y.finite() && sorted[i].y.magnitude() <= height by {
        assert(sorted.contains(sorted[i]));
        assert(points.to_multiset().count(sorted[i]) > 0);
        assert(points.contains(sorted[i]));
        let k = points.index_of(sorted[i]);
        assert(points[k] == sorted[i]);
        lemma_applied_finite(steps, sorted[i].y);
    }
    let here = standing(sorted, x, sorted.len());
    let there = standing(images, x, images.len());
    lemma_standing_heights(sorted, f, x, sorted.len());
    if here.len() > 1 {
        lemma_largest_applied(here, there, steps);
    } else {
        lemma_segment(sorted, x, 0);
        lemma_segment(images, x, 0);
        lemma_segment_mapped(sorted, f, x, 0);
        let k = segment_at(sorted, x, 0);
        if !flat(sorted, x) {
            let a = sorted[k];
            let b = sorted[k + 1];
            assert(images[k] == (CurvePoint { x: a.x, y: f(a.y) }));
            assert(images[k + 1] == (CurvePoint { x: b.x, y: f(b.y) }));
            if steep(a, b) {
                let pair = seq![a.y, b.y];
                let image = seq![f(a.y), f(b.y)];
                assert(pair.drop_last() =~= seq![a.y]);
                assert(image.drop_last() =~= seq![f(a.y)]);
                assert(largest(seq![a.y]) == a.y);
                assert(largest(seq![f(a.y)]) == f(a.y));
                lemma_largest_applied(pair, image, steps);
            } else {
                lemma_line_near(a, b, x, steps, height);
            }
        }
    }
}

// --- The path ------------------------------------------------------------------------------------

/// The steps between a node and the curve that it goes back to, the one behind the curve first.
pub open spec fn steps_behind(g: GraphView, node: Text, fuel: nat) -> Seq<KindView>
    decreases fuel,
{
    let kind = g.nodes[node].kind;
    if fuel > 0 && (kind is Clamp || kind is Offset || kind is Scale) {
        steps_behind(g, source_of(g, node, "in"@)->0, (fuel - 1) as nat).push(kind)
    } else {
        Seq::empty()
    }
}

/// The points of the curve that a node goes back to.
pub open spec fn points_behind(g: GraphView, node: Text, fuel: nat) -> Seq<CurvePoint>
    decreases fuel,
{
    let kind = g.nodes[node].kind;
    if fuel > 0 && (kind is Clamp || kind is Offset || kind is Scale) {
        points_behind(g, source_of(g, node, "in"@)->0, (fuel - 1) as nat)
    } else {
        match kind {
            KindView::Curve { points } => points,
            _ => Seq::empty(),
        }
    }
}

/// What stands on the wire of a node that goes back to a curve, and what the node folds to.
proof fn lemma_path(c: CompiledView, t: TickView, states: Map<Text, StateView>, id: Text, fuel: nat)
    requires
        c.sound(),
        folded(c.graph, id, fuel).0 is Some,
        folded(c.graph, id, fuel).0->0 is Curve,
    ensures
        c.graph.nodes.dom().contains(id),
        !(c.graph.nodes[id].kind is FanOutput),
        ({
            let points = points_behind(c.graph, id, fuel);
            let steps = steps_behind(c.graph, id, fuel);
            let r = folded(c.graph, id, fuel).0->0;
            &&& r->points == mapped_points(points, |d: Scalar| applied(steps, d))
            &&& ticked(c, t, states).outputs[PortKey { node: id, port: "out"@ }].scalar == applied(
                steps,
                interpolated(points, read_from(t, r->sensor_id, r->Curve_quantity)),
            )
        }),
    decreases fuel,
{
    let g = c.graph;
    let kind = g.nodes[id].kind;
    lemma_ports_found(kind);
    wires_carry_their_nodes_work(c, t, states, id);
    let steps = steps_behind(g, id, fuel);
    let points = points_behind(g, id, fuel);
    let r = folded(g, id, fuel).0->0;
    match kind {
        KindView::Curve { points } => {
            let source = source_of(g, id, "in"@)->0;
            lemma_source(c, t, states, id, "in"@, source);
            lemma_ports_found(g.nodes[source].kind);
            wires_carry_their_nodes_work(c, t, states, source);
            assert(r->points =~= mapped_points(points, |d: Scalar| applied(steps, d)));
        },
        _ => {
            let source = source_of(g, id, "in"@)->0;
            let inner = folded(g, source, (fuel - 1) as nat).0->0;
            assert(inner is Curve);
            lemma_path(c, t, states, source, (fuel - 1) as nat);
            lemma_source(c, t, states, id, "in"@, source);
            assert(steps.drop_last() =~= steps_behind(g, source, (fuel - 1) as nat));
            assert(steps.last() == kind);
            assert(r->points =~= mapped_points(points, |d: Scalar| applied(steps, d)));
        },
    }
}

/// Bringing two numbers into the range of a duty takes them no further apart.
proof fn lemma_clamped_near(a: Scalar, b: Scalar)
    requires
        a.finite(),
        b.finite(),
    ensures
        apart(Quantity::Duty.clamped(a).value(), Quantity::Duty.clamped(b).value()) <= apart(
            a.value(),
            b.value(),
        ),
{
    whole_is_exact(0);
    whole_is_exact(100);
    assert(0 * pow2(1074) == 0);
    lemma_pow2_pos(1074);
    order_is_by_value(a, whole(0));
    order_is_by_value(b, whole(0));
    order_is_by_value(whole(100), a);
    order_is_by_value(whole(100), b);
}

/// The source of what a channel is driven by.
pub open spec fn driver_of(g: GraphView, channel: Text) -> Text {
    source_of(g, outputs_naming(g, channel, g.ids.len())[0], "duty"@)->0
}

/// A reduction describes the fan that was configured, between the points of its curve too: with
/// steps folded into the curve that add and scale, the channel is commanded the duty that its
/// reduction describes, brought into range, to within the roundings of the steps. Left out is
/// what overflows, and a vertical step of the curve that is turned upside down: there the
/// reduction gives the upper of two heights, and the tick what was made of the other.
pub proof fn a_folded_reduction_describes_what_is_commanded(
    c: CompiledView,
    t: TickView,
    states: Map<Text, StateView>,
    channel: Text,
    height: nat,
)
    requires
        c.sound(),
        reduced(c.graph, channel) is Ok,
        reduced(c.graph, channel)->Ok_0 is Curve,
        ({
            let r = reduced(c.graph, channel)->Ok_0;
            let node = driver_of(c.graph, channel);
            let n = c.graph.ids.len();
            let steps = steps_behind(c.graph, node, n);
            let points = points_behind(c.graph, node, n);
            &&& straight(steps)
            &&& upright(steps) || !on_a_step(
                points,
                read_from(t, r->sensor_id, r->Curve_quantity),
            )
            &&& forall|i: int|
                0 <= i < points.len() ==> (#[trigger] points[i]).y.magnitude() <= height
            &&& forall|i: int| 0 <= i < r->points.len() ==> (#[trigger] r->points[i]).y.finite()
            &&& described(r, t).finite()
        }),
        ticked(c, t, states).commands.dom().contains(channel),
    ensures
        ({
            let r = reduced(c.graph, channel)->Ok_0;
            let steps = steps_behind(c.graph, driver_of(c.graph, channel), c.graph.ids.len());
            let command = ticked(c, t, states).commands[channel];
            &&& command.quantity == Quantity::Duty
            &&& apart(
                command.scalar.value(),
                Quantity::Duty.clamped(described(r, t)).value(),
            ) <= tolerance(steps, height)
        }),
{
    let g = c.graph;
    let n = g.ids.len();
    let outputs = outputs_naming(g, channel, n);
    let fan = outputs[0];
    let source = driver_of(g, channel);
    lemma_naming(g, channel, n);
    assert(g.nodes.dom().contains(outputs[0]));
    assert(drives_alone(g, fan, channel)) by {
        assert forall|other: Text| #[trigger]
            g.nodes.dom().contains(other) && g.nodes[other].kind == (KindView::FanOutput {
                channel,
            }) implies other == fan by {
            assert(g.ids.contains(other));
            let i = g.ids.index_of(other);
            assert(g.ids[i] == other);
            assert(outputs.contains(other));
        }
    }
    lemma_path(c, t, states, source, n);
    lemma_ports_found(g.nodes[fan].kind);
    lemma_source(c, t, states, fan, "duty"@, source);
    channels_follow_their_output(c, t, states, fan, channel);
    let r = reduced(g, channel)->Ok_0;
    let steps = steps_behind(g, source, n);
    let points = points_behind(g, source, n);
    let x = read_from(t, r->sensor_id, r->Curve_quantity);
    let duty = applied(steps, interpolated(points, x));
    assert(duty.finite());
    assert forall|i: int| 0 <= i < points.len() implies applied(
        steps,
        (#[trigger] points[i]).y,
    ).finite() by {
        assert(r->points[i].y == applied(steps, points[i].y));
    }
    folding_is_close_everywhere(points, steps, x, height);
    lemma_clamped_near(duty, described(r, t));
}

} // verus!
