//! How far rounding takes a result from what it stands for.
//!
//! Doubles are whole numbers of units of `2^-1074`, and so are the bounds here.
use crate::scalar::{
    half_even, last_place, lemma_div_unique, lemma_half_even_bounds, lemma_half_even_ratio,
    lemma_last_place, lemma_last_place_bounds, lemma_magnitude_parts, magnitude_of, nearest, Scalar,
    HIDDEN, INFINITY_BITS,
};
use vstd::arithmetic::div_mod::{lemma_fundamental_div_mod, lemma_mod_bound};
use vstd::arithmetic::mul::lemma_mul_strictly_positive;
use vstd::arithmetic::power2::{
    lemma2_to64, lemma2_to64_rest, lemma_pow2_adds, lemma_pow2_pos, pow2,
};
use vstd::prelude::*;

verus! {

/// How many of its last places a double is long: `2^53`.
pub const LENGTH: u64 = 0x20_0000_0000_0000;

/// How far apart two numbers are.
pub open spec fn apart(a: int, b: int) -> nat {
    if a <= b {
        (b - a) as nat
    } else {
        (a - b) as nat
    }
}

/// How far rounding may take a result of a size: one part in `2^53` of it, and two units.
pub open spec fn slip(size: nat) -> nat {
    size / LENGTH as nat + 2
}

/// How far the mean of two numbers, weighed by parts of one, may be taken by the roundings on
/// the way: eight parts in `2^53` of the larger, and eight units.
pub open spec fn blur(size: nat) -> nat {
    8 * size / LENGTH as nat + 8
}

proof fn lemma_half_even_close(n: nat, d: nat)
    requires
        d > 0,
    ensures
        2 * apart((half_even(n, d) * d) as int, n as int) <= d,
{
    let q = n / d;
    let r = n % d;
    lemma_fundamental_div_mod(n as int, d as int);
    lemma_mod_bound(n as int, d as int);
    assert(q * d == d * q) by (nonlinear_arith);
    assert((q + 1) * d == d * q + d) by (nonlinear_arith);
}

/// What the pattern of a mantissa and a last place stands for.
proof fn lemma_pattern_stands(q: nat, k: nat)
    requires
        q <= LENGTH,
        k > 0 ==> q >= HIDDEN,
    ensures
        magnitude_of((q + k * HIDDEN) as int) == q * pow2(k),
{
    lemma2_to64();
    let pattern = (q + k * HIDDEN) as int;
    assert(k * HIDDEN >= 0) by (nonlinear_arith);
    if q < HIDDEN {
        assert(k * HIDDEN == 0) by (nonlinear_arith)
            requires
                k == 0,
        ;
        assert(q * pow2(0) == q) by (nonlinear_arith)
            requires
                pow2(0) == 1,
        ;
    } else if q < LENGTH {
        assert((k + 1) * HIDDEN <= pattern < (k + 1 + 1) * HIDDEN) by (nonlinear_arith)
            requires
                pattern == q + k * HIDDEN,
                HIDDEN <= q,
                q < 2 * HIDDEN,
        ;
        lemma_div_unique(pattern, HIDDEN as int, (k + 1) as int);
        lemma_magnitude_parts(pattern);
        assert(pattern - (k + 1) * HIDDEN + HIDDEN == q) by (nonlinear_arith)
            requires
                pattern == q + k * HIDDEN,
        ;
    } else {
        assert((k + 2) * HIDDEN <= pattern < (k + 2 + 1) * HIDDEN) by (nonlinear_arith)
            requires
                pattern == q + k * HIDDEN,
                q == 2 * HIDDEN,
                HIDDEN > 0,
        ;
        lemma_div_unique(pattern, HIDDEN as int, (k + 2) as int);
        lemma_magnitude_parts(pattern);
        assert(pattern - (k + 2) * HIDDEN + HIDDEN == HIDDEN) by (nonlinear_arith)
            requires
                pattern == 2 * HIDDEN + k * HIDDEN,
        ;
        lemma_pow2_adds(1, k);
        assert(HIDDEN * (2 * pow2(k)) == (2 * HIDDEN) * pow2(k)) by (nonlinear_arith);
    }
}

/// The nearest double is near: within one part in `2^53`, or within a unit.
pub proof fn the_nearest_is_near(n: nat, d: nat)
    requires
        d > 0,
        nearest(n, d) < INFINITY_BITS,
    ensures
        LENGTH * apart((magnitude_of(nearest(n, d) as int) * d) as int, n as int) <= n + LENGTH * d,
{
    let k = last_place(n, d);
    let e = d * pow2(k);
    let q = half_even(n, e);
    lemma2_to64();
    lemma2_to64_rest();
    lemma_last_place_bounds(n, d);
    lemma_pow2_pos(k);
    lemma_mul_strictly_positive(d as int, pow2(k) as int);
    lemma_pow2_adds(k, 53);
    lemma_pow2_adds(k, 52);
    assert(d * (pow2(k) * pow2(53)) == e * pow2(53)) by (nonlinear_arith)
        requires
            e == d * pow2(k),
    ;
    assert(d * (pow2(k) * pow2(52)) == e * pow2(52)) by (nonlinear_arith)
        requires
            e == d * pow2(k),
    ;
    lemma_half_even_bounds(n, e, pow2(53));
    if k > 0 {
        lemma_half_even_bounds(n, e, pow2(52));
    }
    lemma_pattern_stands(q, k);
    lemma_half_even_close(n, e);
    assert((q * pow2(k)) * d == q * e) by (nonlinear_arith)
        requires
            e == d * pow2(k),
    ;
    let off = apart((q * e) as int, n as int);
    assert(2 * off <= e);
    if k == 0 {
        assert(e == d) by (nonlinear_arith)
            requires
                e == d * pow2(k),
                pow2(k) == 1,
        ;
    }
}

/// A sum is near the sum of what its terms stand for.
pub proof fn sums_round_closely(a: Scalar, b: Scalar, size: nat)
    requires
        a.finite(),
        b.finite(),
        a.plus(b).finite(),
        apart(a.value() + b.value(), 0) <= size,
    ensures
        apart(a.plus(b).value(), a.value() + b.value()) <= slip(size),
{
    reveal(Scalar::plus);
    let sum = a.value() + b.value();
    let n = apart(sum, 0);
    if sum != 0 {
        the_nearest_is_near(n, 1);
        assert(magnitude_of(nearest(n, 1) as int) * 1 == magnitude_of(nearest(n, 1) as int));
        assert(a.plus(b).magnitude() == magnitude_of(nearest(n, 1) as int));
        assert(apart(a.plus(b).value(), sum) == apart(a.plus(b).magnitude() as int, n as int));
    }
}

/// A product is near the product of what its factors stand for.
pub proof fn products_round_closely(a: Scalar, b: Scalar, size: nat)
    requires
        a.finite(),
        b.finite(),
        a.times(b).finite(),
        apart(a.value() * b.value(), 0) <= size * pow2(1074),
    ensures
        apart(a.times(b).value() * pow2(1074), a.value() * b.value()) <= slip(size) * pow2(1074),
{
    reveal(Scalar::times);
    let unit = pow2(1074);
    lemma_pow2_pos(1074);
    let x = a.magnitude();
    let y = b.magnitude();
    let n = x * y;
    let r = a.times(b);
    let m = magnitude_of(nearest(n, unit) as int);
    the_nearest_is_near(n, unit);
    assert(r.magnitude() == m);
    assert(a.value() * b.value() == if a.neg() != b.neg() {
        -(n as int)
    } else {
        n as int
    }) by (nonlinear_arith)
        requires
            n == x * y,
            a.value() == if a.neg() {
                -(x as int)
            } else {
                x as int
            },
            b.value() == if b.neg() {
                -(y as int)
            } else {
                y as int
            },
    ;
    assert(n >= 0) by (nonlinear_arith)
        requires
            n == x * y,
            x >= 0,
            y >= 0,
    ;
    let off = apart((m * unit) as int, n as int);
    assert(r.value() * unit == if r.neg() {
        -((m * unit) as int)
    } else {
        (m * unit) as int
    }) by (nonlinear_arith)
        requires
            r.value() == if r.neg() {
                -(m as int)
            } else {
                m as int
            },
    ;
    assert(off == apart(r.value() * unit, a.value() * b.value())) by {
        if m == 0 {
            assert(m * unit == 0) by (nonlinear_arith)
                requires
                    m == 0,
            ;
        }
    }
    assert(LENGTH * off <= n + LENGTH * unit);
    let part = size / LENGTH as nat;
    assert(off <= (part + 2) * unit) by (nonlinear_arith)
        requires
            LENGTH * off <= n + LENGTH * unit,
            n <= size * unit,
            size <= LENGTH * part + LENGTH,
            LENGTH == 0x20_0000_0000_0000,
            unit > 0,
    ;
}

/// A sum is the same either way round.
pub proof fn terms_may_be_swapped(a: Scalar, b: Scalar)
    requires
        a.finite(),
        b.finite(),
    ensures
        a.plus(b) == b.plus(a),
{
    reveal(Scalar::plus);
}

/// A product is the same either way round.
pub proof fn factors_may_be_swapped(a: Scalar, b: Scalar)
    ensures
        a.times(b) == b.times(a),
{
    reveal(Scalar::times);
    assert(a.magnitude() * b.magnitude() == b.magnitude() * a.magnitude()) by (nonlinear_arith);
}

/// What a mean of two numbers is made of is a number where the mean is one.
proof fn lemma_parts_finite(from: Scalar, to: Scalar, part: Scalar)
    requires
        from.plus(to.minus(from).times(part)).finite(),
    ensures
        from.finite(),
        to.finite(),
        part.finite(),
        to.minus(from).finite(),
        to.minus(from).times(part).finite(),
{
    reveal(Scalar::plus);
    reveal(Scalar::times);
}

/// The way from one number to another, a part of it, is near where it should lead: to the mean
/// of the two, weighed by the part and what is left of it.
pub proof fn means_round_closely(from: Scalar, to: Scalar, part: Scalar, size: nat)
    requires
        from.plus(to.minus(from).times(part)).finite(),
        0 <= part.value() <= pow2(1074),
        from.magnitude() <= size,
        to.magnitude() <= size,
    ensures
        apart(
            from.plus(to.minus(from).times(part)).value() * pow2(1074),
            from.value() * (pow2(1074) - part.value()) + to.value() * part.value(),
        ) <= blur(size) * pow2(1074),
{
    let unit = pow2(1074);
    lemma_pow2_pos(1074);
    lemma_parts_finite(from, to, part);
    let a = from.value();
    let b = to.value();
    let t = part.value();
    let way = to.minus(from);
    let step = way.times(part);
    let end = from.plus(step);
    let d = way.value();
    let q = step.value();
    let y = end.value();
    assert(from.negated().value() == -a);
    let s1 = slip(2 * size);
    sums_round_closely(to, from.negated(), 2 * size);
    assert(apart(d, b - a) <= s1);
    let m2 = 2 * size + s1;
    let s2 = slip(m2);
    assert(apart(d, 0) <= m2);
    assert(apart(d * t, 0) <= m2 * unit) by (nonlinear_arith)
        requires
            apart(d, 0) <= m2,
            0 <= t <= unit,
    ;
    products_round_closely(way, part, m2);
    assert(apart(q * unit, d * t) <= s2 * unit);
    let m3 = size + m2 + s2;
    let s3 = slip(m3);
    assert(apart(q, 0) <= m2 + s2) by (nonlinear_arith)
        requires
            apart(q * unit, d * t) <= s2 * unit,
            apart(d * t, 0) <= m2 * unit,
            unit > 0,
    ;
    sums_round_closely(from, step, m3);
    assert(apart(y, a + q) <= s3);
    let target = a * (unit - t) + b * t;
    let e1 = d - (b - a);
    let e2 = q * unit - d * t;
    let e3 = y - (a + q);
    assert(y * unit - target == e3 * unit + e2 + e1 * t) by (nonlinear_arith)
        requires
            target == a * (unit - t) + b * t,
            e1 == d - (b - a),
            e2 == q * unit - d * t,
            e3 == y - (a + q),
    ;
    assert(apart(y * unit, target) <= (s1 + s2 + s3) * unit) by (nonlinear_arith)
        requires
            y * unit - target == e3 * unit + e2 + e1 * t,
            -(s1 as int) <= e1 <= s1,
            -(s2 * unit) <= e2 <= s2 * unit,
            -(s3 as int) <= e3 <= s3,
            0 <= t <= unit,
    ;
    assert(s1 + s2 + s3 <= blur(size));
    assert((s1 + s2 + s3) * unit <= blur(size) * unit) by (nonlinear_arith)
        requires
            s1 + s2 + s3 <= blur(size),
    ;
}

/// Twice a quotient rounds to twice what the quotient rounds to, unless that is next to nothing
/// or too large.
pub proof fn doubling_rounds_alike(n: nat, d: nat)
    requires
        d > 0,
        HIDDEN < nearest(n, d),
        nearest(n, d) + HIDDEN < INFINITY_BITS,
    ensures
        nearest(2 * n, d) == nearest(n, d) + HIDDEN,
        magnitude_of(nearest(2 * n, d) as int) == 2 * magnitude_of(nearest(n, d) as int),
{
    let k = last_place(n, d);
    let e = d * pow2(k);
    let q = half_even(n, e);
    lemma2_to64();
    lemma2_to64_rest();
    lemma_last_place_bounds(n, d);
    lemma_pow2_pos(k);
    lemma_mul_strictly_positive(d as int, pow2(k) as int);
    lemma_pow2_adds(1, k);
    lemma_pow2_adds(1, 53 + k);
    lemma_pow2_adds(1, 52 + k);
    if k == 0 {
        assert(e == d) by (nonlinear_arith)
            requires
                e == d * pow2(k),
                pow2(k) == 1,
        ;
        lemma_half_even_bounds(n, d, pow2(52));
    }
    assert(n >= d * pow2(52 + k));
    assert(2 * n < d * (2 * pow2(53 + k))) by (nonlinear_arith)
        requires
            n < d * pow2(53 + k),
    ;
    assert(2 * n >= d * (2 * pow2(52 + k))) by (nonlinear_arith)
        requires
            n >= d * pow2(52 + k),
    ;
    lemma_last_place(2 * n, d, k + 1);
    let twice = d * pow2(k + 1);
    assert(twice == 2 * e) by (nonlinear_arith)
        requires
            twice == d * (2 * pow2(k)),
            e == d * pow2(k),
    ;
    assert((2 * n) * e == n * twice) by (nonlinear_arith)
        requires
            twice == 2 * e,
    ;
    lemma_half_even_ratio(2 * n, twice, n, e);
    assert((k + 1) * HIDDEN == k * HIDDEN + HIDDEN) by (nonlinear_arith);
    let p = nearest(n, d) as int;
    lemma_magnitude_parts(p);
    lemma_magnitude_parts(p + HIDDEN);
    let f = p / (HIDDEN as int);
    lemma_fundamental_div_mod(p, HIDDEN as int);
    lemma_mod_bound(p, HIDDEN as int);
    assert((f + 1) * HIDDEN <= p + HIDDEN < (f + 1 + 1) * HIDDEN) by (nonlinear_arith)
        requires
            p == HIDDEN * f + p % (HIDDEN as int),
            0 <= p % (HIDDEN as int) < HIDDEN,
    ;
    lemma_div_unique(p + HIDDEN, HIDDEN as int, f + 1);
    lemma_pow2_adds(1, (f - 1) as nat);
    let m = p - f * HIDDEN + HIDDEN;
    assert(p + HIDDEN - (f + 1) * HIDDEN + HIDDEN == m) by (nonlinear_arith)
        requires
            m == p - f * HIDDEN + HIDDEN,
    ;
    let w = pow2((f - 1) as nat);
    assert(m * (2 * w) == 2 * (m * w)) by (nonlinear_arith);
}

} // verus!
