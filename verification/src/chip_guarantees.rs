//! What registers say and what is put into them: temperatures, speeds and duties.
use crate::nct6775::{
    byte_of, byte_value, duty_of, id_of, reached, signed_whole, temperature_in, tsi_celsius,
    word_celsius, Model, TempEncoding, TempInput, TEMP_INPUTS,
};
use crate::node_behaviour::lemma_quotient;
use crate::rounding::{apart, products_round_closely, slip, LENGTH};
use crate::scalar::{
    doubles_round_to_themselves, lemma_fraction_within, lemma_magnitude_order,
    lemma_magnitude_parts, magnitude_of, order_is_by_value, rounding_keeps_order, whole,
    whole_is_exact, Scalar, HIDDEN, WHOLE_BITS,
};
use crate::superio::{channel_at, channel_id, read_to, said_by, sensor_id, CHANNELS};
use crate::text::{digits, lemma_digits_injective, Text};
use vstd::arithmetic::power2::{
    lemma2_to64, lemma2_to64_rest, lemma_pow2_pos, lemma_pow2_strictly_increases, pow2,
};
use vstd::prelude::*;

verus! {

// --- Temperatures --------------------------------------------------------------------------------

/// What bits mean as a number with a sign, in so many bits.
pub open spec fn twos_complement(raw: int, bits: nat) -> int {
    if raw >= pow2(bits) / 2 {
        raw - pow2(bits)
    } else {
        raw
    }
}

proof fn lemma_signed(n: int)
    requires
        -0x1_0000 <= n <= 0x1_0000,
    ensures
        signed_whole(n).finite(),
        signed_whole(n).value() == n * pow2(1074),
{
    let m = if n < 0 {
        (-n) as nat
    } else {
        n as nat
    };
    whole_is_exact(m);
    if n < 0 {
        assert(whole(m).negated().value() == -whole(m).value());
        assert(-((-n) * pow2(1074)) == n * pow2(1074)) by (nonlinear_arith);
    }
}

/// A number of parts of a degree, in so many parts.
proof fn lemma_parts(n: int, parts: nat, scalar: Scalar)
    requires
        -0x1_0000 <= n <= 0x1_0000,
        1 <= parts <= 256,
        scalar == signed_whole(n).over(whole(parts)),
    ensures
        scalar.finite(),
        LENGTH * apart(scalar.value() * parts, n * pow2(1074)) <= apart(n, 0) * pow2(1074) + LENGTH
            * parts,
        whole(40).negated().at_most(scalar) <==> n >= -40 * parts,
        scalar.at_most(whole(150)) <==> n <= 150 * parts,
{
    let unit = pow2(1074);
    lemma_pow2_pos(1074);
    lemma2_to64();
    lemma2_to64_rest();
    lemma_pow2_strictly_increases(60, 1074);
    lemma_signed(n);
    whole_is_exact(parts);
    whole_is_exact(40);
    whole_is_exact(150);
    whole_is_exact(0x1_0000);
    let top = signed_whole(n);
    let m = apart(n, 0);
    assert(top.magnitude() == m * unit) by {
        assert(-((-n) * unit) == n * unit) by (nonlinear_arith);
        assert(m * unit >= 0);
        if n < 0 {
            assert(n * unit < 0) by (nonlinear_arith)
                requires
                    n < 0,
                    unit > 0,
            ;
        } else {
            assert(n * unit >= 0) by (nonlinear_arith)
                requires
                    n >= 0,
                    unit > 0,
            ;
        }
    }
    assert(scalar.finite()) by {
        reveal(Scalar::over);
        let a = (top.magnitude() * unit) as nat;
        let d = whole(parts).magnitude();
        assert(parts * unit >= unit) by (nonlinear_arith)
            requires
                parts >= 1,
                unit > 0,
        ;
        assert(a * 1 <= (0x1_0000 * unit) * d) by (nonlinear_arith)
            requires
                a == (m * unit) * unit,
                m <= 0x1_0000,
                d >= unit,
                unit > 0,
        ;
        rounding_keeps_order(a, d, (0x1_0000 * unit) as nat, 1);
        doubles_round_to_themselves(whole(0x1_0000).pattern());
        assert(whole(0x1_0000).magnitude() == 0x1_0000 * unit);
    }
    lemma_quotient(top, parts);
    let v = scalar.value();
    assert(whole(40).negated().value() == -40 * unit);
    order_is_by_value(whole(40).negated(), scalar);
    order_is_by_value(scalar, whole(150));
    lemma_edge(v, n, parts as int, unit as int, -40);
    lemma_edge(v, n, parts as int, unit as int, 150);
    lemma_at_edge(n, parts, scalar, 40);
    lemma_at_edge(n, parts, scalar, 150);
}

/// On the far side of an edge by a part, on the far side by value.
proof fn lemma_edge(v: int, n: int, parts: int, unit: int, edge: int)
    requires
        1 <= parts <= 256,
        unit >= 0x1000_0000_0000_0000,
        -0x1_0000 <= n <= 0x1_0000,
        LENGTH * apart(v * parts, n * unit) <= apart(n, 0) * unit + LENGTH * parts,
    ensures
        n < edge * parts ==> v < edge * unit,
        n > edge * parts ==> v > edge * unit,
{
    let l = LENGTH as int;
    assert(l * apart(v * parts, n * unit) < l * unit) by (nonlinear_arith)
        requires
            l * apart(v * parts, n * unit) <= apart(n, 0) * unit + l * parts,
            apart(n, 0) <= 0x1_0000,
            parts <= 256,
            unit >= 0x1000_0000_0000_0000,
            l == 0x20_0000_0000_0000,
    ;
    assert(apart(v * parts, n * unit) < unit) by (nonlinear_arith)
        requires
            l * apart(v * parts, n * unit) < l * unit,
            l > 0,
    ;
    if n < edge * parts {
        assert(n * unit <= (edge * parts) * unit - unit) by (nonlinear_arith)
            requires
                n + 1 <= edge * parts,
                unit > 0,
        ;
        assert(v * parts < (edge * parts) * unit);
        assert(v < edge * unit) by (nonlinear_arith)
            requires
                v * parts < (edge * parts) * unit,
                parts > 0,
        ;
    }
    if n > edge * parts {
        assert(n * unit >= (edge * parts) * unit + unit) by (nonlinear_arith)
            requires
                n >= edge * parts + 1,
                unit > 0,
        ;
        assert(v * parts > (edge * parts) * unit);
        assert(v > edge * unit) by (nonlinear_arith)
            requires
                v * parts > (edge * parts) * unit,
                parts > 0,
        ;
    }
}

/// At an edge, the edge itself.
proof fn lemma_at_edge(n: int, parts: nat, scalar: Scalar, edge: nat)
    requires
        1 <= parts <= 256,
        edge <= 150,
        -0x1_0000 <= n <= 0x1_0000,
        scalar == signed_whole(n).over(whole(parts)),
        scalar.finite(),
    ensures
        n == edge * parts ==> scalar.value() == edge * pow2(1074),
        n == -(edge * parts) ==> scalar.value() == -(edge * pow2(1074)),
{
    let unit = pow2(1074);
    lemma_pow2_pos(1074);
    reveal(Scalar::over);
    lemma_signed(n);
    whole_is_exact(parts);
    whole_is_exact(edge);
    let top = signed_whole(n);
    if n == edge * parts || n == -(edge * parts) {
        let a = (top.magnitude() * unit) as nat;
        let d = whole(parts).magnitude();
        assert(parts * unit > 0) by (nonlinear_arith)
            requires
                parts > 0,
                unit > 0,
        ;
        assert(d == parts * unit && !whole(parts).neg() && !whole(parts).zero());
        assert(top.magnitude() == (edge * parts) * unit) by {
            assert((-(edge * parts)) * unit == -((edge * parts) * unit)) by (nonlinear_arith);
            assert((edge * parts) * unit >= 0) by (nonlinear_arith)
                requires
                    edge >= 0,
                    parts >= 0,
                    unit >= 0,
            ;
        }
        assert(a * 1 == (edge * unit) * d) by (nonlinear_arith)
            requires
                a == ((edge * parts) * unit) * unit,
                d == parts * unit,
        ;
        rounding_keeps_order(a, d, (edge * unit) as nat, 1);
        rounding_keeps_order((edge * unit) as nat, 1, a, d);
        doubles_round_to_themselves(whole(edge).pattern());
        assert(whole(edge).magnitude() == edge * unit);
        assert(scalar.magnitude() == edge * unit);
        assert(scalar.neg() == top.neg());
        if n > 0 {
            assert(n * unit > 0) by (nonlinear_arith)
                requires
                    n > 0,
                    unit > 0,
            ;
        }
        if n < 0 {
            assert(n * unit < 0) by (nonlinear_arith)
                requires
                    n < 0,
                    unit > 0,
            ;
        }
        if n == 0 {
            assert(edge == 0) by (nonlinear_arith)
                requires
                    edge * parts == 0,
                    parts > 0,
                    edge >= 0,
            ;
            assert(0 * unit == 0);
        }
    }
}

/// A word is a temperature in 256ths of a degree, with a sign, within rounding. It is believed
/// from 40 below zero to 150 above, and nowhere else.
pub proof fn a_word_counts_256ths(raw: u16)
    ensures
        ({
            let n = twos_complement(raw as int, 16);
            let found = temperature_in(TempEncoding::SignedWord, raw);
            &&& found is Some <==> -40 * 256 <= n <= 150 * 256
            &&& found matches Some(c) ==> c.finite() && LENGTH * apart(
                c.value() * 256,
                n * pow2(1074),
            ) <= apart(n, 0) * pow2(1074) + LENGTH * 256
        }),
{
    lemma2_to64();
    let n = twos_complement(raw as int, 16);
    lemma_parts(n, 256, word_celsius(raw));
}

/// A byte is a temperature in whole degrees, with a sign, and is believed from 40 below zero.
pub proof fn a_byte_counts_degrees(raw: u16)
    ensures
        ({
            let n = twos_complement((raw % 256) as int, 8);
            let found = temperature_in(TempEncoding::SignedByte, raw);
            &&& found is Some <==> n >= -40
            &&& found matches Some(c) ==> c.finite() && c.value() == n * pow2(1074)
        }),
{
    lemma2_to64();
    let unit = pow2(1074);
    lemma_pow2_pos(1074);
    let n = twos_complement((raw % 256) as int, 8);
    assert(byte_value((raw % 256) as u8) == n);
    lemma_signed(n);
    whole_is_exact(40);
    whole_is_exact(150);
    let c = signed_whole(n);
    assert(whole(40).negated().value() == -40 * unit);
    order_is_by_value(whole(40).negated(), c);
    order_is_by_value(c, whole(150));
    assert(n * unit >= -40 * unit <==> n >= -40) by (nonlinear_arith)
        requires
            unit > 0,
    ;
    assert(n * unit <= 150 * unit) by (nonlinear_arith)
        requires
            n <= 127,
            unit > 0,
    ;
}

/// A TSI word is a temperature in eighths of a degree, counted in its upper eleven bits, within
/// rounding. Zero means that nothing is there, and nothing above 150 is believed.
pub proof fn a_tsi_word_counts_eighths(raw: u16)
    ensures
        ({
            let n = raw as int / 32;
            let found = temperature_in(TempEncoding::Tsi, raw);
            &&& found is Some <==> raw != 0 && n <= 150 * 8
            &&& found matches Some(c) ==> c.finite() && LENGTH * apart(
                c.value() * 8,
                n * pow2(1074),
            ) <= n * pow2(1074) + LENGTH * 8
        }),
{
    let n = raw as int / 32;
    lemma_parts(n, 8, tsi_celsius(raw));
}

// --- Duties --------------------------------------------------------------------------------------

/// How small the units are that numbers are counted in.
pub proof fn lemma_unit()
    ensures
        pow2(1074) >= 0x1000_0000_0000_0000_0000,
{
    lemma2_to64();
    lemma2_to64_rest();
    vstd::arithmetic::power2::lemma_pow2_adds(60, 60);
    lemma_pow2_strictly_increases(120, 1074);
    assert(pow2(120) == pow2(60) * pow2(60));
    assert(pow2(60) * pow2(60) >= 0x1000_0000_0000_0000_0000) by (nonlinear_arith)
        requires
            pow2(60) == 0x1000_0000_0000_0000,
    ;
}

/// Dividing by one whole number and multiplying by another.
proof fn lemma_scaled(p: Scalar, over: nat, by: nat)
    requires
        p.finite(),
        1 <= over <= 255,
        1 <= by <= 255,
        0 <= p.value() <= 255 * pow2(1074),
        p.value() <= over * pow2(1074),
    ensures
        ({
            let r = p.over(whole(over)).times(whole(by));
            &&& r.finite()
            &&& 1000 * apart(r.value() * over, p.value() * by) <= pow2(1074)
            &&& 0 <= r.value() <= (by + 1) * pow2(1074)
        }),
{
    let unit = pow2(1074);
    lemma_unit();
    lemma_pow2_pos(1074);
    whole_is_exact(over);
    whole_is_exact(by);
    let c = p.over(whole(over));
    assert(over * unit > 0) by (nonlinear_arith)
        requires
            over > 0,
            unit > 0,
    ;
    lemma_fraction_within(p, whole(over));
    lemma_quotient(p, over);
    let r = c.times(whole(by));
    let cv = c.value();
    assert(cv >= 0) by {
        reveal(Scalar::over);
        assert(!whole(over).neg());
        if p.neg() {
            if p.pattern() > 0 {
                lemma_magnitude_order(0, p.pattern());
            }
            assert(p.magnitude() == 0);
            assert(p.magnitude() * unit == 0) by (nonlinear_arith)
                requires
                    p.magnitude() == 0,
            ;
            rounding_keeps_order(0, whole(over).magnitude(), 0, 1);
            doubles_round_to_themselves(0);
        }
    }
    // How large the product may be.
    assert(whole(by).magnitude() == by * unit);
    crate::rounding::factors_may_be_swapped(c, whole(by));
    crate::scalar::lemma_product_within(whole(by), c, by);
    assert(r.finite());
    let size = (256 * unit) as nat;
    assert(apart(cv * (by * unit), 0) <= size * unit) by (nonlinear_arith)
        requires
            0 <= cv <= unit,
            1 <= by <= 255,
            size == 256 * unit,
            unit > 0,
    ;
    products_round_closely(c, whole(by), size);
    let l = LENGTH as int;
    let e = slip(size) as int;
    let d = size / LENGTH as nat;
    assert(l * d <= size) by (nonlinear_arith)
        requires
            d == size / LENGTH as nat,
            l == LENGTH,
            l > 0,
    ;
    assert(l * e <= size + 2 * l) by (nonlinear_arith)
        requires
            e == d + 2,
            l * d <= size,
            l > 0,
    ;
    assert(apart(r.value(), cv * by) <= e) by {
        let x = r.value() - cv * by;
        assert(r.value() * unit - cv * (by * unit) == x * unit) by (nonlinear_arith)
            requires
                x == r.value() - cv * by,
        ;
        let xa = apart(r.value(), cv * by) as int;
        assert(apart(r.value() * unit, cv * (by * unit)) == xa * unit) by (nonlinear_arith)
            requires
                r.value() * unit - cv * (by * unit) == x * unit,
                x == r.value() - cv * by,
                xa == apart(r.value(), cv * by),
                unit > 0,
        ;
        assert(xa <= e) by (nonlinear_arith)
            requires
                xa * unit <= e * unit,
                unit > 0,
        ;
    }
    let off = apart(cv * over, p.value()) as int;
    assert(l * off <= p.value() + l * over);
    lemma_errors(r.value(), cv, p.value(), over as int, by as int, e, off, unit as int);
    lemma_top(r.value(), cv, by as int, e, unit as int);
    assert(r.value() >= 0) by {
        whole_is_exact(0);
        whole_is_exact(1);
        assert(0 * unit == 0 && 1 * unit == unit);
        order_is_by_value(whole(0), c);
        order_is_by_value(c, whole(1));
        order_is_by_value(whole(0), whole(by));
        crate::scalar::parts_lie_between(c, whole(by));
        order_is_by_value(whole(0), r);
    }
}

proof fn lemma_top(r: int, c: int, by: int, e: int, unit: int)
    requires
        apart(r, c * by) <= e,
        0 <= c <= unit,
        1 <= by <= 255,
        LENGTH * e <= 256 * unit + 2 * LENGTH,
        unit >= 0x1000_0000_0000_0000_0000,
    ensures
        r <= (by + 1) * unit,
{
    let l = LENGTH as int;
    assert(e <= unit) by (nonlinear_arith)
        requires
            l * e <= 256 * unit + 2 * l,
            l == 0x20_0000_0000_0000,
            unit >= 0x1000_0000_0000_0000_0000,
    ;
    assert(c * by <= by * unit) by (nonlinear_arith)
        requires
            c <= unit,
            by > 0,
    ;
    assert((by + 1) * unit == by * unit + unit) by (nonlinear_arith);
}

proof fn lemma_errors(r: int, c: int, p: int, over: int, by: int, e: int, off: int, unit: int)
    requires
        apart(r, c * by) <= e,
        off == apart(c * over, p),
        1 <= over <= 255,
        1 <= by <= 255,
        0 <= p <= 255 * unit,
        LENGTH * e <= 256 * unit + 2 * LENGTH,
        LENGTH * off <= p + LENGTH * over,
        unit >= 0x1000_0000_0000_0000_0000,
    ensures
        1000 * apart(r * over, p * by) <= unit,
{
    let l = LENGTH as int;
    let a = apart(r, c * by) as int;
    assert(apart(r * over, (c * by) * over) == a * over) by (nonlinear_arith)
        requires
            a == apart(r, c * by),
            over > 0,
    ;
    assert((c * by) * over == (c * over) * by) by (nonlinear_arith);
    assert(apart((c * over) * by, p * by) == off * by) by (nonlinear_arith)
        requires
            off == apart(c * over, p),
            by > 0,
    ;
    let all = apart(r * over, p * by) as int;
    assert(all <= a * over + off * by);
    assert(a * over <= 255 * e) by (nonlinear_arith)
        requires
            0 <= a <= e,
            over <= 255,
            over > 0,
    ;
    assert(off * by <= 255 * off) by (nonlinear_arith)
        requires
            off >= 0,
            by <= 255,
    ;
    assert(1000 * (255 * e + 255 * off) <= unit) by (nonlinear_arith)
        requires
            l * e <= 256 * unit + 2 * l,
            l * off <= 255 * unit + l * 255,
            l == 0x20_0000_0000_0000,
            unit >= 0x1000_0000_0000_0000_0000,
            e >= 0,
            off >= 0,
    ;
}

/// A duty as a part of one.
pub proof fn lemma_duty_share(p: Scalar)
    requires
        p.finite(),
        0 <= p.value() <= 100 * pow2(1074),
    ensures
        p.over(whole(100)).finite(),
        1000 * apart(p.over(whole(100)).value() * 100, p.value()) <= pow2(1074),
{
    let unit = pow2(1074);
    lemma_unit();
    lemma_pow2_pos(1074);
    whole_is_exact(100);
    lemma_fraction_within(p, whole(100));
    lemma_quotient(p, 100);
    let l = LENGTH as int;
    let off = apart(p.over(whole(100)).value() * 100, p.value()) as int;
    assert(1000 * off <= unit) by (nonlinear_arith)
        requires
            l * off <= 100 * unit + l * 100,
            l == 0x20_0000_0000_0000,
            unit >= 0x1000_0000_0000_0000_0000,
            off >= 0,
    ;
}

/// The greatest whole number that a whole number reaches is itself.
proof fn lemma_reached(x: Scalar, k: nat, n: nat)
    requires
        x.finite(),
        x.value() == k * pow2(1074),
        k <= n <= 255,
    ensures
        reached(x, n) == k,
    decreases n,
{
    let unit = pow2(1074);
    lemma_pow2_pos(1074);
    whole_is_exact(n);
    order_is_by_value(whole(n), x);
    assert(n * unit <= k * unit <==> n <= k) by (nonlinear_arith)
        requires
            unit > 0,
    ;
    if k < n {
        lemma_reached(x, k, (n - 1) as nat);
    }
}

/// Rounding to a whole number.
pub proof fn lemma_rounded(x: Scalar) -> (n: nat)
    requires
        x.finite(),
        0 <= x.value() <= 2000 * pow2(1074),
    ensures
        x.rounded().finite(),
        x.rounded().value() == n * pow2(1074),
        2 * apart(n * pow2(1074) as int, x.value()) <= pow2(1074),
        n <= 2000,
{
    reveal(Scalar::rounded);
    let unit = pow2(1074);
    lemma_pow2_pos(1074);
    lemma2_to64();
    lemma2_to64_rest();
    assert(x.pattern() < WHOLE_BITS) by {
        if x.pattern() >= WHOLE_BITS {
            if x.pattern() > WHOLE_BITS {
                lemma_magnitude_order(WHOLE_BITS as int, x.pattern());
            }
            lemma_magnitude_parts(WHOLE_BITS as int);
            assert(WHOLE_BITS as int / HIDDEN as int == 1075);
            assert(WHOLE_BITS as int % HIDDEN as int == 0);
            assert(magnitude_of(WHOLE_BITS as int) == HIDDEN * unit);
            assert(HIDDEN * unit > 2000 * unit) by (nonlinear_arith)
                requires
                    HIDDEN > 2000,
                    unit > 0,
            ;
        }
    }
    let m = x.magnitude();
    let n = ((2 * m + unit) / (2 * unit)) as nat;
    assert(m == x.value()) by {
        if x.neg() {
            assert(x.magnitude() == 0);
        }
    }
    vstd::arithmetic::div_mod::lemma_fundamental_div_mod((2 * m + unit) as int, (2 * unit) as int);
    vstd::arithmetic::div_mod::lemma_mod_bound((2 * m + unit) as int, (2 * unit) as int);
    assert((2 * unit) * n == 2 * (n * unit)) by (nonlinear_arith);
    assert(n <= 2000) by (nonlinear_arith)
        requires
            2 * (n * unit) <= 2 * (2000 * unit) + unit,
            unit > 0,
    ;
    whole_is_exact(n);
    doubles_round_to_themselves(whole(n).pattern());
    assert(whole(n).magnitude() == n * unit);
    assert(x.rounded().magnitude() == n * unit);
    if x.neg() {
        assert(n == 0) by (nonlinear_arith)
            requires
                2 * (n * unit) <= unit,
                unit > 0,
        ;
        assert(0 * unit == 0);
    }
    n
}

/// A duty is put into a register as the byte that comes nearest: of 255 parts, within half a part
/// of the percentage and a hair. What is below nothing is nothing, and what is above everything
/// is everything.
pub proof fn a_duty_is_the_nearest_byte(percent: Scalar)
    requires
        percent.finite(),
    ensures
        byte_of(percent) <= 255,
        0 <= percent.value() <= 100 * pow2(1074) ==> 1000 * (2 * apart(
            byte_of(percent) * (100 * pow2(1074)) as int,
            percent.value() * 255,
        )) <= 1000 * (100 * pow2(1074)) + 2 * pow2(1074),
        percent.value() <= 0 ==> byte_of(percent) == 0,
        percent.value() >= 100 * pow2(1074) ==> byte_of(percent) == 255,
{
    let unit = pow2(1074) as int;
    lemma_unit();
    lemma_pow2_pos(1074);
    whole_is_exact(0);
    whole_is_exact(100);
    assert(0 * unit == 0);
    order_is_by_value(percent, whole(0));
    order_is_by_value(whole(100), percent);
    let p = percent.confined(whole(0), whole(100));
    assert(p.finite() && 0 <= p.value() <= 100 * unit);
    lemma_scaled(p, 100, 255);
    let x = p.over(whole(100)).times(whole(255));
    let n = lemma_rounded(x);
    let r = x.rounded();
    assert(1000 * apart(n * (100 * unit), p.value() * 255) <= 1000 * (50 * unit) + unit) by {
        assert(2 * apart(n * unit, x.value()) <= unit);
        let a = apart(n * unit, x.value()) as int;
        assert(apart((n * unit) * 100, x.value() * 100) == 100 * a);
        assert(n * (100 * unit) == (n * unit) * 100) by (nonlinear_arith);
    }
    assert(n <= 255) by {
        if n >= 256 {
            assert(n * (100 * unit) >= 256 * (100 * unit)) by (nonlinear_arith)
                requires
                    n >= 256,
                    unit > 0,
            ;
        }
    }
    lemma_reached(r, n, 255);
    if percent.value() <= 0 {
        assert(p.value() == 0);
        assert(n == 0) by {
            if n >= 1 {
                assert(n * (100 * unit) >= 100 * unit) by (nonlinear_arith)
                    requires
                        n >= 1,
                        unit > 0,
                ;
            }
        }
    }
    if percent.value() >= 100 * unit {
        assert(p.value() == 100 * unit);
        assert(n == 255) by {
            if n <= 254 {
                assert(n * (100 * unit) <= 254 * (100 * unit)) by (nonlinear_arith)
                    requires
                        n <= 254,
                        unit > 0,
                ;
            }
        }
    }
}

/// What is written is what is read back: every byte, read as a percentage and put back, is the
/// byte that it was.
pub proof fn duties_are_read_back_as_written(raw: u8)
    ensures
        byte_of(duty_of(raw)) == raw,
        duty_of(raw).finite(),
        1000 * apart(duty_of(raw).value() * 255, (raw as int * pow2(1074)) * 100) <= pow2(1074),
{
    let unit = pow2(1074) as int;
    lemma_unit();
    lemma_pow2_pos(1074);
    let k = raw as nat;
    whole_is_exact(k);
    assert(k * unit <= 255 * unit) by (nonlinear_arith)
        requires
            k <= 255,
            unit > 0,
    ;
    assert(k * unit >= 0) by (nonlinear_arith)
        requires
            k >= 0,
            unit > 0,
    ;
    lemma_scaled(whole(k), 255, 100);
    let p = duty_of(raw);
    a_duty_is_the_nearest_byte(p);
    let n = byte_of(p) as int;
    let w = k * unit;
    if p.value() > 100 * unit {
        assert(k == 255) by {
            if k <= 254 {
                assert(w <= 254 * unit) by (nonlinear_arith)
                    requires
                        w == k * unit,
                        k <= 254,
                        unit > 0,
                ;
            }
        }
    } else if p.value() < 0 {
        assert(k == 0) by {
            if k >= 1 {
                assert(w >= unit) by (nonlinear_arith)
                    requires
                        w == k * unit,
                        k >= 1,
                        unit > 0,
                ;
            }
        }
    } else {
        assert(n * (100 * unit) - w * 100 == (n - k) * (100 * unit)) by (nonlinear_arith)
            requires
                w == k * unit,
        ;
        assert(n == k) by {
            if n > k {
                assert((n - k) * (100 * unit) >= 100 * unit) by (nonlinear_arith)
                    requires
                        n - k >= 1,
                        unit > 0,
                ;
            } else if n < k {
                assert((n - k) * (100 * unit) <= -(100 * unit)) by (nonlinear_arith)
                    requires
                        n - k <= -1,
                        unit > 0,
                ;
            }
        }
    }
}

// --- Names ---------------------------------------------------------------------------------------

proof fn lemma_ids(model: Model, kind: Text, a: Text, b: Text)
    ensures
        id_of(model, kind, a) == id_of(model, kind, b) ==> a == b,
{
    let p = model.key_said() + kind;
    assert((p + a).skip(p.len() as int) =~= a);
    assert((p + b).skip(p.len() as int) =~= b);
}

/// A channel is found by its id, and only by its own.
pub proof fn channels_are_found_by_their_id(model: Model, i: nat)
    requires
        i < CHANNELS,
    ensures
        channel_at(model, channel_id(model, i), 0) == Some(i),
{
    lemma_channel_at(model, i, 0);
}

proof fn lemma_channel_at(model: Model, i: nat, from: nat)
    requires
        from <= i < CHANNELS,
    ensures
        channel_at(model, channel_id(model, i), from) == Some(i),
    decreases i - from,
{
    if from < i {
        lemma_ids(model, "/pwm/"@, digits(from), digits(i));
        if channel_id(model, from) == channel_id(model, i) {
            lemma_digits_injective(from, i);
        }
        lemma_channel_at(model, i, from + 1);
    }
}

/// What is found by an id has that id.
pub proof fn what_is_found_has_the_id(model: Model, id: Text, from: nat)
    ensures
        channel_at(model, id, from) matches Some(i) ==> from <= i < CHANNELS && channel_id(model, i)
            == id,
        channel_at(model, id, from) is None ==> forall|i: nat|
            from <= i < CHANNELS ==> #[trigger] channel_id(model, i) != id,
    decreases CHANNELS - from,
{
    if from < CHANNELS && channel_id(model, from) != id {
        what_is_found_has_the_id(model, id, from + 1);
    }
}

proof fn lemma_sensor_ids(model: Model, i: int, j: int)
    requires
        0 <= i < j,
    ensures
        sensor_id(model, i) != sensor_id(model, j),
{
    reveal_strlit("/temp/");
    reveal_strlit("/fan/");
    let key = model.key_said();
    if j < 2 {
        assert(TEMP_INPUTS[0] == TempInput::Systin && TEMP_INPUTS[1] == TempInput::Cputin);
        reveal_strlit("systin");
        reveal_strlit("cputin");
        lemma_ids(model, "/temp/"@, TEMP_INPUTS[0].key_said(), TEMP_INPUTS[1].key_said());
        assert(TEMP_INPUTS[0].key_said() != TEMP_INPUTS[1].key_said()) by {
            assert(TempInput::Systin.key_said()[0] != TempInput::Cputin.key_said()[0]);
        }
    } else if i < 2 {
        let a = sensor_id(model, i);
        let b = sensor_id(model, j);
        let n = key.len() as int;
        assert(a[n + 1] == "/temp/"@[1]);
        assert(b[n + 1] == "/fan/"@[1]);
    } else {
        lemma_ids(model, "/fan/"@, digits((i - 2) as nat), digits((j - 2) as nat));
        if sensor_id(model, i) == sensor_id(model, j) {
            lemma_digits_injective((i - 2) as nat, (j - 2) as nat);
        }
    }
}

/// Every sensor that was read and says something is reported, by its own id and as what it says;
/// one that was not read, or says nothing that is believed, is not reported at all.
pub proof fn every_sensor_is_reported_by_its_id(model: Model, raw: Seq<Option<u16>>, n: nat, i: int)
    requires
        0 <= i < n <= raw.len(),
    ensures
        ({
            let all = read_to(model, raw, n);
            let id = sensor_id(model, i);
            &&& all.dom().contains(id) <==> raw[i] is Some && said_by(i, raw[i]->0) is Some
            &&& all.dom().contains(id) ==> Some(all[id]) == said_by(i, raw[i]->0)
        }),
    decreases n,
{
    let m = (n - 1) as nat;
    if i < m {
        every_sensor_is_reported_by_its_id(model, raw, m, i);
        lemma_sensor_ids(model, i, m as int);
    } else {
        lemma_not_yet(model, raw, m, i);
    }
}

proof fn lemma_not_yet(model: Model, raw: Seq<Option<u16>>, n: nat, i: int)
    requires
        n <= i,
        n <= raw.len(),
    ensures
        !read_to(model, raw, n).dom().contains(sensor_id(model, i)),
    decreases n,
{
    if n > 0 {
        lemma_not_yet(model, raw, (n - 1) as nat, i);
        lemma_sensor_ids(model, n - 1, i);
    }
}

/// A tachometer says how many turns a minute it counts, and nothing where that is impossible.
pub proof fn a_tachometer_counts_turns(i: int, word: u16)
    requires
        i >= 2,
    ensures
        said_by(i, word) is Some <==> word <= 30_000,
        said_by(i, word) matches Some(rpm) ==> rpm.finite() && rpm.value() == word * pow2(1074),
{
    whole_is_exact(word as nat);
}

} // verus!
