//! What the simulated machine does: heat and air push its temperature the way they should, and a
//! duty is felt once it has come through the delay.
use crate::chip_guarantees::lemma_duty_share;
use crate::mock::{airflow, at_rest, speed, stepped, PlantConfig, PlantView};
use crate::offload_rounding::products_keep_order;
use crate::rounding::{
    apart, factors_may_be_swapped, products_round_closely, slip, sums_round_closely,
    terms_may_be_swapped,
};
use crate::scalar::{
    lemma_fraction_within, order_is_by_value, sums_keep_order, whole, whole_is_exact, Scalar,
};
use vstd::arithmetic::power2::{lemma_pow2_pos, pow2};
use vstd::prelude::*;

verus! {

/// A plant after some ticks, commanded a duty before each.
pub open spec fn driven(p: PlantView, duties: Seq<Scalar>) -> PlantView
    decreases duties.len(),
{
    if duties.len() == 0 {
        p
    } else {
        let before = driven(p, duties.drop_last());
        stepped(PlantView { commanded_duty: duties.last(), ..before })
    }
}

/// A duty is felt as many ticks after it was commanded as the delay is long, and until then what
/// was in the delay line comes out, in order.
pub proof fn duties_come_through_the_delay(p: PlantView, duties: Seq<Scalar>)
    ensures
        ({
            let line = p.pipeline + duties;
            let n = duties.len() as int;
            let after = driven(p, duties);
            &&& after.pipeline == line.skip(n)
            &&& n > 0 ==> after.effective_duty == line[n - 1]
            &&& after.config == p.config
            &&& after.load == p.load
        }),
    decreases duties.len(),
{
    let n = duties.len() as int;
    let line = p.pipeline + duties;
    if n == 0 {
        assert(line.skip(0) =~= p.pipeline);
    } else {
        let rest = duties.drop_last();
        duties_come_through_the_delay(p, rest);
        let before = driven(p, rest);
        let earlier = p.pipeline + rest;
        let all = before.pipeline.push(duties.last());
        assert(all =~= line.skip(n - 1)) by {
            assert(line =~= earlier.push(duties.last()));
        }
        assert(all[0] == line[n - 1]);
        assert(all.drop_first() =~= line.skip(n));
    }
}

/// From rest, nothing is felt until the delay has passed, and then the duty that was commanded
/// that long before.
pub proof fn from_rest_a_duty_is_felt_after_the_delay(config: PlantConfig, duties: Seq<Scalar>)
    requires
        duties.len() > 0,
    ensures
        ({
            let felt = driven(at_rest(config), duties).effective_duty;
            let n = duties.len() as int;
            let delay = config.transport_delay_ticks as int;
            &&& n <= delay ==> felt == whole(0)
            &&& n > delay ==> felt == duties[n - 1 - delay]
        }),
{
    duties_come_through_the_delay(at_rest(config), duties);
}

/// A plant never gets colder than what is around it.
pub proof fn nothing_gets_colder_than_ambient(p: PlantView)
    requires
        p.config.ambient_c.finite(),
    ensures
        !stepped(p).temp_c.below(p.config.ambient_c),
{
}

/// What a tick adds to the temperature, before it is held at ambient.
pub open spec fn added(p: PlantView, flow: Scalar) -> Scalar {
    let heating = p.config.heat_rate_c_per_s.times(p.load);
    let cooling = p.config.passive_coeff.plus(p.config.cooling_coeff.times(flow)).times(
        p.temp_c.minus(p.config.ambient_c),
    );
    heating.minus(cooling).times(p.config.tick_seconds)
}

/// Two machines that differ in their load alone: the one with more of it is no cooler a tick
/// later.
pub proof fn more_load_is_no_cooler(p: PlantView, load: Scalar)
    requires
        p.load.finite(),
        load.finite(),
        p.load.value() <= load.value(),
        p.temp_c.finite(),
        p.config.ambient_c.finite(),
        p.config.heat_rate_c_per_s.finite(),
        p.config.heat_rate_c_per_s.value() >= 0,
        p.config.tick_seconds.finite(),
        p.config.tick_seconds.value() >= 0,
        ({
            let flow = airflow(p.config, p.pipeline.push(p.commanded_duty)[0]);
            let cooling = p.config.passive_coeff.plus(p.config.cooling_coeff.times(flow)).times(
                p.temp_c.minus(p.config.ambient_c),
            );
            let less = p.config.heat_rate_c_per_s.times(p.load);
            let more = p.config.heat_rate_c_per_s.times(load);
            &&& cooling.finite() && less.finite() && more.finite()
            &&& less.minus(cooling).finite() && more.minus(cooling).finite()
            &&& less.minus(cooling).times(p.config.tick_seconds).finite()
            &&& more.minus(cooling).times(p.config.tick_seconds).finite()
        }),
        stepped(p).temp_c.finite(),
        stepped(PlantView { load, ..p }).temp_c.finite(),
    ensures
        stepped(p).temp_c.value() <= stepped(PlantView { load, ..p }).temp_c.value(),
{
    let q = PlantView { load, ..p };
    let flow = airflow(p.config, p.pipeline.push(p.commanded_duty)[0]);
    let rate = p.config.heat_rate_c_per_s;
    let cooling = p.config.passive_coeff.plus(p.config.cooling_coeff.times(flow)).times(
        p.temp_c.minus(p.config.ambient_c),
    );
    let less = rate.times(p.load);
    let more = rate.times(load);
    let t = p.config.tick_seconds;
    whole_is_exact(0);
    assert(0 * pow2(1074) == 0);
    order_is_by_value(rate, whole(0));
    order_is_by_value(t, whole(0));
    order_is_by_value(p.load, load);
    factors_may_be_swapped(rate, p.load);
    factors_may_be_swapped(rate, load);
    products_keep_order(p.load, load, rate);
    let back = cooling.negated();
    terms_may_be_swapped(less, back);
    terms_may_be_swapped(more, back);
    sums_keep_order(back, less, more);
    products_keep_order(less.minus(cooling), more.minus(cooling), t);
    let a = less.minus(cooling).times(t);
    let b = more.minus(cooling).times(t);
    sums_keep_order(p.temp_c, a, b);
    let ambient = p.config.ambient_c;
    let x = p.temp_c.plus(a);
    let y = p.temp_c.plus(b);
    lemma_kept_warm(x, y, ambient);
}

proof fn lemma_kept_warm(x: Scalar, y: Scalar, ambient: Scalar)
    requires
        ambient.finite(),
        x.at_most(y),
        ({
            let a = if x.below(ambient) {
                ambient
            } else {
                x
            };
            let b = if y.below(ambient) {
                ambient
            } else {
                y
            };
            a.finite() && b.finite()
        }),
    ensures
        ({
            let a = if x.below(ambient) {
                ambient
            } else {
                x
            };
            let b = if y.below(ambient) {
                ambient
            } else {
                y
            };
            a.value() <= b.value()
        }),
{
    let a = if x.below(ambient) {
        ambient
    } else {
        x
    };
    let b = if y.below(ambient) {
        ambient
    } else {
        y
    };
    order_is_by_value(a, b);
}

/// Two machines above ambient that differ in the duty they feel alone: the one that moves more
/// air is no warmer a tick later.
pub proof fn more_air_is_no_warmer(p: PlantView, q: PlantView)
    requires
        q == (PlantView { pipeline: q.pipeline, commanded_duty: q.commanded_duty, ..p }),
        ({
            let slow = airflow(p.config, p.pipeline.push(p.commanded_duty)[0]);
            let fast = airflow(p.config, q.pipeline.push(q.commanded_duty)[0]);
            let above = p.temp_c.minus(p.config.ambient_c);
            let heating = p.config.heat_rate_c_per_s.times(p.load);
            let little = p.config.passive_coeff.plus(p.config.cooling_coeff.times(slow));
            let much = p.config.passive_coeff.plus(p.config.cooling_coeff.times(fast));
            &&& slow.finite() && fast.finite() && slow.value() <= fast.value()
            &&& above.finite() && above.value() >= 0
            &&& heating.finite()
            &&& p.config.cooling_coeff.times(slow).finite() && p.config.cooling_coeff.times(
                fast,
            ).finite()
            &&& little.finite() && much.finite()
            &&& little.times(above).finite() && much.times(above).finite()
            &&& heating.minus(little.times(above)).finite() && heating.minus(
                much.times(above),
            ).finite()
            &&& added(p, slow).finite() && added(p, fast).finite()
        }),
        p.temp_c.finite(),
        p.config.ambient_c.finite(),
        p.config.passive_coeff.finite(),
        p.config.cooling_coeff.finite(),
        p.config.cooling_coeff.value() >= 0,
        p.config.tick_seconds.finite(),
        p.config.tick_seconds.value() >= 0,
        stepped(p).temp_c.finite(),
        stepped(q).temp_c.finite(),
    ensures
        stepped(q).temp_c.value() <= stepped(p).temp_c.value(),
{
    let slow = airflow(p.config, p.pipeline.push(p.commanded_duty)[0]);
    let fast = airflow(p.config, q.pipeline.push(q.commanded_duty)[0]);
    let above = p.temp_c.minus(p.config.ambient_c);
    let heating = p.config.heat_rate_c_per_s.times(p.load);
    let coeff = p.config.cooling_coeff;
    let passive = p.config.passive_coeff;
    let little = passive.plus(coeff.times(slow));
    let much = passive.plus(coeff.times(fast));
    let t = p.config.tick_seconds;
    whole_is_exact(0);
    assert(0 * pow2(1074) == 0);
    order_is_by_value(coeff, whole(0));
    order_is_by_value(above, whole(0));
    order_is_by_value(t, whole(0));
    order_is_by_value(slow, fast);
    factors_may_be_swapped(coeff, slow);
    factors_may_be_swapped(coeff, fast);
    products_keep_order(slow, fast, coeff);
    sums_keep_order(passive, coeff.times(slow), coeff.times(fast));
    products_keep_order(little, much, above);
    let a = little.times(above);
    let b = much.times(above);
    order_is_by_value(a, b);
    assert(a.negated().value() == -a.value() && b.negated().value() == -b.value());
    order_is_by_value(b.negated(), a.negated());
    sums_keep_order(heating, b.negated(), a.negated());
    products_keep_order(heating.minus(b), heating.minus(a), t);
    sums_keep_order(p.temp_c, added(p, fast), added(p, slow));
    lemma_kept_warm(
        p.temp_c.plus(added(p, fast)),
        p.temp_c.plus(added(p, slow)),
        p.config.ambient_c,
    );
}

/// Air moves in proportion to the duty, within a hair, and none at all below the stall duty.
pub proof fn air_moves_by_the_duty(config: PlantConfig, duty: Scalar)
    requires
        duty.finite(),
        config.stall_duty.finite(),
        0 <= duty.value() <= 100 * pow2(1074),
    ensures
        duty.value() < config.stall_duty.value() ==> airflow(config, duty) == whole(0),
        duty.value() >= config.stall_duty.value() ==> airflow(config, duty).finite() && 1000
            * apart(airflow(config, duty).value() * 100, duty.value()) <= pow2(1074),
{
    order_is_by_value(duty, config.stall_duty);
    lemma_duty_share(duty);
}

/// A tachometer reads no turns while the fan stalls, and the part of its full speed that the duty
/// is while it turns, within rounding.
pub proof fn a_fan_turns_by_its_duty(p: PlantView, size: nat)
    requires
        p.effective_duty.finite(),
        0 <= p.effective_duty.value() <= 100 * pow2(1074),
        p.config.stall_duty.finite(),
        p.config.max_rpm.finite(),
        speed(p).finite(),
        p.config.max_rpm.magnitude() <= size,
    ensures
        p.effective_duty.value() < p.config.stall_duty.value() ==> speed(p) == whole(0),
        p.effective_duty.value() >= p.config.stall_duty.value() ==> apart(
            speed(p).value() * pow2(1074),
            p.config.max_rpm.value() * airflow(p.config, p.effective_duty).value(),
        ) <= slip(size) * pow2(1074),
{
    let duty = p.effective_duty;
    let unit = pow2(1074);
    lemma_pow2_pos(1074);
    order_is_by_value(duty, p.config.stall_duty);
    if duty.value() >= p.config.stall_duty.value() {
        let share = duty.over(whole(100));
        let top = p.config.max_rpm;
        whole_is_exact(100);
        lemma_fraction_within(duty, whole(100));
        assert(share.finite() && share.magnitude() <= unit);
        assert(apart(top.value() * share.value(), 0) <= size * unit) by (nonlinear_arith)
            requires
                apart(top.value(), 0) <= size,
                apart(share.value(), 0) <= unit,
        ;
        products_round_closely(top, share, size);
    }
}

// --- Heat ----------------------------------------------------------------------------------------

/// Whether a number is the sum of two others, but for what one rounding of that may take it off.
pub open spec fn sums_to(a: int, b: int, sum: int) -> bool {
    apart(sum, a + b) <= slip(apart(a + b, 0))
}

/// Whether a number is the product of two others, all three counted in units, but for what one
/// rounding of that may take it off.
pub open spec fn multiplies_to(a: int, b: int, product: int) -> bool {
    apart(product * pow2(1074), a * b) <= slip(apart(a * b, 0) / pow2(1074) + 1) * pow2(1074)
}

/// What a tick brings and takes, counted in units.
pub struct Balance {
    /// What the load heats by in a second.
    pub heating: int,
    /// What moving air adds to the cooling.
    pub draught: int,
    /// What part of its excess the plant loses in a second.
    pub pull: int,
    /// How far above its surroundings the plant is.
    pub excess: int,
    /// What the plant loses in a second.
    pub cooling: int,
    /// What it gains in a second, all together.
    pub gain: int,
    /// What it gains in the tick.
    pub change: int,
}

proof fn lemma_sums_to(a: Scalar, b: Scalar)
    requires
        a.finite(),
        b.finite(),
        a.plus(b).finite(),
    ensures
        sums_to(a.value(), b.value(), a.plus(b).value()),
{
    sums_round_closely(a, b, apart(a.value() + b.value(), 0));
}

proof fn lemma_multiplies_to(a: Scalar, b: Scalar)
    requires
        a.finite(),
        b.finite(),
        a.times(b).finite(),
    ensures
        multiplies_to(a.value(), b.value(), a.times(b).value()),
{
    let unit = pow2(1074);
    lemma_pow2_pos(1074);
    let n = apart(a.value() * b.value(), 0);
    let size = n / unit + 1;
    assert(n <= size * unit) by (nonlinear_arith)
        requires
            size == n / unit + 1,
            unit > 0,
    ;
    products_round_closely(a, b, size);
}

proof fn lemma_sum_of_numbers(a: Scalar, b: Scalar)
    requires
        a.plus(b).finite(),
    ensures
        a.finite(),
        b.finite(),
{
    reveal(Scalar::plus);
}

proof fn lemma_product_of_numbers(a: Scalar, b: Scalar)
    requires
        a.times(b).finite(),
    ensures
        a.finite(),
        b.finite(),
{
    reveal(Scalar::times);
}

/// The temperature moves by what the load brings less what the air takes, over the time of a tick:
/// the load brings its share of the heat rate, and the air takes, of the excess over the
/// surroundings, the passive part and its own. Each step is off by one rounding at most.
pub proof fn temperature_moves_by_what_comes_and_goes(p: PlantView) -> (w: Balance)
    requires
        stepped(p).temp_c.finite(),
        stepped(p).temp_c.value() > p.config.ambient_c.value(),
    ensures
        ({
            let c = p.config;
            let air = airflow(c, stepped(p).effective_duty);
            &&& multiplies_to(c.heat_rate_c_per_s.value(), p.load.value(), w.heating)
            &&& multiplies_to(c.cooling_coeff.value(), air.value(), w.draught)
            &&& sums_to(c.passive_coeff.value(), w.draught, w.pull)
            &&& sums_to(p.temp_c.value(), -c.ambient_c.value(), w.excess)
            &&& multiplies_to(w.pull, w.excess, w.cooling)
            &&& sums_to(w.heating, -w.cooling, w.gain)
            &&& multiplies_to(w.gain, c.tick_seconds.value(), w.change)
            &&& sums_to(p.temp_c.value(), w.change, stepped(p).temp_c.value())
        }),
{
    let c = p.config;
    let air = airflow(c, stepped(p).effective_duty);
    let heating = c.heat_rate_c_per_s.times(p.load);
    let draught = c.cooling_coeff.times(air);
    let pull = c.passive_coeff.plus(draught);
    let excess = p.temp_c.minus(c.ambient_c);
    let cooling = pull.times(excess);
    let gain = heating.minus(cooling);
    let change = gain.times(c.tick_seconds);
    let moved = p.temp_c.plus(change);
    assert(stepped(p).temp_c == moved);
    lemma_sum_of_numbers(p.temp_c, change);
    lemma_product_of_numbers(gain, c.tick_seconds);
    lemma_sum_of_numbers(heating, cooling.negated());
    lemma_product_of_numbers(pull, excess);
    lemma_product_of_numbers(c.heat_rate_c_per_s, p.load);
    lemma_sum_of_numbers(c.passive_coeff, draught);
    lemma_product_of_numbers(c.cooling_coeff, air);
    lemma_sum_of_numbers(p.temp_c, c.ambient_c.negated());
    lemma_multiplies_to(c.heat_rate_c_per_s, p.load);
    lemma_multiplies_to(c.cooling_coeff, air);
    lemma_sums_to(c.passive_coeff, draught);
    lemma_sums_to(p.temp_c, c.ambient_c.negated());
    lemma_multiplies_to(pull, excess);
    lemma_sums_to(heating, cooling.negated());
    lemma_multiplies_to(gain, c.tick_seconds);
    lemma_sums_to(p.temp_c, change);
    assert(c.ambient_c.negated().value() == -c.ambient_c.value());
    assert(cooling.negated().value() == -cooling.value());
    Balance {
        heating: heating.value(),
        draught: draught.value(),
        pull: pull.value(),
        excess: excess.value(),
        cooling: cooling.value(),
        gain: gain.value(),
        change: change.value(),
    }
}

} // verus!
