//! What the nodes that limit, hold, latch, control and delay keep to.
use crate::eval::{
    aged, bounded, delayed, due, evaluated, fresh, held, integrated, latched, number, rate_limited,
    sourced_by, trimmed, InputsView, StateView, TickView,
};
use crate::node::{Compare, KindView};
use crate::rounding::terms_may_be_swapped;
use crate::scalar::{
    exact_sums_are_exact, lemma_magnitude_order, order_is_by_value, sums_keep_order, whole, whole_is_exact, Scalar,
};
use crate::units::Quantity;
use vstd::arithmetic::power2::lemma_pow2_pos;
use vstd::arithmetic::power2::pow2;
use vstd::prelude::*;

verus! {

// --- Limits ------------------------------------------------------------------------------------

/// A clamp keeps within its bounds, and leaves alone what already is.
pub proof fn a_clamp_keeps_its_bounds(x: Scalar, min: Scalar, max: Scalar)
    requires
        x.finite(),
        min.at_most(max),
    ensures
        min.at_most(bounded(x, min, max)),
        bounded(x, min, max).at_most(max),
        min.at_most(x) && x.at_most(max) ==> bounded(x, min, max) == x,
{
}

/// A rate limiter keeps its pace: in one tick it goes no further than one step from what it
/// remembers, however far its input is.
pub proof fn a_rate_limiter_keeps_its_pace(memory: Scalar, x: Scalar, rate: Scalar, dt: Scalar)
    requires
        memory.finite(),
        x.finite(),
        rate.absolute().times(dt).finite(),
        whole(0).at_most(rate.absolute().times(dt)),
    ensures
        ({
            let step = rate.absolute().times(dt);
            let y = rate_limited(Some(memory), x, rate, dt);
            &&& memory.minus(step).at_most(y)
            &&& y.at_most(memory.plus(step))
        }),
{
    let step = rate.absolute().times(dt);
    let back = step.negated();
    whole_is_exact(0);
    assert(0 * pow2(1074) == 0);
    order_is_by_value(whole(0), step);
    order_is_by_value(back, step);
    assert(back.value() == -step.value());
    let way = x.minus(memory).confined(back, step);
    assert(!x.minus(memory).nan()) by {
        reveal(Scalar::plus);
    }
    sums_keep_order(memory, back, way);
    sums_keep_order(memory, way, step);
}

/// A held value is given up only for the input itself, and is within the band of it until then.
pub proof fn a_held_value_stays_within_its_band(memory: Scalar, x: Scalar, band: Scalar)
    requires
        x.finite(),
    ensures
        ({
            let y = held(Some(memory), x, band);
            y == x || (y == memory && x.minus(memory).absolute().at_most(band.absolute()))
        }),
{
}

/// A comparator does not chatter: an input within the deadband changes nothing.
pub proof fn a_comparator_does_not_chatter(
    flag: bool,
    x: Scalar,
    threshold: Scalar,
    deadband: Scalar,
    direction: Compare,
)
    requires
        ({
            let half = deadband.absolute().over(whole(2));
            threshold.minus(half).at_most(x) && x.at_most(threshold.plus(half))
        }),
    ensures
        latched(flag, x, threshold, deadband, direction) == flag,
{
}

// --- Control -----------------------------------------------------------------------------------

/// The integral cannot wind up: whatever the error is and however long it lasts, what is
/// accumulated stays within what contributes the limit.
pub proof fn the_integral_cannot_wind_up(
    integral: Scalar,
    error: Scalar,
    dt: Scalar,
    ki: Scalar,
    limit: Scalar,
)
    requires
        integral.finite(),
        !error.times(dt).nan(),
        ki.finite(),
        limit.finite(),
    ensures
        ki.zero() ==> integrated(integral, error, dt, ki, limit) == whole(0),
        !ki.zero() ==> ({
            let bound = limit.over(ki).absolute();
            &&& bound.negated().at_most(integrated(integral, error, dt, ki, limit))
            &&& integrated(integral, error, dt, ki, limit).at_most(bound)
        }),
{
    lemma_zero();
    order_is_by_value(ki, whole(0));
    reveal(Scalar::plus);
    reveal(Scalar::over);
    if !ki.zero() {
        lemma_magnitude_order(0, ki.pattern());
        assert(!ki.equals(whole(0)));
        assert(!limit.over(ki).nan());
        assert(!integral.plus(error.times(dt)).nan());
    }
}

/// A controller asks for a percentage, or for nothing that is a number.
pub proof fn a_controller_asks_for_a_percentage(
    kind: KindView,
    inputs: InputsView,
    t: TickView,
    state: StateView,
    out: Option<Quantity>,
)
    requires
        kind is Pid,
    ensures
        ({
            let outputs = evaluated(kind, inputs, t, state, out).0.outputs;
            &&& outputs.len() == 1
            &&& outputs[0].1.quantity == Quantity::Duty
            &&& outputs[0].1.scalar.nan() || (whole(0).at_most(outputs[0].1.scalar)
                && outputs[0].1.scalar.at_most(whole(100)))
        }),
{
    whole_is_exact(0);
    whole_is_exact(100);
    lemma_pow2_pos(1074);
    order_is_by_value(whole(0), whole(100));
    assert(0 * pow2(1074) <= 100 * pow2(1074));
}

// --- Delay -------------------------------------------------------------------------------------

/// How long after tick `j` tick `m` comes, by the time that each tick took.
pub open spec fn since(ticks: Seq<TickView>, j: int, m: int) -> Scalar
    decreases m - j,
{
    if m <= j {
        whole(0)
    } else {
        since(ticks, j, m - 1).plus(ticks[m].dt)
    }
}

/// What a delay remembers after the first `n` of some ticks.
pub open spec fn delay_after(
    seconds: Scalar,
    inputs: Seq<InputsView>,
    ticks: Seq<TickView>,
    out: Option<Quantity>,
    n: int,
) -> StateView
    decreases n,
{
    if n <= 0 {
        fresh()
    } else {
        evaluated(
            KindView::Delay { seconds },
            inputs[n - 1],
            ticks[n - 1],
            delay_after(seconds, inputs, ticks, out, n - 1),
            out,
        ).1
    }
}

/// Whether time passes from tick to tick, and not more of it than a number can hold.
pub open spec fn time_passes(ticks: Seq<TickView>, n: int) -> bool {
    &&& forall|i: int|
        0 <= i <= n ==> (#[trigger] ticks[i]).dt.finite() && whole(0).at_most(ticks[i].dt)
    &&& since(ticks, 0, n).finite()
}

proof fn lemma_zero()
    ensures
        whole(0).finite(),
        whole(0).value() == 0,
{
    whole_is_exact(0);
    assert(0 * pow2(1074) == 0);
}

proof fn lemma_finite_below(a: Scalar, b: Scalar)
    requires
        whole(0).at_most(a),
        a.at_most(b),
        b.finite(),
    ensures
        a.finite(),
{
    lemma_zero();
}

/// One tick later is no sooner.
proof fn lemma_time_adds(a: Scalar, dt: Scalar)
    requires
        a.finite(),
        dt.finite(),
        whole(0).at_most(dt),
    ensures
        a.at_most(a.plus(dt)),
{
    lemma_zero();
    exact_sums_are_exact(a, whole(0), a);
    sums_keep_order(a, whole(0), dt);
}

/// Later ticks come later, and what lies between is a number.
proof fn lemma_since_grows(ticks: Seq<TickView>, m: int, n: int)
    requires
        0 <= m <= n,
        forall|i: int|
            0 <= i <= n ==> (#[trigger] ticks[i]).dt.finite() && whole(0).at_most(ticks[i].dt),
        since(ticks, 0, n).finite(),
    ensures
        since(ticks, 0, m).finite(),
        whole(0).at_most(since(ticks, 0, m)),
        since(ticks, 0, m).at_most(since(ticks, 0, n)),
    decreases n,
{
    lemma_zero();
    if n > 0 {
        lemma_since_fits(ticks, n);
        assert(ticks[n].dt.finite());
        lemma_time_adds(since(ticks, 0, n - 1), ticks[n].dt);
        lemma_since_grows(ticks, if m < n { m } else { n - 1 }, n - 1);
    }
}

/// What adds up to a number was one before.
proof fn lemma_since_fits(ticks: Seq<TickView>, n: int)
    requires
        0 < n,
        since(ticks, 0, n).finite(),
    ensures
        since(ticks, 0, n - 1).finite(),
{
    reveal(Scalar::plus);
    assert(since(ticks, 0, n) == since(ticks, 0, n - 1).plus(ticks[n].dt));
}

/// What came first is the older: between any two ticks and a later one, the time since the
/// first is no less than the time since the second.
proof fn lemma_older_first(ticks: Seq<TickView>, j: int, k: int, m: int)
    requires
        0 <= j <= k <= m,
        time_passes(ticks, m),
    ensures
        since(ticks, k, m).finite(),
        whole(0).at_most(since(ticks, k, m)),
        since(ticks, k, m).at_most(since(ticks, j, m)),
        since(ticks, j, m).finite(),
    decreases m, k - j,
{
    lemma_zero();
    lemma_since_grows(ticks, m, m);
    if m == 0 {
    } else {
        lemma_since_fits(ticks, m);
        assert(time_passes(ticks, m - 1));
        assert(ticks[m].dt.finite());
        let dt = ticks[m].dt;
        if j < m {
            lemma_older_first(ticks, 0, j, m - 1);
            sums_keep_order(dt, since(ticks, j, m - 1), since(ticks, 0, m - 1));
            terms_may_be_swapped(dt, since(ticks, j, m - 1));
            terms_may_be_swapped(dt, since(ticks, 0, m - 1));
            lemma_time_adds(since(ticks, j, m - 1), dt);
            lemma_finite_below(since(ticks, j, m), since(ticks, 0, m));
        }
        if k < m {
            lemma_older_first(ticks, j, k, m - 1);
            sums_keep_order(dt, since(ticks, k, m - 1), since(ticks, j, m - 1));
            terms_may_be_swapped(dt, since(ticks, k, m - 1));
            terms_may_be_swapped(dt, since(ticks, j, m - 1));
            lemma_time_adds(since(ticks, k, m - 1), dt);
            lemma_finite_below(since(ticks, k, m), since(ticks, j, m));
        }
    }
}

/// What a delay line holds after `n` ticks: every sample from the `k`-th on, each with its age.
pub open spec fn holds_from(
    state: StateView,
    inputs: Seq<InputsView>,
    ticks: Seq<TickView>,
    n: int,
    k: int,
) -> bool {
    &&& 0 <= k < n
    &&& state.history == Seq::new((n - k) as nat, |i: int| since(ticks, k + i, n - 1))
    &&& state.buffer == Seq::new((n - k) as nat, |i: int| number(inputs[k + i], "in"@))
}

/// Trimming drops samples from the front, and keeps one that is old enough there.
proof fn lemma_trimmed(
    inputs: Seq<InputsView>,
    ticks: Seq<TickView>,
    limit: Scalar,
    n: int,
    k: int,
) -> (r: int)
    requires
        0 <= k < n,
        k > 0 ==> limit.at_most(since(ticks, k, n - 1)),
    ensures
        k <= r < n,
        r > 0 ==> limit.at_most(since(ticks, r, n - 1)),
        trimmed(
            Seq::new((n - k) as nat, |i: int| since(ticks, k + i, n - 1)),
            Seq::new((n - k) as nat, |i: int| number(inputs[k + i], "in"@)),
            limit,
        ) == (
            Seq::new((n - r) as nat, |i: int| since(ticks, r + i, n - 1)),
            Seq::new((n - r) as nat, |i: int| number(inputs[r + i], "in"@)),
        ),
    decreases n - k,
{
    let ages = Seq::new((n - k) as nat, |i: int| since(ticks, k + i, n - 1));
    let buffer = Seq::new((n - k) as nat, |i: int| number(inputs[k + i], "in"@));
    if ages.len() > 1 && limit.at_most(ages[1]) {
        assert(ages.drop_first() =~= Seq::new(
            (n - (k + 1)) as nat,
            |i: int| since(ticks, k + 1 + i, n - 1),
        ));
        assert(buffer.drop_first() =~= Seq::new(
            (n - (k + 1)) as nat,
            |i: int| number(inputs[k + 1 + i], "in"@),
        ));
        lemma_trimmed(inputs, ticks, limit, n, k + 1)
    } else {
        k
    }
}

/// What a delay line holds after some ticks.
proof fn lemma_line(
    seconds: Scalar,
    inputs: Seq<InputsView>,
    ticks: Seq<TickView>,
    out: Option<Quantity>,
    n: int,
) -> (k: int)
    requires
        n > 0,
        time_passes(ticks, n - 1),
    ensures
        holds_from(delay_after(seconds, inputs, ticks, out, n), inputs, ticks, n, k),
        k > 0 ==> seconds.larger(whole(0)).at_most(since(ticks, k, n - 1)),
    decreases n,
{
    let limit = seconds.larger(whole(0));
    let before = delay_after(seconds, inputs, ticks, out, n - 1);
    let dt = ticks[n - 1].dt;
    let x = number(inputs[n - 1], "in"@);
    let ages = aged(before.history, dt).push(whole(0));
    let buffer = before.buffer.push(x);
    if n == 1 {
        assert(ages =~= Seq::new(1, |i: int| since(ticks, 0 + i, 0)));
        assert(buffer =~= Seq::new(1, |i: int| number(inputs[0 + i], "in"@)));
        lemma_trimmed(inputs, ticks, limit, 1, 0)
    } else {
        lemma_since_fits(ticks, n - 1);
        assert(time_passes(ticks, n - 2));
        let k = lemma_line(seconds, inputs, ticks, out, n - 1);
        assert(ages =~= Seq::new((n - k) as nat, |i: int| since(ticks, k + i, n - 1))) by {
            assert forall|i: int| 0 <= i < n - k implies ages[i] == since(
                ticks,
                k + i,
                n - 1,
            ) by {
                if i < n - 1 - k {
                    assert(before.history[i] == since(ticks, k + i, n - 2));
                }
            }
        }
        assert(buffer =~= Seq::new((n - k) as nat, |i: int| number(inputs[k + i], "in"@)));
        if k > 0 {
            lemma_older_first(ticks, 0, k, n - 2);
            assert(ticks[n - 1].dt.finite());
            lemma_time_adds(since(ticks, k, n - 2), dt);
        }
        lemma_trimmed(inputs, ticks, limit, n, k)
    }
}

/// Which sample is due: the newest that is old enough, found from the front.
proof fn lemma_due(ages: Seq<Scalar>, dt: Scalar, limit: Scalar, i: int)
    requires
        0 <= i < ages.len(),
    ensures
        ({
            let r = due(ages, dt, limit, i);
            &&& i <= r < ages.len()
            &&& r > i ==> limit.at_most(ages[r].plus(dt))
            &&& r + 1 < ages.len() ==> !limit.at_most(ages[r + 1].plus(dt))
        }),
    decreases ages.len() - i,
{
    if i + 1 < ages.len() && limit.at_most(ages[i + 1].plus(dt)) {
        lemma_due(ages, dt, limit, i + 1);
    }
}

/// A delay emits what it was given `seconds` ago: on every tick, the newest of what came at
/// least that long before it. While nothing did, it emits the first thing it was given, and
/// before it was given anything, nothing that is a number.
pub proof fn a_delay_emits_what_it_was_given_then(
    seconds: Scalar,
    inputs: Seq<InputsView>,
    ticks: Seq<TickView>,
    out: Option<Quantity>,
    n: int,
)
    requires
        0 <= n,
        time_passes(ticks, n),
    ensures
        ({
            let state = delay_after(seconds, inputs, ticks, out, n);
            let emitted = sourced_by(KindView::Delay { seconds }, ticks[n], state, out);
            let limit = seconds.larger(whole(0));
            &&& emitted.len() == 1
            &&& emitted[0].0 == "out"@
            &&& n == 0 ==> emitted[0].1.scalar.nan()
            &&& n > 0 ==> exists|j: int|
                #![trigger inputs[j]]
                0 <= j < n && emitted[0].1.scalar == number(inputs[j], "in"@) && (j > 0
                    ==> limit.at_most(since(ticks, j, n))) && (forall|l: int|
                    j < l < n ==> !limit.at_most(#[trigger] since(ticks, l, n)))
        }),
{
    let state = delay_after(seconds, inputs, ticks, out, n);
    let limit = seconds.larger(whole(0));
    let dt = ticks[n].dt;
    if n > 0 {
        lemma_since_fits(ticks, n);
        assert(time_passes(ticks, n - 1));
        let k = lemma_line(seconds, inputs, ticks, out, n);
        lemma_due(state.history, dt, limit, 0);
        let r = due(state.history, dt, limit, 0);
        let j = k + r;
        assert(state.buffer[r] == number(inputs[j], "in"@));
        assert(state.history[r] == since(ticks, j, n - 1));
        assert(since(ticks, j, n) == since(ticks, j, n - 1).plus(dt));
        if r == 0 && k > 0 {
            lemma_older_first(ticks, 0, k, n - 1);
            assert(ticks[n].dt.finite());
            lemma_time_adds(since(ticks, k, n - 1), dt);
        }
        assert forall|l: int| j < l < n implies !limit.at_most(#[trigger] since(ticks, l, n)) by {
            assert(state.history[r + 1] == since(ticks, j + 1, n - 1));
            assert(since(ticks, j + 1, n) == since(ticks, j + 1, n - 1).plus(dt));
            lemma_older_first(ticks, j + 1, l, n);
        }
        assert(inputs[j] == inputs[j]);
    } else {
        assert(delayed(state.history, state.buffer, dt, limit).nan());
    }
}

} // verus!
