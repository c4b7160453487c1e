//! What a node does in one tick.
//!
//! [`evaluated`] states, for every kind, what comes out of a node and what it remembers,
//! as a function of its inputs, the tick and what it remembered before.
use crate::node::{Compare, CurvePoint, KindView, MixMode, NodeKind};
use crate::ordmap::OrdMap;
use crate::scalar::{
    exact_sums_are_exact, lemma_difference_within, lemma_fraction_within, lemma_magnitude_order, lemma_nearer,
    lemma_product_within, lemma_sum_within, nan, order_is_by_value, parts_lie_between, sums_keep_order, whole,
    whole_is_exact, Scalar,
    EPSILON_BITS, NAN_BITS,
};
use crate::text::Text;
use crate::units::{Quantity, Value};
use std::collections::VecDeque;
use vstd::arithmetic::power2::pow2;
use vstd::prelude::*;

verus! {

/// Sensor readings for one tick, keyed by the sensor id a [`NodeKind::Sensor`] names.
pub type SensorReadings = OrdMap<String, Value>;

/// Which sensor reads back each output channel.
pub type Tachometers = OrdMap<String, String>;

/// Values arriving at a node, by port key.
pub type Inputs = OrdMap<String, Vec<Value>>;

/// An exponential worked out for this tick: `factor` is `e^exponent`.
#[derive(Debug, Clone, Copy)]
pub struct Decay {
    pub exponent: Scalar,
    pub factor: Scalar,
}

/// Everything evaluation needs for one tick, besides the graph itself.
#[derive(Clone, Copy)]
pub struct TickInput<'a> {
    pub sensors: &'a SensorReadings,
    /// Seconds elapsed since the previous tick.
    pub dt: Scalar,
    /// Which sensor reads back each output channel, from the hardware inventory.
    ///
    /// Hardware knowledge rather than user configuration, so it is supplied per tick
    /// instead of stored in the document.
    pub tachometers: Option<&'a Tachometers>,
    /// The exponentials this tick's filters need.
    pub decays: Option<&'a Vec<Decay>>,
}

/// One tick's surroundings, as contracts speak of them.
pub struct TickView {
    pub sensors: Map<Text, Value>,
    pub dt: Scalar,
    pub tachometers: Map<Text, Text>,
    pub decays: Seq<Decay>,
}

/// A map of strings, by what they say.
pub open spec fn texts(m: Map<Text, String>) -> Map<Text, Text> {
    m.map_values(|s: String| s@)
}

impl<'a> View for TickInput<'a> {
    type V = TickView;

    open spec fn view(&self) -> TickView {
        TickView {
            sensors: self.sensors@,
            dt: self.dt,
            tachometers: match self.tachometers {
                Some(map) => texts(map@),
                None => Map::empty(),
            },
            decays: match self.decays {
                Some(list) => list@,
                None => Seq::empty(),
            },
        }
    }
}

impl<'a> TickInput<'a> {
    /// A tick with readings and an elapsed time.
    pub fn new(sensors: &'a SensorReadings, dt: Scalar) -> (r: TickInput<'a>)
        ensures
            r@ == (TickView {
                sensors: sensors@,
                dt,
                tachometers: Map::empty(),
                decays: Seq::empty(),
            }),
    {
        TickInput { sensors, dt, tachometers: None, decays: None }
    }

    /// The same tick, with the tachometers known.
    pub fn with_tachometers(self, map: &'a Tachometers) -> (r: TickInput<'a>)
        ensures
            r@ == (TickView { tachometers: texts(map@), ..self@ }),
    {
        TickInput { tachometers: Some(map), ..self }
    }

    /// The same tick, with the exponentials known.
    pub fn with_decays(self, list: &'a Vec<Decay>) -> (r: TickInput<'a>)
        ensures
            r@ == (TickView { decays: list@, ..self@ }),
    {
        TickInput { decays: Some(list), ..self }
    }
}

/// What a node produced during one tick.
#[derive(Debug)]
pub struct Produced {
    /// Values on this node's output ports.
    pub outputs: Vec<(&'static str, Value)>,
    /// Hardware channel commands, for sink nodes.
    pub commands: Vec<(String, Value)>,
    /// Channels this node could not command safely this tick.
    pub faults: Vec<String>,
}

/// What a node produced, as contracts speak of it.
#[verifier::ext_equal]
pub struct ProducedView {
    pub outputs: Seq<(Text, Value)>,
    pub commands: Seq<(Text, Value)>,
    pub faults: Seq<Text>,
}

impl View for Produced {
    type V = ProducedView;

    open spec fn view(&self) -> ProducedView {
        ProducedView {
            outputs: Seq::new(
                self.outputs@.len(),
                |i: int| (self.outputs@[i].0@, self.outputs@[i].1),
            ),
            commands: Seq::new(
                self.commands@.len(),
                |i: int| (self.commands@[i].0@, self.commands@[i].1),
            ),
            faults: Seq::new(self.faults@.len(), |i: int| self.faults@[i]@),
        }
    }
}

/// Nothing.
pub open spec fn nothing() -> ProducedView {
    ProducedView { outputs: Seq::empty(), commands: Seq::empty(), faults: Seq::empty() }
}

/// One value on the `out` port.
pub open spec fn emitted(quantity: Quantity, scalar: Scalar) -> ProducedView {
    ProducedView { outputs: seq![("out"@, Value { quantity, scalar })], ..nothing() }
}

fn emit(quantity: Quantity, scalar: Scalar) -> (r: Produced)
    ensures
        r@ == emitted(quantity, scalar),
{
    let r = Produced {
        outputs: vec![("out", Value { quantity, scalar })],
        commands: Vec::new(),
        faults: Vec::new(),
    };
    assert(r@ =~= emitted(quantity, scalar));
    r
}

/// Per-node state carried between ticks.
#[derive(Debug)]
pub struct NodeState {
    /// Last emitted value, for rate limiters, filters and hold-style nodes.
    pub last: Option<Scalar>,
    /// Latched boolean, for comparators with hysteresis.
    pub flag: bool,
    /// Accumulated integral term, for PID.
    pub integral: Scalar,
    /// Previous error, for PID's derivative term.
    pub prev_error: Option<Scalar>,
    /// Recent samples, for moving averages; sample *ages* in seconds, for delays.
    pub history: VecDeque<Scalar>,
    /// Buffered values matching `history`'s ages, for delays.
    pub buffer: VecDeque<Scalar>,
}

/// What a node remembers, as contracts speak of it.
#[verifier::ext_equal]
pub struct StateView {
    pub last: Option<Scalar>,
    pub flag: bool,
    pub integral: Scalar,
    pub prev_error: Option<Scalar>,
    pub history: Seq<Scalar>,
    pub buffer: Seq<Scalar>,
}

impl View for NodeState {
    type V = StateView;

    open spec fn view(&self) -> StateView {
        StateView {
            last: self.last,
            flag: self.flag,
            integral: self.integral,
            prev_error: self.prev_error,
            history: self.history@,
            buffer: self.buffer@,
        }
    }
}

/// What a node remembers before its first tick.
pub open spec fn fresh() -> StateView {
    StateView {
        last: None,
        flag: false,
        integral: Scalar { bits: 0 },
        prev_error: None,
        history: Seq::empty(),
        buffer: Seq::empty(),
    }
}

impl Default for NodeState {
    fn default() -> (r: NodeState)
        ensures
            r@ == fresh(),
    {
        let r = NodeState {
            last: None,
            flag: false,
            integral: Scalar { bits: 0 },
            prev_error: None,
            history: VecDeque::new(),
            buffer: VecDeque::new(),
        };
        assert(r@ =~= fresh());
        r
    }
}

// --- Inputs ----------------------------------------------------------------------------

/// The values arriving at each port.
pub type InputsView = Map<Text, Seq<Value>>;

/// What a map of inputs says.
pub open spec fn inputs_view(inputs: Map<Text, Vec<Value>>) -> InputsView {
    inputs.map_values(|v: Vec<Value>| v@)
}

/// The first value on a port.
pub open spec fn first(inputs: InputsView, key: Text) -> Option<Value> {
    if inputs.dom().contains(key) && inputs[key].len() > 0 {
        Some(inputs[key][0])
    } else {
        None
    }
}

/// The number on a port, or NaN when nothing is connected.
pub open spec fn number(inputs: InputsView, key: Text) -> Scalar {
    match first(inputs, key) {
        Some(v) => v.scalar,
        None => nan(),
    }
}

/// The type on a port; failing that, the inferred one; failing that, dimensionless.
pub open spec fn carried(inputs: InputsView, key: Text, out_type: Option<Quantity>) -> Quantity {
    match first(inputs, key) {
        Some(v) => v.quantity,
        None => settled(out_type),
    }
}

/// An inferred type, dimensionless when nothing decided it.
pub open spec fn settled(out_type: Option<Quantity>) -> Quantity {
    match out_type {
        Some(q) => q,
        None => Quantity::Ratio,
    }
}

fn first_of(inputs: &Inputs, key: &str) -> (r: Option<Value>)
    ensures
        r == first(inputs_view(inputs@), key@),
{
    match inputs.get(&key.to_owned()) {
        Some(list) => {
            if list.len() > 0 {
                Some(list[0])
            } else {
                None
            }
        },
        None => None,
    }
}

fn number_of(inputs: &Inputs, key: &str) -> (r: Scalar)
    ensures
        r == number(inputs_view(inputs@), key@),
{
    match first_of(inputs, key) {
        Some(v) => v.scalar,
        None => Scalar { bits: NAN_BITS },
    }
}

fn settle(out_type: Option<Quantity>) -> (r: Quantity)
    ensures
        r == settled(out_type),
{
    match out_type {
        Some(q) => q,
        None => Quantity::Ratio,
    }
}

fn carry(inputs: &Inputs, key: &str, out_type: Option<Quantity>) -> (r: Quantity)
    ensures
        r == carried(inputs_view(inputs@), key@, out_type),
{
    match first_of(inputs, key) {
        Some(v) => v.quantity,
        None => settle(out_type),
    }
}

// --- Curves ----------------------------------------------------------------------------

/// `points` with `p` put in its place: after every point it is not left of.
pub open spec fn placed(points: Seq<CurvePoint>, p: CurvePoint) -> Seq<CurvePoint>
    decreases points.len(),
{
    if points.len() > 0 && p.x.below(points.last().x) {
        placed(points.drop_last(), p).push(points.last())
    } else {
        points.push(p)
    }
}

/// The points from left to right; equal ones keep the order they were stored in.
pub open spec fn left_to_right(points: Seq<CurvePoint>) -> Seq<CurvePoint>
    decreases points.len(),
{
    if points.len() == 0 {
        points
    } else {
        placed(left_to_right(points.drop_last()), points.last())
    }
}

/// The straight line from `a` to `b`, at `x`. A vertical step takes the upper value, which
/// is the more-cooling side.
pub open spec fn between(a: CurvePoint, b: CurvePoint, x: Scalar) -> Scalar {
    let span = b.x.minus(a.x);
    if span.absolute().below(Scalar { bits: EPSILON_BITS }) {
        a.y.larger(b.y)
    } else {
        a.y.plus(b.y.minus(a.y).times(x.minus(a.x).over(span)))
    }
}

/// The first segment from `i` on that holds `x`, evaluated there.
pub open spec fn on_segment(points: Seq<CurvePoint>, x: Scalar, i: int) -> Scalar
    decreases points.len() - i,
{
    if i + 1 >= points.len() {
        points.last().y
    } else if points[i].x.at_most(x) && x.at_most(points[i + 1].x) {
        between(points[i], points[i + 1], x)
    } else {
        on_segment(points, x, i + 1)
    }
}

/// What the first `n` points that stand at `x` give.
pub open spec fn standing(points: Seq<CurvePoint>, x: Scalar, n: nat) -> Seq<Scalar>
    decreases n,
{
    if n == 0 {
        Seq::empty()
    } else {
        let before = standing(points, x, (n - 1) as nat);
        if points[n - 1].x.equals(x) {
            before.push(points[n - 1].y)
        } else {
            before
        }
    }
}

/// A curve at `x`: piecewise linear, flat outside its domain, NaN where there is nothing
/// to go by. Where several points stand at `x`, a vertical step, the upper value is taken.
pub open spec fn interpolated(points: Seq<CurvePoint>, x: Scalar) -> Scalar {
    if points.len() == 0 || !x.finite() {
        nan()
    } else {
        let sorted = left_to_right(points);
        let here = standing(sorted, x, sorted.len());
        if here.len() > 1 {
            largest(here)
        } else if x.at_most(sorted[0].x) {
            sorted[0].y
        } else if sorted.last().x.at_most(x) {
            sorted.last().y
        } else {
            on_segment(sorted, x, 0)
        }
    }
}

proof fn lemma_placed(points: Seq<CurvePoint>, p: CurvePoint, j: int)
    requires
        0 <= j <= points.len(),
        forall|k: int| j <= k < points.len() ==> p.x.below((#[trigger] points[k]).x),
        j > 0 ==> !p.x.below(points[j - 1].x),
    ensures
        placed(points, p) == points.insert(j, p),
    decreases points.len(),
{
    if j < points.len() {
        lemma_placed(points.drop_last(), p, j);
        assert(points.drop_last().insert(j, p).push(points.last()) =~= points.insert(j, p));
    } else {
        assert(points.push(p) =~= points.insert(j, p));
    }
}

proof fn lemma_placed_len(points: Seq<CurvePoint>, p: CurvePoint)
    ensures
        placed(points, p).len() == points.len() + 1,
        placed(points, p).to_multiset() == points.to_multiset().insert(p),
    decreases points.len(),
{
    broadcast use vstd::seq_lib::group_to_multiset_ensures;

    if points.len() > 0 && p.x.below(points.last().x) {
        let rest = points.drop_last();
        lemma_placed_len(rest, p);
        assert(rest.push(points.last()) =~= points);
        assert(points.to_multiset() =~= rest.to_multiset().insert(points.last()));
        assert(placed(points, p).to_multiset() =~= placed(rest, p).to_multiset().insert(
            points.last(),
        ));
        assert(placed(points, p).to_multiset() =~= points.to_multiset().insert(p));
    }
}

/// Putting points in order loses none and invents none.
pub proof fn sorting_keeps_the_points(points: Seq<CurvePoint>)
    ensures
        left_to_right(points).len() == points.len(),
        left_to_right(points).to_multiset() == points.to_multiset(),
    decreases points.len(),
{
    broadcast use vstd::seq_lib::group_to_multiset_ensures;

    if points.len() > 0 {
        sorting_keeps_the_points(points.drop_last());
        lemma_placed_len(left_to_right(points.drop_last()), points.last());
        assert(points.drop_last().push(points.last()) =~= points);
    }
}

/// Whether points run from left to right.
pub open spec fn runs_right(points: Seq<CurvePoint>) -> bool {
    forall|i: int, j: int|
        0 <= i < j < points.len() ==> (#[trigger] points[i]).x.at_most((#[trigger] points[j]).x)
}

/// Whether every point has a position.
pub open spec fn positioned(points: Seq<CurvePoint>) -> bool {
    forall|i: int| 0 <= i < points.len() ==> !(#[trigger] points[i]).x.nan()
}

proof fn lemma_placed_runs(points: Seq<CurvePoint>, p: CurvePoint)
    requires
        positioned(points),
        runs_right(points),
        !p.x.nan(),
    ensures
        runs_right(placed(points, p)),
        positioned(placed(points, p)),
        points.len() > 0 && p.x.below(points.last().x) ==> placed(points, p).last() == points.last(),
    decreases points.len(),
{
    if points.len() > 0 && p.x.below(points.last().x) {
        let rest = points.drop_last();
        lemma_placed_runs(rest, p);
        lemma_placed_len(rest, p);
        let front = placed(rest, p);
        assert forall|i: int| 0 <= i < front.len() implies (#[trigger] front[i]).x.at_most(
            points.last().x,
        ) by {
            lemma_placed_members(rest, p, i);
        }
    }
}

proof fn lemma_placed_members(points: Seq<CurvePoint>, p: CurvePoint, i: int)
    requires
        0 <= i < placed(points, p).len(),
    ensures
        placed(points, p)[i] == p || exists|k: int|
            0 <= k < points.len() && placed(points, p)[i] == #[trigger] points[k],
    decreases points.len(),
{
    lemma_placed_len(points, p);
    if points.len() > 0 && p.x.below(points.last().x) {
        let rest = points.drop_last();
        lemma_placed_len(rest, p);
        if i < placed(rest, p).len() {
            lemma_placed_members(rest, p, i);
            if placed(rest, p)[i] != p {
                let k = choose|k: int| 0 <= k < rest.len() && placed(rest, p)[i] == #[trigger] rest[k];
                assert(points[k] == rest[k]);
            }
        } else {
            assert(placed(points, p)[i] == points[points.len() - 1]);
        }
    } else if i < points.len() {
        assert(placed(points, p)[i] == points[i]);
    }
}

/// A curve is read from left to right however its points are stored, as long as each has a
/// position.
pub proof fn sorting_orders_the_points(points: Seq<CurvePoint>)
    requires
        positioned(points),
    ensures
        runs_right(left_to_right(points)),
        positioned(left_to_right(points)),
    decreases points.len(),
{
    if points.len() > 0 {
        let rest = points.drop_last();
        assert(positioned(rest)) by {
            assert forall|i: int| 0 <= i < rest.len() implies !(#[trigger] rest[i]).x.nan() by {
                assert(rest[i] == points[i]);
            }
        }
        sorting_orders_the_points(rest);
        assert(!points[points.len() - 1].x.nan());
        lemma_placed_runs(left_to_right(rest), points.last());
    }
}

/// Whether a number is no further from zero than a million.
pub open spec fn within_a_million(x: Scalar) -> bool {
    whole(1_000_000).negated().at_most(x) && x.at_most(whole(1_000_000))
}

/// Whether a number is a percentage.
pub open spec fn percent(y: Scalar) -> bool {
    whole(0).at_most(y) && y.at_most(whole(100))
}

/// Whether a curve has points, gives percentages, and has its points within a million of zero.
pub open spec fn sensible(points: Seq<CurvePoint>) -> bool {
    points.len() > 0 && forall|i: int|
        0 <= i < points.len() ==> within_a_million((#[trigger] points[i]).x) && percent(points[i].y)
}

proof fn lemma_million(x: Scalar)
    requires
        within_a_million(x),
    ensures
        x.finite(),
        x.magnitude() <= 1_000_000 * pow2(1074),
{
    let m = whole(1_000_000);
    whole_is_exact(1_000_000);
    order_is_by_value(x, m);
    order_is_by_value(m.negated(), x);
    assert(m.negated().value() == -m.value());
}

proof fn lemma_percent(y: Scalar)
    requires
        percent(y),
    ensures
        y.finite(),
        y.magnitude() <= 100 * pow2(1074),
{
    whole_is_exact(0);
    whole_is_exact(100);
    assert(0 * pow2(1074) == 0);
    order_is_by_value(whole(0), y);
    order_is_by_value(y, whole(100));
}

proof fn lemma_between(a: CurvePoint, b: CurvePoint, x: Scalar)
    requires
        within_a_million(a.x),
        within_a_million(b.x),
        percent(a.y),
        percent(b.y),
        a.x.at_most(x),
        x.at_most(b.x),
    ensures
        between(a, b, x).finite(),
{
    lemma_million(a.x);
    lemma_million(b.x);
    lemma_percent(a.y);
    lemma_percent(b.y);
    let span = b.x.minus(a.x);
    lemma_difference_within(b.x, a.x, 1_000_000, 1_000_000);
    if !span.absolute().below(Scalar { bits: EPSILON_BITS }) {
        assert(span.pattern() > 0);
        lemma_magnitude_order(0, span.pattern());
        let part = x.minus(a.x);
        lemma_nearer(a.x, x, b.x);
        let t = part.over(span);
        lemma_fraction_within(part, span);
        let rise = b.y.minus(a.y);
        lemma_difference_within(b.y, a.y, 100, 100);
        lemma_product_within(rise, t, 200);
        lemma_sum_within(a.y, rise.times(t), 100, 200);
    }
}

proof fn lemma_on_segment(points: Seq<CurvePoint>, x: Scalar, i: int)
    requires
        0 <= i,
        sensible(points),
    ensures
        on_segment(points, x, i).finite(),
    decreases points.len() - i,
{
    if i + 1 >= points.len() {
        assert(percent(points[points.len() - 1].y));
        lemma_percent(points.last().y);
    } else if points[i].x.at_most(x) && x.at_most(points[i + 1].x) {
        lemma_between(points[i], points[i + 1], x);
    } else {
        lemma_on_segment(points, x, i + 1);
    }
}

proof fn lemma_standing(points: Seq<CurvePoint>, x: Scalar, n: nat)
    requires
        n <= points.len(),
        sensible(points),
    ensures
        all_finite(standing(points, x, n)),
    decreases n,
{
    if n > 0 {
        lemma_standing(points, x, (n - 1) as nat);
        lemma_percent(points[n - 1].y);
        let before = standing(points, x, (n - 1) as nat);
        let after = standing(points, x, n);
        assert forall|i: int| 0 <= i < after.len() implies (#[trigger] after[i]).finite() by {
            if i < before.len() {
                assert(after[i] == before[i]);
            }
        }
    }
}

/// A vertical step takes the upper, more-cooling side: what a curve gives where several of its
/// points stand is what one of them gives, and none of them gives more.
pub proof fn a_step_takes_its_upper_value(points: Seq<CurvePoint>, x: Scalar)
    requires
        sensible(points),
        x.finite(),
        standing(left_to_right(points), x, points.len()).len() > 1,
    ensures
        ({
            let here = standing(left_to_right(points), x, points.len());
            &&& here.contains(interpolated(points, x))
            &&& forall|i: int|
                0 <= i < here.len() ==> (#[trigger] here[i]).at_most(interpolated(points, x))
        }),
{
    lemma_sorted_sensible(points);
    let sorted = left_to_right(points);
    sorting_keeps_the_points(points);
    lemma_standing(sorted, x, sorted.len());
    maximum_is_the_hottest(standing(sorted, x, sorted.len()));
}

/// Putting points in order leaves a curve sensible.
proof fn lemma_sorted_sensible(points: Seq<CurvePoint>)
    requires
        sensible(points),
    ensures
        sensible(left_to_right(points)),
{
    broadcast use vstd::seq_lib::group_to_multiset_ensures;

    let sorted = left_to_right(points);
    sorting_keeps_the_points(points);
    assert forall|i: int| 0 <= i < sorted.len() implies within_a_million((#[trigger] sorted[i]).x)
        && percent(sorted[i].y) by {
        assert(sorted.contains(sorted[i]));
        assert(points.to_multiset().count(sorted[i]) > 0);
        assert(points.contains(sorted[i]));
    }
}

/// A sensible curve has a number for every reading.
pub proof fn sensible_curves_give_numbers(points: Seq<CurvePoint>, x: Scalar)
    requires
        sensible(points),
        x.finite(),
    ensures
        interpolated(points, x).finite(),
{
    let sorted = left_to_right(points);
    sorting_keeps_the_points(points);
    lemma_sorted_sensible(points);
    lemma_standing(sorted, x, sorted.len());
    let here = standing(sorted, x, sorted.len());
    if here.len() > 1 {
        maximum_is_the_hottest(here);
    }
    assert(percent(sorted[0].y));
    lemma_percent(sorted[0].y);
    lemma_percent(sorted[sorted.len() - 1].y);
    lemma_on_segment(sorted, x, 0);
}

/// How many points stand at `x`, and the highest of what they give.
fn highest_at(points: &Vec<CurvePoint>, x: Scalar) -> (r: (usize, Scalar))
    ensures
        r.0 == standing(points@, x, points@.len()).len(),
        r.0 > 0 ==> r.1 == largest(standing(points@, x, points@.len())),
{
    let n: usize = points.len();
    let mut count: usize = 0;
    let mut top = Scalar { bits: NAN_BITS };
    for i in 0..n
        invariant
            n == points@.len(),
            count <= i,
            count == standing(points@, x, i as nat).len(),
            count > 0 ==> top == largest(standing(points@, x, i as nat)),
    {
        let p = points[i];
        let ghost before = standing(points@, x, i as nat);
        if p.x.eq(&x) {
            assert(before.push(p.y).drop_last() =~= before);
            top = if count == 0 {
                p.y
            } else {
                top.max(p.y)
            };
            count += 1;
        }
    }
    (count, top)
}

/// A curve at `x`.
fn interpolate(points: &Vec<CurvePoint>, x: Scalar) -> (r: Scalar)
    ensures
        r == interpolated(points@, x),
{
    if points.len() == 0 || !x.is_finite() {
        return Scalar { bits: NAN_BITS };
    }
    let mut sorted: Vec<CurvePoint> = Vec::new();
    let n: usize = points.len();
    for i in 0..n
        invariant
            n == points@.len(),
            sorted@ == left_to_right(points@.take(i as int)),
            sorted@.len() == i,
    {
        let p = points[i];
        let mut j: usize = sorted.len();
        while j > 0 && p.x.lt(sorted[j - 1].x)
            invariant
                0 <= j <= sorted@.len(),
                forall|k: int| j <= k < sorted@.len() ==> p.x.below((#[trigger] sorted@[k]).x),
            decreases j,
        {
            j -= 1;
        }
        proof {
            lemma_placed(sorted@, p, j as int);
            assert(points@.take(i + 1).drop_last() =~= points@.take(i as int));
        }
        sorted.insert(j, p);
    }
    assert(points@.take(n as int) =~= points@);
    let (count, top) = highest_at(&sorted, x);
    if count > 1 {
        return top;
    }
    if x.le(sorted[0].x) {
        return sorted[0].y;
    }
    if sorted[n - 1].x.le(x) {
        return sorted[n - 1].y;
    }
    let mut i: usize = 0;
    while i + 1 < n
        invariant
            n == sorted@.len(),
            0 <= i < n,
            interpolated(points@, x) == on_segment(sorted@, x, i as int),
        decreases n - i,
    {
        let a = sorted[i];
        let b = sorted[i + 1];
        if a.x.le(x) && x.le(b.x) {
            let span = b.x.sub(a.x);
            if span.abs().lt(Scalar { bits: EPSILON_BITS }) {
                return a.y.max(b.y);
            }
            return a.y.add(b.y.sub(a.y).mul(x.sub(a.x).div(span)));
        }
        i += 1;
    }
    sorted[n - 1].y
}

// --- Mixing ----------------------------------------------------------------------------

/// Left to right sum.
pub open spec fn total(values: Seq<Scalar>) -> Scalar
    decreases values.len(),
{
    if values.len() <= 1 {
        values[0]
    } else {
        total(values.drop_last()).plus(values.last())
    }
}

/// The largest of some numbers.
pub open spec fn largest(values: Seq<Scalar>) -> Scalar
    decreases values.len(),
{
    if values.len() <= 1 {
        values[0]
    } else {
        largest(values.drop_last()).larger(values.last())
    }
}

/// The smallest of some numbers.
pub open spec fn smallest(values: Seq<Scalar>) -> Scalar
    decreases values.len(),
{
    if values.len() <= 1 {
        values[0]
    } else {
        smallest(values.drop_last()).smaller(values.last())
    }
}

/// Whether every number is finite.
pub open spec fn all_finite(values: Seq<Scalar>) -> bool {
    forall|i: int| 0 <= i < values.len() ==> (#[trigger] values[i]).finite()
}

/// Mixer inputs combined. One non-finite input poisons the result, so a dead sensor in a
/// mix is not averaged away into a falsely comfortable number.
pub open spec fn mixed(mode: MixMode, values: Seq<Scalar>) -> Scalar {
    if values.len() == 0 || !all_finite(values) {
        nan()
    } else {
        match mode {
            MixMode::Max => largest(values),
            MixMode::Min => smallest(values),
            MixMode::Average => total(values).over(whole(values.len())),
            MixMode::Sum => total(values),
        }
    }
}

/// The hottest input wins: a maximum is one of its inputs, and none is above it.
pub proof fn maximum_is_the_hottest(values: Seq<Scalar>)
    requires
        values.len() > 0,
        all_finite(values),
    ensures
        mixed(MixMode::Max, values).finite(),
        exists|i: int| 0 <= i < values.len() && #[trigger] values[i] == mixed(MixMode::Max, values),
        forall|i: int| 0 <= i < values.len() ==> (#[trigger] values[i]).at_most(mixed(MixMode::Max, values)),
    decreases values.len(),
{
    if values.len() > 1 {
        let rest = values.drop_last();
        assert(all_finite(rest)) by {
            assert forall|i: int| 0 <= i < rest.len() implies (#[trigger] rest[i]).finite() by {
                assert(rest[i] == values[i]);
            }
        }
        maximum_is_the_hottest(rest);
        let k = choose|k: int| 0 <= k < rest.len() && #[trigger] rest[k] == largest(rest);
        assert(values[k] == rest[k]);
        assert(values[values.len() - 1] == values.last());
        assert forall|i: int| 0 <= i < values.len() implies (#[trigger] values[i]).at_most(
            largest(values),
        ) by {
            if i < rest.len() {
                assert(rest[i].at_most(largest(rest)));
            }
        }
    } else {
        assert(values[0].finite());
    }
}

fn mix(mode: MixMode, values: &Vec<Scalar>) -> (r: Scalar)
    ensures
        r == mixed(mode, values@),
{
    let n: usize = values.len();
    if n == 0 {
        return Scalar { bits: NAN_BITS };
    }
    for i in 0..n
        invariant
            n == values@.len(),
            forall|k: int| 0 <= k < i ==> (#[trigger] values@[k]).finite(),
    {
        if !values[i].is_finite() {
            return Scalar { bits: NAN_BITS };
        }
    }
    let mut sum = values[0];
    let mut high = values[0];
    let mut low = values[0];
    for i in 1..n
        invariant
            1 <= n == values@.len(),
            sum == total(values@.take(i as int)),
            high == largest(values@.take(i as int)),
            low == smallest(values@.take(i as int)),
    {
        sum = sum.add(values[i]);
        high = high.max(values[i]);
        low = low.min(values[i]);
        assert(values@.take(i + 1).drop_last() =~= values@.take(i as int));
    }
    assert(values@.take(n as int) =~= values@);
    match mode {
        MixMode::Max => high,
        MixMode::Min => low,
        MixMode::Average => sum.div(Scalar::whole(n as u64)),
        MixMode::Sum => sum,
    }
}

// --- Bounds ------------------------------------------------------------------------------

/// A number kept within bounds. What is no finite number is passed on as it is: a bound in its
/// place would look like a measurement.
pub open spec fn bounded(x: Scalar, min: Scalar, max: Scalar) -> Scalar {
    if x.finite() {
        x.confined(min, max)
    } else {
        x
    }
}

/// A number kept within bounds.
pub fn bound(x: Scalar, min: Scalar, max: Scalar) -> (r: Scalar)
    ensures
        r == bounded(x, min, max),
{
    if x.is_finite() {
        x.clamp(min, max)
    } else {
        x
    }
}

// --- Stateful transforms -----------------------------------------------------------------

/// A finite result is remembered; anything else leaves the memory as it was.
pub open spec fn remembered(state: StateView, y: Scalar) -> StateView {
    if y.finite() {
        StateView { last: Some(y), ..state }
    } else {
        state
    }
}

/// A rate limiter: its first value is adopted, later ones move by at most one step.
pub open spec fn rate_limited(last: Option<Scalar>, x: Scalar, rate: Scalar, dt: Scalar) -> Scalar {
    if !x.finite() {
        nan()
    } else {
        match last {
            None => x,
            Some(prev) => {
                let step = rate.absolute().times(dt);
                prev.plus(x.minus(prev).confined(step.negated(), step))
            },
        }
    }
}

/// What a low-pass filter needs the exponential of: `-dt / tau`.
pub open spec fn decay_exponent(tau: Scalar, dt: Scalar) -> Scalar {
    dt.negated().over(tau.larger(Scalar { bits: EPSILON_BITS }))
}

/// The exponential handed in for an exponent; NaN when there is none.
pub open spec fn decay_for(decays: Seq<Decay>, exponent: Scalar) -> Scalar
    decreases decays.len(),
{
    if decays.len() == 0 {
        nan()
    } else if decays[0].exponent == exponent {
        decays[0].factor
    } else {
        decay_for(decays.drop_first(), exponent)
    }
}

/// First-order smoothing: `prev + (1 - e^(-dt / tau)) (x - prev)`.
pub open spec fn low_passed(last: Option<Scalar>, x: Scalar, factor: Scalar) -> Scalar {
    if !x.finite() {
        nan()
    } else {
        match last {
            None => x,
            Some(prev) => prev.plus(whole(1).minus(factor).times(x.minus(prev))),
        }
    }
}

/// A low-pass filter lies between what it remembers and where one full step towards its input
/// would take it, whatever part of the way the exponential leaves: it never overshoots.
pub proof fn a_filter_never_overshoots(memory: Scalar, x: Scalar, factor: Scalar)
    requires
        memory.finite(),
        x.finite(),
        x.minus(memory).finite(),
        whole(0).at_most(factor),
        factor.at_most(whole(1)),
    ensures
        ({
            let y = low_passed(Some(memory), x, factor);
            let full = memory.plus(x.minus(memory));
            &&& memory.at_most(x) ==> memory.at_most(y) && y.at_most(full)
            &&& x.at_most(memory) ==> full.at_most(y) && y.at_most(memory)
        }),
{
    let zero = whole(0);
    let one = whole(1);
    let left = one.minus(factor);
    let way = x.minus(memory);
    whole_is_exact(0);
    whole_is_exact(1);
    assert(0 * pow2(1074) == 0);
    // The part of the way that is gone lies between nothing and all of it.
    order_is_by_value(zero, factor);
    order_is_by_value(factor, one);
    order_is_by_value(one.negated(), factor.negated());
    order_is_by_value(factor.negated(), zero);
    assert(factor.negated().value() == -factor.value());
    assert(one.negated().value() == -one.value());
    sums_keep_order(one, one.negated(), factor.negated());
    sums_keep_order(one, factor.negated(), zero);
    exact_sums_are_exact(one, one.negated(), zero);
    exact_sums_are_exact(one, zero, one);
    parts_lie_between(left, way);
    // And so does what is added.
    let gone = left.times(way);
    exact_sums_are_exact(memory, zero, memory);
    if memory.at_most(x) {
        lemma_difference_up(x, memory);
        sums_keep_order(memory, zero, gone);
        sums_keep_order(memory, gone, way);
    }
    if x.at_most(memory) {
        lemma_difference_down(x, memory);
        sums_keep_order(memory, gone, zero);
        sums_keep_order(memory, way, gone);
    }
}

/// What is taken away from something no smaller leaves nothing negative.
proof fn lemma_difference_up(a: Scalar, b: Scalar)
    requires
        a.finite(),
        b.finite(),
        b.at_most(a),
    ensures
        whole(0).at_most(a.minus(b)),
{
    whole_is_exact(0);
    assert(0 * pow2(1074) == 0);
    let n = b.negated();
    assert(n.value() == -b.value());
    exact_sums_are_exact(n, b, whole(0));
    sums_keep_order(n, b, a);
    crate::rounding::terms_may_be_swapped(n, a);
}

/// What is taken away from something no larger leaves nothing positive.
proof fn lemma_difference_down(a: Scalar, b: Scalar)
    requires
        a.finite(),
        b.finite(),
        a.at_most(b),
    ensures
        a.minus(b).at_most(whole(0)),
{
    whole_is_exact(0);
    assert(0 * pow2(1074) == 0);
    let n = b.negated();
    assert(n.value() == -b.value());
    exact_sums_are_exact(n, b, whole(0));
    sums_keep_order(n, a, b);
    crate::rounding::terms_may_be_swapped(n, a);
}

/// Where the way from its memory to its input is a double, a low-pass filter lies between the
/// two.
pub proof fn a_filter_lies_between_its_memory_and_its_input(
    memory: Scalar,
    x: Scalar,
    factor: Scalar,
)
    requires
        memory.finite(),
        x.finite(),
        x.minus(memory).finite(),
        x.minus(memory).value() == x.value() - memory.value(),
        whole(0).at_most(factor),
        factor.at_most(whole(1)),
    ensures
        ({
            let y = low_passed(Some(memory), x, factor);
            &&& memory.at_most(x) ==> memory.at_most(y) && y.at_most(x)
            &&& x.at_most(memory) ==> x.at_most(y) && y.at_most(memory)
        }),
{
    a_filter_never_overshoots(memory, x, factor);
    exact_sums_are_exact(memory, x.minus(memory), x);
}

/// A low-pass filter that has settled stays settled, however long or short the ticks are, and
/// however many: once its memory is its input, so is what comes out.
pub proof fn a_settled_filter_stays_settled(memory: Scalar, x: Scalar, factor: Scalar)
    requires
        memory.finite(),
        x.finite(),
        memory.equals(x),
        whole(0).at_most(factor),
        factor.at_most(whole(1)),
    ensures
        low_passed(Some(memory), x, factor).equals(x),
{
    whole_is_exact(0);
    assert(0 * pow2(1074) == 0);
    order_is_by_value(x, memory);
    assert(memory.negated().value() == -memory.value());
    exact_sums_are_exact(x, memory.negated(), whole(0));
    order_is_by_value(x.minus(memory), whole(0));
    a_filter_lies_between_its_memory_and_its_input(memory, x, factor);
}

/// A held value, given up once the input has moved further than the band.
pub open spec fn held(last: Option<Scalar>, x: Scalar, band: Scalar) -> Scalar {
    if !x.finite() {
        nan()
    } else {
        match last {
            Some(prev) => if x.minus(prev).absolute().at_most(band.absolute()) {
                prev
            } else {
                x
            },
            None => x,
        }
    }
}

/// The last `window` samples.
pub open spec fn windowed(samples: Seq<Scalar>, window: nat) -> Seq<Scalar> {
    if samples.len() > window {
        samples.skip(samples.len() - window)
    } else {
        samples
    }
}

/// A moving average's window once `x` has come in.
pub open spec fn window_after(history: Seq<Scalar>, x: Scalar, samples: nat) -> Seq<Scalar> {
    windowed(history.push(x), if samples < 1 { 1 } else { samples })
}

/// A latch with a deadband: it changes only once the input has cleared the threshold by
/// half the band.
pub open spec fn latched(
    flag: bool,
    x: Scalar,
    threshold: Scalar,
    deadband: Scalar,
    direction: Compare,
) -> bool {
    let half = deadband.absolute().over(whole(2));
    let high = threshold.plus(half).below(x);
    let low = x.below(threshold.minus(half));
    match direction {
        Compare::Above => if high {
            true
        } else if low {
            false
        } else {
            flag
        },
        Compare::Below => if low {
            true
        } else if high {
            false
        } else {
            flag
        },
    }
}

/// The accumulated error, bounded by its contribution so that the bound means the same
/// whatever the gain is.
pub open spec fn integrated(
    integral: Scalar,
    error: Scalar,
    dt: Scalar,
    ki: Scalar,
    limit: Scalar,
) -> Scalar {
    if ki.equals(whole(0)) {
        whole(0)
    } else {
        let bound = limit.over(ki).absolute();
        integral.plus(error.times(dt)).confined(bound.negated(), bound)
    }
}

/// How fast the error moves; the first sample gives no kick.
pub open spec fn derivative(prev_error: Option<Scalar>, error: Scalar, dt: Scalar) -> Scalar {
    match prev_error {
        Some(prev) => error.minus(prev).over(dt),
        None => whole(0),
    }
}

/// Every age, `dt` older.
pub open spec fn aged(ages: Seq<Scalar>, dt: Scalar) -> Seq<Scalar> {
    Seq::new(ages.len(), |i: int| ages[i].plus(dt))
}

/// A delay line without what it no longer needs: everything older than the delay goes,
/// except the newest such sample, which is the one to emit next.
pub open spec fn trimmed(ages: Seq<Scalar>, buffer: Seq<Scalar>, limit: Scalar) -> (
    Seq<Scalar>,
    Seq<Scalar>,
)
    decreases ages.len(),
{
    if ages.len() > 1 && limit.at_most(ages[1]) {
        trimmed(
            ages.drop_first(),
            if buffer.len() > 0 {
                buffer.drop_first()
            } else {
                buffer
            },
            limit,
        )
    } else {
        (ages, buffer)
    }
}

/// Which sample of a delay line is due on a tick that comes `dt` after the last: of those from
/// `i` on the newest that is then as old as the delay, or the oldest while none is.
pub open spec fn due(ages: Seq<Scalar>, dt: Scalar, limit: Scalar, i: int) -> int
    decreases ages.len() - i,
{
    if i + 1 < ages.len() && limit.at_most(ages[i + 1].plus(dt)) {
        due(ages, dt, limit, i + 1)
    } else {
        i
    }
}

/// What a delay emits on a tick that comes `dt` after the last: what it was given `limit` ago.
pub open spec fn delayed(ages: Seq<Scalar>, buffer: Seq<Scalar>, dt: Scalar, limit: Scalar) -> Scalar {
    let k = due(ages, dt, limit, 0);
    if k < buffer.len() {
        buffer[k]
    } else {
        nan()
    }
}

/// A command to a channel, with the duty brought into range.
pub open spec fn commanded(channel: Text, duty: Scalar) -> ProducedView {
    ProducedView {
        commands: seq![
            (channel, Value { quantity: Quantity::Duty, scalar: Quantity::Duty.clamped(duty) }),
        ],
        ..nothing()
    }
}

/// The type a selector emits: that of whichever branch is present.
pub open spec fn selected_type(inputs: InputsView, out_type: Option<Quantity>) -> Quantity {
    match first(inputs, "if_true"@) {
        Some(v) => v.quantity,
        None => carried(inputs, "if_false"@, out_type),
    }
}

// --- Evaluation --------------------------------------------------------------------------

/// What a node of each kind produces in one tick, and what it remembers afterwards.
pub open spec fn evaluated(
    kind: KindView,
    inputs: InputsView,
    tick: TickView,
    state: StateView,
    out_type: Option<Quantity>,
) -> (ProducedView, StateView) {
    let x = number(inputs, "in"@);
    let q = carried(inputs, "in"@, out_type);
    match kind {
        KindView::Sensor { sensor_id, quantity } => {
            let reading = if tick.sensors.dom().contains(sensor_id)
                && tick.sensors[sensor_id].quantity == quantity {
                tick.sensors[sensor_id].scalar
            } else {
                nan()
            };
            (emitted(quantity, reading), state)
        },
        KindView::Constant { value } => (
            emitted(settled(out_type), settled(out_type).clamped(value)),
            state,
        ),
        KindView::Curve { points } => (emitted(Quantity::Duty, interpolated(points, x)), state),
        KindView::Mix { mode } => {
            let values = if inputs.dom().contains("in"@) {
                inputs["in"@].map_values(|v: Value| v.scalar)
            } else {
                Seq::empty()
            };
            (emitted(q, mixed(mode, values)), state)
        },
        KindView::Clamp { min, max } => (emitted(q, bounded(x, min, max)), state),
        KindView::Offset { delta } => (emitted(q, x.plus(delta)), state),
        KindView::Scale { factor } => (emitted(q, x.times(factor)), state),
        KindView::Reinterpret { to, .. } => (emitted(to, x), state),
        KindView::RateLimit { max_delta_per_second } => {
            let y = rate_limited(state.last, x, max_delta_per_second, tick.dt);
            (emitted(q, y), remembered(state, y))
        },
        KindView::LowPass { tau_seconds } => {
            let factor = decay_for(tick.decays, decay_exponent(tau_seconds, tick.dt));
            let y = low_passed(state.last, x, factor);
            (emitted(q, y), remembered(state, y))
        },
        KindView::MovingAverage { samples } => if !x.finite() {
            (emitted(q, nan()), StateView { history: Seq::empty(), ..state })
        } else {
            let window = window_after(state.history, x, samples);
            (
                emitted(q, total(window).over(whole(window.len()))),
                StateView { history: window, ..state },
            )
        },
        KindView::Hold { band } => {
            let y = held(state.last, x, band);
            (emitted(q, y), remembered(state, y))
        },
        KindView::Comparator { threshold, deadband, direction } => if !x.finite() {
            (emitted(Quantity::Boolean, nan()), state)
        } else {
            let flag = latched(state.flag, x, threshold, deadband, direction);
            (
                emitted(Quantity::Boolean, if flag { whole(1) } else { whole(0) }),
                StateView { flag, ..state },
            )
        },
        KindView::Select => {
            let when = number(inputs, "when"@);
            let chosen = if !when.finite() {
                nan()
            } else if whole(1).over(whole(2)).at_most(when) {
                number(inputs, "if_true"@)
            } else {
                number(inputs, "if_false"@)
            };
            (emitted(selected_type(inputs, out_type), chosen), state)
        },
        KindView::Delay { seconds } => {
            let (ages, buffer) = trimmed(
                aged(state.history, tick.dt).push(whole(0)),
                state.buffer.push(x),
                seconds.larger(whole(0)),
            );
            (nothing(), StateView { history: ages, buffer, ..state })
        },
        KindView::Pid { setpoint, kp, ki, kd, integral_limit } => if !x.finite()
            || tick.dt.at_most(whole(0)) {
            (emitted(Quantity::Duty, nan()), StateView { prev_error: None, ..state })
        } else {
            let error = x.minus(setpoint);
            let integral = integrated(state.integral, error, tick.dt, ki, integral_limit);
            let out = kp.times(error).plus(ki.times(integral)).plus(
                kd.times(derivative(state.prev_error, error, tick.dt)),
            );
            (
                emitted(Quantity::Duty, out.confined(whole(0), whole(100))),
                StateView { integral, prev_error: Some(error), ..state },
            )
        },
        KindView::FanOutput { channel } => match first(inputs, "duty"@) {
            Some(v) if v.trustworthy() => (commanded(channel, v.scalar), state),
            _ => (ProducedView { faults: seq![channel], ..nothing() }, state),
        },
    }
}

/// What a node has to say before anything is computed: its delayed outputs.
pub open spec fn sourced_by(
    kind: KindView,
    tick: TickView,
    state: StateView,
    out_type: Option<Quantity>,
) -> Seq<(Text, Value)> {
    match kind {
        KindView::FanOutput { channel } => {
            let sensor = tick.tachometers[channel];
            let known = tick.tachometers.dom().contains(channel)
                && tick.sensors.dom().contains(sensor)
                && tick.sensors[sensor].quantity == Quantity::Rpm;
            seq![
                (
                    "rpm"@,
                    if known {
                        tick.sensors[sensor]
                    } else {
                        Value { quantity: Quantity::Rpm, scalar: nan() }
                    },
                ),
            ]
        },
        KindView::Delay { seconds } => seq![
            (
                "out"@,
                Value {
                    quantity: settled(out_type),
                    scalar: delayed(
                        state.history,
                        state.buffer,
                        tick.dt,
                        seconds.larger(whole(0)),
                    ),
                },
            ),
        ],
        _ => Seq::empty(),
    }
}

/// What pairs of port key and value say.
pub open spec fn keyed(pairs: Seq<(&'static str, Value)>) -> Seq<(Text, Value)> {
    Seq::new(pairs.len(), |i: int| (pairs[i].0@, pairs[i].1))
}

fn look_up_decay(decays: Option<&Vec<Decay>>, exponent: Scalar) -> (r: Scalar)
    ensures
        r == decay_for(
            match decays {
                Some(list) => list@,
                None => Seq::empty(),
            },
            exponent,
        ),
{
    match decays {
        None => Scalar { bits: NAN_BITS },
        Some(list) => {
            let n: usize = list.len();
            assert(list@.skip(0) =~= list@);
            for i in 0..n
                invariant
                    n == list@.len(),
                    decays == Some(list),
                    decay_for(list@, exponent) == decay_for(list@.skip(i as int), exponent),
            {
                if list[i].exponent.bits == exponent.bits {
                    return list[i].factor;
                }
                assert(list@.skip(i as int).drop_first() =~= list@.skip(i + 1));
            }
            Scalar { bits: NAN_BITS }
        },
    }
}

fn remember(state: &mut NodeState, y: Scalar)
    ensures
        final(state)@ == remembered(old(state)@, y),
{
    if y.is_finite() {
        state.last = Some(y);
    }
}

fn sum_of(values: &VecDeque<Scalar>) -> (r: Scalar)
    requires
        values@.len() > 0,
    ensures
        r == total(values@),
{
    let n: usize = values.len();
    let mut sum = values[0];
    for i in 1..n
        invariant
            1 <= n == values@.len(),
            sum == total(values@.take(i as int)),
    {
        sum = sum.add(values[i]);
        assert(values@.take(i + 1).drop_last() =~= values@.take(i as int));
    }
    assert(values@.take(n as int) =~= values@);
    sum
}

fn rate_limit(last: Option<Scalar>, x: Scalar, rate: Scalar, dt: Scalar) -> (r: Scalar)
    ensures
        r == rate_limited(last, x, rate, dt),
{
    if !x.is_finite() {
        return Scalar { bits: NAN_BITS };
    }
    match last {
        None => x,
        Some(prev) => {
            let step = rate.abs().mul(dt);
            prev.add(x.sub(prev).clamp(step.negate(), step))
        },
    }
}

/// The exponent a low-pass filter needs the exponential of.
pub fn exponent_for(tau: Scalar, dt: Scalar) -> (r: Scalar)
    ensures
        r == decay_exponent(tau, dt),
{
    dt.negate().div(tau.max(Scalar { bits: EPSILON_BITS }))
}

fn low_pass(last: Option<Scalar>, x: Scalar, factor: Scalar) -> (r: Scalar)
    ensures
        r == low_passed(last, x, factor),
{
    if !x.is_finite() {
        return Scalar { bits: NAN_BITS };
    }
    match last {
        None => x,
        Some(prev) => prev.add(Scalar::whole(1).sub(factor).mul(x.sub(prev))),
    }
}

fn hold(last: Option<Scalar>, x: Scalar, band: Scalar) -> (r: Scalar)
    ensures
        r == held(last, x, band),
{
    if !x.is_finite() {
        return Scalar { bits: NAN_BITS };
    }
    match last {
        Some(prev) => {
            if x.sub(prev).abs().le(band.abs()) {
                prev
            } else {
                x
            }
        },
        None => x,
    }
}

fn slide(history: &mut VecDeque<Scalar>, x: Scalar, samples: usize)
    ensures
        final(history)@ == window_after(old(history)@, x, samples as nat),
        final(history)@.len() > 0,
{
    let window: usize = if samples < 1 {
        1
    } else {
        samples
    };
    history.push_back(x);
    let ghost all = history@;
    while history.len() > window
        invariant
            window >= 1,
            all.len() >= 1,
            history@.len() <= all.len(),
            history@ == all.skip(all.len() - history@.len()),
            history@.len() < all.len() ==> history@.len() >= window,
            history@.len() >= 1,
        decreases history@.len(),
    {
        history.pop_front();
        assert(history@ =~= all.skip(all.len() - history@.len()));
    }
    assert(all.skip(0) =~= all);
}

fn latch(
    flag: bool,
    x: Scalar,
    threshold: Scalar,
    deadband: Scalar,
    direction: Compare,
) -> (r: bool)
    ensures
        r == latched(flag, x, threshold, deadband, direction),
{
    let half = deadband.abs().div(Scalar::whole(2));
    let high = threshold.add(half).lt(x);
    let low = x.lt(threshold.sub(half));
    let (raised, lowered) = match direction {
        Compare::Above => (high, low),
        Compare::Below => (low, high),
    };
    if raised {
        true
    } else if lowered {
        false
    } else {
        flag
    }
}

fn integrate(integral: Scalar, error: Scalar, dt: Scalar, ki: Scalar, limit: Scalar) -> (r: Scalar)
    ensures
        r == integrated(integral, error, dt, ki, limit),
{
    if ki.same(Scalar::whole(0)) {
        Scalar::whole(0)
    } else {
        let bound = limit.div(ki).abs();
        integral.add(error.mul(dt)).clamp(bound.negate(), bound)
    }
}

fn age(ages: &VecDeque<Scalar>, dt: Scalar) -> (r: VecDeque<Scalar>)
    ensures
        r@ == aged(ages@, dt),
{
    let mut out: VecDeque<Scalar> = VecDeque::new();
    let n: usize = ages.len();
    for i in 0..n
        invariant
            n == ages@.len(),
            out@ == aged(ages@, dt).take(i as int),
    {
        out.push_back(ages[i].add(dt));
        assert(out@ =~= aged(ages@, dt).take(i + 1));
    }
    assert(aged(ages@, dt).take(n as int) =~= aged(ages@, dt));
    out
}

fn trim(ages: &mut VecDeque<Scalar>, buffer: &mut VecDeque<Scalar>, limit: Scalar)
    ensures
        (final(ages)@, final(buffer)@) == trimmed(old(ages)@, old(buffer)@, limit),
{
    let ghost whole_trim = trimmed(ages@, buffer@, limit);
    while ages.len() > 1 && limit.le(ages[1])
        invariant
            trimmed(ages@, buffer@, limit) == whole_trim,
        decreases ages@.len(),
    {
        let ghost a = ages@;
        let ghost b = buffer@;
        ages.pop_front();
        if buffer.len() > 0 {
            buffer.pop_front();
            assert(buffer@ =~= b.drop_first());
        }
        assert(ages@ =~= a.drop_first());
    }
}

fn scalars_of(inputs: &Inputs, key: &str) -> (r: Vec<Scalar>)
    ensures
        r@ == if inputs@.dom().contains(key@) {
            inputs@[key@]@.map_values(|v: Value| v.scalar)
        } else {
            Seq::empty()
        },
{
    let mut out: Vec<Scalar> = Vec::new();
    if let Some(list) = inputs.get(&key.to_owned()) {
        let n: usize = list.len();
        for i in 0..n
            invariant
                n == list@.len(),
                out@ == list@.map_values(|v: Value| v.scalar).take(i as int),
        {
            out.push(list[i].scalar);
            assert(out@ =~= list@.map_values(|v: Value| v.scalar).take(i + 1));
        }
        assert(out@ =~= list@.map_values(|v: Value| v.scalar));
    }
    out
}

/// What a delay emits on a tick. Nothing buffered yet means nothing has been observed to delay,
/// which is a fault rather than a zero.
fn emit_delayed(
    ages: &VecDeque<Scalar>,
    buffer: &VecDeque<Scalar>,
    dt: Scalar,
    limit: Scalar,
) -> (r: Scalar)
    ensures
        r == delayed(ages@, buffer@, dt, limit),
{
    let n: usize = ages.len();
    let mut i: usize = 0;
    while i < n && i + 1 < n && limit.le(ages[i + 1].add(dt))
        invariant
            n == ages@.len(),
            i < n || i == 0,
            due(ages@, dt, limit, 0) == due(ages@, dt, limit, i as int),
        decreases n - i,
    {
        i += 1;
    }
    if i < buffer.len() {
        buffer[i]
    } else {
        Scalar { bits: NAN_BITS }
    }
}

impl NodeKind {
    /// Produces this node's delayed outputs.
    ///
    /// Runs before the topological pass, because these values do not depend on anything
    /// computed this tick. That is why a tachometer can feed back into the graph that
    /// drives its own fan without the graph containing a cycle.
    pub fn sourced(
        &self,
        ctx: &TickInput<'_>,
        state: &NodeState,
        out_type: Option<Quantity>,
    ) -> (r: Vec<(&'static str, Value)>)
        ensures
            keyed(r@) == sourced_by(self@, ctx@, state@, out_type),
    {
        match self {
            NodeKind::FanOutput { channel } => {
                // The reading has to be both present and actually a speed; a channel with
                // no tachometer, or one re-enumerated as something else, yields a fault.
                let mut reading = Value::raw(Quantity::Rpm, Scalar { bits: NAN_BITS });
                if let Some(map) = ctx.tachometers {
                    if let Some(sensor) = map.get(channel) {
                        if let Some(v) = ctx.sensors.get(sensor) {
                            if v.quantity == Quantity::Rpm {
                                reading = *v;
                            }
                        }
                    }
                }
                let r = vec![("rpm", reading)];
                assert(keyed(r@) =~= sourced_by(self@, ctx@, state@, out_type));
                r
            },
            NodeKind::Delay { seconds } => {
                let scalar = emit_delayed(
                    &state.history,
                    &state.buffer,
                    ctx.dt,
                    seconds.max(Scalar::whole(0)),
                );
                let r = vec![("out", Value::raw(settle(out_type), scalar))];
                assert(keyed(r@) =~= sourced_by(self@, ctx@, state@, out_type));
                r
            },
            _ => {
                let r: Vec<(&'static str, Value)> = Vec::new();
                assert(keyed(r@) =~= Seq::empty());
                r
            },
        }
    }

    /// Evaluates this node for one tick.
    ///
    /// `out_type` is the inferred quantity of the node's `out` port, used by nodes with no
    /// input to take it from. Everything else carries its input's type through.
    pub fn eval(
        &self,
        inputs: &Inputs,
        ctx: &TickInput<'_>,
        state: &mut NodeState,
        out_type: Option<Quantity>,
    ) -> (r: Produced)
        ensures
            (r@, final(state)@) == evaluated(
                self@,
                inputs_view(inputs@),
                ctx@,
                old(state)@,
                out_type,
            ),
    {
        let x = number_of(inputs, "in");
        let q = carry(inputs, "in", out_type);
        let ghost before = state@;
        match self {
            NodeKind::Sensor { sensor_id, quantity } => {
                // A sensor that is not reporting yields NaN rather than a plausible number,
                // and so does a reading that arrives as the wrong quantity: hardware can
                // re-enumerate, and a graph that asked for a temperature must not silently
                // start steering on an RPM.
                let mut reading = Scalar { bits: NAN_BITS };
                if let Some(v) = ctx.sensors.get(sensor_id) {
                    if v.quantity == *quantity {
                        reading = v.scalar;
                    }
                }
                emit(*quantity, reading)
            },
            NodeKind::Constant { value } => {
                let settled_type = settle(out_type);
                emit(settled_type, settled_type.clamp(*value))
            },
            NodeKind::Curve { points } => emit(Quantity::Duty, interpolate(points, x)),
            NodeKind::Mix { mode } => {
                let values = scalars_of(inputs, "in");
                assert(values@ =~= if inputs_view(inputs@).dom().contains("in"@) {
                    inputs_view(inputs@)["in"@].map_values(|v: Value| v.scalar)
                } else {
                    Seq::empty()
                });
                emit(q, mix(*mode, &values))
            },
            NodeKind::Clamp { min, max } => emit(q, bound(x, *min, *max)),
            NodeKind::Offset { delta } => emit(q, x.add(*delta)),
            NodeKind::Scale { factor } => emit(q, x.mul(*factor)),
            NodeKind::Reinterpret { to, .. } => emit(*to, x),
            NodeKind::RateLimit { max_delta_per_second } => {
                let y = rate_limit(state.last, x, *max_delta_per_second, ctx.dt);
                remember(state, y);
                emit(q, y)
            },
            NodeKind::LowPass { tau_seconds } => {
                let factor = look_up_decay(ctx.decays, exponent_for(*tau_seconds, ctx.dt));
                let y = low_pass(state.last, x, factor);
                remember(state, y);
                emit(q, y)
            },
            NodeKind::MovingAverage { samples } => {
                if !x.is_finite() {
                    // Once a reading is bad, the average of the stale ones is not a
                    // measurement of anything.
                    state.history.clear();
                    assert(state@ =~= StateView { history: Seq::empty(), ..before });
                    return emit(q, Scalar { bits: NAN_BITS });
                }
                slide(&mut state.history, x, *samples);
                emit(q, sum_of(&state.history).div(Scalar::whole(state.history.len() as u64)))
            },
            NodeKind::Hold { band } => {
                let y = hold(state.last, x, *band);
                remember(state, y);
                emit(q, y)
            },
            NodeKind::Comparator { threshold, deadband, direction } => {
                if !x.is_finite() {
                    return emit(Quantity::Boolean, Scalar { bits: NAN_BITS });
                }
                state.flag = latch(state.flag, x, *threshold, *deadband, *direction);
                emit(Quantity::Boolean, Scalar::whole(if state.flag { 1 } else { 0 }))
            },
            NodeKind::Select => {
                let when = number_of(inputs, "when");
                let branch = match first_of(inputs, "if_true") {
                    Some(v) => v.quantity,
                    None => carry(inputs, "if_false", out_type),
                };
                if !when.is_finite() {
                    return emit(branch, Scalar { bits: NAN_BITS });
                }
                let half = Scalar::whole(1).div(Scalar::whole(2));
                let chosen = if half.le(when) {
                    number_of(inputs, "if_true")
                } else {
                    number_of(inputs, "if_false")
                };
                emit(branch, chosen)
            },
            NodeKind::Pid { setpoint, kp, ki, kd, integral_limit } => {
                if !x.is_finite() || ctx.dt.le(Scalar::whole(0)) {
                    // A resumed controller should not carry error accumulated while it was
                    // blind.
                    state.prev_error = None;
                    return emit(Quantity::Duty, Scalar { bits: NAN_BITS });
                }
                // Positive when the measurement is above setpoint, so a hotter machine asks
                // for more cooling.
                let error = x.sub(*setpoint);
                state.integral = integrate(state.integral, error, ctx.dt, *ki, *integral_limit);
                let slope = match state.prev_error {
                    Some(prev) => error.sub(prev).div(ctx.dt),
                    None => Scalar::whole(0),
                };
                state.prev_error = Some(error);
                let out = kp.mul(error).add(ki.mul(state.integral)).add(kd.mul(slope));
                emit(Quantity::Duty, out.clamp(Scalar::whole(0), Scalar::whole(100)))
            },
            NodeKind::Delay { seconds } => {
                // Samples are stamped with how long ago they arrived, so the delay stays in
                // seconds and survives a change of tick rate.
                let mut ages = age(&state.history, ctx.dt);
                ages.push_back(Scalar::whole(0));
                state.buffer.push_back(x);
                trim(&mut ages, &mut state.buffer, seconds.max(Scalar::whole(0)));
                state.history = ages;
                // The output was produced in the delayed pass.
                let r = Produced { outputs: Vec::new(), commands: Vec::new(), faults: Vec::new() };
                assert(r@ =~= nothing());
                r
            },
            NodeKind::FanOutput { channel } => {
                if let Some(v) = first_of(inputs, "duty") {
                    if v.is_trustworthy() {
                        let r = Produced {
                            outputs: Vec::new(),
                            commands: vec![(channel.clone(), Value::new(Quantity::Duty, v.scalar))],
                            faults: Vec::new(),
                        };
                        assert(r@ =~= commanded(channel@, v.scalar));
                        return r;
                    }
                }
                // Unconnected or untrustworthy: a fault, so that the channel's failsafe is
                // applied. Never silently hold the last value.
                let r = Produced {
                    outputs: Vec::new(),
                    commands: Vec::new(),
                    faults: vec![channel.clone()],
                };
                assert(r@ =~= ProducedView { faults: seq![channel@], ..nothing() });
                r
            },
        }
    }
}

} // verus!
