//! What a curve gives: the straight line between the two points next to a reading, the outermost
//! height outside them, and the upper height on a step.
use crate::eval::{
    between, interpolated, left_to_right, maximum_is_the_hottest, on_segment, placed, standing,
};
use crate::node::CurvePoint;
use crate::offload_rounding::products_keep_order;
use crate::rounding::{
    apart, blur, factors_may_be_swapped, means_round_closely, sums_round_closely,
    terms_may_be_swapped, the_nearest_is_near, LENGTH,
};
use crate::scalar::{
    doubles_round_to_themselves, lemma_difference_within, lemma_fraction_within,
    lemma_magnitude_order, lemma_nearer, lemma_product_within, lemma_sum_within, magnitude_of,
    nearest, order_is_by_value, rounding_keeps_order, sums_keep_order, whole, whole_is_exact, Scalar,
    EPSILON_BITS, HIDDEN, INFINITY_BITS,
};
use vstd::arithmetic::power2::{
    lemma2_to64, lemma2_to64_rest, lemma_pow2_adds, lemma_pow2_pos, lemma_pow2_strictly_increases,
    pow2,
};
use vstd::prelude::*;

verus! {

// --- Points in order -----------------------------------------------------------------------------

/// Whether every point has a finite position.
pub open spec fn anchored(points: Seq<CurvePoint>) -> bool {
    forall|k: int| 0 <= k < points.len() ==> (#[trigger] points[k]).x.finite()
}

/// Whether points run from left to right.
spec fn ascending(points: Seq<CurvePoint>) -> bool {
    forall|a: int, b: int|
        0 <= a <= b < points.len() ==> (#[trigger] points[a]).x.value() <= (
        #[trigger] points[b]).x.value()
}

/// Where a point is put among points in order.
proof fn lemma_insertion(points: Seq<CurvePoint>, p: CurvePoint) -> (q: int)
    requires
        anchored(points),
        ascending(points),
        p.x.finite(),
    ensures
        0 <= q <= points.len(),
        placed(points, p) == points.insert(q, p),
        forall|k: int| q <= k < points.len() ==> p.x.value() < (#[trigger] points[k]).x.value(),
        forall|k: int| 0 <= k < q ==> (#[trigger] points[k]).x.value() <= p.x.value(),
    decreases points.len(),
{
    if points.len() == 0 {
        assert(points.push(p) =~= points.insert(0, p));
        0
    } else {
        let last = points.len() - 1;
        order_is_by_value(p.x, points[last].x);
        if p.x.below(points.last().x) {
            let rest = points.drop_last();
            assert forall|a: int, b: int| 0 <= a <= b < rest.len() implies (
            #[trigger] rest[a]).x.value() <= (#[trigger] rest[b]).x.value() by {
                assert(rest[a] == points[a] && rest[b] == points[b]);
            }
            let q = lemma_insertion(rest, p);
            assert(rest.insert(q, p).push(points.last()) =~= points.insert(q, p));
            assert forall|k: int| q <= k < points.len() implies p.x.value() < (
            #[trigger] points[k]).x.value() by {
                if k < rest.len() {
                    assert(rest[k] == points[k]);
                }
            }
            assert forall|k: int| 0 <= k < q implies (#[trigger] points[k]).x.value()
                <= p.x.value() by {
                assert(rest[k] == points[k]);
            }
            q
        } else {
            assert(points.push(p) =~= points.insert(points.len() as int, p));
            points.len() as int
        }
    }
}

/// What putting points in order comes to, one point at a time.
proof fn lemma_order(points: Seq<CurvePoint>)
    requires
        anchored(points),
    ensures
        ascending(left_to_right(points)),
        anchored(left_to_right(points)),
        left_to_right(points).len() == points.len(),
        forall|m: int|
            0 <= m < points.len() ==> exists|k: int|
                0 <= k < points.len() && #[trigger] points[k] == #[trigger] left_to_right(
                    points,
                )[m],
    decreases points.len(),
{
    if points.len() > 0 {
        let n = points.len() - 1;
        let rest = points.drop_last();
        let p = points[n];
        assert forall|k: int| 0 <= k < rest.len() implies (#[trigger] rest[k]).x.finite() by {
            assert(rest[k] == points[k]);
        }
        lemma_order(rest);
        let before = left_to_right(rest);
        let q = lemma_insertion(before, p);
        let after = left_to_right(points);
        assert(after == before.insert(q, p));
        assert forall|m: int| 0 <= m < points.len() implies exists|k: int|
            0 <= k < points.len() && #[trigger] points[k] == #[trigger] after[m] by {
            if m == q {
                assert(points[n] == after[m]);
            } else {
                let o = if m < q {
                    m
                } else {
                    m - 1
                };
                assert(after[m] == before[o]);
                let k = choose|k: int| 0 <= k < rest.len() && #[trigger] rest[k] == before[o];
                assert(points[k] == rest[k]);
                assert(points[k] == after[m]);
            }
        }
        assert forall|m: int| 0 <= m < after.len() implies (#[trigger] after[m]).x.finite() by {
            let k = choose|k: int| 0 <= k < points.len() && #[trigger] points[k] == after[m];
        }
        assert forall|a: int, b: int| 0 <= a <= b < after.len() implies (
        #[trigger] after[a]).x.value() <= (#[trigger] after[b]).x.value() by {
            let oa = if a < q {
                a
            } else {
                a - 1
            };
            let ob = if b < q {
                b
            } else {
                b - 1
            };
            if a != q {
                assert(after[a] == before[oa]);
            }
            if b != q {
                assert(after[b] == before[ob]);
            }
        }
    }
}

/// The last of the points that come nearest to a reading from the left.
pub open spec fn left_of(points: Seq<CurvePoint>, i: int, x: Scalar) -> bool {
    &&& 0 <= i < points.len()
    &&& points[i].x.value() < x.value()
    &&& forall|k: int|
        0 <= k < points.len() ==> {
            ||| (#[trigger] points[k]).x.value() >= x.value()
            ||| points[k].x.value() < points[i].x.value()
            ||| points[k].x.value() == points[i].x.value() && k <= i
        }
}

/// The first of the points that come nearest to a reading from the right, or stand at it.
pub open spec fn right_of(points: Seq<CurvePoint>, j: int, x: Scalar) -> bool {
    &&& 0 <= j < points.len()
    &&& points[j].x.value() >= x.value()
    &&& forall|k: int|
        0 <= k < points.len() ==> {
            ||| (#[trigger] points[k]).x.value() < x.value()
            ||| points[k].x.value() > points[j].x.value()
            ||| points[k].x.value() == points[j].x.value() && k >= j
        }
}

/// Whether no other point stands where a point stands.
pub open spec fn alone(points: Seq<CurvePoint>, j: int) -> bool {
    forall|k: int|
        0 <= k < points.len() && k != j ==> (#[trigger] points[k]).x.value() != points[j].x.value()
}

proof fn lemma_left(points: Seq<CurvePoint>, i: int, x: Scalar) -> (m: int)
    requires
        anchored(points),
        left_of(points, i, x),
    ensures
        0 <= m < points.len(),
        left_to_right(points).len() == points.len(),
        left_to_right(points)[m] == points[i],
        forall|l: int|
            m < l < points.len() ==> (#[trigger] left_to_right(points)[l]).x.value() >= x.value(),
    decreases points.len(),
{
    let n = points.len() - 1;
    let rest = points.drop_last();
    let p = points[n];
    assert forall|k: int| 0 <= k < rest.len() implies (#[trigger] rest[k]).x.finite() by {
        assert(rest[k] == points[k]);
    }
    lemma_order(rest);
    lemma_order(points);
    let before = left_to_right(rest);
    let q = lemma_insertion(before, p);
    let after = left_to_right(points);
    assert(after == before.insert(q, p));
    if i == n {
        assert forall|l: int| q < l < points.len() implies (#[trigger] after[l]).x.value()
            >= x.value() by {
            assert(after[l] == before[l - 1]);
            let k = choose|k: int| 0 <= k < rest.len() && #[trigger] rest[k] == before[l - 1];
            assert(points[k] == rest[k]);
        }
        q
    } else {
        assert(left_of(rest, i, x)) by {
            assert(rest[i] == points[i]);
            assert forall|k: int| 0 <= k < rest.len() implies {
                ||| (#[trigger] rest[k]).x.value() >= x.value()
                ||| rest[k].x.value() < rest[i].x.value()
                ||| rest[k].x.value() == rest[i].x.value() && k <= i
            } by {
                assert(rest[k] == points[k]);
            }
        }
        let m = lemma_left(rest, i, x);
        assert(points[n].x.value() >= x.value() || points[n].x.value() < points[i].x.value());
        if p.x.value() >= x.value() {
            assert(q > m) by {
                if q <= m {
                    assert(p.x.value() < before[m].x.value());
                }
            }
            assert(after[m] == before[m]);
            assert forall|l: int| m < l < points.len() implies (#[trigger] after[l]).x.value()
                >= x.value() by {
                if l < q {
                    assert(after[l] == before[l]);
                } else if l > q {
                    assert(after[l] == before[l - 1]);
                }
            }
            m
        } else {
            assert(q <= m) by {
                if q > m {
                    assert(before[m].x.value() <= p.x.value());
                }
            }
            assert(after[m + 1] == before[m]);
            assert forall|l: int| m + 1 < l < points.len() implies (#[trigger] after[l]).x.value()
                >= x.value() by {
                assert(after[l] == before[l - 1]);
            }
            m + 1
        }
    }
}

proof fn lemma_right(points: Seq<CurvePoint>, j: int, x: Scalar) -> (m: int)
    requires
        anchored(points),
        right_of(points, j, x),
    ensures
        0 <= m < points.len(),
        left_to_right(points).len() == points.len(),
        left_to_right(points)[m] == points[j],
        forall|l: int|
            0 <= l < m ==> (#[trigger] left_to_right(points)[l]).x.value() < x.value(),
        alone(points, j) ==> alone(left_to_right(points), m),
    decreases points.len(),
{
    let n = points.len() - 1;
    let rest = points.drop_last();
    let p = points[n];
    assert forall|k: int| 0 <= k < rest.len() implies (#[trigger] rest[k]).x.finite() by {
        assert(rest[k] == points[k]);
    }
    lemma_order(rest);
    lemma_order(points);
    let before = left_to_right(rest);
    let q = lemma_insertion(before, p);
    let after = left_to_right(points);
    assert(after == before.insert(q, p));
    if j == n {
        assert forall|l: int| 0 <= l < q implies (#[trigger] after[l]).x.value() < x.value() by {
            assert(after[l] == before[l]);
            let k = choose|k: int| 0 <= k < rest.len() && #[trigger] rest[k] == before[l];
            assert(points[k] == rest[k]);
        }
        if alone(points, j) {
            assert forall|l: int| 0 <= l < after.len() && l != q implies (
            #[trigger] after[l]).x.value() != after[q].x.value() by {
                let o = if l < q {
                    l
                } else {
                    l - 1
                };
                assert(after[l] == before[o]);
                let k = choose|k: int| 0 <= k < rest.len() && #[trigger] rest[k] == before[o];
                assert(points[k] == rest[k]);
            }
        }
        q
    } else {
        assert(right_of(rest, j, x)) by {
            assert(rest[j] == points[j]);
            assert forall|k: int| 0 <= k < rest.len() implies {
                ||| (#[trigger] rest[k]).x.value() < x.value()
                ||| rest[k].x.value() > rest[j].x.value()
                ||| rest[k].x.value() == rest[j].x.value() && k >= j
            } by {
                assert(rest[k] == points[k]);
            }
        }
        let m = lemma_right(rest, j, x);
        if alone(points, j) {
            assert(alone(rest, j)) by {
                assert forall|k: int| 0 <= k < rest.len() && k != j implies (
                #[trigger] rest[k]).x.value() != rest[j].x.value() by {
                    assert(rest[k] == points[k]);
                }
            }
            assert(points[n].x.value() != points[j].x.value());
        }
        let at = if p.x.value() < x.value() {
            assert(q <= m) by {
                if q > m {
                    assert(before[m].x.value() <= p.x.value());
                }
            }
            assert(after[m + 1] == before[m]);
            m + 1
        } else {
            assert(p.x.value() >= points[j].x.value());
            assert(q > m) by {
                if q <= m {
                    assert(p.x.value() < before[m].x.value());
                }
            }
            assert(after[m] == before[m]);
            m
        };
        assert forall|l: int| 0 <= l < at implies (#[trigger] after[l]).x.value() < x.value() by {
            if l < q {
                assert(after[l] == before[l]);
            } else if l > q {
                assert(after[l] == before[l - 1]);
            }
        }
        if alone(points, j) {
            assert forall|l: int| 0 <= l < after.len() && l != at implies (
            #[trigger] after[l]).x.value() != after[at].x.value() by {
                if l < q {
                    assert(after[l] == before[l]);
                } else if l > q {
                    assert(after[l] == before[l - 1]);
                }
            }
        }
        at
    }
}

// --- Standing points -----------------------------------------------------------------------------

proof fn lemma_standing(points: Seq<CurvePoint>, x: Scalar, n: nat)
    requires
        n <= points.len(),
        anchored(points),
        x.finite(),
    ensures
        standing(points, x, n).len() <= n,
        forall|y: Scalar| #[trigger]
            standing(points, x, n).contains(y) <==> exists|k: int|
                0 <= k < n && (#[trigger] points[k]).x.value() == x.value() && points[k].y == y,
    decreases n,
{
    if n > 0 {
        let m = (n - 1) as nat;
        lemma_standing(points, x, m);
        let before = standing(points, x, m);
        let after = standing(points, x, n);
        let p = points[n - 1];
        order_is_by_value(p.x, x);
        assert forall|y: Scalar| #[trigger] after.contains(y) <==> exists|k: int|
            0 <= k < n && (#[trigger] points[k]).x.value() == x.value() && points[k].y == y by {
            if after.contains(y) {
                let o = after.index_of(y);
                if o < before.len() {
                    assert(before[o] == y);
                    assert(before.contains(y));
                    let k = choose|k: int|
                        0 <= k < m && (#[trigger] points[k]).x.value() == x.value() && points[k].y
                            == y;
                    assert(points[k].y == y);
                } else {
                    assert(points[n - 1].y == y);
                }
            }
            if exists|k: int|
                0 <= k < n && (#[trigger] points[k]).x.value() == x.value() && points[k].y == y {
                let k = choose|k: int|
                    0 <= k < n && (#[trigger] points[k]).x.value() == x.value() && points[k].y == y;
                if k < m {
                    assert(before.contains(y));
                    let o = before.index_of(y);
                    assert(after[o] == y);
                } else {
                    assert(after[before.len() as int] == y);
                }
            }
        }
    }
}

proof fn lemma_standing_few(points: Seq<CurvePoint>, x: Scalar, n: nat, m: int)
    requires
        n <= points.len(),
        anchored(points),
        x.finite(),
        forall|l: int|
            0 <= l < points.len() && l != m ==> (#[trigger] points[l]).x.value() != x.value(),
    ensures
        standing(points, x, n).len() <= if 0 <= m < n {
            1int
        } else {
            0
        },
    decreases n,
{
    if n > 0 {
        lemma_standing_few(points, x, (n - 1) as nat, m);
        order_is_by_value(points[n - 1].x, x);
    }
}

proof fn lemma_standing_many(points: Seq<CurvePoint>, x: Scalar, n: nat, a: int, b: int)
    requires
        n <= points.len(),
        anchored(points),
        x.finite(),
        0 <= a < b < points.len(),
        points[a].x.value() == x.value(),
        points[b].x.value() == x.value(),
    ensures
        a < n ==> standing(points, x, n).len() > 0,
        b < n ==> standing(points, x, n).len() > 1,
    decreases n,
{
    if n > 0 {
        lemma_standing_many(points, x, (n - 1) as nat, a, b);
        order_is_by_value(points[n - 1].x, x);
    }
}

/// Two points that stand at one place stand there in order too.
proof fn lemma_two_stand(points: Seq<CurvePoint>, x: Scalar, a: int, b: int) -> (at: (int, int))
    requires
        anchored(points),
        0 <= a < b < points.len(),
        points[a].x.value() == x.value(),
        points[b].x.value() == x.value(),
    ensures
        left_to_right(points).len() == points.len(),
        0 <= at.0 < at.1 < points.len(),
        left_to_right(points)[at.0].x.value() == x.value(),
        left_to_right(points)[at.1].x.value() == x.value(),
    decreases points.len(),
{
    let n = points.len() - 1;
    let rest = points.drop_last();
    let p = points[n];
    assert forall|k: int| 0 <= k < rest.len() implies (#[trigger] rest[k]).x.finite() by {
        assert(rest[k] == points[k]);
    }
    lemma_order(rest);
    let before = left_to_right(rest);
    let q = lemma_insertion(before, p);
    let after = left_to_right(points);
    assert(after == before.insert(q, p));
    if b < n {
        assert(rest[a] == points[a] && rest[b] == points[b]);
        let (c, d) = lemma_two_stand(rest, x, a, b);
        let e = if c < q {
            c
        } else {
            c + 1
        };
        let f = if d < q {
            d
        } else {
            d + 1
        };
        assert(after[e] == before[c]);
        assert(after[f] == before[d]);
        (e, f)
    } else {
        assert(rest[a] == points[a]);
        let c = lemma_one_stands(rest, a);
        if c < q {
            assert(after[c] == before[c]);
            assert(after[q] == p);
            (c, q)
        } else {
            assert(after[c + 1] == before[c]);
            (q, c + 1)
        }
    }
}

/// Every stored point is among the points in order.
proof fn lemma_one_stands(points: Seq<CurvePoint>, a: int) -> (at: int)
    requires
        anchored(points),
        0 <= a < points.len(),
    ensures
        left_to_right(points).len() == points.len(),
        0 <= at < points.len(),
        left_to_right(points)[at] == points[a],
    decreases points.len(),
{
    let n = points.len() - 1;
    let rest = points.drop_last();
    let p = points[n];
    assert forall|k: int| 0 <= k < rest.len() implies (#[trigger] rest[k]).x.finite() by {
        assert(rest[k] == points[k]);
    }
    lemma_order(rest);
    let before = left_to_right(rest);
    let q = lemma_insertion(before, p);
    let after = left_to_right(points);
    assert(after == before.insert(q, p));
    if a == n {
        q
    } else {
        assert(rest[a] == points[a]);
        let c = lemma_one_stands(rest, a);
        if c < q {
            assert(after[c] == before[c]);
            c
        } else {
            assert(after[c + 1] == before[c]);
            c + 1
        }
    }
}

/// Where several points stand at a reading, a curve gives the height of one of them, and none of
/// them is higher.
pub proof fn a_step_gives_its_highest_point(points: Seq<CurvePoint>, x: Scalar, a: int, b: int)
    requires
        anchored(points),
        x.finite(),
        0 <= a < b < points.len(),
        points[a].x.value() == x.value(),
        points[b].x.value() == x.value(),
        forall|k: int| 0 <= k < points.len() ==> (#[trigger] points[k]).y.finite(),
    ensures
        exists|k: int|
            0 <= k < points.len() && (#[trigger] points[k]).x.value() == x.value() && points[k].y
                == interpolated(points, x),
        forall|k: int|
            0 <= k < points.len() && (#[trigger] points[k]).x.value() == x.value()
                ==> points[k].y.value() <= interpolated(points, x).value(),
{
    let sorted = left_to_right(points);
    lemma_order(points);
    let (c, d) = lemma_two_stand(points, x, a, b);
    lemma_standing_many(sorted, x, sorted.len(), c, d);
    lemma_standing(sorted, x, sorted.len());
    let here = standing(sorted, x, sorted.len());
    let y = interpolated(points, x);
    assert forall|o: int| 0 <= o < here.len() implies (#[trigger] here[o]).finite() by {
        assert(here.contains(here[o]));
        let m = choose|m: int|
            0 <= m < sorted.len() && (#[trigger] sorted[m]).x.value() == x.value() && sorted[m].y
                == here[o];
        let k = choose|k: int| 0 <= k < points.len() && #[trigger] points[k] == sorted[m];
    }
    maximum_is_the_hottest(here);
    assert(here.contains(y));
    let m = choose|m: int|
        0 <= m < sorted.len() && (#[trigger] sorted[m]).x.value() == x.value() && sorted[m].y == y;
    let k = choose|k: int| 0 <= k < points.len() && #[trigger] points[k] == sorted[m];
    assert(points[k].y == y);
    assert forall|k: int|
        0 <= k < points.len() && (#[trigger] points[k]).x.value() == x.value() implies points[k].y.value()
        <= y.value() by {
        let at = lemma_one_stands(points, k);
        assert(sorted[at].y == points[k].y);
        assert(here.contains(points[k].y));
        let o = here.index_of(points[k].y);
        assert(here[o].at_most(y));
        order_is_by_value(here[o], y);
    }
}

// --- Outside the points --------------------------------------------------------------------------

/// Left of all its points, and at the first where that stands alone, a curve gives the height of
/// the first.
pub proof fn a_curve_is_flat_on_the_left(points: Seq<CurvePoint>, x: Scalar, j: int)
    requires
        anchored(points),
        x.finite(),
        right_of(points, j, x),
        forall|k: int| 0 <= k < points.len() ==> x.value() <= (#[trigger] points[k]).x.value(),
        x.value() == points[j].x.value() ==> alone(points, j),
    ensures
        interpolated(points, x) == points[j].y,
{
    let sorted = left_to_right(points);
    lemma_order(points);
    let m = lemma_right(points, j, x);
    assert(m == 0) by {
        if m > 0 {
            let k = choose|k: int| 0 <= k < points.len() && #[trigger] points[k] == sorted[0];
            assert(sorted[0].x.value() < x.value());
        }
    }
    order_is_by_value(x, sorted[0].x);
    assert forall|l: int| 0 <= l < sorted.len() && l != 0 implies (#[trigger] sorted[l]).x.value()
        != x.value() by {
        assert(sorted[0].x.value() <= sorted[l].x.value());
        let k = choose|k: int| 0 <= k < points.len() && #[trigger] points[k] == sorted[l];
    }
    lemma_standing_few(sorted, x, sorted.len(), 0);
}

/// Right of all its points a curve gives the height of the last.
pub proof fn a_curve_is_flat_on_the_right(points: Seq<CurvePoint>, x: Scalar, i: int)
    requires
        anchored(points),
        x.finite(),
        left_of(points, i, x),
        forall|k: int| 0 <= k < points.len() ==> (#[trigger] points[k]).x.value() < x.value(),
    ensures
        interpolated(points, x) == points[i].y,
{
    let sorted = left_to_right(points);
    lemma_order(points);
    let m = lemma_left(points, i, x);
    let last = sorted.len() - 1;
    assert(m == last) by {
        if m < last {
            let k = choose|k: int| 0 <= k < points.len() && #[trigger] points[k] == sorted[last];
            assert(sorted[last].x.value() >= x.value());
        }
    }
    order_is_by_value(x, sorted[0].x);
    order_is_by_value(sorted[last].x, x);
    assert forall|l: int| 0 <= l < sorted.len() && l != -1 implies (
    #[trigger] sorted[l]).x.value() != x.value() by {
        let k = choose|k: int| 0 <= k < points.len() && #[trigger] points[k] == sorted[l];
    }
    lemma_standing_few(sorted, x, sorted.len(), -1);
    assert(sorted[0].x.value() <= sorted[last].x.value());
}

/// A curve without points, and a reading that is no number, give no number.
pub proof fn nothing_to_go_by_gives_no_number(points: Seq<CurvePoint>, x: Scalar)
    requires
        points.len() == 0 || !x.finite(),
    ensures
        interpolated(points, x).nan(),
{
}

// --- Between two points --------------------------------------------------------------------------

/// Whether a reading lies between two points that are next to each other, or at the right one
/// where that stands alone.
pub open spec fn amid(points: Seq<CurvePoint>, i: int, j: int, x: Scalar) -> bool {
    &&& left_of(points, i, x)
    &&& right_of(points, j, x)
    &&& x.value() == points[j].x.value() ==> alone(points, j)
}

proof fn lemma_on_segment(sorted: Seq<CurvePoint>, x: Scalar, i: int, m: int)
    requires
        anchored(sorted),
        ascending(sorted),
        x.finite(),
        0 <= i <= m,
        m + 1 < sorted.len(),
        sorted[m].x.value() < x.value() <= sorted[m + 1].x.value(),
    ensures
        on_segment(sorted, x, i) == between(sorted[m], sorted[m + 1], x),
    decreases m - i,
{
    order_is_by_value(sorted[i].x, x);
    order_is_by_value(x, sorted[i + 1].x);
    if i < m {
        assert(sorted[i + 1].x.value() <= sorted[m].x.value());
        lemma_on_segment(sorted, x, i + 1, m);
    }
}

proof fn lemma_amid(points: Seq<CurvePoint>, i: int, j: int, x: Scalar)
    requires
        anchored(points),
        x.finite(),
        amid(points, i, j, x),
    ensures
        interpolated(points, x) == between(points[i], points[j], x) || (x.value()
            == points[j].x.value() && interpolated(points, x) == points[j].y),
        x.value() < points[j].x.value() ==> interpolated(points, x) == between(
            points[i],
            points[j],
            x,
        ),
{
    let sorted = left_to_right(points);
    lemma_order(points);
    let m = lemma_left(points, i, x);
    let r = lemma_right(points, j, x);
    assert(r == m + 1) by {
        if r <= m {
            assert(sorted[r].x.value() <= sorted[m].x.value());
        } else if r > m + 1 {
            assert(sorted[m + 1].x.value() < x.value());
        }
    }
    let last = sorted.len() - 1;
    order_is_by_value(x, sorted[0].x);
    order_is_by_value(sorted[last].x, x);
    assert(sorted[0].x.value() <= sorted[m].x.value());
    assert(sorted[r].x.value() <= sorted[last].x.value());
    assert forall|l: int| 0 <= l < sorted.len() && l != r implies (#[trigger] sorted[l]).x.value()
        != x.value() by {
        if l < r {
            assert(sorted[l].x.value() <= sorted[m].x.value());
        } else {
            assert(sorted[r].x.value() <= sorted[l].x.value());
        }
    }
    lemma_standing_few(sorted, x, sorted.len(), r);
    lemma_on_segment(sorted, x, 0, m);
    if last > r {
        assert(alone(points, j) ==> sorted[last].x.value() != sorted[r].x.value());
    }
}

/// The largest size, in whole numbers, that a curve's positions and heights may have here.
pub const WIDE: u64 = 0x8_0000_0000_0000;

/// Whether a number is finite and no further from zero than `2^51`.
pub open spec fn moderate(v: Scalar) -> bool {
    v.finite() && v.magnitude() <= WIDE * pow2(1074)
}

/// Whether two points are far enough apart to have a line between them: no closer than `2^-52`.
pub open spec fn stretched(a: CurvePoint, b: CurvePoint) -> bool {
    b.x.value() - a.x.value() >= pow2(1022)
}

/// What the smallest distance between two points stands for.
pub proof fn lemma_epsilon()
    ensures
        (Scalar { bits: EPSILON_BITS }).finite(),
        (Scalar { bits: EPSILON_BITS }).value() == pow2(1022),
{
    let e = Scalar { bits: EPSILON_BITS };
    lemma2_to64();
    lemma2_to64_rest();
    assert(e.pattern() % (HIDDEN as int) == 0);
    assert(e.pattern() / (HIDDEN as int) == 971);
    lemma_pow2_adds(52, 970);
}

/// The parts that a line between two points is made of.
pub proof fn lemma_pieces(a: CurvePoint, b: CurvePoint, x: Scalar)
    requires
        moderate(a.x),
        moderate(b.x),
        moderate(a.y),
        moderate(b.y),
        stretched(a, b),
        x.finite(),
        a.x.value() < x.value() <= b.x.value(),
    ensures
        ({
            let span = b.x.minus(a.x);
            let way = x.minus(a.x);
            let t = way.over(span);
            let rise = b.y.minus(a.y);
            &&& span.finite() && way.finite() && t.finite() && rise.finite()
            &&& span.value() > 0 && way.value() >= 0
            &&& way.value() <= span.value()
            &&& 0 <= t.value() <= pow2(1074)
            &&& rise.times(t).finite()
            &&& between(a, b, x) == a.y.plus(rise.times(t))
            &&& between(a, b, x).finite()
        }),
{
    reveal(Scalar::plus);
    reveal(Scalar::over);
    let span = b.x.minus(a.x);
    let way = x.minus(a.x);
    let t = way.over(span);
    let rise = b.y.minus(a.y);
    let epsilon = Scalar { bits: EPSILON_BITS };
    lemma_epsilon();
    lemma_pow2_pos(1074);
    lemma_pow2_pos(1022);
    assert(a.x.negated().value() == -a.x.value());
    let apart_by = b.x.value() - a.x.value();
    lemma_difference_within(b.x, a.x, WIDE as nat, WIDE as nat);
    rounding_keeps_order(pow2(1022), 1, apart_by as nat, 1);
    doubles_round_to_themselves(epsilon.pattern());
    assert(span.pattern() >= EPSILON_BITS);
    assert(!span.neg());
    assert(!span.absolute().below(epsilon));
    lemma_magnitude_order(0, span.pattern());
    order_is_by_value(a.x, x);
    order_is_by_value(x, b.x);
    lemma_nearer(a.x, x, b.x);
    assert(!way.neg());
    lemma_fraction_within(way, span);
    assert(!t.neg());
    lemma_difference_within(b.y, a.y, WIDE as nat, WIDE as nat);
    lemma_product_within(rise, t, (2 * WIDE) as nat);
    lemma_sum_within(a.y, rise.times(t), WIDE as nat, (2 * WIDE) as nat);
}

/// How far along a line a reading is, within rounding: ten parts in `2^53`.
proof fn lemma_along(a: CurvePoint, b: CurvePoint, x: Scalar)
    requires
        moderate(a.x),
        moderate(b.x),
        moderate(a.y),
        moderate(b.y),
        stretched(a, b),
        x.finite(),
        a.x.value() < x.value() <= b.x.value(),
    ensures
        ({
            let t = x.minus(a.x).over(b.x.minus(a.x)).value();
            let s = b.x.value() - a.x.value();
            let w = x.value() - a.x.value();
            LENGTH * apart(t * s, w * pow2(1074)) <= 10 * (s * pow2(1074))
        }),
{
    lemma_pieces(a, b, x);
    let unit = pow2(1074);
    lemma_pow2_pos(1074);
    let span = b.x.minus(a.x);
    let way = x.minus(a.x);
    let part = way.over(span);
    let t = part.value();
    let s = b.x.value() - a.x.value();
    let w = x.value() - a.x.value();
    let s1 = span.value();
    let w1 = way.value();
    assert(a.x.negated().value() == -a.x.value());
    sums_round_closely(b.x, a.x.negated(), s as nat);
    sums_round_closely(x, a.x.negated(), w as nat);
    assert(LENGTH * apart(s1, s) <= s + 2 * LENGTH) by {
        let d = s as nat / LENGTH as nat;
        assert(LENGTH as nat * d <= s) by (nonlinear_arith)
            requires
                d == s as nat / LENGTH as nat,
                s >= 0,
                LENGTH > 0,
        ;
    }
    assert(LENGTH * apart(w1, w) <= w + 2 * LENGTH) by {
        let d = w as nat / LENGTH as nat;
        assert(LENGTH as nat * d <= w) by (nonlinear_arith)
            requires
                d == w as nat / LENGTH as nat,
                w >= 0,
                LENGTH > 0,
        ;
    }
    lemma2_to64();
    lemma2_to64_rest();
    lemma_pow2_strictly_increases(53, 1022);
    lemma_pow2_strictly_increases(53, 1074);
    assert(s >= LENGTH && unit >= LENGTH);
    // The quotient, before it is rounded.
    let n = (way.magnitude() * unit) as nat;
    let d = span.magnitude();
    assert(nearest(n, d) < INFINITY_BITS && part.magnitude() == magnitude_of(
        nearest(n, d) as int,
    )) by {
        reveal(Scalar::over);
        assert(way.magnitude() * pow2(1074) == n);
    }
    the_nearest_is_near(n, d);
    assert(part.magnitude() == t);
    assert(n == w1 * unit);
    assert(d == s1);
    let off = apart(t * s1, w1 * unit);
    assert(LENGTH * off <= w1 * unit + LENGTH * s1);
    lemma_quotient(t, s, w, s1, w1, unit as int, off as int);
}

/// How errors in what is divided and in the quotient add up.
proof fn lemma_quotient(t: int, s: int, w: int, s1: int, w1: int, unit: int, off: int)
    requires
        0 <= t <= unit,
        0 <= w <= s,
        0 <= w1 <= s1,
        off == apart(t * s1, w1 * unit),
        LENGTH * off <= w1 * unit + LENGTH * s1,
        LENGTH * apart(s1, s) <= s + 2 * LENGTH,
        LENGTH * apart(w1, w) <= w + 2 * LENGTH,
        s >= LENGTH,
        unit >= LENGTH,
    ensures
        LENGTH * apart(t * s, w * unit) <= 10 * (s * unit),
{
    let l = LENGTH as int;
    let ds = apart(s1, s) as int;
    let dw = apart(w1, w) as int;
    // Every part is a multiple of the span times a unit, over the length of a double.
    assert(l * s1 <= 2 * (l * s)) by {
        assert(ds <= s) by (nonlinear_arith)
            requires
                l * ds <= s + 2 * l,
                s >= l,
                l >= 4,
        ;
        assert(s1 <= 2 * s);
        assert(l * s1 <= 2 * (l * s)) by (nonlinear_arith)
            requires
                s1 <= 2 * s,
                l > 0,
        ;
    }
    assert(w1 * unit <= 2 * (s * unit)) by (nonlinear_arith)
        requires
            w1 <= s1,
            l * s1 <= 2 * (l * s),
            l > 0,
            unit > 0,
    ;
    assert(l * s <= s * unit) by (nonlinear_arith)
        requires
            l <= unit,
            s >= 0,
    ;
    assert(l * unit <= s * unit) by (nonlinear_arith)
        requires
            l <= s,
            unit >= 0,
    ;
    assert(apart(t * s, t * s1) == t * ds) by (nonlinear_arith)
        requires
            ds == apart(s1, s),
            t >= 0,
    ;
    assert(apart(w * unit, w1 * unit) == dw * unit) by (nonlinear_arith)
        requires
            dw == apart(w1, w),
            unit >= 0,
    ;
    assert(l * (t * ds) <= s * unit + 2 * (l * unit)) by (nonlinear_arith)
        requires
            l * ds <= s + 2 * l,
            0 <= t <= unit,
            ds >= 0,
            l > 0,
            s >= 0,
    ;
    assert(l * (dw * unit) <= s * unit + 2 * (l * unit)) by (nonlinear_arith)
        requires
            l * dw <= w + 2 * l,
            w <= s,
            unit > 0,
    ;
    let all = apart(t * s, w * unit) as int;
    assert(all <= t * ds + off + dw * unit);
    assert(l * all <= l * (t * ds) + l * off + l * (dw * unit)) by (nonlinear_arith)
        requires
            all <= t * ds + off + dw * unit,
            l > 0,
    ;
}

/// How far a line may be from where it should be, per unit of the way across: 28 parts in `2^53`
/// of the larger height, and eight units.
pub open spec fn line_slack(size: nat) -> nat {
    28 * size + 8 * LENGTH as nat
}

/// How far a height is from the exact line between two points, over the whole way across, and
/// times the length of a double.
pub open spec fn off_line(a: CurvePoint, b: CurvePoint, x: Scalar, y: Scalar) -> int {
    let across = b.x.value() - a.x.value();
    let along = x.value() - a.x.value();
    LENGTH * apart(
        y.value() * across,
        a.y.value() * across + (b.y.value() - a.y.value()) * along,
    )
}

/// The line between two points, before it is part of a curve.
pub proof fn lemma_line(a: CurvePoint, b: CurvePoint, x: Scalar, size: nat)
    requires
        moderate(a.x),
        moderate(b.x),
        moderate(a.y),
        moderate(b.y),
        stretched(a, b),
        x.finite(),
        a.x.value() < x.value() <= b.x.value(),
        a.y.magnitude() <= size,
        b.y.magnitude() <= size,
    ensures
        between(a, b, x).finite(),
        off_line(a, b, x, between(a, b, x)) <= line_slack(size) * (b.x.value() - a.x.value()),
{
    lemma_pieces(a, b, x);
    lemma_along(a, b, x);
    let unit = pow2(1074) as int;
    lemma_pow2_pos(1074);
    let part = x.minus(a.x).over(b.x.minus(a.x));
    means_round_closely(a.y, b.y, part, size);
    let y = between(a, b, x).value();
    let t = part.value();
    let s = b.x.value() - a.x.value();
    let w = x.value() - a.x.value();
    let p = a.y.value();
    let q = b.y.value();
    let l = LENGTH as int;
    assert(l * blur(size) <= 8 * size + 8 * l) by {
        let d = 8 * size / LENGTH as nat;
        assert(LENGTH as nat * d <= 8 * size) by (nonlinear_arith)
            requires
                d == 8 * size / LENGTH as nat,
                LENGTH > 0,
        ;
    }
    lemma_combined(y, p, q, t, s, w, unit, blur(size) as int, size as int);
}

proof fn lemma_combined(
    y: int,
    p: int,
    q: int,
    t: int,
    s: int,
    w: int,
    unit: int,
    b: int,
    size: int,
)
    requires
        unit > 0,
        s > 0,
        apart(p, 0) <= size,
        apart(q, 0) <= size,
        apart(y * unit, p * (unit - t) + q * t) <= b * unit,
        LENGTH * b <= 8 * size + 8 * LENGTH,
        LENGTH * apart(t * s, w * unit) <= 10 * (s * unit),
    ensures
        LENGTH * apart(y * s, p * s + (q - p) * w) <= (28 * size + 8 * LENGTH) * s,
{
    let l = LENGTH as int;
    let r = q - p;
    let e = y * unit - (p * (unit - t) + q * t);
    let f = t * s - w * unit;
    let g = y * s - (p * s + r * w);
    let us = unit * s;
    let rt = r * t;
    assert(p * (unit - t) + q * t == p * unit + rt) by (nonlinear_arith)
        requires
            rt == r * t,
            r == q - p,
    ;
    assert(e == (y - p) * unit - rt) by (nonlinear_arith)
        requires
            e == y * unit - (p * unit + rt),
    ;
    assert(e * s == (y - p) * us - rt * s) by (nonlinear_arith)
        requires
            e == (y - p) * unit - rt,
            us == unit * s,
    ;
    assert(r * f == rt * s - (r * w) * unit) by (nonlinear_arith)
        requires
            f == t * s - w * unit,
            rt == r * t,
    ;
    assert(g * unit == (y - p) * us - (r * w) * unit) by (nonlinear_arith)
        requires
            g == y * s - (p * s + r * w),
            us == unit * s,
    ;
    assert(g * unit == e * s + r * f);
    let ea = apart(e, 0) as int;
    let fa = apart(f, 0) as int;
    let ra = apart(r, 0) as int;
    let ga = apart(g, 0) as int;
    assert(ra <= 2 * size);
    assert(ga * unit <= ea * s + ra * fa) by (nonlinear_arith)
        requires
            g * unit == e * s + r * f,
            ea == apart(e, 0),
            fa == apart(f, 0),
            ra == apart(r, 0),
            ga == apart(g, 0),
            s > 0,
            unit > 0,
    ;
    assert(ea <= b * unit);
    assert(l * (ea * s) <= (l * b) * (unit * s)) by (nonlinear_arith)
        requires
            ea <= b * unit,
            l > 0,
            s > 0,
    ;
    assert((l * b) * (unit * s) <= (8 * size + 8 * l) * (unit * s)) by (nonlinear_arith)
        requires
            l * b <= 8 * size + 8 * l,
            unit > 0,
            s > 0,
    ;
    assert(l * (ra * fa) <= (20 * size) * (unit * s)) by (nonlinear_arith)
        requires
            0 <= ra <= 2 * size,
            l * fa <= 10 * (s * unit),
            fa >= 0,
            l > 0,
    ;
    assert((l * ga) * unit <= ((28 * size + 8 * l) * s) * unit) by (nonlinear_arith)
        requires
            ga * unit <= ea * s + ra * fa,
            l * (ea * s) <= (8 * size + 8 * l) * (unit * s),
            l * (ra * fa) <= (20 * size) * (unit * s),
            l > 0,
    ;
    assert(l * ga <= (28 * size + 8 * l) * s) by (nonlinear_arith)
        requires
            (l * ga) * unit <= ((28 * size + 8 * l) * s) * unit,
            unit > 0,
    ;
}

/// Between two neighbouring points a curve is the straight line from one to the other, whatever
/// order the points were stored in: no further from it than the rounding of the operations that
/// lead there.
pub proof fn a_curve_is_the_line_between_its_points(
    points: Seq<CurvePoint>,
    x: Scalar,
    i: int,
    j: int,
    size: nat,
)
    requires
        anchored(points),
        x.finite(),
        amid(points, i, j, x),
        moderate(points[i].x),
        moderate(points[j].x),
        moderate(points[i].y),
        moderate(points[j].y),
        stretched(points[i], points[j]),
        points[i].y.magnitude() <= size,
        points[j].y.magnitude() <= size,
    ensures
        interpolated(points, x).finite(),
        off_line(points[i], points[j], x, interpolated(points, x)) <= line_slack(size) * (
        points[j].x.value() - points[i].x.value()),
{
    lemma_amid(points, i, j, x);
    let a = points[i];
    let b = points[j];
    lemma_line(a, b, x, size);
    let s = b.x.value() - a.x.value();
    if interpolated(points, x) != between(a, b, x) {
        assert(a.y.value() * s + (b.y.value() - a.y.value()) * s == b.y.value() * s)
            by (nonlinear_arith);
        assert(line_slack(size) * s >= 0) by (nonlinear_arith)
            requires
                s >= 0,
                line_slack(size) >= 0,
        ;
    }
}

/// Away from its ends by more than rounding can blur, a line lies strictly between the heights of
/// its points.
pub proof fn a_curve_leaves_one_height_for_the_other(
    points: Seq<CurvePoint>,
    x: Scalar,
    i: int,
    j: int,
    size: nat,
)
    requires
        anchored(points),
        x.finite(),
        amid(points, i, j, x),
        moderate(points[i].x),
        moderate(points[j].x),
        moderate(points[i].y),
        moderate(points[j].y),
        stretched(points[i], points[j]),
        points[i].y.magnitude() <= size,
        points[j].y.magnitude() <= size,
    ensures
        ({
            let a = points[i];
            let b = points[j];
            let y = interpolated(points, x).value();
            let slack = line_slack(size) * (b.x.value() - a.x.value());
            let rise = b.y.value() - a.y.value();
            &&& LENGTH * (rise * (x.value() - a.x.value())) > slack ==> y > a.y.value()
            &&& LENGTH * (rise * (b.x.value() - x.value())) > slack ==> y < b.y.value()
            &&& LENGTH * (-rise * (x.value() - a.x.value())) > slack ==> y < a.y.value()
            &&& LENGTH * (-rise * (b.x.value() - x.value())) > slack ==> y > b.y.value()
        }),
{
    a_curve_is_the_line_between_its_points(points, x, i, j, size);
    let a = points[i];
    let b = points[j];
    let y = interpolated(points, x).value();
    let s = b.x.value() - a.x.value();
    let w = x.value() - a.x.value();
    let p = a.y.value();
    let q = b.y.value();
    lemma_strict(y, p, q, s, w, line_slack(size) * s);
}

proof fn lemma_strict(y: int, p: int, q: int, s: int, w: int, slack: int)
    requires
        s > 0,
        0 < w <= s,
        LENGTH * apart(y * s, p * s + (q - p) * w) <= slack,
    ensures
        LENGTH * ((q - p) * w) > slack ==> y > p,
        LENGTH * ((q - p) * (s - w)) > slack ==> y < q,
        LENGTH * (-(q - p) * w) > slack ==> y < p,
        LENGTH * (-(q - p) * (s - w)) > slack ==> y > q,
{
    let l = LENGTH as int;
    let r = q - p;
    assert(q * s - r * (s - w) == p * s + r * w) by (nonlinear_arith)
        requires
            r == q - p,
    ;
    assert(-r * w == -(r * w)) by (nonlinear_arith);
    assert(-r * (s - w) == -(r * (s - w))) by (nonlinear_arith);
    if y <= p {
        assert(y * s <= p * s) by (nonlinear_arith)
            requires
                y <= p,
                s > 0,
        ;
    }
    if y >= q {
        assert(y * s >= q * s) by (nonlinear_arith)
            requires
                y >= q,
                s > 0,
        ;
    }
    if y >= p {
        assert(y * s >= p * s) by (nonlinear_arith)
            requires
                y >= p,
                s > 0,
        ;
    }
    if y <= q {
        assert(y * s <= q * s) by (nonlinear_arith)
            requires
                y <= q,
                s > 0,
        ;
    }
}

// --- Along a line --------------------------------------------------------------------------------

proof fn lemma_negated_product(a: Scalar, b: Scalar)
    requires
        a.finite(),
        b.finite(),
        a.times(b).finite(),
    ensures
        a.negated().times(b).value() == -a.times(b).value(),
        a.negated().times(b).finite(),
{
    reveal(Scalar::times);
}

proof fn lemma_over_order(a: Scalar, b: Scalar, span: Scalar)
    requires
        a.finite(),
        b.finite(),
        span.finite(),
        0 <= a.value() <= b.value(),
        !a.neg(),
        !b.neg(),
        span.value() > 0,
    ensures
        a.over(span).at_most(b.over(span)),
{
    reveal(Scalar::over);
    let unit = pow2(1074);
    lemma_pow2_pos(1074);
    let d = span.magnitude();
    let m = (a.magnitude() * unit) as nat;
    let n = (b.magnitude() * unit) as nat;
    assert(m * d <= n * d) by (nonlinear_arith)
        requires
            m == a.magnitude() * unit,
            n == b.magnitude() * unit,
            a.magnitude() <= b.magnitude(),
            unit > 0,
            d > 0,
    ;
    rounding_keeps_order(m, d, n, d);
}

proof fn lemma_between_order(a: CurvePoint, b: CurvePoint, x: Scalar, z: Scalar)
    requires
        moderate(a.x),
        moderate(b.x),
        moderate(a.y),
        moderate(b.y),
        stretched(a, b),
        x.finite(),
        z.finite(),
        a.x.value() < x.value() <= z.value() <= b.x.value(),
    ensures
        a.y.value() <= b.y.value() ==> between(a, b, x).value() <= between(a, b, z).value(),
        b.y.value() <= a.y.value() ==> between(a, b, z).value() <= between(a, b, x).value(),
{
    lemma_pieces(a, b, x);
    lemma_pieces(a, b, z);
    let span = b.x.minus(a.x);
    let way = x.minus(a.x);
    let far = z.minus(a.x);
    let t = way.over(span);
    let u = far.over(span);
    let rise = b.y.minus(a.y);
    lemma_pow2_pos(1074);
    whole_is_exact(0);
    assert(0 * pow2(1074) == 0);
    order_is_by_value(x, z);
    assert(a.x.negated().value() == -a.x.value());
    assert(a.y.negated().value() == -a.y.value());
    terms_may_be_swapped(x, a.x.negated());
    terms_may_be_swapped(z, a.x.negated());
    sums_keep_order(a.x.negated(), x, z);
    order_is_by_value(way, far);
    assert(!way.neg() && !far.neg()) by {
        reveal(Scalar::plus);
    }
    lemma_over_order(way, far, span);
    order_is_by_value(t, u);
    let zero = whole(0);
    let back = rise.negated();
    factors_may_be_swapped(rise, t);
    factors_may_be_swapped(rise, u);
    factors_may_be_swapped(back, t);
    factors_may_be_swapped(back, u);
    order_is_by_value(rise, zero);
    order_is_by_value(back, zero);
    order_is_by_value(zero, rise);
    order_is_by_value(rise.times(t), rise.times(u));
    order_is_by_value(rise.times(u), rise.times(t));
    order_is_by_value(between(a, b, x), between(a, b, z));
    order_is_by_value(between(a, b, z), between(a, b, x));
    assert(back.value() == -rise.value());
    if a.y.value() <= b.y.value() {
        assert(rise.value() >= 0) by {
            reveal(Scalar::plus);
        }
        products_keep_order(t, u, rise);
        sums_keep_order(a.y, rise.times(t), rise.times(u));
    }
    if b.y.value() <= a.y.value() {
        assert(rise.value() <= 0) by {
            reveal(Scalar::plus);
        }
        lemma_negated_product(rise, t);
        lemma_negated_product(rise, u);
        products_keep_order(t, u, back);
        order_is_by_value(back.times(t), back.times(u));
        sums_keep_order(a.y, rise.times(u), rise.times(t));
    }
}

/// Along the line between two points a curve never turns: towards a higher point it never falls,
/// and towards a lower one it never rises.
pub proof fn a_line_never_turns(points: Seq<CurvePoint>, x: Scalar, z: Scalar, i: int, j: int)
    requires
        anchored(points),
        x.finite(),
        z.finite(),
        amid(points, i, j, x),
        amid(points, i, j, z),
        x.value() <= z.value() < points[j].x.value(),
        moderate(points[i].x),
        moderate(points[j].x),
        moderate(points[i].y),
        moderate(points[j].y),
        stretched(points[i], points[j]),
    ensures
        points[i].y.value() <= points[j].y.value() ==> interpolated(points, x).value()
            <= interpolated(points, z).value(),
        points[j].y.value() <= points[i].y.value() ==> interpolated(points, z).value()
            <= interpolated(points, x).value(),
{
    lemma_amid(points, i, j, x);
    lemma_amid(points, i, j, z);
    lemma_between_order(points[i], points[j], x, z);
}

} // verus!
