//! Double-precision numbers, carried by their bit pattern.
//!
//! Every reading, parameter and duty in this library is an IEEE 754 binary64 number. A
//! [`Scalar`] is the 64-bit pattern of one, and the arithmetic on it is done here on
//! integers, so what a sum or a quotient is can be stated and proved: the exact result,
//! rounded to the nearest double, ties to the even one.
//!
//! Magnitudes are stated in units of `2^-1074`, the smallest positive double. In those
//! units every finite double is a whole number.
use vstd::arithmetic::div_mod::*;
use vstd::arithmetic::mul::*;
use vstd::arithmetic::power2::*;
use vstd::prelude::*;

verus! {

/// The bit that carries the sign.
pub const SIGN_BIT: u64 = 0x8000_0000_0000_0000;

/// The pattern of positive infinity; magnitudes above it are NaN.
pub const INFINITY_BITS: u64 = 0x7ff0_0000_0000_0000;

/// The pattern every operation here uses for "not a number".
pub const NAN_BITS: u64 = 0x7ff8_0000_0000_0000;

/// The weight of the implicit leading mantissa bit, `2^52`.
pub const HIDDEN: u64 = 0x0010_0000_0000_0000;

/// An IEEE 754 double, by its bit pattern.
#[derive(Debug, Clone, Copy)]
pub struct Scalar {
    pub bits: u64,
}

// --- What a pattern means ------------------------------------------------------------

/// The magnitude a sign-less pattern stands for, in units of `2^-1074`.
pub open spec fn magnitude_of(pattern: int) -> nat {
    if pattern < HIDDEN {
        pattern as nat
    } else {
        ((pattern % HIDDEN as int + HIDDEN) * pow2((pattern / HIDDEN as int - 1) as nat)) as nat
    }
}

/// `n / d` rounded to a whole number, ties to the even one.
pub open spec fn half_even(n: nat, d: nat) -> nat {
    let q = n / d;
    let r = n % d;
    if 2 * r > d || (2 * r == d && q % 2 == 1) {
        q + 1
    } else {
        q
    }
}

/// The exponent of the last mantissa bit a double near `n / d` has: the least `k` with
/// `n / d < 2^(53 + k)`.
pub open spec fn last_place(n: nat, d: nat) -> nat
    decreases n - d,
{
    if d == 0 || n < d * pow2(53) {
        0
    } else {
        if 2 * d <= n {
            1 + last_place(n, 2 * d)
        } else {
            0
        }
    }
}

/// The sign-less pattern of the double nearest to `n / d` (in units of `2^-1074`).
///
/// Beyond the largest finite double that is infinity.
pub open spec fn nearest(n: nat, d: nat) -> nat {
    let k = last_place(n, d);
    let pattern = half_even(n, d * pow2(k)) + k * HIDDEN;
    if pattern < INFINITY_BITS {
        pattern as nat
    } else {
        INFINITY_BITS as nat
    }
}

/// A pattern with its sign.
pub open spec fn signed(negative: bool, pattern: nat) -> Scalar {
    Scalar {
        bits: if negative {
            (pattern + SIGN_BIT) as u64
        } else {
            pattern as u64
        },
    }
}

/// Not a number.
pub open spec fn nan() -> Scalar {
    Scalar { bits: NAN_BITS }
}

impl Scalar {
    /// Whether the sign bit is set.
    pub open spec fn neg(self) -> bool {
        self.bits >= SIGN_BIT
    }

    /// The pattern without its sign.
    pub open spec fn pattern(self) -> int {
        if self.bits >= SIGN_BIT {
            self.bits - SIGN_BIT
        } else {
            self.bits as int
        }
    }

    /// Whether this is not a number.
    pub open spec fn nan(self) -> bool {
        self.pattern() > INFINITY_BITS
    }

    /// Whether this is a number, and not an infinite one.
    pub open spec fn finite(self) -> bool {
        self.pattern() < INFINITY_BITS
    }

    /// Whether this is positive or negative infinity.
    pub open spec fn infinite(self) -> bool {
        self.pattern() == INFINITY_BITS
    }

    /// Whether this is positive or negative zero.
    pub open spec fn zero(self) -> bool {
        self.pattern() == 0
    }

    /// The distance from zero of a finite double, in units of `2^-1074`.
    pub open spec fn magnitude(self) -> nat {
        magnitude_of(self.pattern())
    }

    /// What a finite double is, in units of `2^-1074`.
    pub open spec fn value(self) -> int {
        if self.neg() {
            -(self.magnitude() as int)
        } else {
            self.magnitude() as int
        }
    }

    /// Where a double that is a number stands among the others; both zeros stand at 0.
    pub open spec fn rank(self) -> int {
        if self.neg() {
            -self.pattern()
        } else {
            self.pattern()
        }
    }

    /// `self < other`: false as soon as one side is not a number.
    pub open spec fn below(self, other: Scalar) -> bool {
        !self.nan() && !other.nan() && self.rank() < other.rank()
    }

    /// `self <= other`: false as soon as one side is not a number.
    pub open spec fn at_most(self, other: Scalar) -> bool {
        !self.nan() && !other.nan() && self.rank() <= other.rank()
    }

    /// `self == other`: zeros are equal, and nothing equals a NaN.
    pub open spec fn equals(self, other: Scalar) -> bool {
        !self.nan() && !other.nan() && self.rank() == other.rank()
    }

    /// `-self`.
    pub open spec fn negated(self) -> Scalar {
        if self.neg() {
            Scalar { bits: (self.bits - SIGN_BIT) as u64 }
        } else {
            Scalar { bits: (self.bits + SIGN_BIT) as u64 }
        }
    }

    /// `self` without its sign.
    pub open spec fn absolute(self) -> Scalar {
        Scalar { bits: self.pattern() as u64 }
    }

    /// `self + other`.
    #[verifier::opaque]
    pub open spec fn plus(self, other: Scalar) -> Scalar {
        if self.nan() || other.nan() || (self.infinite() && other.infinite() && self.neg()
            != other.neg()) {
            nan()
        } else if self.infinite() {
            self
        } else if other.infinite() {
            other
        } else {
            let sum = self.value() + other.value();
            if sum == 0 {
                signed(self.neg() && other.neg(), 0)
            } else if sum < 0 {
                signed(true, nearest((-sum) as nat, 1))
            } else {
                signed(false, nearest(sum as nat, 1))
            }
        }
    }

    /// `self - other`.
    pub open spec fn minus(self, other: Scalar) -> Scalar {
        self.plus(other.negated())
    }

    /// `self * other`.
    #[verifier::opaque]
    pub open spec fn times(self, other: Scalar) -> Scalar {
        let negative = self.neg() != other.neg();
        if self.nan() || other.nan() || (self.infinite() && other.zero()) || (self.zero()
            && other.infinite()) {
            nan()
        } else if self.infinite() || other.infinite() {
            signed(negative, INFINITY_BITS as nat)
        } else {
            signed(negative, nearest(self.magnitude() * other.magnitude(), pow2(1074)))
        }
    }

    /// `self / other`.
    #[verifier::opaque]
    pub open spec fn over(self, other: Scalar) -> Scalar {
        let negative = self.neg() != other.neg();
        if self.nan() || other.nan() || (self.infinite() && other.infinite()) || (self.zero()
            && other.zero()) {
            nan()
        } else if self.infinite() || other.zero() {
            signed(negative, INFINITY_BITS as nat)
        } else if other.infinite() {
            signed(negative, 0)
        } else {
            signed(negative, nearest(self.magnitude() * pow2(1074), other.magnitude()))
        }
    }

    /// The larger of two numbers; a NaN loses to a number.
    pub open spec fn larger(self, other: Scalar) -> Scalar {
        if self.nan() || self.below(other) {
            other
        } else {
            self
        }
    }

    /// The smaller of two numbers; a NaN loses to a number.
    pub open spec fn smaller(self, other: Scalar) -> Scalar {
        if self.nan() || other.below(self) {
            other
        } else {
            self
        }
    }

    /// `self` confined to `low..=high`. A NaN stays a NaN.
    pub open spec fn confined(self, low: Scalar, high: Scalar) -> Scalar {
        if self.below(low) {
            low
        } else if high.below(self) {
            high
        } else {
            self
        }
    }
}

/// The pattern of `2^52`: from there on doubles are whole numbers.
pub const WHOLE_BITS: u64 = 0x4330_0000_0000_0000;

impl Scalar {
    /// The nearest whole number, halves away from zero.
    #[verifier::opaque]
    pub open spec fn rounded(self) -> Scalar {
        if self.pattern() >= WHOLE_BITS {
            self
        } else {
            let unit = pow2(1074);
            let n = (2 * self.magnitude() + unit) / (2 * unit);
            signed(self.neg(), nearest(n * unit, 1))
        }
    }

    /// The total order of patterns: by rank, and negative zero before positive zero.
    pub open spec fn precedes(self, other: Scalar) -> bool {
        self.rank() < other.rank() || (self.rank() == other.rank() && self.neg() && !other.neg())
    }
}

/// `2^-52`, the distance from one to the next double.
pub const EPSILON_BITS: u64 = 0x3cb0_0000_0000_0000;

// --- Facts about rounding ------------------------------------------------------------

pub proof fn lemma_div_unique(n: int, d: int, q: int)
    by (nonlinear_arith)
    requires
        d > 0,
        q * d <= n < (q + 1) * d,
    ensures
        n / d == q,
        n % d == n - q * d,
{
}

/// Rounding depends on the quotient alone.
pub proof fn lemma_half_even_ratio(n1: nat, d1: nat, n2: nat, d2: nat)
    requires
        d1 > 0,
        d2 > 0,
        n1 * d2 == n2 * d1,
    ensures
        half_even(n1, d1) == half_even(n2, d2),
{
    let q = n1 / d1;
    let r1 = n1 % d1;
    lemma_fundamental_div_mod(n1 as int, d1 as int);
    assert(q * d2 <= n2 < (q + 1) * d2 && (n2 - q * d2) * d1 == r1 * d2) by (nonlinear_arith)
        requires
            d1 > 0,
            d2 > 0,
            n1 * d2 == n2 * d1,
            n1 == d1 * q + r1,
            0 <= r1 < d1,
    ;
    lemma_div_unique(n2 as int, d2 as int, q as int);
    let r2 = n2 % d2;
    assert((2 * r1 > d1) == (2 * r2 > d2) && (2 * r1 == d1) == (2 * r2 == d2)) by (nonlinear_arith)
        requires
            d1 > 0,
            d2 > 0,
            r2 * d1 == r1 * d2,
    ;
}

/// The last place is where its two bounds put it.
pub proof fn lemma_last_place(n: nat, d: nat, k: nat)
    requires
        d > 0,
        n < d * pow2(53 + k),
        k == 0 || n >= d * pow2((52 + k) as nat),
    ensures
        last_place(n, d) == k,
    decreases k,
{
    lemma2_to64();
    lemma2_to64_rest();
    if k > 0 {
        if k > 1 {
            lemma_pow2_strictly_increases(53, (52 + k) as nat);
        }
        assert(n >= d * pow2(53)) by (nonlinear_arith)
            requires
                n >= d * pow2((52 + k) as nat),
                pow2(53) <= pow2((52 + k) as nat),
                d > 0,
        ;
        assert(2 * d <= n) by (nonlinear_arith)
            requires
                n >= d * pow2(53),
                pow2(53) >= 2,
                d > 0,
        ;
        lemma_pow2_unfold((53 + k) as nat);
        lemma_pow2_unfold((52 + k) as nat);
        assert((2 * d) * pow2((52 + k) as nat) == d * pow2((53 + k) as nat)) by (nonlinear_arith)
            requires
                pow2((53 + k) as nat) == 2 * pow2((52 + k) as nat),
        ;
        assert((2 * d) * pow2((51 + k) as nat) == d * pow2((52 + k) as nat)) by (nonlinear_arith)
            requires
                pow2((52 + k) as nat) == 2 * pow2((51 + k) as nat),
        ;
        lemma_last_place(n, 2 * d, (k - 1) as nat);
    }
}

// --- Integer helpers -----------------------------------------------------------------

/// `2^k`.
fn power_of_two(k: u32) -> (r: u128)
    requires
        k < 127,
    ensures
        r == pow2(k as nat),
        0 < r,
        r <= pow2(126),
{
    let mut r: u128 = 1;
    let mut i: u32 = 0;
    proof {
        lemma_pow2(0);
        lemma2_to64();
    }
    while i < k
        invariant
            i <= k < 127,
            r == pow2(i as nat),
        decreases k - i,
    {
        proof {
            lemma_pow2_unfold((i + 1) as nat);
            assert(pow2(126) == 0x4000_0000_0000_0000_0000_0000_0000_0000) by {
                lemma_pow2_adds(63, 63);
                lemma2_to64();
                lemma2_to64_rest();
            }
            if i + 1 < 126 {
                lemma_pow2_strictly_increases((i + 1) as nat, 126);
            }
        }
        r = r * 2;
        i = i + 1;
    }
    proof {
        lemma_pow2_pos(k as nat);
        if k < 126 {
            lemma_pow2_strictly_increases(k as nat, 126);
        }
    }
    r
}

/// How many bits a positive number takes.
fn bit_length(p: u128) -> (l: u32)
    requires
        0 < p < pow2(126),
    ensures
        1 <= l <= 126,
        pow2((l - 1) as nat) <= p < pow2(l as nat),
{
    let mut l: u32 = 1;
    let mut bound: u128 = 2;
    proof {
        lemma2_to64();
        lemma2_to64_rest();
    }
    while bound <= p
        invariant
            1 <= l <= 126,
            p < pow2(126),
            bound == pow2(l as nat),
            pow2((l - 1) as nat) <= p,
        decreases 126 - l,
    {
        proof {
            assert(l < 126);
            lemma_pow2_unfold((l + 1) as nat);
            assert(pow2(126) == 0x4000_0000_0000_0000_0000_0000_0000_0000) by {
                lemma_pow2_adds(63, 63);
                lemma2_to64();
                lemma2_to64_rest();
            }
        }
        bound = bound * 2;
        l = l + 1;
    }
    l
}

/// Multiplying both sides by a positive factor cancels.
proof fn lemma_cancel(a: int, b: int, c: int)
    by (nonlinear_arith)
    requires
        c > 0,
    ensures
        a * c < b * c <==> a < b,
        a * c <= b * c <==> a <= b,
        a * c == b * c <==> a == b,
{
}

/// Where a truncated quotient `p` of `n / d * 2^-s` puts the last place.
proof fn lemma_scale(n: nat, d: nat, up: nat, down: nat, p: nat, l: nat, k: nat)
    requires
        d > 0,
        1 <= l,
        pow2((l - 1) as nat) <= p < pow2(l),
        p == (n * pow2(down)) / (d * pow2(up)),
        53 + k >= l + up - down,
        k == 0 || 53 + k == l + up - down,
    ensures
        last_place(n, d) == k,
{
    let a = n * pow2(down);
    let b = d * pow2(up);
    lemma_pow2_pos(up);
    lemma_pow2_pos(down);
    lemma_mul_strictly_positive(d as int, pow2(up) as int);
    lemma_fundamental_div_mod(a as int, b as int);
    let e = (53 + k + down) as nat;
    assert(a < b * pow2(l)) by (nonlinear_arith)
        requires
            a == b * p + a % b,
            a % b < b,
            p + 1 <= pow2(l),
            b > 0,
    ;
    lemma_pow2_adds(up, l);
    lemma_mul_is_associative(d as int, pow2(up) as int, pow2(l) as int);
    if up + l < e {
        lemma_pow2_strictly_increases(up + l, e);
    }
    lemma_mul_inequality(pow2(up + l) as int, pow2(e) as int, d as int);
    lemma_mul_is_commutative(d as int, pow2(up + l) as int);
    lemma_mul_is_commutative(d as int, pow2(e) as int);
    lemma_pow2_adds(53 + k, down);
    lemma_mul_is_associative(d as int, pow2(53 + k) as int, pow2(down) as int);
    lemma_cancel(n as int, (d * pow2(53 + k)) as int, pow2(down) as int);
    if k > 0 {
        let lo = (l - 1) as nat;
        assert(a >= b * pow2(lo)) by (nonlinear_arith)
            requires
                a == b * p + a % b,
                a % b >= 0,
                p >= pow2(lo),
                b > 0,
        ;
        lemma_pow2_adds(up, lo);
        lemma_mul_is_associative(d as int, pow2(up) as int, pow2(lo) as int);
        lemma_pow2_adds((52 + k) as nat, down);
        lemma_mul_is_associative(d as int, pow2((52 + k) as nat) as int, pow2(down) as int);
        lemma_cancel((d * pow2((52 + k) as nat)) as int, n as int, pow2(down) as int);
    }
    lemma_last_place(n, d, k);
}

/// Rounding an exact quotient that needs no bits dropped.
proof fn lemma_round_exact(n: nat, d: nat, up: nat, down: nat, p: nat, k: nat, z: nat)
    requires
        d > 0,
        n * pow2(down) == (d * pow2(up)) * p,
        up == k + z + down,
    ensures
        half_even(n, d * pow2(k)) == p * pow2(z),
{
    lemma_pow2_pos(down);
    lemma_pow2_pos(k);
    lemma_pow2_adds(k, z);
    lemma_pow2_adds((k + z) as nat, down);
    let q = p * pow2(z);
    assert(n * pow2(down) == (q * (d * pow2(k))) * pow2(down)) by (nonlinear_arith)
        requires
            n * pow2(down) == (d * pow2(up)) * p,
            pow2(up) == pow2(k) * pow2(z) * pow2(down),
            q == p * pow2(z),
    ;
    lemma_cancel(n as int, (q * (d * pow2(k))) as int, pow2(down) as int);
    lemma_mul_strictly_positive(d as int, pow2(k) as int);
    lemma_half_even_ratio(n, d * pow2(k), q, 1);
    assert(q / 1 == q && q % 1 == 0) by {
        lemma_div_basics(q as int);
    }
}

/// Rounding a truncated quotient by the bits dropped from it.
proof fn lemma_round_drop(
    n: nat,
    d: nat,
    up: nat,
    down: nat,
    p: nat,
    sticky: bool,
    k: nat,
    t: nat,
)
    requires
        d > 0,
        t > 0,
        p == (n * pow2(down)) / (d * pow2(up)),
        sticky == ((n * pow2(down)) % (d * pow2(up)) != 0),
        up + t == down + k,
    ensures
        ({
            let q = p / pow2(t);
            let r = p % pow2(t);
            let h = pow2((t - 1) as nat);
            half_even(n, d * pow2(k)) == if r > h || (r == h && (sticky || q % 2 == 1)) {
                q + 1
            } else {
                q
            }
        }),
{
    let a = n * pow2(down);
    let b = d * pow2(up);
    let tt = pow2(t);
    let h = pow2((t - 1) as nat);
    lemma_pow2_pos(up);
    lemma_pow2_pos(down);
    lemma_pow2_pos(t);
    lemma_pow2_pos(k);
    lemma_pow2_unfold(t);
    lemma_mul_strictly_positive(d as int, pow2(up) as int);
    lemma_mul_strictly_positive(d as int, pow2(k) as int);
    lemma_mul_strictly_positive(b as int, tt as int);
    lemma_fundamental_div_mod(a as int, b as int);
    lemma_fundamental_div_mod(p as int, tt as int);
    let rem = a % b;
    let q = p / tt;
    let r = p % tt;
    lemma_pow2_adds(up, t);
    lemma_pow2_adds(down, k);
    assert(n * (b * tt) == a * (d * pow2(k))) by (nonlinear_arith)
        requires
            a == n * pow2(down),
            b == d * pow2(up),
            pow2(up) * tt == pow2(down) * pow2(k),
    ;
    lemma_half_even_ratio(n, d * pow2(k), a, b * tt);
    let rest = b * r + rem;
    assert(a == q * (b * tt) + rest) by (nonlinear_arith)
        requires
            a == b * p + rem,
            p == tt * q + r,
            rest == b * r + rem,
    ;
    assert(0 <= rest < b * tt) by (nonlinear_arith)
        requires
            rest == b * r + rem,
            0 <= rem < b,
            0 <= r,
            r + 1 <= tt,
    ;
    assert(q * (b * tt) <= a < (q + 1) * (b * tt)) by (nonlinear_arith)
        requires
            a == q * (b * tt) + rest,
            0 <= rest < b * tt,
    ;
    lemma_div_unique(a as int, (b * tt) as int, q as int);
    assert((2 * rest > b * tt) == (r > h || (r == h && rem > 0)) && (2 * rest == b * tt) == (r == h
        && rem == 0)) by (nonlinear_arith)
        requires
            rest == b * r + rem,
            tt == 2 * h,
            0 <= rem < b,
            b > 0,
    ;
}

/// A quotient below half the last place rounds to nothing.
proof fn lemma_round_vanish(n: nat, d: nat, up: nat, down: nat, p: nat, k: nat, t: nat)
    requires
        d > 0,
        t >= 127,
        p < pow2(126),
        p == (n * pow2(down)) / (d * pow2(up)),
        up + t == down + k,
    ensures
        half_even(n, d * pow2(k)) == 0,
{
    lemma_pow2_strictly_increases(126, t);
    if 126 < t - 1 {
        lemma_pow2_strictly_increases(126, (t - 1) as nat);
    }
    lemma_round_drop(
        n,
        d,
        up,
        down,
        p,
        (n * pow2(down)) % (d * pow2(up)) != 0,
        k,
        t,
    );
    lemma_small_mod(p, pow2(t));
    lemma_basic_div(p as int, pow2(t) as int);
}

/// The nearest pattern to `n / d`, from a truncated quotient of it.
///
/// `p` is `n / d` scaled by `2^-s` and cut to a whole number; `sticky` says whether
/// anything was cut off.
fn round_quotient(
    p: u128,
    s: i32,
    sticky: bool,
    Ghost(n): Ghost<nat>,
    Ghost(d): Ghost<nat>,
    Ghost(up): Ghost<nat>,
    Ghost(down): Ghost<nat>,
) -> (pattern: u64)
    requires
        0 < p < pow2(126),
        -3200 <= s <= 3200,
        d > 0,
        up - down == s,
        p == (n * pow2(down)) / (d * pow2(up)),
        sticky == ((n * pow2(down)) % (d * pow2(up)) != 0),
        sticky ==> p >= pow2(53),
    ensures
        pattern == nearest(n, d),
        pattern <= INFINITY_BITS,
{
    let l = bit_length(p);
    let wanted: i32 = l as i32 + s - 53;
    let k: i32 = if wanted > 0 {
        wanted
    } else {
        0
    };
    let t: i32 = k - s;
    proof {
        lemma_scale(n, d, up, down, p as nat, l as nat, k as nat);
        lemma2_to64();
        lemma2_to64_rest();
        if sticky {
            if l < 54 {
                if l < 53 {
                    lemma_pow2_strictly_increases(l as nat, 53);
                }
                assert(false);
            }
            assert(t > 0);
        }
    }
    let q: u64;
    if t <= 0 {
        let z: u32 = (-t) as u32;
        proof {
            lemma_pow2_pos(up);
            lemma_mul_strictly_positive(d as int, pow2(up) as int);
            lemma_fundamental_div_mod((n * pow2(down)) as int, (d * pow2(up)) as int);
            lemma_round_exact(n, d, up, down, p as nat, k as nat, z as nat);
            assert(p * pow2(z as nat) < pow2(53)) by {
                lemma_pow2_pos(z as nat);
                lemma_pow2_adds(l as nat, z as nat);
                lemma_mul_strict_inequality(p as int, pow2(l as nat) as int, pow2(z as nat) as int);
                if l + z < 53 {
                    lemma_pow2_strictly_increases((l + z) as nat, 53);
                }
            }
        }
        q = (p * power_of_two(z)) as u64;
    } else if t >= 127 {
        proof {
            lemma_round_vanish(n, d, up, down, p as nat, k as nat, t as nat);
        }
        q = 0;
    } else {
        let whole = power_of_two(t as u32);
        let half = power_of_two((t - 1) as u32);
        let quotient: u128 = p / whole;
        let rest: u128 = p % whole;
        proof {
            lemma_round_drop(n, d, up, down, p as nat, sticky, k as nat, t as nat);
            assert(quotient < pow2(53)) by {
                lemma_fundamental_div_mod(p as int, whole as int);
                lemma_pow2_adds(53, t as nat);
                if l < 53 + t {
                    lemma_pow2_strictly_increases(l as nat, (53 + t) as nat);
                }
                assert(quotient * whole <= p);
                lemma_cancel(quotient as int, pow2(53) as int, whole as int);
            }
        }
        let cut: u64 = quotient as u64;
        q = if rest > half || (rest == half && (sticky || cut % 2 == 1)) {
            cut + 1
        } else {
            cut
        };
    }
    assert(q <= 0x20_0000_0000_0000);
    assert(k <= 3273);
    let pattern: u64 = q + k as u64 * HIDDEN;
    if pattern < INFINITY_BITS {
        pattern
    } else {
        INFINITY_BITS
    }
}

// --- Facts about magnitudes ------------------------------------------------------------

/// Dividing is not changed by a common factor.
proof fn lemma_common_factor(x: nat, y: nat, c: nat)
    requires
        y > 0,
        c > 0,
    ensures
        (x * c) / (y * c) == x / y,
        ((x * c) % (y * c) == 0) == (x % y == 0),
        y * c > 0,
{
    let q = x / y;
    let r = x % y;
    lemma_fundamental_div_mod(x as int, y as int);
    assert(q * (y * c) <= x * c < (q + 1) * (y * c) && x * c - q * (y * c) == r * c && y * c > 0
        && ((r * c == 0) == (r == 0))) by (nonlinear_arith)
        requires
            x == y * q + r,
            0 <= r < y,
            c > 0,
            y > 0,
    ;
    lemma_div_unique((x * c) as int, (y * c) as int, q as int);
}

/// A sign-less pattern as mantissa and exponent.
pub proof fn lemma_magnitude_parts(pattern: int)
    requires
        0 <= pattern,
    ensures
        pattern < HIDDEN ==> magnitude_of(pattern) == pattern * pow2(0),
        pattern >= HIDDEN ==> {
            let e = pattern / (HIDDEN as int);
            &&& e >= 1
            &&& magnitude_of(pattern) == (pattern - e * HIDDEN + HIDDEN) * pow2((e - 1) as nat)
            &&& 0 <= pattern - e * HIDDEN < HIDDEN
        },
{
    lemma2_to64();
    lemma_fundamental_div_mod(pattern, HIDDEN as int);
    lemma_mod_bound(pattern, HIDDEN as int);
    if pattern >= HIDDEN {
        let e = pattern / (HIDDEN as int);
        lemma_pow2_pos((e - 1) as nat);
        assert((pattern - e * HIDDEN + HIDDEN) * pow2((e - 1) as nat) >= 0) by (nonlinear_arith)
            requires
                pattern - e * HIDDEN + HIDDEN >= 0,
                pow2((e - 1) as nat) >= 0,
        ;
    }
}

/// Patterns are ordered as the magnitudes they stand for.
pub proof fn lemma_magnitude_order(a: int, b: int)
    requires
        0 <= a < b,
    ensures
        magnitude_of(a) < magnitude_of(b),
{
    lemma_magnitude_parts(a);
    lemma_magnitude_parts(b);
    lemma2_to64();
    let ea = a / (HIDDEN as int);
    let eb = b / (HIDDEN as int);
    if b >= HIDDEN {
        lemma_div_is_ordered(a, b, HIDDEN as int);
        lemma_pow2_pos((eb - 1) as nat);
        let fb = b - eb * HIDDEN + HIDDEN;
        let pb = pow2((eb - 1) as nat);
        assert(fb * pb >= HIDDEN * pb) by (nonlinear_arith)
            requires
                fb >= HIDDEN,
                pb > 0,
        ;
        if a < HIDDEN {
            assert(HIDDEN * pb >= HIDDEN) by (nonlinear_arith)
                requires
                    pb > 0,
            ;
        } else {
            let fa = a - ea * HIDDEN + HIDDEN;
            let pa = pow2((ea - 1) as nat);
            lemma_pow2_pos((ea - 1) as nat);
            if ea == eb {
                assert(fa * pa < fb * pb) by (nonlinear_arith)
                    requires
                        fa < fb,
                        pa == pb,
                        pb > 0,
                ;
            } else {
                lemma_pow2_unfold(ea as nat);
                if ea < eb - 1 {
                    lemma_pow2_strictly_increases(ea as nat, (eb - 1) as nat);
                }
                assert(fa * pa < HIDDEN * pb) by (nonlinear_arith)
                    requires
                        fa < 2 * HIDDEN,
                        pa > 0,
                        2 * pa <= pb,
                ;
            }
        }
    }
}

/// Mantissa and exponent of a finite double: it is `m * 2^k` in units of `2^-1074`.
fn decode(pattern: u64) -> (parts: (u64, u32))
    requires
        pattern < INFINITY_BITS,
    ensures
        parts.0 < 0x20_0000_0000_0000,
        parts.1 <= 2045,
        magnitude_of(pattern as int) == parts.0 * pow2(parts.1 as nat),
        parts.1 > 0 ==> parts.0 >= HIDDEN,
        parts.0 == 0 <==> pattern == 0,
        pattern >= HIDDEN ==> parts.1 == pattern / HIDDEN - 1,
        pattern < HIDDEN ==> parts.1 == 0,
{
    proof {
        lemma_magnitude_parts(pattern as int);
        lemma_fundamental_div_mod(pattern as int, HIDDEN as int);
    }
    if pattern < HIDDEN {
        (pattern, 0)
    } else {
        let e: u64 = pattern / HIDDEN;
        assert(e <= 2046) by (nonlinear_arith)
            requires
                e == pattern / HIDDEN,
                pattern < 0x7ff0_0000_0000_0000,
                HIDDEN == 0x10_0000_0000_0000,
        ;
        (pattern % HIDDEN + HIDDEN, (e - 1) as u32)
    }
}

/// Nothing rounds to nothing.
proof fn lemma_nearest_zero(d: nat)
    requires
        d > 0,
    ensures
        nearest(0, d) == 0,
{
    lemma_pow2_pos(53);
    lemma_mul_strictly_positive(d as int, pow2(53) as int);
    lemma2_to64();
    assert(last_place(0, d) == 0);
    assert(d * pow2(0) == d);
    lemma_basics_of_zero(d);
}

proof fn lemma_basics_of_zero(d: nat)
    requires
        d > 0,
    ensures
        half_even(0, d) == 0,
{
    lemma_div_unique(0, d as int, 0);
}

/// The pattern of `ma * 2^ka * mb * 2^kb` over `2^1074`.
fn multiply(ma: u64, ka: u32, mb: u64, kb: u32) -> (pattern: u64)
    requires
        ma < 0x20_0000_0000_0000,
        mb < 0x20_0000_0000_0000,
        ka <= 2045,
        kb <= 2045,
    ensures
        pattern == nearest(
            ((ma * pow2(ka as nat)) * (mb * pow2(kb as nat))) as nat,
            pow2(1074),
        ),
        pattern <= INFINITY_BITS,
{
    let ghost n = ((ma * pow2(ka as nat)) * (mb * pow2(kb as nat))) as nat;
    let ghost up = (ka + kb) as nat;
    assert(ma * mb < 0x400_0000_0000_0000_0000_0000_0000) by (nonlinear_arith)
        requires
            ma < 0x20_0000_0000_0000,
            mb < 0x20_0000_0000_0000,
    ;
    let p: u128 = ma as u128 * mb as u128;
    proof {
        lemma_pow2_pos(ka as nat);
        lemma_pow2_pos(kb as nat);
        lemma_pow2_pos(up);
        lemma_pow2_pos(1074);
        lemma_pow2_adds(ka as nat, kb as nat);
        assert((ma * pow2(ka as nat)) * (mb * pow2(kb as nat)) == p * pow2(up)) by (nonlinear_arith)
            requires
                p == ma * mb,
                pow2(ka as nat) * pow2(kb as nat) == pow2(up),
        ;
        lemma_mul_nonnegative(p as int, pow2(up) as int);
    }
    if p == 0 {
        proof {
            lemma_nearest_zero(pow2(1074));
        }
        0
    } else {
        proof {
            let c = pow2(1074) * pow2(up);
            lemma_mul_strictly_positive(pow2(1074) as int, pow2(up) as int);
            assert(n * pow2(1074) == p as nat * c) by (nonlinear_arith)
                requires
                    n == p * pow2(up),
                    c == pow2(1074) * pow2(up),
            ;
            lemma_common_factor(p as nat, 1, c);
            lemma_div_basics(p as int);
            assert(1 * c == c);
            assert(p as nat % 1 == 0);
            lemma_pow2_adds(64, 62);
            lemma2_to64();
            lemma2_to64_rest();
        }
        round_quotient(
            p,
            ka as i32 + kb as i32 - 1074,
            false,
            Ghost(n),
            Ghost(pow2(1074)),
            Ghost(up),
            Ghost(1074),
        )
    }
}

/// The pattern of `ma * 2^ka` over `mb * 2^kb`.
fn divide(ma: u64, ka: u32, mb: u64, kb: u32) -> (pattern: u64)
    requires
        ma < 0x20_0000_0000_0000,
        0 < mb < 0x20_0000_0000_0000,
        ka <= 2045,
        kb <= 2045,
    ensures
        pattern == nearest(
            (((ma * pow2(ka as nat)) as nat) * pow2(1074)) as nat,
            (mb * pow2(kb as nat)) as nat,
        ),
        pattern <= INFINITY_BITS,
{
    let ghost n = (((ma * pow2(ka as nat)) as nat) * pow2(1074)) as nat;
    let ghost d = (mb * pow2(kb as nat)) as nat;
    proof {
        lemma_pow2_pos(ka as nat);
        lemma_pow2_pos(kb as nat);
        lemma_pow2_pos(1074);
        lemma_mul_strictly_positive(mb as int, pow2(kb as nat) as int);
        lemma_mul_nonnegative(ma as int, pow2(ka as nat) as int);
    }
    if ma == 0 {
        proof {
            assert(n == 0) by (nonlinear_arith)
                requires
                    ma == 0,
                    n == (ma * pow2(ka as nat)) * pow2(1074),
            ;
            lemma_nearest_zero(d);
        }
        return 0;
    }
    proof {
        lemma2_to64();
        lemma2_to64_rest();
        lemma_pow2_adds(64, 62);
        assert((ma as u128) < pow2(126));
    }
    let l = bit_length(ma as u128);
    proof {
        if l > 53 {
            if l - 1 > 53 {
                lemma_pow2_strictly_increases(53, (l - 1) as nat);
            }
        }
    }
    let shift: u32 = 117 - l;
    let ghost up = (ka + 1074) as nat;
    let ghost down = (shift + kb) as nat;
    let factor = power_of_two(shift);
    proof {
        lemma_pow2_adds((l - 1) as nat, shift as nat);
        lemma_pow2_adds(l as nat, shift as nat);
        lemma_pow2_pos(shift as nat);
        lemma_mul_strict_inequality(ma as int, pow2(l as nat) as int, factor as int);
        lemma_mul_inequality(pow2((l - 1) as nat) as int, ma as int, factor as int);
        lemma_pow2_strictly_increases(117, 126);
        lemma_pow2_adds(63, 53);
    }
    let numerator: u128 = ma as u128 * factor;
    let p: u128 = numerator / mb as u128;
    let rest: u128 = numerator % mb as u128;
    proof {
        let c = pow2(up) * pow2(kb as nat);
        lemma_pow2_pos(up);
        lemma_mul_strictly_positive(pow2(up) as int, pow2(kb as nat) as int);
        lemma_pow2_adds(ka as nat, 1074);
        lemma_pow2_adds(shift as nat, kb as nat);
        assert(n * pow2(down) == numerator as nat * c) by (nonlinear_arith)
            requires
                n == (ma * pow2(ka as nat)) * pow2(1074),
                pow2(ka as nat) * pow2(1074) == pow2(up),
                pow2(down) == factor * pow2(kb as nat),
                numerator == ma * factor,
                c == pow2(up) * pow2(kb as nat),
        ;
        assert(d * pow2(up) == mb as nat * c) by (nonlinear_arith)
            requires
                d == mb * pow2(kb as nat),
                c == pow2(up) * pow2(kb as nat),
        ;
        lemma_common_factor(numerator as nat, mb as nat, c);
        lemma_fundamental_div_mod(numerator as int, mb as int);
        assert(p >= 0x20_0000_0000_0000) by (nonlinear_arith)
            requires
                numerator >= 0x8000_0000_0000_0000 * 0x20_0000_0000_0000,
                0 < mb < 0x20_0000_0000_0000,
                numerator == mb * p + rest,
                0 <= rest < mb,
        ;
        assert(p <= numerator) by (nonlinear_arith)
            requires
                numerator == mb * p + rest,
                mb > 0,
                rest >= 0,
                p >= 0,
        ;
    }
    round_quotient(
        p,
        ka as i32 + 1074 - shift as i32 - kb as i32,
        rest != 0,
        Ghost(n),
        Ghost(d),
        Ghost(up),
        Ghost(down),
    )
}

/// The pattern of `ma * 2^ka` plus or minus `mb * 2^kb`, the first being the larger.
fn combine(ma: u64, ka: u32, mb: u64, kb: u32, subtract: bool) -> (pattern: u64)
    requires
        ma < 0x20_0000_0000_0000,
        mb < 0x20_0000_0000_0000,
        kb <= ka <= 2045,
        ka > 0 ==> ma >= HIDDEN,
        subtract ==> ma * pow2(ka as nat) > mb * pow2(kb as nat),
        !subtract ==> ma > 0,
    ensures
        pattern == nearest(
            if subtract {
                (ma * pow2(ka as nat) - mb * pow2(kb as nat)) as nat
            } else {
                (ma * pow2(ka as nat) + mb * pow2(kb as nat)) as nat
            },
            1,
        ),
        pattern <= INFINITY_BITS,
{
    let diff: u32 = ka - kb;
    let ghost n: int = if subtract {
        ma * pow2(ka as nat) - mb * pow2(kb as nat)
    } else {
        ma * pow2(ka as nat) + mb * pow2(kb as nat)
    };
    let ghost pk = pow2(kb as nat);
    proof {
        lemma2_to64();
        lemma2_to64_rest();
        lemma_pow2_pos(kb as nat);
        lemma_pow2_pos(ka as nat);
        lemma_pow2_pos(diff as nat);
        lemma_pow2_adds(diff as nat, kb as nat);
        lemma_mul_nonnegative(ma as int, pow2(ka as nat) as int);
        lemma_mul_nonnegative(mb as int, pow2(kb as nat) as int);
        assert(ma * pow2(ka as nat) == (ma * pow2(diff as nat)) * pk) by (nonlinear_arith)
            requires
                pow2(ka as nat) == pow2(diff as nat) * pk,
        ;
    }
    if diff <= 72 {
        let factor = power_of_two(diff);
        proof {
            if diff < 72 {
                lemma_pow2_strictly_increases(diff as nat, 72);
            }
            lemma_pow2_adds(64, 8);
            lemma_pow2_adds(64, 62);
            lemma_mul_nonnegative(ma as int, factor as int);
            assert(ma * factor < 0x20_0000_0000_0000 * 0x100_0000_0000_0000_0000) by (nonlinear_arith)
                requires
                    ma < 0x20_0000_0000_0000,
                    0 < factor <= 0x100_0000_0000_0000_0000,
            ;
            if subtract {
                lemma_cancel(mb as int, ma * factor, pk as int);
            } else {
                assert(ma * factor > 0) by (nonlinear_arith)
                    requires
                        ma > 0,
                        factor > 0,
                ;
            }
        }
        let wide: u128 = ma as u128 * factor;
        let p: u128 = if subtract {
            wide - mb as u128
        } else {
            wide + mb as u128
        };
        proof {
            assert(n == p * pk) by (nonlinear_arith)
                requires
                    n == if subtract {
                        wide * pk - mb * pk
                    } else {
                        wide * pk + mb * pk
                    },
                    p == if subtract {
                        wide - mb
                    } else {
                        wide + mb
                    },
            ;
            lemma_mul_nonnegative(p as int, pk as int);
            assert((n as nat) * pow2(0) == p as nat * pk);
            assert(1 * pk == pk);
            lemma_common_factor(p as nat, 1, pk);
            lemma_div_basics(p as int);
        }
        round_quotient(p, kb as i32, false, Ghost(n as nat), Ghost(1), Ghost(kb as nat), Ghost(0))
    } else {
        let ghost gap = pow2((diff - 20) as nat);
        proof {
            if diff - 20 > 53 {
                lemma_pow2_strictly_increases(53, (diff - 20) as nat);
            }
            lemma_pow2_adds((diff - 20) as nat, 20);
            lemma_pow2_adds((diff - 20) as nat, kb as nat);
            lemma_pow2_adds(64, 62);
        }
        assert(ma * 0x10_0000 < 0x200_0000_0000_0000_0000);
        let scaled: u128 = ma as u128 * 0x10_0000;
        let borrow = subtract && mb != 0;
        let p: u128 = if borrow {
            scaled - 1
        } else {
            scaled
        };
        proof {
            let x: int = if subtract {
                scaled * gap - mb
            } else {
                scaled * gap + mb
            };
            assert(n == x * pk) by (nonlinear_arith)
                requires
                    n == if subtract {
                        (ma * pow2(diff as nat)) * pk - mb * pk
                    } else {
                        (ma * pow2(diff as nat)) * pk + mb * pk
                    },
                    x == if subtract {
                        scaled * gap - mb
                    } else {
                        scaled * gap + mb
                    },
                    pow2(diff as nat) == gap * 0x10_0000,
                    scaled == ma * 0x10_0000,
            ;
            assert(p * gap <= x < (p + 1) * gap && (x - p * gap == 0 <==> mb == 0))
                by (nonlinear_arith)
                requires
                    x == if subtract {
                        scaled * gap - mb
                    } else {
                        scaled * gap + mb
                    },
                    0 <= mb < gap,
                    p == if subtract && mb != 0 {
                        scaled - 1
                    } else {
                        scaled as int
                    },
            ;
            lemma_div_unique(x, gap as int, p as int);
            lemma_mul_nonnegative(p as int, gap as int);
            lemma_common_factor(x as nat, gap, pk);
            assert((n as nat) * pow2(0) == x as nat * pk);
            lemma_mul_nonnegative(x, pk as int);
            assert(1 * pow2((diff - 20 + kb) as nat) == gap * pk);
        }
        round_quotient(
            p,
            ka as i32 - 20,
            mb != 0,
            Ghost(n as nat),
            Ghost(1),
            Ghost((diff - 20 + kb) as nat),
            Ghost(0),
        )
    }
}

// --- The operations --------------------------------------------------------------------

/// Puts a sign on a pattern.
fn with_sign(negative: bool, pattern: u64) -> (r: Scalar)
    requires
        pattern <= INFINITY_BITS,
    ensures
        r == signed(negative, pattern as nat),
{
    if negative {
        Scalar { bits: pattern + SIGN_BIT }
    } else {
        Scalar { bits: pattern }
    }
}

impl Scalar {
    /// The double with this pattern.
    pub fn from_bits(bits: u64) -> (r: Scalar)
        ensures
            r.bits == bits,
    {
        Scalar { bits }
    }

    /// The pattern of this double.
    pub fn to_bits(self) -> (bits: u64)
        ensures
            bits == self.bits,
    {
        self.bits
    }

    fn sign(self) -> (negative: bool)
        ensures
            negative == self.neg(),
    {
        self.bits >= SIGN_BIT
    }

    fn unsigned(self) -> (pattern: u64)
        ensures
            pattern == self.pattern(),
    {
        if self.bits >= SIGN_BIT {
            self.bits - SIGN_BIT
        } else {
            self.bits
        }
    }

    /// Whether this is not a number.
    pub fn is_nan(self) -> (r: bool)
        ensures
            r == self.nan(),
    {
        self.unsigned() > INFINITY_BITS
    }

    /// Whether this is a number, and not an infinite one.
    pub fn is_finite(self) -> (r: bool)
        ensures
            r == self.finite(),
    {
        self.unsigned() < INFINITY_BITS
    }

    /// `self < other`.
    pub fn lt(self, other: Scalar) -> (r: bool)
        ensures
            r == self.below(other),
    {
        if self.is_nan() || other.is_nan() {
            false
        } else {
            let a = self.unsigned();
            let b = other.unsigned();
            if self.sign() {
                if other.sign() {
                    b < a
                } else {
                    a != 0 || b != 0
                }
            } else if other.sign() {
                false
            } else {
                a < b
            }
        }
    }

    /// `self <= other`.
    pub fn le(self, other: Scalar) -> (r: bool)
        ensures
            r == self.at_most(other),
    {
        !self.is_nan() && !other.is_nan() && !other.lt(self)
    }

    /// `self == other`, as numbers.
    pub fn same(self, other: Scalar) -> (r: bool)
        ensures
            r == self.equals(other),
    {
        self.le(other) && other.le(self)
    }

    /// `-self`.
    pub fn negate(self) -> (r: Scalar)
        ensures
            r == self.negated(),
    {
        if self.bits >= SIGN_BIT {
            Scalar { bits: self.bits - SIGN_BIT }
        } else {
            Scalar { bits: self.bits + SIGN_BIT }
        }
    }

    /// `self` without its sign.
    pub fn abs(self) -> (r: Scalar)
        ensures
            r == self.absolute(),
    {
        Scalar { bits: self.unsigned() }
    }

    /// The larger of two numbers; a NaN loses to a number.
    pub fn max(self, other: Scalar) -> (r: Scalar)
        ensures
            r == self.larger(other),
    {
        if self.is_nan() || self.lt(other) {
            other
        } else {
            self
        }
    }

    /// The smaller of two numbers; a NaN loses to a number.
    pub fn min(self, other: Scalar) -> (r: Scalar)
        ensures
            r == self.smaller(other),
    {
        if self.is_nan() || other.lt(self) {
            other
        } else {
            self
        }
    }

    /// `self` confined to `low..=high`. A NaN stays a NaN.
    pub fn clamp(self, low: Scalar, high: Scalar) -> (r: Scalar)
        ensures
            r == self.confined(low, high),
    {
        if self.lt(low) {
            low
        } else if high.lt(self) {
            high
        } else {
            self
        }
    }

    /// `self + other`, rounded to nearest.
    pub fn add(self, other: Scalar) -> (r: Scalar)
        ensures
            r == self.plus(other),
    {
        reveal(Scalar::plus);
        let a = self.unsigned();
        let b = other.unsigned();
        let sa = self.sign();
        let sb = other.sign();
        if self.is_nan() || other.is_nan() || (a == INFINITY_BITS && b == INFINITY_BITS && sa
            != sb) {
            return Scalar { bits: NAN_BITS };
        }
        if a == INFINITY_BITS {
            return self;
        }
        if b == INFINITY_BITS {
            return other;
        }
        let (ma, ka) = decode(a);
        let (mb, kb) = decode(b);
        proof {
            lemma_pow2_pos(ka as nat);
            lemma_pow2_pos(kb as nat);
            lemma_mul_nonnegative(ma as int, pow2(ka as nat) as int);
            lemma_mul_nonnegative(mb as int, pow2(kb as nat) as int);
            assert(0 * pow2(ka as nat) == 0 && 0 * pow2(kb as nat) == 0);
            if a < b {
                lemma_magnitude_order(a as int, b as int);
                if a >= HIDDEN {
                    lemma_div_is_ordered(a as int, b as int, HIDDEN as int);
                }
            } else if b < a {
                lemma_magnitude_order(b as int, a as int);
                if b >= HIDDEN {
                    lemma_div_is_ordered(b as int, a as int, HIDDEN as int);
                }
            }
            if ma > 0 {
                lemma_mul_strictly_positive(ma as int, pow2(ka as nat) as int);
            }
            if mb > 0 {
                lemma_mul_strictly_positive(mb as int, pow2(kb as nat) as int);
            }
        }
        if a == b {
            if a == 0 || sa != sb {
                return with_sign(sa && sb, 0);
            }
            return with_sign(sa, combine(ma, ka, mb, kb, false));
        }
        if a > b {
            with_sign(sa, combine(ma, ka, mb, kb, sa != sb))
        } else {
            with_sign(sb, combine(mb, kb, ma, ka, sa != sb))
        }
    }

    /// `self - other`, rounded to nearest.
    pub fn sub(self, other: Scalar) -> (r: Scalar)
        ensures
            r == self.minus(other),
    {
        self.add(other.negate())
    }

    /// `self * other`, rounded to nearest.
    pub fn mul(self, other: Scalar) -> (r: Scalar)
        ensures
            r == self.times(other),
    {
        reveal(Scalar::times);
        let a = self.unsigned();
        let b = other.unsigned();
        let negative = self.sign() != other.sign();
        if self.is_nan() || other.is_nan() || (a == INFINITY_BITS && b == 0) || (a == 0 && b
            == INFINITY_BITS) {
            Scalar { bits: NAN_BITS }
        } else if a == INFINITY_BITS || b == INFINITY_BITS {
            with_sign(negative, INFINITY_BITS)
        } else {
            let (ma, ka) = decode(a);
            let (mb, kb) = decode(b);
            with_sign(negative, multiply(ma, ka, mb, kb))
        }
    }

    /// `self / other`, rounded to nearest.
    pub fn div(self, other: Scalar) -> (r: Scalar)
        ensures
            r == self.over(other),
    {
        reveal(Scalar::over);
        let a = self.unsigned();
        let b = other.unsigned();
        let negative = self.sign() != other.sign();
        if self.is_nan() || other.is_nan() || (a == INFINITY_BITS && b == INFINITY_BITS) || (a == 0
            && b == 0) {
            Scalar { bits: NAN_BITS }
        } else if a == INFINITY_BITS || b == 0 {
            with_sign(negative, INFINITY_BITS)
        } else if b == INFINITY_BITS {
            with_sign(negative, 0)
        } else {
            let (ma, ka) = decode(a);
            let (mb, kb) = decode(b);
            with_sign(negative, divide(ma, ka, mb, kb))
        }
    }

    /// The double nearest to a whole number.
    pub fn whole(n: u64) -> (r: Scalar)
        ensures
            r == whole(n as nat),
    {
        reveal(whole);
        let ghost scaled = (n as nat) * pow2(1074);
        proof {
            lemma_pow2_pos(1074);
            lemma2_to64();
            lemma2_to64_rest();
            lemma_pow2_adds(64, 62);
        }
        if n == 0 {
            proof {
                assert(0 * pow2(1074) == 0);
                lemma_nearest_zero(1);
            }
            return Scalar { bits: 0 };
        }
        proof {
            lemma_common_factor(n as nat, 1, pow2(1074));
            lemma_div_basics(n as int);
            assert(scaled * pow2(0) == n as nat * pow2(1074));
            assert(1 * pow2(1074) == pow2(1074));
        }
        with_sign(
            false,
            round_quotient(
                n as u128,
                1074,
                false,
                Ghost(scaled),
                Ghost(1),
                Ghost(1074),
                Ghost(0),
            ),
        )
    }
}

impl Scalar {
    /// The nearest whole number, halves away from zero.
    pub fn round(self) -> (r: Scalar)
        ensures
            r == self.rounded(),
    {
        reveal(Scalar::rounded);
        let p = self.unsigned();
        if p >= WHOLE_BITS {
            return self;
        }
        let (m, k) = decode(p);
        proof {
            assert(p / HIDDEN <= 0x432) by (nonlinear_arith)
                requires
                    p < 0x4330_0000_0000_0000,
                    HIDDEN == 0x10_0000_0000_0000,
            ;
        }
        let shift: u32 = 1074 - k;
        let ghost c = pow2((k + 1) as nat);
        proof {
            lemma2_to64();
            lemma2_to64_rest();
            lemma_pow2_pos((k + 1) as nat);
            lemma_pow2_pos(shift as nat);
            lemma_pow2_adds((shift - 1) as nat, (k + 1) as nat);
            lemma_pow2_adds(shift as nat, (k + 1) as nat);
            lemma_pow2_unfold((k + 1) as nat);
            lemma_pow2_unfold(1075);
            assert(2 * (m * pow2(k as nat)) + pow2(1074) == (m + pow2((shift - 1) as nat)) * c)
                by (nonlinear_arith)
                requires
                    c == 2 * pow2(k as nat),
                    pow2(1074) == pow2((shift - 1) as nat) * c,
            ;
            lemma_common_factor(
                (m + pow2((shift - 1) as nat)) as nat,
                pow2(shift as nat),
                c,
            );
        }
        let n: u64 = if shift > 54 {
            proof {
                lemma_pow2_unfold(shift as nat);
                if shift - 1 > 53 {
                    lemma_pow2_strictly_increases(53, (shift - 1) as nat);
                }
                lemma_div_unique(m + pow2((shift - 1) as nat), pow2(shift as nat) as int, 0);
            }
            0
        } else {
            let half = power_of_two(shift - 1);
            let unit = power_of_two(shift);
            proof {
                if shift - 1 < 53 {
                    lemma_pow2_strictly_increases((shift - 1) as nat, 53);
                }
                lemma_pow2_unfold(shift as nat);
                lemma_div_is_ordered_by_denominator((m + half) as int, 1, unit as int);
                lemma_div_basics((m + half) as int);
            }
            ((m as u128 + half) / unit) as u64
        };
        let bits = Scalar::whole(n).bits;
        proof {
            reveal(whole);
            assert(n == (2 * self.magnitude() + pow2(1074)) / (2 * pow2(1074)));
        }
        with_sign(self.sign(), bits)
    }

    /// Whether this comes strictly before another in the total order of patterns.
    pub fn comes_before(self, other: Scalar) -> (r: bool)
        ensures
            r == self.precedes(other),
    {
        let a = self.unsigned();
        let b = other.unsigned();
        if self.sign() {
            if other.sign() {
                b < a
            } else {
                true
            }
        } else if other.sign() {
            false
        } else {
            a < b
        }
    }
}

/// The double nearest to a whole number.
#[verifier::opaque]
pub open spec fn whole(n: nat) -> Scalar {
    signed(false, nearest(n * pow2(1074), 1))
}

impl PartialEq for Scalar {
    fn eq(&self, other: &Scalar) -> (r: bool) {
        self.same(*other)
    }
}

impl vstd::std_specs::cmp::PartialEqSpecImpl for Scalar {
    open spec fn obeys_eq_spec() -> bool {
        true
    }

    open spec fn eq_spec(&self, other: &Scalar) -> bool {
        self.equals(*other)
    }
}

// --- Laws ------------------------------------------------------------------------------

/// Comparing two finite doubles compares what they stand for.
pub proof fn order_is_by_value(a: Scalar, b: Scalar)
    requires
        a.finite(),
        b.finite(),
    ensures
        a.below(b) <==> a.value() < b.value(),
        a.at_most(b) <==> a.value() <= b.value(),
        a.equals(b) <==> a.value() == b.value(),
{
    if a.pattern() < b.pattern() {
        lemma_magnitude_order(a.pattern(), b.pattern());
    }
    if b.pattern() < a.pattern() {
        lemma_magnitude_order(b.pattern(), a.pattern());
    }
    if a.pattern() > 0 {
        lemma_magnitude_order(0, a.pattern());
    }
    if b.pattern() > 0 {
        lemma_magnitude_order(0, b.pattern());
    }
}

/// A NaN is never turned into a number by arithmetic.
pub proof fn nan_is_kept(a: Scalar, b: Scalar)
    requires
        a.nan() || b.nan(),
    ensures
        a.plus(b).nan(),
        a.minus(b).nan(),
        a.times(b).nan(),
        a.over(b).nan(),
{
    reveal(Scalar::plus);
    reveal(Scalar::times);
    reveal(Scalar::over);
}

/// What is no finite number does not become one by adding to it or by scaling it.
pub proof fn what_is_not_finite_is_kept(a: Scalar, b: Scalar)
    requires
        !a.finite(),
    ensures
        !a.plus(b).finite(),
        !a.times(b).finite(),
        a.nan() ==> a.plus(b).nan() && a.times(b).nan(),
{
    reveal(Scalar::plus);
    reveal(Scalar::times);
}

/// A whole number below `2^53` is held exactly.
pub proof fn whole_is_exact(n: nat)
    requires
        n < 0x20_0000_0000_0000,
    ensures
        whole(n).finite(),
        whole(n).value() == n * pow2(1074),
        n > 0 ==> !whole(n).zero(),
{
    reveal(whole);
    lemma2_to64();
    lemma2_to64_rest();
    lemma_pow2_pos(1074);
    let big = n * pow2(1074);
    if n == 0 {
        assert(0 * pow2(1074) == 0);
        lemma_nearest_zero(1);
    } else {
        let l = bits_of(n);
        lemma_bits_of(n);
        if l > 53 {
            lemma_pow2_strictly_increases(53, l);
            if l - 1 > 53 {
                lemma_pow2_strictly_increases(53, (l - 1) as nat);
            }
        }
        let k = (l + 1074 - 53) as nat;
        let z = (53 - l) as nat;
        lemma_scale_whole(n, l, k);
        lemma_pow2_adds(k, z);
        let q = n * pow2(z);
        assert(big == q * pow2(k)) by (nonlinear_arith)
            requires
                big == n * pow2(1074),
                pow2(1074) == pow2(k) * pow2(z),
                q == n * pow2(z),
        ;
        lemma_pow2_pos(k);
        lemma_pow2_pos(z);
        lemma_half_even_ratio(big, 1 * pow2(k), q, 1);
        lemma_div_basics(q as int);
        lemma_pow2_adds((l - 1) as nat, z);
        lemma_pow2_adds(l, z);
        lemma_mul_strict_inequality(n as int, pow2(l) as int, pow2(z) as int);
        lemma_mul_inequality(pow2((l - 1) as nat) as int, n as int, pow2(z) as int);
        let pattern = q + k * HIDDEN;
        assert(k <= 1074);
        lemma_div_unique(pattern, HIDDEN as int, (k + 1) as int);
        assert(magnitude_of(pattern) == q * pow2(k));
    }
}

/// How many bits a number has.
spec fn bits_of(n: nat) -> nat
    decreases n,
{
    if n == 0 {
        0
    } else {
        1 + bits_of(n / 2)
    }
}

proof fn lemma_bits_of(n: nat)
    requires
        n > 0,
    ensures
        bits_of(n) >= 1,
        pow2((bits_of(n) - 1) as nat) <= n < pow2(bits_of(n)),
    decreases n,
{
    lemma2_to64();
    if n == 1 {
        assert(bits_of(1) == 1 + bits_of(0));
    } else {
        lemma_bits_of(n / 2);
        let l = bits_of(n / 2);
        lemma_pow2_unfold(l + 1);
        lemma_pow2_unfold(l);
    }
}

proof fn lemma_scale_whole(n: nat, l: nat, k: nat)
    requires
        1 <= l <= 53,
        pow2((l - 1) as nat) <= n < pow2(l),
        k == l + 1074 - 53,
    ensures
        last_place(n * pow2(1074), 1) == k,
{
    lemma_pow2_pos(1074);
    lemma_pow2_adds(l, 1074);
    lemma_pow2_adds((l - 1) as nat, 1074);
    lemma_mul_strict_inequality(n as int, pow2(l) as int, pow2(1074) as int);
    lemma_mul_inequality(pow2((l - 1) as nat) as int, n as int, pow2(1074) as int);
    lemma_last_place(n * pow2(1074), 1, k);
}

proof fn lemma_half_even_monotone(n1: nat, d1: nat, n2: nat, d2: nat)
    requires
        d1 > 0,
        d2 > 0,
        n1 * d2 <= n2 * d1,
    ensures
        half_even(n1, d1) <= half_even(n2, d2),
{
    let q1 = n1 / d1;
    let r1 = n1 % d1;
    let q2 = n2 / d2;
    let r2 = n2 % d2;
    lemma_fundamental_div_mod(n1 as int, d1 as int);
    lemma_fundamental_div_mod(n2 as int, d2 as int);
    lemma_mod_bound(n1 as int, d1 as int);
    lemma_mod_bound(n2 as int, d2 as int);
    assert(q1 <= q2) by (nonlinear_arith)
        requires
            n1 == d1 * q1 + r1,
            n2 == d2 * q2 + r2,
            0 <= r1,
            r2 < d2,
            d1 > 0,
            d2 > 0,
            n1 * d2 <= n2 * d1,
    ;
    if q1 == q2 {
        assert(r1 * d2 <= r2 * d1) by (nonlinear_arith)
            requires
                n1 == d1 * q1 + r1,
                n2 == d2 * q1 + r2,
                n1 * d2 <= n2 * d1,
        ;
        assert(2 * r1 > d1 ==> 2 * r2 > d2) by (nonlinear_arith)
            requires
                r1 * d2 <= r2 * d1,
                d1 > 0,
                d2 > 0,
        ;
        assert(2 * r1 >= d1 ==> 2 * r2 >= d2) by (nonlinear_arith)
            requires
                r1 * d2 <= r2 * d1,
                d1 > 0,
                d2 > 0,
        ;
    }
}

pub proof fn lemma_half_even_bounds(n: nat, d: nat, m: nat)
    requires
        d > 0,
    ensures
        n < d * m ==> half_even(n, d) <= m,
        n >= d * m ==> half_even(n, d) >= m,
{
    let q = n / d;
    lemma_fundamental_div_mod(n as int, d as int);
    lemma_mod_bound(n as int, d as int);
    assert(n < d * m ==> q < m) by (nonlinear_arith)
        requires
            n == d * q + n % d,
            d > 0,
            0 <= n % d,
    ;
    assert(n >= d * m ==> q >= m) by (nonlinear_arith)
        requires
            n == d * q + n % d,
            d > 0,
            n % d < d,
    ;
}

pub proof fn lemma_last_place_bounds(n: nat, d: nat)
    requires
        d > 0,
    ensures
        n < d * pow2(53 + last_place(n, d)),
        last_place(n, d) == 0 || n >= d * pow2((52 + last_place(n, d)) as nat),
    decreases n - d,
{
    lemma2_to64();
    lemma2_to64_rest();
    if !(n < d * pow2(53)) {
        assert(2 * d <= n) by (nonlinear_arith)
            requires
                n >= d * pow2(53),
                pow2(53) >= 2,
        ;
        let k = last_place(n, 2 * d);
        lemma_last_place_bounds(n, 2 * d);
        lemma_pow2_unfold((54 + k) as nat);
        lemma_pow2_unfold((53 + k) as nat);
        assert((2 * d) * pow2(53 + k) == d * (2 * pow2(53 + k))) by (nonlinear_arith);
        assert((2 * d) * pow2((52 + k) as nat) == d * (2 * pow2((52 + k) as nat)))
            by (nonlinear_arith);
    }
}

/// Rounding to the nearest double keeps the order of quotients.
pub proof fn rounding_keeps_order(n1: nat, d1: nat, n2: nat, d2: nat)
    requires
        d1 > 0,
        d2 > 0,
        n1 * d2 <= n2 * d1,
    ensures
        nearest(n1, d1) <= nearest(n2, d2),
{
    let k1 = last_place(n1, d1);
    let k2 = last_place(n2, d2);
    lemma_last_place_bounds(n1, d1);
    lemma_last_place_bounds(n2, d2);
    lemma_pow2_pos(k1);
    lemma_pow2_pos(k2);
    lemma2_to64();
    lemma2_to64_rest();
    let e1 = d1 * pow2(k1);
    let e2 = d2 * pow2(k2);
    lemma_mul_strictly_positive(d1 as int, pow2(k1) as int);
    lemma_mul_strictly_positive(d2 as int, pow2(k2) as int);
    if k1 > k2 {
        if 53 + k2 < 52 + k1 {
            lemma_pow2_strictly_increases(53 + k2, (52 + k1) as nat);
        }
        let a = pow2(53 + k2);
        let b = pow2((52 + k1) as nat);
        assert(n1 * d2 > n2 * d1) by (nonlinear_arith)
            requires
                n1 >= d1 * b,
                n2 < d2 * a,
                a <= b,
                d1 > 0,
                d2 > 0,
        ;
    } else if k1 == k2 {
        let c = pow2(k1);
        assert(n1 * (d2 * c) <= n2 * (d1 * c)) by (nonlinear_arith)
            requires
                n1 * d2 <= n2 * d1,
                c > 0,
        ;
        lemma_half_even_monotone(n1, e1, n2, e2);
    } else {
        lemma_pow2_adds(k1, 53);
        lemma_pow2_adds(k2, 52);
        assert(d1 * (pow2(k1) * pow2(53)) == e1 * pow2(53)) by (nonlinear_arith)
            requires
                e1 == d1 * pow2(k1),
        ;
        assert(d2 * (pow2(k2) * pow2(52)) == e2 * pow2(52)) by (nonlinear_arith)
            requires
                e2 == d2 * pow2(k2),
        ;
        lemma_half_even_bounds(n1, e1, pow2(53));
        lemma_half_even_bounds(n2, e2, pow2(52));
        assert(k1 * HIDDEN + HIDDEN <= k2 * HIDDEN) by (nonlinear_arith)
            requires
                k1 + 1 <= k2,
        ;
    }
}

pub proof fn lemma_whole_pattern(n: nat)
    requires
        n < 0x20_0000_0000_0000,
    ensures
        whole(n).pattern() == nearest(n * pow2(1074), 1),
        !whole(n).neg(),
        whole(n).finite(),
        whole(n).magnitude() == n * pow2(1074),
{
    whole_is_exact(n);
    reveal(whole);
}

/// A double is the double nearest to itself.
pub proof fn doubles_round_to_themselves(pattern: int)
    requires
        0 <= pattern < INFINITY_BITS,
    ensures
        nearest(magnitude_of(pattern), 1) == pattern,
{
    let m = magnitude_of(pattern);
    lemma_magnitude_parts(pattern);
    lemma2_to64();
    lemma2_to64_rest();
    if pattern < HIDDEN {
        lemma_last_place(m, 1, 0);
        lemma_div_unique(m as int, 1, m as int);
    } else {
        let e = pattern / (HIDDEN as int);
        let k = (e - 1) as nat;
        let f = (pattern - e * HIDDEN + HIDDEN) as nat;
        lemma_pow2_pos(k);
        lemma_pow2_adds(k, 53);
        lemma_pow2_adds(k, 52);
        assert(m == f * pow2(k));
        assert(f * pow2(k) < pow2(k) * pow2(53)) by (nonlinear_arith)
            requires
                f < pow2(53),
                pow2(k) > 0,
        ;
        assert(f * pow2(k) >= pow2(k) * pow2(52)) by (nonlinear_arith)
            requires
                f >= pow2(52),
                pow2(k) > 0,
        ;
        lemma_last_place(m, 1, k);
        assert((f + 1) * pow2(k) == f * pow2(k) + pow2(k)) by (nonlinear_arith);
        lemma_div_unique(m as int, (1 * pow2(k)) as int, f as int);
        assert(half_even(m, 1 * pow2(k)) == f);
        assert(f + k * HIDDEN == pattern) by (nonlinear_arith)
            requires
                f == pattern - e * HIDDEN + HIDDEN,
                k == e - 1,
        ;
    }
}

/// Adding more gives no less.
pub proof fn sums_keep_order(a: Scalar, b: Scalar, c: Scalar)
    requires
        a.finite(),
        b.finite(),
        c.finite(),
        b.at_most(c),
    ensures
        a.plus(b).at_most(a.plus(c)),
{
    reveal(Scalar::plus);
    order_is_by_value(b, c);
    let s = a.value() + b.value();
    let t = a.value() + c.value();
    assert(s <= t);
    if s < 0 && t < 0 {
        rounding_keeps_order((-t) as nat, 1, (-s) as nat, 1);
    } else if s > 0 {
        rounding_keeps_order(s as nat, 1, t as nat, 1);
    }
}

/// Where the exact sum is a double, the sum is that double.
pub proof fn exact_sums_are_exact(a: Scalar, b: Scalar, c: Scalar)
    requires
        a.finite(),
        b.finite(),
        c.finite(),
        a.value() + b.value() == c.value(),
    ensures
        a.plus(b).equals(c),
        a.plus(b).finite(),
{
    reveal(Scalar::plus);
    doubles_round_to_themselves(c.pattern());
    if c.pattern() > 0 {
        lemma_magnitude_order(0, c.pattern());
    }
}

/// A number times a part of one lies between nothing and the number.
pub proof fn parts_lie_between(part: Scalar, all: Scalar)
    requires
        all.finite(),
        whole(0).at_most(part),
        part.at_most(whole(1)),
    ensures
        part.times(all).finite(),
        whole(0).at_most(all) ==> whole(0).at_most(part.times(all)) && part.times(all).at_most(all),
        all.at_most(whole(0)) ==> part.times(all).at_most(whole(0)) && all.at_most(part.times(all)),
{
    reveal(Scalar::times);
    let unit = pow2(1074);
    lemma_pow2_pos(1074);
    lemma_whole_pattern(0);
    lemma_whole_pattern(1);
    assert(0 * unit == 0);
    lemma_nearest_zero(1);
    order_is_by_value(part, whole(1));
    if part.pattern() > 0 {
        lemma_magnitude_order(0, part.pattern());
    }
    let x = part.magnitude();
    let y = all.magnitude();
    assert(x <= unit);
    assert((x * y) * 1 <= y * unit) by (nonlinear_arith)
        requires
            x <= unit,
    ;
    rounding_keeps_order(x * y, unit, y, 1);
    doubles_round_to_themselves(all.pattern());
    if part.neg() {
        assert(part.pattern() == 0);
        assert(x == 0);
        assert(0 * y == 0);
        lemma_nearest_zero(unit);
    }
    if all.pattern() == 0 {
        assert(y == 0);
        assert(x * 0 == 0);
        lemma_nearest_zero(unit);
    }
}

/// A pattern no larger than that of a whole number stands for no more than that number.
pub proof fn lemma_within(x: Scalar, n: nat)
    requires
        n < 0x20_0000_0000_0000,
        x.pattern() <= whole(n).pattern(),
    ensures
        x.finite(),
        x.magnitude() <= n * pow2(1074),
{
    lemma_whole_pattern(n);
    if x.pattern() < whole(n).pattern() {
        lemma_magnitude_order(x.pattern(), whole(n).pattern());
    }
}

/// A sum is no further from zero than its terms allow.
pub proof fn lemma_sum_within(a: Scalar, b: Scalar, m: nat, n: nat)
    requires
        m + n < 0x20_0000_0000_0000,
        a.finite(),
        b.finite(),
        a.magnitude() <= m * pow2(1074),
        b.magnitude() <= n * pow2(1074),
    ensures
        a.plus(b).finite(),
        a.plus(b).magnitude() <= (m + n) * pow2(1074),
{
    reveal(Scalar::plus);
    let unit = pow2(1074);
    let sum = a.value() + b.value();
    let size: nat = if sum < 0 {
        (-sum) as nat
    } else {
        sum as nat
    };
    assert(m * unit + n * unit == (m + n) * unit) by (nonlinear_arith);
    lemma_whole_pattern(m + n);
    rounding_keeps_order(size, 1, (m + n) * unit, 1);
    lemma_within(a.plus(b), m + n);
}

/// A difference is no further from zero than its terms allow.
pub proof fn lemma_difference_within(a: Scalar, b: Scalar, m: nat, n: nat)
    requires
        m + n < 0x20_0000_0000_0000,
        a.finite(),
        b.finite(),
        a.magnitude() <= m * pow2(1074),
        b.magnitude() <= n * pow2(1074),
    ensures
        a.minus(b).finite(),
        a.minus(b).magnitude() <= (m + n) * pow2(1074),
{
    lemma_sum_within(a, b.negated(), m, n);
}

/// From a common start, what lies nearer is no further away than what lies beyond it.
pub proof fn lemma_nearer(start: Scalar, near: Scalar, far: Scalar)
    requires
        start.finite(),
        near.finite(),
        far.finite(),
        far.minus(start).finite(),
        start.at_most(near),
        near.at_most(far),
    ensures
        near.minus(start).finite(),
        near.minus(start).magnitude() <= far.minus(start).magnitude(),
{
    reveal(Scalar::plus);
    order_is_by_value(start, near);
    order_is_by_value(near, far);
    let a = near.value() - start.value();
    let b = far.value() - start.value();
    assert(start.negated().value() == -start.value());
    rounding_keeps_order(a as nat, 1, b as nat, 1);
    lemma_nearest_zero(1);
    let x = near.minus(start);
    let y = far.minus(start);
    assert(x.pattern() <= y.pattern());
    if x.pattern() < y.pattern() {
        lemma_magnitude_order(x.pattern(), y.pattern());
    }
}

/// A part over the whole of it is at most one.
pub proof fn lemma_fraction_within(part: Scalar, all: Scalar)
    requires
        part.finite(),
        all.finite(),
        all.magnitude() > 0,
        part.magnitude() <= all.magnitude(),
    ensures
        part.over(all).finite(),
        part.over(all).magnitude() <= pow2(1074),
{
    reveal(Scalar::over);
    let unit = pow2(1074);
    let a = part.magnitude();
    let b = all.magnitude();
    lemma_whole_pattern(1);
    assert((a * unit) * 1 <= (1 * unit) * b) by (nonlinear_arith)
        requires
            a <= b,
    ;
    rounding_keeps_order(a * unit, b, 1 * unit, 1);
    lemma_within(part.over(all), 1);
}

/// A number times at most one is no further from zero than it was.
pub proof fn lemma_product_within(a: Scalar, b: Scalar, m: nat)
    requires
        m < 0x20_0000_0000_0000,
        a.finite(),
        b.finite(),
        a.magnitude() <= m * pow2(1074),
        b.magnitude() <= pow2(1074),
    ensures
        a.times(b).finite(),
        a.times(b).magnitude() <= m * pow2(1074),
{
    reveal(Scalar::times);
    let unit = pow2(1074);
    let x = a.magnitude();
    let y = b.magnitude();
    lemma_pow2_pos(1074);
    lemma_whole_pattern(m);
    assert((x * y) * 1 <= (m * unit) * unit) by (nonlinear_arith)
        requires
            x <= m * unit,
            y <= unit,
    ;
    rounding_keeps_order(x * y, unit, m * unit, 1);
    lemma_within(a.times(b), m);
}

/// A percentage rounded to a tenth is a percentage.
pub proof fn tenths_stay_percentages(duty: Scalar)
    requires
        whole(0).at_most(duty),
        duty.at_most(whole(100)),
    ensures
        duty.times(whole(10)).rounded().over(whole(10)).finite(),
        whole(0).at_most(duty.times(whole(10)).rounded().over(whole(10))),
        duty.times(whole(10)).rounded().over(whole(10)).at_most(whole(100)),
{
    reveal(Scalar::times);
    reveal(Scalar::over);
    reveal(Scalar::rounded);
    let unit = pow2(1074);
    lemma_pow2_pos(1074);
    lemma_whole_pattern(0);
    lemma_whole_pattern(10);
    lemma_whole_pattern(100);
    lemma_whole_pattern(1000);
    lemma_nearest_zero(1);
    assert(0 * unit == 0);
    assert(whole(10).magnitude() > 0);
    assert(!whole(10).zero()) by {
        whole_is_exact(10);
    }
    order_is_by_value(duty, whole(100));
    if duty.pattern() > 0 {
        lemma_magnitude_order(0, duty.pattern());
    }
    let m = duty.magnitude();
    assert(m <= 100 * unit);
    // Times ten.
    let x = duty.times(whole(10));
    assert((m * (10 * unit)) * 1 <= (1000 * unit) * unit) by (nonlinear_arith)
        requires
            m <= 100 * unit,
    ;
    rounding_keeps_order(m * (10 * unit), unit, 1000 * unit, 1);
    assert(x.pattern() == nearest(m * (10 * unit), unit));
    assert(x.pattern() <= whole(1000).pattern());
    if x.pattern() < whole(1000).pattern() {
        lemma_magnitude_order(x.pattern(), whole(1000).pattern());
    }
    let mx = x.magnitude();
    assert(mx <= 1000 * unit);
    // To the nearest whole number.
    let y = x.rounded();
    let n = (2 * mx + unit) / (2 * unit);
    assert(n <= 1000) by (nonlinear_arith)
        requires
            mx <= 1000 * unit,
            unit > 0,
            n == (2 * mx + unit) / (2 * unit),
    ;
    assert((n * unit) * 1 <= (1000 * unit) * 1) by (nonlinear_arith)
        requires
            n <= 1000,
    ;
    rounding_keeps_order((n * unit) as nat, 1, 1000 * unit, 1);
    assert(y.pattern() <= whole(1000).pattern());
    if y.pattern() < whole(1000).pattern() {
        lemma_magnitude_order(y.pattern(), whole(1000).pattern());
    }
    let my = y.magnitude();
    assert(my <= 1000 * unit);
    // Over ten.
    let z = y.over(whole(10));
    assert((my * unit) * 1 <= (100 * unit) * (10 * unit)) by (nonlinear_arith)
        requires
            my <= 1000 * unit,
    ;
    rounding_keeps_order(my * unit, 10 * unit, 100 * unit, 1);
    assert(z.pattern() == nearest(my * unit, 10 * unit));
    if duty.neg() {
        assert(duty.pattern() == 0);
        assert(m == 0);
        assert(0 * (10 * unit) == 0);
        lemma_nearest_zero(unit);
        assert(x.pattern() == 0);
        assert(mx == 0);
        assert(n == 0) by (nonlinear_arith)
            requires
                n == (2 * 0 + unit) / (2 * unit),
                unit > 0,
        ;
        assert(y.pattern() == 0);
        assert(my == 0);
        lemma_nearest_zero(10 * unit);
        assert(z.pattern() == 0);
    }
}

} // verus!
