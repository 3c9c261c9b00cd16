//! Binary64 numbers, held by their bit pattern.
//!
//! Durations and timestamps are IEEE 754 binary64 numbers. The library holds each by its 64 bits
//! and works on those bits with integer arithmetic alone, so that what it decides about a number
//! is stated over the exact value that the bits stand for.
use vstd::arithmetic::div_mod::{lemma_fundamental_div_mod, lemma_fundamental_div_mod_converse};
use vstd::arithmetic::mul::{
    lemma_mul_inequality, lemma_mul_is_commutative, lemma_mul_strict_inequality,
};
use vstd::arithmetic::power2::{
    lemma2_to64, lemma2_to64_rest, lemma_pow2_adds, lemma_pow2_pos, lemma_pow2_strictly_increases,
    lemma_pow2_unfold, pow2,
};
use vstd::prelude::*;

verus! {

/// The bit that says that a number is negative.
pub const SIGN: u64 = 0x8000_0000_0000_0000;

/// The magnitude of the infinities; a greater one is not a number.
pub const INFINITY: u64 = 0x7FF0_0000_0000_0000;

/// A magnitude that is not a number.
pub const NOT_A_NUMBER: u64 = 0x7FF8_0000_0000_0000;

/// Two to the 52: the significand's hidden bit, and the step of the exponent field.
pub const HIDDEN: u64 = 0x10_0000_0000_0000;

/// A binary64 number.
#[derive(Clone, Copy, Debug)]
pub struct Binary64 {
    /// The 64 bits of the number: sign, eleven bits of exponent, 52 bits of fraction.
    pub bits: u64,
}

/// The significand of the magnitude `m`: its fraction, with the hidden bit unless subnormal.
pub open spec fn significand(m: nat) -> nat {
    if m < HIDDEN {
        m
    } else {
        HIDDEN as nat + m % (HIDDEN as nat)
    }
}

/// The exponent of the last place of the magnitude `m`, counted from the least one.
pub open spec fn place(m: nat) -> nat {
    if m < HIDDEN {
        0
    } else {
        (m / (HIDDEN as nat) - 1) as nat
    }
}

/// What the magnitude `m` stands for, as a multiple of 2 to the -1074. That of the infinities
/// is 2 to the 1024, the least power of two beyond the finite numbers.
pub open spec fn weight(m: nat) -> nat {
    significand(m) * pow2(place(m))
}

impl Binary64 {
    /// Whether the sign bit is set.
    pub open spec fn negative(self) -> bool {
        self.bits >= SIGN
    }

    /// The bits without the sign.
    pub open spec fn magnitude(self) -> nat {
        if self.negative() {
            (self.bits - SIGN) as nat
        } else {
            self.bits as nat
        }
    }

    pub open spec fn nan(self) -> bool {
        self.magnitude() > INFINITY
    }

    pub open spec fn infinite(self) -> bool {
        self.magnitude() == INFINITY
    }

    pub open spec fn finite(self) -> bool {
        self.magnitude() < INFINITY
    }

    /// The number as a multiple of 2 to the -1074: exact for the finite ones, and beyond all
    /// of those for the infinities.
    pub open spec fn value(self) -> int {
        if self.negative() {
            -(weight(self.magnitude()) as int)
        } else {
            weight(self.magnitude()) as int
        }
    }

    /// `self < other`, as numbers: false where either is not a number, and between the two
    /// zeros.
    pub open spec fn less(self, other: Binary64) -> bool {
        !self.nan() && !other.nan() && self.value() < other.value()
    }

    /// `self <= other`, as numbers.
    pub open spec fn at_most(self, other: Binary64) -> bool {
        !self.nan() && !other.nan() && self.value() <= other.value()
    }

    /// `self` without its sign.
    pub open spec fn absolute(self) -> Binary64 {
        Binary64 { bits: self.magnitude() as u64 }
    }

    /// `self` with the other sign.
    pub open spec fn opposite(self) -> Binary64 {
        if self.negative() {
            Binary64 { bits: (self.bits - SIGN) as u64 }
        } else {
            Binary64 { bits: (self.bits + SIGN) as u64 }
        }
    }
}

/// `p / d` rounded to an integer, and to the even one where two are equally near.
pub open spec fn half_even(p: nat, d: nat) -> nat {
    let t = p / d;
    let rem = p % d;
    if 2 * rem < d || (2 * rem == d && t % 2 == 0) {
        t
    } else {
        t + 1
    }
}

/// Whether `k` is the exponent of the last place to which `p / q` is rounded: the least one
/// that leaves at most 53 significant bits.
pub open spec fn is_place(p: nat, q: nat, k: nat) -> bool {
    &&& p < q * pow2(53 + k)
    &&& k > 0 ==> p >= q * pow2((52 + k) as nat)
}

/// `p / q` rounded to a multiple of two to the `k`.
pub open spec fn rounded(p: nat, q: nat, k: nat) -> nat {
    half_even(p, q * pow2(k)) * pow2(k)
}

/// Whether `m` is the magnitude nearest to `p / q` (in units of 2 to the -1074): 53 significant
/// bits, ties to the even one, and infinity where the rounded number is beyond the finite ones.
pub open spec fn nearest(p: nat, q: nat, m: nat) -> bool {
    exists|k: nat| #[trigger]
        is_place(p, q, k) && if rounded(p, q, k) >= weight(INFINITY as nat) {
            m == INFINITY
        } else {
            m < INFINITY && weight(m) == rounded(p, q, k)
        }
}

/// A subnormal magnitude stands for itself.
proof fn lemma_weight_subnormal(m: nat)
    requires
        m < HIDDEN,
    ensures
        weight(m) == m,
{
    lemma2_to64();
    assert(m * pow2(0) == m) by (nonlinear_arith)
        requires
            pow2(0) == 1,
    ;
}

/// The magnitude zero stands for zero.
pub proof fn lemma_weight_zero()
    ensures
        weight(0) == 0,
{
    lemma_weight_subnormal(0);
}

/// A greater magnitude stands for a greater number.
pub proof fn lemma_weight_increases(m: nat, n: nat)
    requires
        m < n,
    ensures
        weight(m) < weight(n),
{
    lemma2_to64();
    lemma2_to64_rest();
    let h = HIDDEN as nat;
    lemma_fundamental_div_mod(m as int, h as int);
    lemma_fundamental_div_mod(n as int, h as int);
    lemma_pow2_pos(place(m));
    lemma_pow2_pos(place(n));
    if n < h {
        lemma_weight_subnormal(m);
        lemma_weight_subnormal(n);
    } else if m < h {
        lemma_weight_subnormal(m);
        lemma_mul_inequality(1, pow2(place(n)) as int, significand(n) as int);
        lemma_mul_is_commutative(pow2(place(n)) as int, significand(n) as int);
    } else if place(m) == place(n) {
        lemma_mul_strict_inequality(significand(m) as int, significand(n) as int, pow2(place(m)) as int);
    } else {
        assert(place(m) < place(n));
        let k = place(m);
        lemma_mul_strict_inequality(significand(m) as int, 2 * h as int, pow2(k) as int);
        lemma_pow2_unfold(k + 1);
        assert(2 * h * pow2(k) == h * pow2(k + 1)) by (nonlinear_arith)
            requires
                pow2(k + 1) == 2 * pow2(k),
        ;
        if k + 1 < place(n) {
            lemma_pow2_strictly_increases(k + 1, place(n));
        }
        assert(h * pow2(k + 1) <= significand(n) * pow2(place(n))) by (nonlinear_arith)
            requires
                h <= significand(n),
                pow2(k + 1) <= pow2(place(n)),
        ;
    }
}

/// The magnitude that `t` units of the place `k` have.
proof fn lemma_encode(t: nat, k: nat)
    requires
        t <= 2 * HIDDEN,
        k > 0 ==> t >= HIDDEN,
    ensures
        weight(k * (HIDDEN as nat) + t) == t * pow2(k),
{
    let h = HIDDEN as nat;
    let m = k * h + t;
    lemma2_to64();
    if t < h {
        lemma_weight_subnormal(t);
    } else if t < 2 * h {
        assert(m == (k + 1) * h + (t - h)) by (nonlinear_arith)
            requires
                m == k * h + t,
        ;
        lemma_fundamental_div_mod_converse(m as int, h as int, (k + 1) as int, (t - h) as int);
    } else {
        assert(m == (k + 2) * h + 0) by (nonlinear_arith)
            requires
                m == k * h + t,
                t == 2 * h,
        ;
        lemma_fundamental_div_mod_converse(m as int, h as int, (k + 2) as int, 0);
        lemma_pow2_unfold(k + 1);
        assert(h * pow2(k + 1) == t * pow2(k)) by (nonlinear_arith)
            requires
                pow2(k + 1) == 2 * pow2(k),
                t == 2 * h,
        ;
    }
}

/// Rounding is decided by the quotient and the remainder.
proof fn lemma_half_even(p: nat, d: nat, t: nat, rem: nat)
    requires
        p == t * d + rem,
        rem < d,
    ensures
        half_even(p, d) == if 2 * rem < d || (2 * rem == d && t % 2 == 0) {
            t
        } else {
            t + 1
        },
{
    lemma_fundamental_div_mod_converse(p as int, d as int, t as int, rem as int);
}

/// The rounded units of a place, encoded, are the nearest magnitude.
proof fn lemma_nearest(p: nat, q: nat, k: nat, t: nat)
    requires
        is_place(p, q, k),
        t == half_even(p, q * pow2(k)),
        t <= 2 * HIDDEN,
        k > 0 ==> t >= HIDDEN,
    ensures
        ({
            let m = k * (HIDDEN as nat) + t;
            nearest(p, q, if m >= INFINITY { INFINITY as nat } else { m })
        }),
{
    let m = k * (HIDDEN as nat) + t;
    lemma_encode(t, k);
    assert(rounded(p, q, k) == weight(m));
    if m > INFINITY {
        lemma_weight_increases(INFINITY as nat, m);
    }
    if m < INFINITY {
        lemma_weight_increases(m, INFINITY as nat);
    }
    assert(is_place(p, q, k));
}

/// Scaling both sides of a division leaves its rounding as it is.
proof fn lemma_half_even_scaled(x: nat, d: nat, c: nat)
    requires
        d > 0,
        c > 0,
    ensures
        half_even(x * c, d * c) == half_even(x, d),
{
    let t = x / d;
    let rem = x % d;
    lemma_fundamental_div_mod(x as int, d as int);
    assert(x * c == t * (d * c) + rem * c) by (nonlinear_arith)
        requires
            x == d * t + rem,
    ;
    assert(rem * c < d * c) by (nonlinear_arith)
        requires
            rem < d,
            c > 0,
    ;
    assert(2 * (rem * c) < d * c <==> 2 * rem < d) by (nonlinear_arith)
        requires
            c > 0,
    ;
    assert(2 * (rem * c) == d * c <==> 2 * rem == d) by (nonlinear_arith)
        requires
            c > 0,
    ;
    lemma_half_even(x * c, d * c, t, rem * c);
}

/// The magnitude nearest to `x` units of the place `e`.
fn encode_nearest(x: u128, e: u32) -> (m: u64)
    requires
        0 < x < pow2(120),
        e <= 2100,
    ensures
        nearest(x as nat * pow2(e as nat), 1, m as nat),
{
    let ghost p = x as nat * pow2(e as nat);
    proof {
        lemma2_to64();
        lemma2_to64_rest();
        lemma_pow2_pos(e as nat);
        lemma_pow2_adds(60, 60);
    }
    let mut limit: u128 = 0x20_0000_0000_0000;
    let mut unit: u128 = 1;
    let mut s: u32 = 0;
    while x >= limit
        invariant
            x < pow2(120),
            pow2(120) == 0x100_0000_0000_0000_0000_0000_0000_0000,
            s <= 67,
            limit == pow2(53 + s as nat),
            unit == pow2(s as nat),
            s > 0 ==> x >= pow2((52 + s) as nat),
        decreases 70 - s,
    {
        proof {
            lemma_pow2_unfold(54 + s as nat);
            lemma_pow2_unfold(1 + s as nat);
            lemma_pow2_strictly_increases(s as nat, 53 + s as nat);
        }
        limit = limit * 2;
        unit = unit * 2;
        s = s + 1;
    }
    proof {
        lemma_pow2_pos(s as nat);
    }
    let mut t: u64 = 0;
    let mut k: u32 = e;
    if s > 0 {
        let whole: u128 = x / unit;
        let rem: u128 = x % unit;
        proof {
            lemma_fundamental_div_mod(x as int, unit as int);
            lemma_pow2_adds(52, s as nat);
            lemma_pow2_adds(53, s as nat);
            let u = unit as int;
            let w = whole as int;
            assert(w < 2 * HIDDEN && w >= HIDDEN) by (nonlinear_arith)
                requires
                    u * w + rem == x,
                    0 <= rem < u,
                    x < (2 * HIDDEN) * u,
                    x >= HIDDEN * u,
            ;
        }
        t = whole as u64;
        k = e + s;
        if 2 * rem > unit || (2 * rem == unit && whole % 2 == 1) {
            t = t + 1;
        }
        proof {
            lemma_half_even(x as nat, unit as nat, whole as nat, rem as nat);
            lemma_half_even_scaled(x as nat, unit as nat, pow2(e as nat));
            lemma_pow2_adds(s as nat, e as nat);
            lemma_pow2_adds(52 + s as nat, e as nat);
            lemma_pow2_adds(53 + s as nat, e as nat);
            lemma_mul_strict_inequality(x as int, pow2(53 + s as nat) as int, pow2(e as nat) as int);
            lemma_mul_inequality(pow2(52 + s as nat) as int, x as int, pow2(e as nat) as int);
            assert(53 + s as nat + e as nat == 53 + k as nat);
            assert(52 + s as nat + e as nat == 52 + k as nat);
        }
    } else {
        t = x as u64;
        while t < HIDDEN && k > 0
            invariant
                0 < t < 2 * HIDDEN,
                k <= e <= 2100,
                t as nat * pow2(k as nat) == p,
                k < e ==> t >= 2,
            decreases k,
        {
            proof {
                lemma_pow2_unfold(k as nat);
                let c = pow2((k - 1) as nat) as int;
                let u = t as int;
                assert(u * (2 * c) == (2 * u) * c) by (nonlinear_arith);
            }
            t = t * 2;
            k = k - 1;
        }
        proof {
            let c = pow2(k as nat);
            lemma_pow2_pos(k as nat);
            lemma_half_even(p, c, t as nat, 0);
            lemma_pow2_adds(53, k as nat);
            lemma_pow2_adds(52, k as nat);
            lemma_mul_strict_inequality(t as int, 2 * HIDDEN, c as int);
            if k > 0 {
                lemma_mul_inequality(HIDDEN as int, t as int, c as int);
            }
        }
    }
    assert(is_place(p, 1, k as nat));
    proof {
        lemma_nearest(p, 1, k as nat, t as nat);
    }
    let m: u64 = k as u64 * HIDDEN + t;
    if m >= INFINITY {
        INFINITY
    } else {
        m
    }
}

/// Whether `r` is the binary64 sum of `a` and `b`: the number nearest to the exact sum. An exact
/// sum of zero is negative only where both terms are. Of the patterns that are not a number it is
/// always the same one.
pub open spec fn is_sum(a: Binary64, b: Binary64, r: Binary64) -> bool {
    if a.nan() || b.nan() || (a.infinite() && b.infinite() && a.negative() != b.negative()) {
        r.bits == NOT_A_NUMBER
    } else if a.infinite() {
        r == a
    } else if b.infinite() {
        r == b
    } else if a.value() + b.value() == 0 {
        r.bits == if a.negative() && b.negative() {
            SIGN
        } else {
            0
        }
    } else if a.value() + b.value() > 0 {
        !r.negative() && nearest((a.value() + b.value()) as nat, 1, r.magnitude())
    } else {
        r.negative() && nearest(-(a.value() + b.value()) as nat, 1, r.magnitude())
    }
}

/// The binary64 sum of `a` and `b`.
pub open spec fn sum(a: Binary64, b: Binary64) -> Binary64 {
    choose|r: Binary64| is_sum(a, b, r)
}

/// The binary64 difference of `a` and `b`.
pub open spec fn difference(a: Binary64, b: Binary64) -> Binary64 {
    sum(a, b.opposite())
}

/// Whether `r` is the binary64 quotient of the integers `n` and `d`.
pub open spec fn is_quotient(n: nat, d: nat, r: Binary64) -> bool {
    if n == 0 {
        r.bits == 0
    } else {
        !r.negative() && nearest(n * pow2(1074), d, r.magnitude())
    }
}

/// Magnitudes are ordered as what they stand for.
pub proof fn lemma_weight_order(m: nat, n: nat)
    ensures
        m < n <==> weight(m) < weight(n),
        m == n <==> weight(m) == weight(n),
{
    if m < n {
        lemma_weight_increases(m, n);
    }
    if n < m {
        lemma_weight_increases(n, m);
    }
}

/// Rounding has one result.
pub proof fn lemma_nearest_unique(p: nat, q: nat, m: nat, n: nat)
    requires
        q > 0,
        nearest(p, q, m),
        nearest(p, q, n),
    ensures
        m == n,
{
    let k = choose|k: nat| #[trigger]
        is_place(p, q, k) && if rounded(p, q, k) >= weight(INFINITY as nat) {
            m == INFINITY
        } else {
            m < INFINITY && weight(m) == rounded(p, q, k)
        };
    let j = choose|j: nat| #[trigger]
        is_place(p, q, j) && if rounded(p, q, j) >= weight(INFINITY as nat) {
            n == INFINITY
        } else {
            n < INFINITY && weight(n) == rounded(p, q, j)
        };
    lemma_place_unique(p, q, k, j);
    lemma_place_unique(p, q, j, k);
    lemma_weight_order(m, n);
}

proof fn lemma_place_unique(p: nat, q: nat, k: nat, j: nat)
    requires
        q > 0,
        is_place(p, q, k),
        is_place(p, q, j),
    ensures
        k <= j,
{
    if j < k {
        if 53 + j < 52 + k {
            lemma_pow2_strictly_increases(53 + j, (52 + k) as nat);
        }
        assert(q * pow2(53 + j) <= q * pow2((52 + k) as nat)) by (nonlinear_arith)
            requires
                pow2(53 + j) <= pow2((52 + k) as nat),
        ;
    }
}

/// An integer has a place to which it is rounded.
proof fn lemma_place_exists(p: nat, from: nat) -> (k: nat)
    requires
        from > 0 ==> p >= pow2((52 + from) as nat),
    ensures
        is_place(p, 1, k),
    decreases
            if p >= pow2(53 + from) {
                p - pow2(53 + from) + 1
            } else {
                0
            },
{
    if p < pow2(53 + from) {
        from
    } else {
        lemma_pow2_strictly_increases(53 + from, 54 + from);
        lemma_place_exists(p, from + 1)
    }
}

/// Two numbers have a sum.
pub proof fn lemma_sum_exists(a: Binary64, b: Binary64)
    ensures
        is_sum(a, b, sum(a, b)),
{
    let s = a.value() + b.value();
    if a.nan() || b.nan() || (a.infinite() && b.infinite() && a.negative() != b.negative()) {
        assert(is_sum(a, b, Binary64 { bits: NOT_A_NUMBER }));
    } else if a.infinite() {
        assert(is_sum(a, b, a));
    } else if b.infinite() {
        assert(is_sum(a, b, b));
    } else if s == 0 {
        let bits = if a.negative() && b.negative() { SIGN } else { 0 };
        assert(is_sum(a, b, Binary64 { bits }));
    } else {
        lemma2_to64();
        lemma2_to64_rest();
        let p = if s > 0 { s as nat } else { -s as nat };
        let h = HIDDEN as nat;
        let k = lemma_place_exists(p, 0);
        let u = pow2(k);
        lemma_pow2_pos(k);
        lemma_pow2_adds(52, k);
        lemma_pow2_adds(53, k);
        lemma_fundamental_div_mod(p as int, u as int);
        assert(p / u < 2 * h && (k > 0 ==> p / u >= h)) by (nonlinear_arith)
            requires
                p == u * (p / u) + p % u,
                0 <= p % u < u,
                p < (2 * h) * u,
                k > 0 ==> p >= h * u,
        ;
        let t = half_even(p, 1 * u);
        lemma_nearest(p, 1, k, t);
        let m = k * h + t;
        let bits = (if m >= INFINITY { INFINITY as nat } else { m }) as u64;
        let r = Binary64 { bits: if s > 0 { bits } else { (SIGN + bits) as u64 } };
        assert(is_sum(a, b, r));
    }
}

/// Two numbers have one sum.
pub proof fn lemma_sum_unique(a: Binary64, b: Binary64, r: Binary64)
    requires
        is_sum(a, b, r),
    ensures
        sum(a, b) == r,
{
    let c = sum(a, b);
    assert(is_sum(a, b, c));
    if a.finite() && b.finite() && a.value() + b.value() != 0 {
        let s = a.value() + b.value();
        let p = if s > 0 { s as nat } else { -s as nat };
        lemma_nearest_unique(p, 1, c.magnitude(), r.magnitude());
    }
    assert(c.bits == r.bits);
}

/// A finite number is the nearest to itself.
pub proof fn lemma_nearest_exact(m: nat)
    requires
        m < INFINITY,
    ensures
        nearest(weight(m), 1, m),
{
    lemma2_to64();
    lemma2_to64_rest();
    let k = place(m);
    let t = significand(m);
    let h = HIDDEN as nat;
    lemma_pow2_pos(k);
    lemma_pow2_adds(52, k);
    lemma_pow2_adds(53, k);
    lemma_fundamental_div_mod(m as int, h as int);
    lemma_mul_strict_inequality(t as int, 2 * h as int, pow2(k) as int);
    if k > 0 {
        lemma_mul_inequality(h as int, t as int, pow2(k) as int);
    }
    assert(is_place(weight(m), 1, k));
    lemma_half_even(weight(m), 1 * pow2(k), t, 0);
    lemma_nearest(weight(m), 1, k, t);
    assert(k * h + t == m) by (nonlinear_arith)
        requires
            m < h ==> k == 0 && t == m,
            m >= h ==> m == h * (k + 1) + (t - h),
            h > 0,
    ;
}

/// Rounding an integer never carries it past a binary64 number.
pub proof fn lemma_nearest_monotone(p: nat, m: nat, c: nat)
    requires
        nearest(p, 1, m),
        c < INFINITY,
    ensures
        p >= weight(c) ==> m >= c,
        p <= weight(c) ==> m <= c,
{
    lemma2_to64();
    lemma2_to64_rest();
    let h = HIDDEN as nat;
    let k = choose|k: nat| #[trigger]
        is_place(p, 1, k) && if rounded(p, 1, k) >= weight(INFINITY as nat) {
            m == INFINITY
        } else {
            m < INFINITY && weight(m) == rounded(p, 1, k)
        };
    let j = place(c);
    let s = significand(c);
    let u = pow2(k);
    let v = pow2(j);
    let r = half_even(p, 1 * u);
    let t = p / u;
    let rem = p % u;
    lemma_pow2_pos(k);
    lemma_pow2_pos(j);
    lemma_pow2_adds(52, k);
    lemma_pow2_adds(53, k);
    lemma_pow2_adds(52, j);
    lemma_pow2_adds(53, j);
    lemma_fundamental_div_mod(c as int, h as int);
    lemma_fundamental_div_mod(p as int, u as int);
    lemma_mul_strict_inequality(s as int, 2 * h as int, v as int);
    lemma_weight_order(c, INFINITY as nat);
    lemma_weight_order(m, c);
    if k < j {
        lemma_mul_inequality(h as int, s as int, v as int);
        if 53 + k < 52 + j {
            lemma_pow2_strictly_increases(53 + k, 52 + j);
        }
        assert(p < weight(c));
        let w = pow2((j - k) as nat);
        lemma_pow2_adds((j - k) as nat, k);
        assert(s * (w * u) == (s * w) * u) by (nonlinear_arith);
        lemma_below(p, u, s * w);
    } else if k == j {
        if p <= weight(c) {
            lemma_below(p, u, s);
        }
        if p >= weight(c) {
            assert(t >= s) by (nonlinear_arith)
                requires
                    p == u * t + rem,
                    rem < u,
                    p >= s * u,
            ;
            lemma_mul_inequality(s as int, r as int, u as int);
        }
    } else {
        if 53 + j < 52 + k {
            lemma_pow2_strictly_increases(53 + j, 52 + k);
        }
        assert(p > weight(c));
        assert(t >= h) by (nonlinear_arith)
            requires
                p == u * t + rem,
                rem < u,
                p >= h * u,
        ;
        lemma_mul_inequality(h as int, r as int, u as int);
    }
}

/// What is at most a multiple of the unit is rounded to at most that multiple.
proof fn lemma_below(p: nat, u: nat, g: nat)
    requires
        u > 0,
        p <= g * u,
    ensures
        half_even(p, 1 * u) <= g,
        half_even(p, 1 * u) * u <= g * u,
{
    let t = p / u;
    let rem = p % u;
    lemma_fundamental_div_mod(p as int, u as int);
    assert(t <= g && (t == g ==> rem == 0)) by (nonlinear_arith)
        requires
            p == u * t + rem,
            0 <= rem,
            p <= g * u,
            u > 0,
    ;
    lemma_mul_inequality(half_even(p, 1 * u) as int, g as int, u as int);
}

/// Adding a positive number to zero gives that number.
pub proof fn lemma_sum_of_zero(d: Binary64)
    requires
        !d.nan(),
        d.value() > 0,
    ensures
        sum(Binary64 { bits: 0 }, d) == d,
{
    let zero = Binary64 { bits: 0 };
    lemma_weight_subnormal(0);
    if d.finite() {
        lemma_nearest_exact(d.magnitude());
    }
    assert(is_sum(zero, d, d));
    lemma_sum_unique(zero, d, d);
}

/// Adding a positive number to one that is not negative gives a number that is at least either.
pub proof fn lemma_sum_grows(a: Binary64, b: Binary64)
    requires
        !a.nan(),
        a.value() >= 0,
        !b.nan(),
        b.value() > 0,
    ensures
        a.at_most(sum(a, b)),
        b.at_most(sum(a, b)),
{
    let r = sum(a, b);
    lemma_sum_exists(a, b);
    lemma_weight_subnormal(0);
    lemma_weight_order(a.magnitude(), 0);
    lemma_weight_order(a.magnitude(), INFINITY as nat);
    lemma_weight_order(b.magnitude(), INFINITY as nat);
    lemma_weight_order(0, INFINITY as nat);
    if a.finite() && b.finite() {
        let s = (a.value() + b.value()) as nat;
        assert(nearest(s, 1, r.magnitude()));
        lemma_nearest_monotone(s, r.magnitude(), a.magnitude());
        lemma_nearest_monotone(s, r.magnitude(), b.magnitude());
        lemma_weight_order(a.magnitude(), r.magnitude());
        lemma_weight_order(b.magnitude(), r.magnitude());
    }
}

/// A term whose last place is far above the other term absorbs it.
proof fn lemma_absorbed(m: nat, delta: nat, up: bool)
    requires
        place(m) >= 65,
        m < INFINITY,
        delta < pow2((place(m) - 12) as nat),
    ensures
        up ==> nearest(weight(m) + delta, 1, m),
        !up ==> delta < weight(m) && nearest((weight(m) - delta) as nat, 1, m),
{
    lemma2_to64();
    lemma2_to64_rest();
    let k = place(m);
    let u = pow2(k);
    let t = significand(m);
    let h = HIDDEN as nat;
    lemma_pow2_adds((k - 12) as nat, 12);
    lemma_pow2_adds(52, k);
    lemma_pow2_adds(53, k);
    lemma_pow2_adds(51, k);
    lemma_pow2_unfold(k);
    lemma_fundamental_div_mod(m as int, h as int);
    assert(m == k * h + t) by (nonlinear_arith)
        requires
            m == h * (k + 1) + (t - h),
    ;
    assert(u >= 4096 * delta && u > 0);
    lemma_mul_inequality(h as int, t as int, u as int);
    lemma_mul_inequality((t + 1) as int, 2 * h as int, u as int);
    assert((t + 1) * u == t * u + u) by (nonlinear_arith);
    assert(h * u >= u) by (nonlinear_arith)
        requires
            h >= 1,
    ;
    if up {
        let p = weight(m) + delta;
        assert(is_place(p, 1, k));
        lemma_half_even(p, 1 * u, t, delta);
        lemma_nearest(p, 1, k, t);
    } else if delta == 0 {
        let p = weight(m);
        assert(is_place(p, 1, k));
        lemma_half_even(p, 1 * u, t, 0);
        lemma_nearest(p, 1, k, t);
    } else if t > h {
        let p = (weight(m) - delta) as nat;
        assert((t - 1) * u == t * u - u) by (nonlinear_arith);
        lemma_mul_inequality(h as int, t - 1, u as int);
        assert(is_place(p, 1, k));
        lemma_half_even(p, 1 * u, (t - 1) as nat, (u - delta) as nat);
        lemma_nearest(p, 1, k, t);
    } else {
        let p = (weight(m) - delta) as nat;
        let j = (k - 1) as nat;
        let v = pow2(j);
        assert(h * u == (2 * h) * v && (2 * h - 1) * v == (2 * h) * v - v && h * v + h * v == (2
            * h) * v) by (nonlinear_arith)
            requires
                u == 2 * v,
        ;
        lemma_pow2_adds(53, j);
        lemma_pow2_adds(52, j);
        assert(h * v >= v) by (nonlinear_arith)
            requires
                h >= 1,
        ;
        assert(is_place(p, 1, j));
        lemma_half_even(p, 1 * v, (2 * h - 1) as nat, (v - delta) as nat);
        lemma_nearest(p, 1, j, 2 * h);
        assert(j * h + 2 * h == m) by (nonlinear_arith)
            requires
                m == k * h + h,
                j == k - 1,
        ;
    }
}

impl Binary64 {
    /// The number that has these bits.
    pub fn from_bits(bits: u64) -> (r: Binary64)
        ensures
            r.bits == bits,
    {
        Binary64 { bits }
    }

    /// Whether the sign bit is set.
    pub fn is_negative(self) -> (r: bool)
        ensures
            r == self.negative(),
    {
        self.bits >= SIGN
    }

    /// The bits without the sign.
    fn unsigned(self) -> (m: u64)
        ensures
            m as nat == self.magnitude(),
    {
        if self.bits >= SIGN {
            self.bits - SIGN
        } else {
            self.bits
        }
    }

    /// The number without its sign.
    pub fn abs(self) -> (r: Binary64)
        ensures
            r == self.absolute(),
    {
        Binary64 { bits: self.unsigned() }
    }

    /// The number with the other sign.
    pub fn negated(self) -> (r: Binary64)
        ensures
            r == self.opposite(),
    {
        if self.bits >= SIGN {
            Binary64 { bits: self.bits - SIGN }
        } else {
            Binary64 { bits: self.bits + SIGN }
        }
    }

    /// Whether the number is neither infinite nor "not a number".
    pub fn is_finite(self) -> (r: bool)
        ensures
            r == self.finite(),
    {
        self.unsigned() < INFINITY
    }

    /// Whether the number is greater than zero.
    pub fn is_positive(self) -> (r: bool)
        ensures
            r == (!self.nan() && self.value() > 0),
    {
        proof {
            lemma_weight_order(0, self.magnitude());
            lemma_weight_subnormal(0);
        }
        0 < self.bits && self.bits <= INFINITY
    }

    /// `self < other`, as numbers.
    pub fn is_less(self, other: Binary64) -> (r: bool)
        ensures
            r == self.less(other),
    {
        let m: u64 = self.unsigned();
        let n: u64 = other.unsigned();
        proof {
            lemma_weight_order(m as nat, n as nat);
            lemma_weight_order(0, m as nat);
            lemma_weight_order(0, n as nat);
            lemma_weight_subnormal(0);
        }
        if m > INFINITY || n > INFINITY {
            false
        } else if self.is_negative() {
            if other.is_negative() {
                n < m
            } else {
                m > 0 || n > 0
            }
        } else {
            !other.is_negative() && m < n
        }
    }

    /// `self <= other`, as numbers.
    pub fn is_at_most(self, other: Binary64) -> (r: bool)
        ensures
            r == self.at_most(other),
    {
        let m: u64 = self.unsigned();
        let n: u64 = other.unsigned();
        if m > INFINITY || n > INFINITY {
            false
        } else {
            !other.is_less(self)
        }
    }

    /// The significand of the number, and the exponent of its last place.
    fn parts(self) -> (r: (u64, u32))
        requires
            self.finite(),
        ensures
            r.0 as nat == significand(self.magnitude()),
            r.1 as nat == place(self.magnitude()),
            r.0 < 2 * HIDDEN,
            r.1 <= 2045,
            r.1 > 0 ==> r.0 >= HIDDEN,
    {
        let m: u64 = self.unsigned();
        if m < HIDDEN {
            (m, 0)
        } else {
            (HIDDEN + m % HIDDEN, (m / HIDDEN - 1) as u32)
        }
    }

    /// The sum of two finite numbers, the first of which has the greater last place.
    fn plus_ordered(self, other: Binary64) -> (r: Binary64)
        requires
            self.finite(),
            other.finite(),
            place(self.magnitude()) >= place(other.magnitude()),
        ensures
            is_sum(self, other, r),
    {
        let (a, i) = self.parts();
        let (b, j) = other.parts();
        let d: u32 = i - j;
        let ghost wa = weight(self.magnitude());
        let ghost wb = weight(other.magnitude());
        proof {
            lemma2_to64();
            lemma2_to64_rest();
            lemma_pow2_pos(i as nat);
            lemma_pow2_pos(j as nat);
        }
        if d > 64 {
            proof {
                lemma_mul_strict_inequality(b as int, 2 * HIDDEN, pow2(j as nat) as int);
                lemma_pow2_adds(53, j as nat);
                if 53 + j < i - 12 {
                    lemma_pow2_strictly_increases(53 + j as nat, (i - 12) as nat);
                }
                lemma_absorbed(self.magnitude(), wb, true);
                lemma_absorbed(self.magnitude(), wb, false);
            }
            return self;
        }
        let mut step: u128 = 1;
        let mut n: u32 = 0;
        while n < d
            invariant
                n <= d <= 64,
                step == pow2(n as nat),
            decreases d - n,
        {
            proof {
                lemma_pow2_unfold(n as nat + 1);
                lemma2_to64();
                if n < 64 {
                    lemma_pow2_strictly_increases(n as nat, 64);
                }
            }
            step = step * 2;
            n = n + 1;
        }
        proof {
            lemma_pow2_adds(d as nat, j as nat);
            lemma_pow2_adds(53, 64);
            lemma_pow2_strictly_increases(117, 118);
            lemma_pow2_strictly_increases(53, 118);
            lemma_pow2_unfold(119);
            lemma_pow2_unfold(120);
            if d < 64 {
                lemma_pow2_strictly_increases(d as nat, 64);
            }
            assert(a * step <= pow2(117)) by (nonlinear_arith)
                requires
                    a < pow2(53),
                    0 <= step <= pow2(64),
                    pow2(117) == pow2(53) * pow2(64),
            ;
            lemma_pow2_adds(60, 60);
        }
        let x: u128 = a as u128 * step;
        let y: u128 = b as u128;
        let ghost c = pow2(j as nat);
        proof {
            assert((a * step) * c == a * (step * c)) by (nonlinear_arith);
            assert(wa == x as nat * c);
            assert(wb == y as nat * c);
            assert(x * c + y * c == (x + y) * c) by (nonlinear_arith);
            assert(x * c - y * c == (x - y) * c) by (nonlinear_arith);
            assert(y * c - x * c == (y - x) * c) by (nonlinear_arith);
            if x + y > 0 {
                lemma_mul_strict_inequality(0, x + y, c as int);
            }
            if x > y {
                lemma_mul_strict_inequality(0, x - y, c as int);
            }
            if y > x {
                lemma_mul_strict_inequality(0, y - x, c as int);
            }
        }
        if self.is_negative() == other.is_negative() {
            if x + y == 0 {
                return Binary64 { bits: if self.is_negative() { SIGN } else { 0 } };
            }
            let m: u64 = encode_nearest(x + y, j);
            Binary64 { bits: if self.is_negative() { SIGN + m } else { m } }
        } else if x == y {
            Binary64 { bits: 0 }
        } else if x > y {
            let m: u64 = encode_nearest(x - y, j);
            Binary64 { bits: if self.is_negative() { SIGN + m } else { m } }
        } else {
            let m: u64 = encode_nearest(y - x, j);
            Binary64 { bits: if other.is_negative() { SIGN + m } else { m } }
        }
    }

    /// The binary64 sum.
    pub fn plus(self, other: Binary64) -> (r: Binary64)
        ensures
            is_sum(self, other, r),
            r == sum(self, other),
    {
        let r: Binary64 = self.plus_unordered(other);
        proof {
            lemma_sum_unique(self, other, r);
        }
        r
    }

    /// The sum of two numbers of any kind.
    fn plus_unordered(self, other: Binary64) -> (r: Binary64)
        ensures
            is_sum(self, other, r),
    {
        let m: u64 = self.unsigned();
        let n: u64 = other.unsigned();
        if m > INFINITY || n > INFINITY {
            Binary64 { bits: NOT_A_NUMBER }
        } else if m == INFINITY {
            if n == INFINITY && self.is_negative() != other.is_negative() {
                Binary64 { bits: NOT_A_NUMBER }
            } else {
                self
            }
        } else if n == INFINITY {
            other
        } else {
            let (_, i) = self.parts();
            let (_, j) = other.parts();
            if i >= j {
                self.plus_ordered(other)
            } else {
                other.plus_ordered(self)
            }
        }
    }

    /// The binary64 difference.
    pub fn minus(self, other: Binary64) -> (r: Binary64)
        ensures
            is_sum(self, other.opposite(), r),
            r == difference(self, other),
    {
        self.plus(other.negated())
    }

    /// The binary64 quotient of two integers.
    pub fn quotient(n: u32, d: u32) -> (r: Binary64)
        requires
            d > 0,
        ensures
            is_quotient(n as nat, d as nat, r),
    {
        if n == 0 {
            return Binary64 { bits: 0 };
        }
        proof {
            lemma2_to64();
            lemma2_to64_rest();
        }
        let mut x: u128 = n as u128 * 0x10_0000;
        let low: u128 = d as u128 * 0x10_0000_0000_0000;
        let mut s: u32 = 20;
        while x < low
            invariant
                0 < n,
                0 < d,
                low == d * pow2(52),
                pow2(52) == 0x10_0000_0000_0000,
                x == n * pow2(s as nat),
                x < 2 * low,
                20 <= s <= 85,
            decreases 90 - s,
        {
            proof {
                lemma_pow2_unfold(s as nat + 1);
                let c = pow2(s as nat) as int;
                assert(n * (2 * c) == 2 * (n * c) && n * c >= c) by (nonlinear_arith)
                    requires
                        n >= 1,
                        c >= 0,
                ;
                lemma2_to64();
                lemma_pow2_adds(32, 52);
                if s >= 84 {
                    if s > 84 {
                        lemma_pow2_strictly_increases(84, s as nat);
                    }
                    assert(d * pow2(52) < pow2(84)) by (nonlinear_arith)
                        requires
                            d < pow2(32),
                            pow2(52) > 0,
                            pow2(84) == pow2(32) * pow2(52),
                    ;
                }
            }
            x = x * 2;
            s = s + 1;
        }
        let den: u128 = d as u128;
        let whole: u128 = x / den;
        let rem: u128 = x % den;
        let k: u32 = 1074 - s;
        let ghost p = n as nat * pow2(1074);
        proof {
            lemma_fundamental_div_mod(x as int, den as int);
            let w = whole as int;
            assert(HIDDEN <= w < 2 * HIDDEN) by (nonlinear_arith)
                requires
                    den * w + rem == x,
                    0 <= rem < den,
                    den * HIDDEN <= x < 2 * (den * HIDDEN),
            ;
            let c = pow2(k as nat);
            lemma_pow2_pos(k as nat);
            lemma_pow2_adds(s as nat, k as nat);
            lemma_pow2_adds(52, k as nat);
            lemma_pow2_adds(53, k as nat);
            assert(p == x * c) by (nonlinear_arith)
                requires
                    p == n * pow2(1074),
                    pow2(1074) == pow2(s as nat) * c,
                    x == n * pow2(s as nat),
            ;
            assert(is_place(p, d as nat, k as nat)) by {
                assert(x * c < d * (pow2(53) * c) && x * c >= d * (pow2(52) * c))
                    by (nonlinear_arith)
                    requires
                        c > 0,
                        x < d * pow2(53),
                        x >= d * pow2(52),
                ;
            }
            lemma_half_even(x as nat, den as nat, whole as nat, rem as nat);
            lemma_half_even_scaled(x as nat, den as nat, c);
        }
        let mut t: u64 = whole as u64;
        if 2 * rem > den || (2 * rem == den && whole % 2 == 1) {
            t = t + 1;
        }
        proof {
            lemma_nearest(p, d as nat, k as nat, t as nat);
        }
        Binary64 { bits: k as u64 * HIDDEN + t }
    }
}

// ─── Laws ───

/// What the 64 bits are: a sign, and a magnitude that is a finite number, infinite, or no number.
pub proof fn lemma_bits(bits: u64)
    ensures
        ({
            let x = Binary64 { bits };
            &&& bits < 0x8000_0000_0000_0000 ==> x.magnitude() == bits && x.value() == weight(
                bits as nat,
            )
            &&& bits >= 0x8000_0000_0000_0000 ==> x.magnitude() == bits - 0x8000_0000_0000_0000
                && x.value() == -(weight((bits - 0x8000_0000_0000_0000) as nat) as int)
            &&& x.finite() <==> x.magnitude() < 0x7FF0_0000_0000_0000
            &&& x.infinite() <==> x.magnitude() == 0x7FF0_0000_0000_0000
            &&& x.nan() <==> x.magnitude() > 0x7FF0_0000_0000_0000
        }),
{
}

/// The lesser magnitudes stand for themselves, and each step of the exponent doubles what a
/// magnitude stands for.
pub proof fn lemma_weight(m: nat)
    ensures
        m < 0x20_0000_0000_0000 ==> weight(m) == m,
        m >= 0x10_0000_0000_0000 ==> weight(m + 0x10_0000_0000_0000) == 2 * weight(m),
{
    let h = HIDDEN as nat;
    lemma2_to64();
    if m < h {
        lemma_weight_subnormal(m);
    } else {
        lemma_fundamental_div_mod(m as int, h as int);
        let q = m / h;
        let f = m % h;
        assert(m + h == (q + 1) * h + f) by (nonlinear_arith)
            requires
                m == h * q + f,
        ;
        lemma_fundamental_div_mod_converse((m + h) as int, h as int, (q + 1) as int, f as int);
        lemma_pow2_unfold(place(m) + 1);
        let s = significand(m);
        let u = pow2(place(m));
        assert(s * (2 * u) == 2 * (s * u)) by (nonlinear_arith);
        if m < 2 * h {
            lemma_fundamental_div_mod_converse(m as int, h as int, 1, (m - h) as int);
            assert(m * pow2(0) == m) by (nonlinear_arith)
                requires
                    pow2(0) == 1,
            ;
        }
    }
}

/// The order of numbers is that of what they stand for, and what is no number has none.
pub proof fn lemma_order(a: Binary64, b: Binary64)
    ensures
        a.less(b) <==> !a.nan() && !b.nan() && a.value() < b.value(),
        a.at_most(b) <==> !a.nan() && !b.nan() && a.value() <= b.value(),
        !a.nan() && !b.nan() ==> (a.at_most(b) <==> !b.less(a)),
{
}

/// Changing the sign twice changes nothing, and once changes that of the value. Without its sign
/// a number is its distance from zero.
pub proof fn lemma_signs(a: Binary64)
    ensures
        a.opposite().opposite() == a,
        a.opposite().value() == -a.value(),
        a.opposite().nan() == a.nan(),
        a.absolute().value() == if a.value() < 0 {
            -a.value()
        } else {
            a.value()
        },
        a.absolute().nan() == a.nan(),
{
    lemma_weight_order(a.magnitude(), 0);
    lemma_weight_subnormal(0);
}

/// A sum that a binary64 number stands for is that number, whichever way round it is taken.
pub proof fn lemma_sum_exact(a: Binary64, b: Binary64, r: Binary64)
    requires
        a.finite(),
        b.finite(),
        r.finite(),
        a.value() + b.value() == r.value(),
        r.value() != 0,
    ensures
        sum(a, b) == r,
        sum(b, a) == r,
{
    lemma_nearest_exact(r.magnitude());
    lemma_weight_subnormal(0);
    lemma_weight_order(r.magnitude(), 0);
    assert(is_sum(a, b, r));
    assert(is_sum(b, a, r));
    lemma_sum_unique(a, b, r);
    lemma_sum_unique(b, a, r);
}

/// The number nearest to a thousandth, and so the quotient of one and a thousand.
pub proof fn lemma_thousandth()
    ensures
        is_quotient(1, 1000, Binary64 { bits: 0x3F50_624D_D2F1_A9FC }),
{
    lemma2_to64();
    lemma2_to64_rest();
    let u = pow2(1012);
    let d = 1000 * u;
    let p = 1 * pow2(1074);
    lemma_pow2_pos(1012);
    lemma_pow2_adds(62, 1012);
    lemma_pow2_adds(53, 1012);
    lemma_pow2_adds(52, 1012);
    assert(is_place(p, 1000, 1012));
    lemma_half_even(p, d, 4611686018427387, 904 * u);
    lemma_nearest(p, 1000, 1012, 4611686018427388);
}

/// No finite binary64 number is nearer to `p / q` than the one that it is rounded to.
pub proof fn lemma_none_nearer(p: nat, q: nat, m: nat, c: nat)
    requires
        q > 0,
        nearest(p, q, m),
        m < INFINITY,
        c < INFINITY,
    ensures
        ({
            let far = |n: nat| if n >= p { n - p } else { p - n };
            far(weight(m) * q) <= far(weight(c) * q)
        }),
{
    lemma2_to64();
    lemma2_to64_rest();
    let h = HIDDEN as nat;
    let k = choose|k: nat| #[trigger]
        is_place(p, q, k) && if rounded(p, q, k) >= weight(INFINITY as nat) {
            m == INFINITY
        } else {
            m < INFINITY && weight(m) == rounded(p, q, k)
        };
    let j = place(c);
    let s = significand(c);
    let u = pow2(k);
    let v = pow2(j);
    let d = q * u;
    let t = half_even(p, d);
    lemma_pow2_pos(k);
    lemma_pow2_pos(j);
    lemma_pow2_adds(52, k);
    lemma_pow2_adds(53, j);
    lemma_fundamental_div_mod(c as int, h as int);
    lemma_mul_strict_inequality(s as int, 2 * h as int, v as int);
    assert(d > 0) by (nonlinear_arith)
        requires
            d == q * u,
            q > 0,
            u > 0,
    ;
    assert((t * u) * q == t * d) by (nonlinear_arith)
        requires
            d == q * u,
    ;
    if j >= k {
        let w = pow2((j - k) as nat);
        lemma_pow2_adds((j - k) as nat, k);
        assert((s * (w * u)) * q == (s * w) * d) by (nonlinear_arith)
            requires
                d == q * u,
        ;
        lemma_multiple_nearest(p, d, s * w);
    } else {
        if 53 + j < 52 + k {
            lemma_pow2_strictly_increases(53 + j, 52 + k);
        }
        let x = weight(c);
        assert(x * q <= h * d) by (nonlinear_arith)
            requires
                x <= h * u,
                d == q * u,
        ;
        assert(h * d == q * (h * u)) by (nonlinear_arith)
            requires
                d == q * u,
        ;
        lemma_multiple_nearest(p, d, h);
    }
}

/// No multiple of the unit is nearer than the one that is rounded to.
proof fn lemma_multiple_nearest(p: nat, u: nat, g: nat)
    requires
        u > 0,
    ensures
        ({
            let far = |n: nat| if n >= p { n - p } else { p - n };
            far(half_even(p, u) * u) <= far(g * u)
        }),
{
    let t = p / u;
    let rem = p % u;
    lemma_fundamental_div_mod(p as int, u as int);
    let low = t * u;
    let high = (t + 1) * u;
    let gu = g * u;
    assert(high == low + u) by (nonlinear_arith)
        requires
            high == (t + 1) * u,
            low == t * u,
    ;
    assert(low == u * t) by (nonlinear_arith)
        requires
            low == t * u,
    ;
    if g <= t {
        lemma_mul_inequality(g as int, t as int, u as int);
    } else {
        lemma_mul_inequality((t + 1) as int, g as int, u as int);
    }
}

/// A quotient of integers is zero where the first is, and else a positive number than which no
/// finite one is nearer to the exact quotient.
pub proof fn lemma_quotient(n: nat, d: nat, r: Binary64, c: nat)
    requires
        d > 0,
        is_quotient(n, d, r),
        r.magnitude() < INFINITY,
        c < INFINITY,
    ensures
        n == 0 ==> r.bits == 0,
        r.bits < 0x8000_0000_0000_0000,
        ({
            let p = n * pow2(1074);
            let far = |x: nat| if x >= p { x - p } else { p - x };
            far(weight(r.magnitude()) * d) <= far(weight(c) * d)
        }),
{
    if n == 0 {
        lemma_weight_subnormal(0);
    } else {
        lemma_none_nearer(n * pow2(1074), d, r.magnitude(), c);
    }
}

/// No finite number is nearer to the exact sum of two finite numbers than their sum is, where that
/// is finite.
pub proof fn lemma_sum_nearest(a: Binary64, b: Binary64, c: Binary64)
    requires
        a.finite(),
        b.finite(),
        c.finite(),
        sum(a, b).finite(),
    ensures
        ({
            let s = a.value() + b.value();
            let far = |x: int| if x >= s { x - s } else { s - x };
            far(sum(a, b).value()) <= far(c.value())
        }),
{
    let s = a.value() + b.value();
    let r = sum(a, b);
    lemma_sum_exists(a, b);
    lemma_weight_subnormal(0);
    if s > 0 {
        lemma_none_nearer(s as nat, 1, r.magnitude(), c.magnitude());
        lemma_none_nearer(s as nat, 1, r.magnitude(), 0);
    } else if s < 0 {
        lemma_none_nearer(-s as nat, 1, r.magnitude(), c.magnitude());
        lemma_none_nearer(-s as nat, 1, r.magnitude(), 0);
    }
}

} // verus!
