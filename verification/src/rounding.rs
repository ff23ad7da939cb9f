//! Rounding an exact result to the nearest single-precision number, ties to
//! the one with an even pattern.
use vstd::prelude::*;
use vstd::arithmetic::power2::{pow2, lemma_pow2_pos, lemma_pow2_adds, lemma2_to64};
use crate::binary32::{
    denoted, lemma_units_increase, lemma_units_step, lemma_units_zero, pattern_exponent,
    pattern_significand, pattern_units, Number,
};

verus! {

/// A non-negative real number, given exactly and counted in units of 2^-149.
pub enum Exact {
    /// `num / den`, with `den` positive.
    Ratio { num: nat, den: nat },
    /// The square root of `radicand`.
    Root { radicand: nat },
}

impl Exact {
    /// Whether the number is well given: no ratio has the denominator zero.
    pub open spec fn wf(self) -> bool {
        match self {
            Exact::Ratio { den, .. } => den > 0,
            Exact::Root { .. } => true,
        }
    }

    /// `c / 2^s <= self`.
    pub open spec fn at_least(self, c: nat, s: nat) -> bool {
        match self {
            Exact::Ratio { num, den } => c * den <= num * pow2(s),
            Exact::Root { radicand } => c * c <= radicand * (pow2(s) * pow2(s)),
        }
    }

    /// `c / 2^s < self`.
    pub open spec fn above(self, c: nat, s: nat) -> bool {
        match self {
            Exact::Ratio { num, den } => c * den < num * pow2(s),
            Exact::Root { radicand } => c * c < radicand * (pow2(s) * pow2(s)),
        }
    }
}

/// `p` is the largest magnitude pattern of a finite number that does not
/// exceed `x`.
pub open spec fn is_floor_pattern(p: nat, x: Exact) -> bool {
    &&& p <= 0x7f7f_ffff
    &&& x.at_least(pattern_units(p), 0)
    &&& (p < 0x7f7f_ffff ==> !x.at_least(pattern_units(p + 1), 0))
}

/// The floor pattern of `x`.
pub open spec fn floor_pattern(x: Exact) -> nat {
    choose|p: nat| is_floor_pattern(p, x)
}

/// The magnitude pattern nearest to `x`: of the two patterns that enclose
/// `x` the nearer one, and the even one where `x` lies halfway. Above the
/// largest finite number the pattern of infinity stands for 2^128, so a
/// result too large to be finite rounds to infinity.
pub open spec fn nearest_pattern(x: Exact) -> nat {
    let p = floor_pattern(x);
    let twice_middle = pattern_units(p) + pattern_units(p + 1);
    if !x.at_least(twice_middle, 1) {
        p
    } else if x.above(twice_middle, 1) {
        p + 1
    } else if p % 2 == 0 {
        p
    } else {
        p + 1
    }
}

/// The number nearest to `x`, under the given sign.
pub open spec fn rounded(negative: bool, x: Exact) -> Number {
    denoted(negative, nearest_pattern(x))
}

/// Fractions with positive denominators are ordered transitively:
/// `a1/b1 <= a2/b2 <= a3/b3` gives `a1/b1 <= a3/b3`, strictly if either
/// step is strict.
proof fn lemma_fraction_order(a1: int, b1: int, a2: int, b2: int, a3: int, b3: int)
    requires
        b1 > 0,
        b2 > 0,
        b3 > 0,
        a1 * b2 <= a2 * b1,
        a2 * b3 <= a3 * b2,
    ensures
        a1 * b3 <= a3 * b1,
        a1 * b2 < a2 * b1 ==> a1 * b3 < a3 * b1,
        a2 * b3 < a3 * b2 ==> a1 * b3 < a3 * b1,
{
    assert((a1 * b2) * b3 <= (a2 * b1) * b3) by (nonlinear_arith)
        requires
            a1 * b2 <= a2 * b1,
            b3 > 0,
    ;
    assert((a2 * b3) * b1 <= (a3 * b2) * b1) by (nonlinear_arith)
        requires
            a2 * b3 <= a3 * b2,
            b1 > 0,
    ;
    assert((a1 * b3) * b2 == (a1 * b2) * b3) by (nonlinear_arith);
    assert((a2 * b1) * b3 == (a2 * b3) * b1) by (nonlinear_arith);
    assert((a3 * b2) * b1 == (a3 * b1) * b2) by (nonlinear_arith);
    assert(a1 * b3 <= a3 * b1) by (nonlinear_arith)
        requires
            (a1 * b3) * b2 <= (a3 * b1) * b2,
            b2 > 0,
    ;
    if a1 * b2 < a2 * b1 {
        assert((a1 * b2) * b3 < (a2 * b1) * b3) by (nonlinear_arith)
            requires
                a1 * b2 < a2 * b1,
                b3 > 0,
        ;
        assert(a1 * b3 < a3 * b1) by (nonlinear_arith)
            requires
                (a1 * b3) * b2 < (a3 * b1) * b2,
                b2 > 0,
        ;
    }
    if a2 * b3 < a3 * b2 {
        assert((a2 * b3) * b1 < (a3 * b2) * b1) by (nonlinear_arith)
            requires
                a2 * b3 < a3 * b2,
                b1 > 0,
        ;
        assert(a1 * b3 < a3 * b1) by (nonlinear_arith)
            requires
                (a1 * b3) * b2 < (a3 * b1) * b2,
                b2 > 0,
        ;
    }
}

/// Squaring keeps the order of the non-negative numbers `a * d` and `c * b`.
proof fn lemma_square_order(a: int, b: int, c: int, d: int)
    requires
        a >= 0,
        b > 0,
        c >= 0,
        d > 0,
        a * d <= c * b,
    ensures
        (a * a) * (d * d) <= (c * c) * (b * b),
        a * d < c * b ==> (a * a) * (d * d) < (c * c) * (b * b),
{
    let u = a * d;
    let v = c * b;
    assert(u >= 0 && v >= 0) by (nonlinear_arith)
        requires
            a >= 0,
            d > 0,
            c >= 0,
            b > 0,
            u == a * d,
            v == c * b,
    ;
    assert(u * u <= v * v) by (nonlinear_arith)
        requires
            0 <= u <= v,
    ;
    assert(u < v ==> u * u < v * v) by (nonlinear_arith)
        requires
            0 <= u <= v,
    ;
    assert(u * u == (a * a) * (d * d)) by (nonlinear_arith)
        requires
            u == a * d,
    ;
    assert(v * v == (c * c) * (b * b)) by (nonlinear_arith)
        requires
            v == c * b,
    ;
}

/// What lies at or below a lower bound of `x` is a lower bound of `x`, and a
/// strict one if it lies strictly below or the bound is strict.
pub proof fn lemma_below_bound(x: Exact, c1: nat, s1: nat, c2: nat, s2: nat)
    requires
        x.wf(),
        x.at_least(c2, s2),
        c1 * pow2(s2) <= c2 * pow2(s1),
    ensures
        x.at_least(c1, s1),
        x.above(c2, s2) ==> x.above(c1, s1),
        c1 * pow2(s2) < c2 * pow2(s1) ==> x.above(c1, s1),
{
    lemma_pow2_pos(s1);
    lemma_pow2_pos(s2);
    let w1 = pow2(s1) as int;
    let w2 = pow2(s2) as int;
    match x {
        Exact::Ratio { num, den } => {
            lemma_fraction_order(c1 as int, w1, c2 as int, w2, num as int, den as int);
        },
        Exact::Root { radicand } => {
            lemma_square_order(c1 as int, w1, c2 as int, w2);
            assert(w1 * w1 > 0 && w2 * w2 > 0) by (nonlinear_arith)
                requires
                    w1 > 0,
                    w2 > 0,
            ;
            assert((c2 * c2) * 1 == c2 * c2);
            assert((c1 * c1) * 1 == c1 * c1);
            lemma_fraction_order(
                (c1 * c1) as int,
                w1 * w1,
                (c2 * c2) as int,
                w2 * w2,
                radicand as int,
                1,
            );
        },
    }
}

/// At most one pattern is the floor pattern of `x`.
pub proof fn lemma_floor_pattern_unique(x: Exact, p: nat, q: nat)
    requires
        x.wf(),
        is_floor_pattern(p, x),
        is_floor_pattern(q, x),
    ensures
        p == q,
{
    lemma2_to64();
    if p < q {
        if p + 1 < q {
            lemma_units_increase(p + 1, q);
        }
        assert(pattern_units(p + 1) * 1 <= pattern_units(q) * 1);
        lemma_below_bound(x, pattern_units(p + 1), 0, pattern_units(q), 0);
    }
    if q < p {
        if q + 1 < p {
            lemma_units_increase(q + 1, p);
        }
        assert(pattern_units(q + 1) * 1 <= pattern_units(p) * 1);
        lemma_below_bound(x, pattern_units(q + 1), 0, pattern_units(p), 0);
    }
}

/// Zero is a lower bound of every `x`.
pub proof fn lemma_at_least_zero(x: Exact)
    ensures
        x.at_least(0, 0),
{
    match x {
        Exact::Ratio { num, den } => {
            assert(0 * den <= num * pow2(0)) by (nonlinear_arith);
        },
        Exact::Root { radicand } => {
            assert(0 * 0 <= radicand * (pow2(0) * pow2(0))) by (nonlinear_arith);
        },
    }
}

/// Below a pattern whose magnitude exceeds `x` lies a pattern that
/// encloses `x` with its successor.
proof fn lemma_floor_pattern_below(x: Exact, n: nat)
    requires
        x.wf(),
        !x.at_least(pattern_units(n + 1), 0),
    ensures
        exists|p: nat|
            p <= n && x.at_least(pattern_units(p), 0) && !x.at_least(
                #[trigger] pattern_units(p + 1),
                0,
            ),
    decreases n,
{
    if x.at_least(pattern_units(n), 0) {
        assert(!x.at_least(pattern_units(n + 1), 0));
    } else {
        if n == 0 {
            lemma_units_zero(0);
            lemma_at_least_zero(x);
        } else {
            lemma_floor_pattern_below(x, (n - 1) as nat);
        }
    }
}

/// Every `x` has a floor pattern, and its nearest pattern is that one or
/// the next.
pub proof fn lemma_floor_pattern_exists(x: Exact)
    requires
        x.wf(),
    ensures
        is_floor_pattern(floor_pattern(x), x),
        nearest_pattern(x) == floor_pattern(x) || nearest_pattern(x) == floor_pattern(x) + 1,
        nearest_pattern(x) <= 0x7f80_0000,
{
    let top: nat = 0x7f7f_ffff;
    if x.at_least(pattern_units(top), 0) {
        assert(is_floor_pattern(top, x));
    } else {
        lemma_floor_pattern_below(x, (top - 1) as nat);
        let p = choose|p: nat|
            p <= top - 1 && x.at_least(pattern_units(p), 0) && !x.at_least(
                #[trigger] pattern_units(p + 1),
                0,
            );
        assert(is_floor_pattern(p, x));
    }
}

/// A whole number of units that is not zero does not round to zero.
pub proof fn lemma_nearest_of_positive(num: nat)
    requires
        num >= 1,
    ensures
        1 <= nearest_pattern(Exact::Ratio { num, den: 1 }) <= 0x7f80_0000,
{
    let x = Exact::Ratio { num, den: 1 };
    lemma_floor_pattern_exists(x);
    lemma2_to64();
    lemma_units_zero(1);
    lemma_units_step(0);
    lemma_units_zero(0);
    if floor_pattern(x) == 0 {
        assert(pattern_units(1) == 1);
        assert(!x.at_least(pattern_units(1), 0));
    }
}

/// Rounding a whole number of units to a finite number moves it by no more
/// than 2^-24 of itself and of the result.
pub proof fn lemma_rounding_error(num: nat)
    ensures
        ({
            let r = pattern_units(nearest_pattern(Exact::Ratio { num, den: 1 }));
            nearest_pattern(Exact::Ratio { num, den: 1 }) < 0x7f80_0000 ==> {
                &&& (r - num) * 0x100_0000 <= r
                &&& (r - num) * 0x100_0000 <= num
                &&& (num - r) * 0x100_0000 <= r
                &&& (num - r) * 0x100_0000 <= num
            }
        }),
{
    let x = Exact::Ratio { num, den: 1 };
    lemma_floor_pattern_exists(x);
    lemma2_to64();
    let f = floor_pattern(x);
    let p = nearest_pattern(x);
    let lo = pattern_units(f);
    let hi = pattern_units(f + 1);
    let w = pow2(pattern_exponent(f));
    lemma_units_step(f);
    lemma_pow2_pos(pattern_exponent(f));
    if p < 0x7f80_0000 {
        assert(lo <= num);
        assert(num < hi);
        if f >= 0x100_0000 {
            assert(lo >= 0x80_0000 * w) by (nonlinear_arith)
                requires
                    lo == pattern_significand(f) * w,
                    pattern_significand(f) >= 0x80_0000,
                    w > 0,
            ;
        }
    }
}

/// Where `x` lies between the magnitudes of two successive patterns, of
/// whatever size, its nearest pattern is the one that the rule of
/// `nearest_pattern` picks of the two, or that of infinity if that is less.
pub proof fn lemma_nearest_between(x: Exact, p: nat, up: bool)
    requires
        x.wf(),
        x.at_least(pattern_units(p), 0),
        !x.at_least(pattern_units(p + 1), 0),
        up == (x.at_least(pattern_units(p) + pattern_units(p + 1), 1) && (x.above(
            pattern_units(p) + pattern_units(p + 1),
            1,
        ) || p % 2 == 1)),
    ensures
        nearest_pattern(x) == if p >= 0x7f80_0000 {
            0x7f80_0000
        } else if up {
            p + 1
        } else {
            p
        },
{
    lemma2_to64();
    if p <= 0x7f7f_ffff {
        assert(is_floor_pattern(p, x));
        lemma_floor_pattern_unique(x, p, floor_pattern(x));
    } else {
        let top: nat = 0x7f7f_ffff;
        let inf: nat = 0x7f80_0000;
        lemma_units_increase(top, inf);
        if inf < p {
            lemma_units_increase(inf, p);
        }
        assert(pattern_units(inf) * 1 <= pattern_units(p) * 1);
        lemma_below_bound(x, pattern_units(inf), 0, pattern_units(p), 0);
        assert(pattern_units(top) * 1 <= pattern_units(inf) * 1);
        lemma_below_bound(x, pattern_units(top), 0, pattern_units(inf), 0);
        assert(is_floor_pattern(top, x));
        lemma_floor_pattern_unique(x, top, floor_pattern(x));
        assert((pattern_units(top) + pattern_units(inf)) * 1 < pattern_units(inf) * 2);
        lemma_below_bound(x, pattern_units(top) + pattern_units(inf), 1, pattern_units(inf), 0);
    }
}

/// The magnitude of the pattern with `e` in the exponent position and the
/// significand `s` added to it is `s * 2^e`, also where `s` is 2^24 and
/// carries into the exponent.
pub proof fn lemma_units_of_parts(e: nat, s: nat)
    requires
        s <= 0x100_0000,
        e > 0 ==> s >= 0x80_0000,
    ensures
        pattern_units(e * 0x80_0000 + s) == s * pow2(e),
{
    lemma2_to64();
    let p = e * 0x80_0000 + s;
    if e == 0 {
        if s < 0x100_0000 {
            assert(pattern_units(p) == s * 1);
        } else {
            assert(pattern_units(p) == 0x80_0000 * 2);
        }
    } else if s < 0x100_0000 {
        assert(p / 0x80_0000 == e + 1);
        assert(p % 0x80_0000 == s - 0x80_0000);
        assert(pattern_exponent(p) == e);
        assert(pattern_significand(p) == s);
    } else {
        assert(p / 0x80_0000 == e + 2);
        assert(p % 0x80_0000 == 0);
        assert(pattern_exponent(p) == e + 1);
        assert(pattern_significand(p) == 0x80_0000);
        vstd::arithmetic::power2::lemma_pow2_unfold(e + 1);
        assert(0x80_0000 * (2 * pow2(e)) == 0x100_0000 * pow2(e)) by (nonlinear_arith);
    }
}

} // verus!
