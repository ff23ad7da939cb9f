//! How far rounded results lie from exact ones: a calculus of quantities
//! that agree up to a number of roundings.
use vstd::prelude::*;
use vstd::arithmetic::power::{pow, lemma_pow0, lemma_pow1, lemma_pow_adds, lemma_pow_positive};
use vstd::arithmetic::power2::{pow2, lemma_pow2_pos, lemma2_to64};
use crate::binary32::{
    lemma_units_increase, lemma_units_step, lemma_units_zero, pattern_exponent,
    pattern_significand, pattern_units, Number,
};
use crate::quotient::lemma_root_error;
use crate::rounding::{
    floor_pattern, lemma_floor_pattern_exists, lemma_nearest_of_positive, lemma_rounding_error,
    lemma_units_of_parts, nearest_pattern, Exact,
};

verus! {

/// The size of a whole number.
pub open spec fn size_of(i: int) -> int {
    if i < 0 {
        -i
    } else {
        i
    }
}

/// A finite sum of two finite numbers differs from the exact sum by no more
/// than 2^-24 of either.
pub proof fn lemma_sum_error(a: Number, b: Number)
    requires
        a is Finite,
        b is Finite,
        a.plus(b) is Finite,
    ensures
        size_of(a.plus(b).signed_units() - (a.signed_units() + b.signed_units())) * 0x100_0000
            <= size_of(a.plus(b).signed_units()),
        size_of(a.plus(b).signed_units() - (a.signed_units() + b.signed_units())) * 0x100_0000
            <= size_of(a.signed_units() + b.signed_units()),
{
    let sum = a.signed_units() + b.signed_units();
    lemma_rounding_error(size_of(sum) as nat);
}

/// Whether `back` is `first` up to 2^-24 of the sizes of `sum` and `back`.
pub open spec fn returns_nearly(first: Number, sum: Number, back: Number) -> bool {
    size_of(back.signed_units() - first.signed_units()) * 0x100_0000 <= size_of(
        sum.signed_units(),
    ) + size_of(back.signed_units())
}

/// Adding a number and taking it away again returns the first number, up
/// to the two roundings: where all the numbers are finite, the result
/// differs from the first by no more than 2^-24 of the sum and 2^-24 of
/// the result together.
pub proof fn lemma_add_then_sub(a: Number, b: Number)
    requires
        a is Finite,
        b is Finite,
        a.plus(b) is Finite,
        a.plus(b).minus(b) is Finite,
    ensures
        returns_nearly(a, a.plus(b), a.plus(b).minus(b)),
{
    lemma_sum_error(a, b);
    lemma_sum_error(a.plus(b), b.negated());
}

/// Whether `p` and `q` agree up to `n` roundings: whether each is at most
/// (1 + 2^-24)^n times the other.
pub open spec fn within(p: nat, q: nat, n: nat) -> bool {
    &&& p * pow(0x100_0000, n) <= q * pow(0x100_0001, n)
    &&& q * pow(0x100_0000, n) <= p * pow(0x100_0001, n)
}

/// The two rates of `within` are positive, and the second is the larger.
pub proof fn lemma_rates(n: nat)
    ensures
        0 < pow(0x100_0000, n) <= pow(0x100_0001, n),
    decreases n,
{
    lemma_pow_positive(0x100_0000, n);
    if n == 0 {
        lemma_pow0(0x100_0000);
        lemma_pow0(0x100_0001);
    } else {
        let m = (n - 1) as nat;
        lemma_rates(m);
        lemma_pow_adds(0x100_0000, 1, m);
        lemma_pow_adds(0x100_0001, 1, m);
        lemma_pow1(0x100_0000);
        lemma_pow1(0x100_0001);
        assert(0x100_0000 * pow(0x100_0000, m) <= 0x100_0001 * pow(0x100_0001, m))
            by (nonlinear_arith)
            requires
                0 < pow(0x100_0000, m) <= pow(0x100_0001, m),
        ;
    }
}

/// A quantity agrees with itself.
pub proof fn lemma_within_self(p: nat, n: nat)
    ensures
        within(p, p, n),
{
    lemma_rates(n);
    assert(p * pow(0x100_0000, n) <= p * pow(0x100_0001, n)) by (nonlinear_arith)
        requires
            pow(0x100_0000, n) <= pow(0x100_0001, n),
    ;
}

/// Quantities that differ by no more than 2^-24 of either agree up to one
/// rounding.
pub proof fn lemma_within_one(p: nat, q: nat)
    requires
        (p - q) * 0x100_0000 <= q,
        (q - p) * 0x100_0000 <= p,
    ensures
        within(p, q, 1),
{
    lemma_pow1(0x100_0000);
    lemma_pow1(0x100_0001);
}

/// Agreement passes along a chain, the roundings adding up.
pub proof fn lemma_within_chain(p: nat, q: nat, r: nat, n: nat, m: nat)
    requires
        within(p, q, n),
        within(q, r, m),
    ensures
        within(p, r, n + m),
{
    let dn = pow(0x100_0000, n);
    let gn = pow(0x100_0001, n);
    let dm = pow(0x100_0000, m);
    let gm = pow(0x100_0001, m);
    lemma_rates(n);
    lemma_rates(m);
    lemma_pow_adds(0x100_0000, n, m);
    lemma_pow_adds(0x100_0001, n, m);
    assert(p * (dn * dm) <= r * (gn * gm)) by (nonlinear_arith)
        requires
            p * dn <= q * gn,
            q * dm <= r * gm,
            dm > 0,
            gn > 0,
    {
        assert((p * dn) * dm <= (q * gn) * dm);
        assert((q * dm) * gn <= (r * gm) * gn);
    }
    assert(r * (dn * dm) <= p * (gn * gm)) by (nonlinear_arith)
        requires
            r * dm <= q * gm,
            q * dn <= p * gn,
            dn > 0,
            gm > 0,
    {
        assert((r * dm) * dn <= (q * gm) * dn);
        assert((q * dn) * gm <= (p * gn) * gm);
    }
}

/// Sums of quantities that agree agree.
pub proof fn lemma_within_sum(p: nat, q: nat, p_other: nat, q_other: nat, n: nat)
    requires
        within(p, q, n),
        within(p_other, q_other, n),
    ensures
        within(p + p_other, q + q_other, n),
{
    let d = pow(0x100_0000, n);
    let g = pow(0x100_0001, n);
    assert((p + p_other) * d == p * d + p_other * d && (q + q_other) * g == q * g + q_other * g)
        by (nonlinear_arith);
    assert((q + q_other) * d == q * d + q_other * d && (p + p_other) * g == p * g + p_other * g)
        by (nonlinear_arith);
}

/// Products of quantities that agree agree, the roundings adding up.
pub proof fn lemma_within_product(p: nat, q: nat, n: nat, p_other: nat, q_other: nat, m: nat)
    requires
        within(p, q, n),
        within(p_other, q_other, m),
    ensures
        within(p * p_other, q * q_other, n + m),
{
    let dn = pow(0x100_0000, n);
    let gn = pow(0x100_0001, n);
    let dm = pow(0x100_0000, m);
    let gm = pow(0x100_0001, m);
    lemma_rates(n);
    lemma_rates(m);
    lemma_pow_adds(0x100_0000, n, m);
    lemma_pow_adds(0x100_0001, n, m);
    assert((p * p_other) * (dn * dm) <= (q * q_other) * (gn * gm)) by (nonlinear_arith)
        requires
            0 <= p * dn <= q * gn,
            0 <= p_other * dm <= q_other * gm,
    {
        assert((p * dn) * (p_other * dm) <= (q * gn) * (q_other * gm));
    }
    assert((q * q_other) * (dn * dm) <= (p * p_other) * (gn * gm)) by (nonlinear_arith)
        requires
            0 <= q * dn <= p * gn,
            0 <= q_other * dm <= p_other * gm,
    {
        assert((q * dn) * (q_other * dm) <= (p * gn) * (p_other * gm));
    }
}

/// Quantities that agree still agree when both are multiplied by `c`.
pub proof fn lemma_within_scaled(p: nat, q: nat, n: nat, c: nat)
    requires
        within(p, q, n),
    ensures
        within(p * c, q * c, n),
{
    lemma_pow0(0x100_0000);
    lemma_pow0(0x100_0001);
    assert(within(c, c, 0));
    lemma_within_product(p, q, n, c, c, 0);
}

/// Quantities that agree after both were multiplied by a positive `c`
/// agree.
pub proof fn lemma_within_unscaled(p: nat, q: nat, n: nat, c: nat)
    requires
        c > 0,
        within(p * c, q * c, n),
    ensures
        within(p, q, n),
{
    let d = pow(0x100_0000, n);
    let g = pow(0x100_0001, n);
    assert(p * d <= q * g) by (nonlinear_arith)
        requires
            (p * c) * d <= (q * c) * g,
            c > 0,
    {
        assert((p * d) * c <= (q * g) * c);
    }
    assert(q * d <= p * g) by (nonlinear_arith)
        requires
            (q * c) * d <= (p * c) * g,
            c > 0,
    {
        assert((q * d) * c <= (p * g) * c);
    }
}

/// Rounding a ratio that is not below the least normal number, 2^23 units,
/// to a finite number moves it by no more than 2^-24 of itself and of the
/// result.
pub proof fn lemma_ratio_error(num: nat, den: nat)
    requires
        den > 0,
        num >= 0x80_0000 * den,
        nearest_pattern(Exact::Ratio { num, den }) < 0x7f80_0000,
    ensures
        within(pattern_units(nearest_pattern(Exact::Ratio { num, den })) * den, num, 1),
{
    let x = Exact::Ratio { num, den };
    lemma_floor_pattern_exists(x);
    lemma2_to64();
    let f = floor_pattern(x);
    let p = nearest_pattern(x);
    let least: nat = 0x80_0000;
    lemma_units_of_parts(0, 0x80_0000);
    assert(pattern_units(least) == 0x80_0000);
    if f < least {
        if f + 1 < least {
            lemma_units_increase(f + 1, least);
        }
        assert(pattern_units(f + 1) * den <= pattern_units(least) * den) by (nonlinear_arith)
            requires
                pattern_units(f + 1) <= pattern_units(least),
        ;
        assert(false);
    }
    let lo = pattern_units(f);
    let hi = pattern_units(f + 1);
    let w = pow2(pattern_exponent(f));
    lemma_units_step(f);
    lemma_pow2_pos(pattern_exponent(f));
    assert(w * 0x80_0000 <= lo) by (nonlinear_arith)
        requires
            lo == pattern_significand(f) * w,
            pattern_significand(f) >= 0x80_0000,
            w > 0,
    ;
    assert((lo + hi) * den == 2 * (lo * den) + w * den && hi * den == lo * den + w * den && (w
        * den) * 0x80_0000 <= lo * den) by (nonlinear_arith)
        requires
            hi == lo + w,
            w * 0x80_0000 <= lo,
    ;
    assert(lo * den <= num);
    assert(num < hi * den);
    let r = pattern_units(p) * den;
    assert((r - num) * 0x100_0000 <= num && (num - r) * 0x100_0000 <= r) by {
        if p == f {
            assert(2 * num <= (lo + hi) * den);
        } else {
            assert(2 * num >= (lo + hi) * den);
        }
    }
    lemma_within_one(r as nat, num);
}

/// A ratio of zero rounds to zero.
pub proof fn lemma_zero_rounds_to_zero(den: nat)
    requires
        den > 0,
    ensures
        nearest_pattern(Exact::Ratio { num: 0, den }) == 0,
{
    let x = Exact::Ratio { num: 0, den };
    lemma_floor_pattern_exists(x);
    lemma2_to64();
    let f = floor_pattern(x);
    lemma_units_zero(f);
    lemma_units_zero(0);
    lemma_units_step(0);
    assert(pattern_units(f) == 0) by (nonlinear_arith)
        requires
            pattern_units(f) * den <= 0,
            den > 0,
    ;
    assert(!x.at_least(pattern_units(0) + pattern_units(1), 1)) by (nonlinear_arith)
        requires
            pattern_units(0) + pattern_units(1) == 1,
            den > 0,
            x == (Exact::Ratio { num: 0, den }),
    ;
}

/// Whether the exact product of two finite numbers is zero or not below
/// the least normal number, 2^-126, so that its rounding is one of
/// relative size.
pub open spec fn product_is_normal(a: Number, b: Number) -> bool {
    &&& a is Finite
    &&& b is Finite
    &&& (a->units * b->units == 0 || a->units * b->units >= 0x80_0000 * pow2(149))
}

/// A finite product of that kind agrees with the exact product up to one
/// rounding. (In units of 2^-298 the product of `u` and `v` units is
/// `u * v`, and `r` units are `r * 2^149`.)
pub proof fn lemma_times_within(a: Number, b: Number)
    requires
        product_is_normal(a, b),
        a.times(b) is Finite,
    ensures
        within(a.times(b)->units * pow2(149), a->units * b->units, 1),
{
    let e = pow2(149);
    lemma_pow2_pos(149);
    let num = a->units * b->units;
    if num == 0 {
        lemma_zero_rounds_to_zero(e);
        lemma_units_zero(0);
        assert(a.times(b)->units * e == 0) by (nonlinear_arith)
            requires
                a.times(b)->units == 0,
        ;
        lemma_within_self(0, 1);
    } else {
        lemma_ratio_error(num, e);
    }
}

/// A finite sum agrees in size with the exact sum up to one rounding.
pub proof fn lemma_plus_within(a: Number, b: Number)
    requires
        a is Finite,
        b is Finite,
        a.plus(b) is Finite,
    ensures
        within(
            size_of(a.plus(b).signed_units()) as nat,
            size_of(a.signed_units() + b.signed_units()) as nat,
            1,
        ),
        a.signed_units() + b.signed_units() > 0 ==> a.plus(b).signed_units() > 0,
        a.signed_units() + b.signed_units() < 0 ==> a.plus(b).signed_units() < 0,
        a.signed_units() + b.signed_units() == 0 ==> a.plus(b).signed_units() == 0,
{
    lemma_sum_error(a, b);
    let sum = a.signed_units() + b.signed_units();
    if sum != 0 {
        lemma_nearest_of_positive(size_of(sum) as nat);
        lemma_units_zero(nearest_pattern(Exact::Ratio { num: size_of(sum) as nat, den: 1 }));
    }
    lemma_within_one(
        size_of(a.plus(b).signed_units()) as nat,
        size_of(a.signed_units() + b.signed_units()) as nat,
    );
}

/// The exact square of the square root of a magnitude agrees with the
/// magnitude up to four roundings.
pub proof fn lemma_root_within(s: nat)
    requires
        0 < s < pattern_units(0x7f80_0000),
    ensures
        ({
            let r = pattern_units(nearest_pattern(Exact::Root { radicand: s * pow2(149) }));
            within(r * r, s * pow2(149), 4)
        }),
{
    lemma_root_error(s);
    let r = pattern_units(nearest_pattern(Exact::Root { radicand: s * pow2(149) }));
    let p = r * r;
    let q = s * pow2(149);
    reveal_with_fuel(pow, 5);
    assert(pow(0x100_0000, 4) == 0x1_0000_0000_0000_0000_0000_0000);
    assert(pow(0x100_0001, 4) >= 0x1_0000_0400_0000_0000_0000_0000);
    assert(p * 0x40_0000 <= q * 0x40_0001);
    assert(q * 0x40_0000 <= p * 0x40_0001);
    let d = pow(0x100_0000, 4);
    let g = pow(0x100_0001, 4);
    assert(p * d <= q * g) by (nonlinear_arith)
        requires
            p * 0x40_0000 <= q * 0x40_0001,
            d == 0x1_0000_0000_0000_0000_0000_0000,
            g >= 0x1_0000_0400_0000_0000_0000_0000,
            q >= 0,
    ;
    assert(q * d <= p * g) by (nonlinear_arith)
        requires
            q * 0x40_0000 <= p * 0x40_0001,
            d == 0x1_0000_0000_0000_0000_0000_0000,
            g >= 0x1_0000_0400_0000_0000_0000_0000,
            p >= 0,
    ;
}

} // verus!
