//! Addition, subtraction and multiplication, each rounded to the nearest
//! number, and rounding to a whole number.
use vstd::prelude::*;
use vstd::arithmetic::power2::{
    pow2, lemma_pow2_pos, lemma_pow2_adds, lemma_pow2_unfold, lemma2_to64,
};
use vstd::arithmetic::div_mod::{
    lemma_fundamental_div_mod, lemma_fundamental_div_mod_converse, lemma_mod_bound,
};
use vstd::bits::{lemma_u32_shl_is_mul, lemma_u64_shl_is_mul};
use crate::binary32::{
    denoted, lemma_units_increase, lemma_units_step, lemma_units_zero, pattern_exponent,
    pattern_significand, pattern_units, Binary32, Number, INFINITY_BITS, NAN_BITS,
};
use crate::pack::{lemma_pow2_grows, round_pack};
use crate::rounding::{
    lemma_nearest_between, lemma_units_of_parts, nearest_pattern, rounded, Exact,
};

verus! {

impl Number {
    /// The sum of two numbers. An exact sum of zero is negative only where
    /// both terms are.
    pub open spec fn plus(self, other: Number) -> Number {
        match (self, other) {
            (Number::Nan, _) => Number::Nan,
            (_, Number::Nan) => Number::Nan,
            (Number::Infinite { negative: a }, Number::Infinite { negative: b }) => if a == b {
                self
            } else {
                Number::Nan
            },
            (Number::Infinite { .. }, Number::Finite { .. }) => self,
            (Number::Finite { .. }, Number::Infinite { .. }) => other,
            (Number::Finite { negative: a, .. }, Number::Finite { negative: b, .. }) => {
                let sum = self.signed_units() + other.signed_units();
                if sum == 0 {
                    Number::Finite { negative: a && b, units: 0 }
                } else if sum < 0 {
                    rounded(true, Exact::Ratio { num: (-sum) as nat, den: 1 })
                } else {
                    rounded(false, Exact::Ratio { num: sum as nat, den: 1 })
                }
            },
        }
    }

    /// The difference of two numbers.
    pub open spec fn minus(self, other: Number) -> Number {
        self.plus(other.negated())
    }

    /// The product of two numbers; its sign is negative where the signs of
    /// the factors differ.
    pub open spec fn times(self, other: Number) -> Number {
        match (self, other) {
            (Number::Nan, _) => Number::Nan,
            (_, Number::Nan) => Number::Nan,
            (Number::Infinite { negative: a }, Number::Infinite { negative: b }) => {
                Number::Infinite { negative: a != b }
            },
            (Number::Infinite { negative: a }, Number::Finite { negative: b, units }) => {
                if units == 0 {
                    Number::Nan
                } else {
                    Number::Infinite { negative: a != b }
                }
            },
            (Number::Finite { negative: a, units }, Number::Infinite { negative: b }) => {
                if units == 0 {
                    Number::Nan
                } else {
                    Number::Infinite { negative: a != b }
                }
            },
            (
                Number::Finite { negative: a, units: u },
                Number::Finite { negative: b, units: v },
            ) => {
                rounded(a != b, Exact::Ratio { num: u * v, den: pow2(149) })
            },
        }
    }
}

/// The magnitude of a pattern rounds to that pattern.
pub proof fn lemma_pattern_rounds_to_itself(p: nat)
    requires
        p < 0x7f80_0000,
    ensures
        nearest_pattern(Exact::Ratio { num: pattern_units(p), den: 1 }) == p,
{
    lemma2_to64();
    lemma_units_increase(p, p + 1);
    let x = Exact::Ratio { num: pattern_units(p), den: 1 };
    lemma_nearest_between(x, p, false);
}

/// Adding to a magnitude, or taking from it, less than a quarter of its
/// unit in the last place leaves its pattern.
pub proof fn lemma_far_smaller(p: nat, t: nat)
    requires
        p < 0x7f80_0000,
        pattern_exponent(p) >= 1,
        0 < t,
        4 * t < pow2(pattern_exponent(p)),
    ensures
        nearest_pattern(Exact::Ratio { num: pattern_units(p) + t, den: 1 }) == p,
        nearest_pattern(Exact::Ratio { num: (pattern_units(p) - t) as nat, den: 1 }) == p,
        t < pattern_units(p),
{
    lemma2_to64();
    lemma_units_step(p);
    lemma_nearest_between(Exact::Ratio { num: pattern_units(p) + t, den: 1 }, p, false);
    let q = (p - 1) as nat;
    lemma_units_step(q);
    let e = pattern_exponent(p);
    if pattern_exponent(q) != e {
        assert(pattern_exponent(q) + 1 == e);
        lemma_pow2_unfold(e);
    }
    assert(p == q + 1);
    lemma_nearest_between(Exact::Ratio { num: (pattern_units(p) - t) as nat, den: 1 }, q, true);
}

/// The exponent and the significand of the magnitude pattern of a finite
/// number.
pub(crate) fn split(p: u32) -> (r: (u32, u32))
    requires
        p < 0x7f80_0000,
    ensures
        r.0 == pattern_exponent(p as nat),
        r.1 == pattern_significand(p as nat),
        r.0 <= 253,
        r.1 < 0x100_0000,
        r.0 > 0 ==> r.1 >= 0x80_0000,
        pattern_units(p as nat) == r.1 * pow2(r.0 as nat),
{
    assert(p >> 23 == p / 0x80_0000 && p & 0x7f_ffff == p % 0x80_0000) by (bit_vector);
    let e: u32 = p >> 23;
    let m: u32 = p & 0x7f_ffff;
    if e == 0 {
        (0, m)
    } else {
        (e - 1, m + 0x80_0000)
    }
}

/// The sum of two finite numbers, given with the larger magnitude first.
fn add_ordered(big_neg: bool, big: u32, small_neg: bool, small: u32) -> (r: Binary32)
    requires
        small <= big < 0x7f80_0000,
    ensures
        r@ == denoted(big_neg, big as nat).plus(denoted(small_neg, small as nat)),
        !(r@ is Nan),
{
    proof {
        lemma2_to64();
        lemma_units_zero(big as nat);
        lemma_units_zero(small as nat);
        if small < big {
            lemma_units_increase(small as nat, big as nat);
        }
    }
    if small == 0 {
        proof {
            lemma_pattern_rounds_to_itself(big as nat);
        }
        if big == 0 {
            return Binary32::from_sign_and_magnitude(big_neg && small_neg, 0);
        }
        return Binary32::from_sign_and_magnitude(big_neg, big);
    }
    let (ea, sa) = split(big);
    let (eb, sb) = split(small);
    let d: u32 = ea - eb;
    let ghost ub = pattern_units(big as nat);
    let ghost us = pattern_units(small as nat);
    proof {
        lemma_pow2_adds(d as nat, eb as nat);
        lemma_pow2_pos(eb as nat);
        lemma_pow2_pos(d as nat);
    }
    if d > 25 {
        proof {
            lemma_pow2_adds(24, eb as nat);
            lemma_pow2_adds(2, (24 + eb) as nat);
            lemma_pow2_grows((26 + eb) as nat, ea as nat);
            assert(us < 0x100_0000 * pow2(eb as nat)) by (nonlinear_arith)
                requires
                    us == sb * pow2(eb as nat),
                    sb < 0x100_0000,
                    pow2(eb as nat) > 0,
            ;
            lemma_far_smaller(big as nat, us);
        }
        return Binary32::from_sign_and_magnitude(big_neg, big);
    }
    proof {
        lemma_pow2_grows(d as nat, 25);
        assert(sa * pow2(d as nat) < 0x2_0000_0000_0000) by (nonlinear_arith)
            requires
                sa < 0x100_0000,
                0 < pow2(d as nat) <= 0x200_0000,
        ;
        lemma_u64_shl_is_mul(sa as u64, d as u64);
    }
    let aligned: u64 = (sa as u64) << (d as u64);
    proof {
        assert(ub == aligned * pow2(eb as nat)) by (nonlinear_arith)
            requires
                ub == sa * pow2(ea as nat),
                pow2(ea as nat) == pow2(d as nat) * pow2(eb as nat),
                aligned == sa * pow2(d as nat),
        ;
        assert(aligned >= sb) by (nonlinear_arith)
            requires
                ub == aligned * pow2(eb as nat),
                us == sb * pow2(eb as nat),
                us <= ub,
                pow2(eb as nat) > 0,
        ;
    }
    let total: u64 = if big_neg == small_neg {
        aligned + sb as u64
    } else {
        aligned - sb as u64
    };
    if total == 0 {
        proof {
            lemma_units_zero(0);
            assert(sb > 0) by (nonlinear_arith)
                requires
                    us == sb * pow2(eb as nat),
                    us > 0,
            ;
            assert(ub == us) by (nonlinear_arith)
                requires
                    ub == aligned * pow2(eb as nat),
                    us == sb * pow2(eb as nat),
                    aligned == sb,
            ;
        }
        return Binary32::from_sign_and_magnitude(false, 0);
    }
    let ghost num: nat = (total * pow2(eb as nat)) as nat;
    let ghost x = Exact::Ratio { num, den: 1 };
    proof {
        let w = pow2(eb as nat);
        assert(num == if big_neg == small_neg {
            (ub + us) as int
        } else {
            ub - us
        }) by (nonlinear_arith)
            requires
                num == total * w,
                ub == aligned * w,
                us == sb * w,
                total == if big_neg == small_neg {
                    aligned + sb
                } else {
                    aligned - sb
                },
        ;
        assert(num > 0) by (nonlinear_arith)
            requires
                num == total * w,
                total > 0,
                w > 0,
        ;
        assert((total as nat * w) * 1 <= num * pow2(0));
        assert(((total + 1) as nat * w) * 1 > num * pow2(0)) by (nonlinear_arith)
            requires
                num == total * w,
                w > 0,
                pow2(0) == 1,
        ;
    }
    let p: u32 = round_pack(total, eb, 0, false, Ghost(x));
    Binary32::from_sign_and_magnitude(big_neg, p)
}

impl Binary32 {
    /// `self + other`, rounded to the nearest number. Where the result is
    /// no number, it is the NaN of `NAN_BITS`; so it is throughout the
    /// arithmetic.
    pub fn add(self, other: Binary32) -> (r: Binary32)
        ensures
            r@ == self@.plus(other@),
            r@ is Nan ==> r.bits == NAN_BITS,
    {
        if self.is_nan() || other.is_nan() {
            return Binary32 { bits: NAN_BITS };
        }
        let a_neg: bool = self.is_sign_negative();
        let b_neg: bool = other.is_sign_negative();
        let pa: u32 = self.magnitude_bits();
        let pb: u32 = other.magnitude_bits();
        if pa == INFINITY_BITS {
            if pb == INFINITY_BITS && a_neg != b_neg {
                return Binary32 { bits: NAN_BITS };
            }
            return self;
        }
        if pb == INFINITY_BITS {
            return other;
        }
        if pa >= pb {
            add_ordered(a_neg, pa, b_neg, pb)
        } else {
            add_ordered(b_neg, pb, a_neg, pa)
        }
    }

    /// `self - other`, rounded to the nearest number.
    pub fn sub(self, other: Binary32) -> (r: Binary32)
        ensures
            r@ == self@.minus(other@),
            r@ is Nan ==> r.bits == NAN_BITS,
    {
        self.add(other.neg())
    }

    /// `self * other`, rounded to the nearest number.
    pub fn mul(self, other: Binary32) -> (r: Binary32)
        ensures
            r@ == self@.times(other@),
            r@ is Nan ==> r.bits == NAN_BITS,
    {
        if self.is_nan() || other.is_nan() {
            return Binary32 { bits: NAN_BITS };
        }
        let negative: bool = self.is_sign_negative() != other.is_sign_negative();
        let pa: u32 = self.magnitude_bits();
        let pb: u32 = other.magnitude_bits();
        proof {
            lemma_units_zero(pa as nat);
            lemma_units_zero(pb as nat);
        }
        if pa == INFINITY_BITS || pb == INFINITY_BITS {
            if pa == 0 || pb == 0 {
                return Binary32 { bits: NAN_BITS };
            }
            return Binary32::from_sign_and_magnitude(negative, INFINITY_BITS);
        }
        let (ea, sa) = split(pa);
        let (eb, sb) = split(pb);
        let ghost u = pattern_units(pa as nat);
        let ghost v = pattern_units(pb as nat);
        let ghost x = Exact::Ratio { num: u * v, den: pow2(149) };
        proof {
            assert(sa * sb < 0x1_0000_0000_0000) by (nonlinear_arith)
                requires
                    sa < 0x100_0000,
                    sb < 0x100_0000,
            ;
        }
        let product: u64 = sa as u64 * sb as u64;
        proof {
            let wa = pow2(ea as nat);
            let wb = pow2(eb as nat);
            let w = pow2((ea + eb) as nat);
            let f = pow2(149);
            lemma_pow2_adds(ea as nat, eb as nat);
            lemma_pow2_pos((ea + eb) as nat);
            lemma_pow2_pos(149);
            assert(u * v == product * w) by (nonlinear_arith)
                requires
                    u == sa * wa,
                    v == sb * wb,
                    w == wa * wb,
                    product == sa * sb,
            ;
            assert((product as nat * w) * f <= (u * v) * f);
            assert(((product + 1) as nat * w) * f > (u * v) * f) by (nonlinear_arith)
                requires
                    u * v == product * w,
                    w > 0,
                    f > 0,
            ;
        }
        let p: u32 = round_pack(product, ea + eb, 149, false, Ghost(x));
        Binary32::from_sign_and_magnitude(negative, p)
    }
}

impl Number {
    /// The nearest whole number, and of two equally near the one away from
    /// zero. The sign stays, also where the result is zero.
    pub open spec fn round_to_integer(self) -> Number {
        match self {
            Number::Finite { negative, units } => Number::Finite {
                negative,
                units: ((units + pow2(148)) / pow2(149)) * pow2(149),
            },
            _ => self,
        }
    }
}

/// Rounding `sig * 2^exp` units to a whole number clears the `f` bits of
/// `sig` below the binary point, after adding half a unit there.
proof fn lemma_round_units(sig: nat, exp: nat, f: nat)
    requires
        exp + f == 149,
        f >= 1,
    ensures
        ((sig * pow2(exp) + pow2(148)) / pow2(149)) * pow2(149) == (((sig + pow2((f - 1) as nat))
            / pow2(f)) * pow2(f)) * pow2(exp),
{
    let w = pow2(exp) as int;
    let unit = pow2(f) as int;
    let half = pow2((f - 1) as nat) as int;
    lemma_pow2_adds(f, exp);
    lemma_pow2_adds((f - 1) as nat, exp);
    lemma_pow2_pos(exp);
    lemma_pow2_pos(f);
    let k = (sig + half) / unit;
    let r = (sig + half) % unit;
    lemma_fundamental_div_mod(sig + half, unit);
    lemma_mod_bound(sig + half, unit);
    assert(sig * w + half * w == k * (unit * w) + r * w && 0 <= r * w < unit * w && k * (unit * w)
        == ((k * unit) * w)) by (nonlinear_arith)
        requires
            sig + half == unit * k + r,
            0 <= r < unit,
            w > 0,
    ;
    lemma_fundamental_div_mod_converse(sig * w + half * w, unit * w, k, r * w);
}

/// A magnitude of 2^23 or more is a whole number.
proof fn lemma_round_whole(sig: nat, exp: nat)
    requires
        exp >= 149,
    ensures
        ((sig * pow2(exp) + pow2(148)) / pow2(149)) * pow2(149) == sig * pow2(exp),
{
    let w = pow2((exp - 149) as nat) as int;
    let one = pow2(149) as int;
    lemma_pow2_adds((exp - 149) as nat, 149);
    lemma_pow2_unfold(149);
    lemma_pow2_pos(148);
    assert(sig * pow2(exp) == (sig * w) * one) by (nonlinear_arith)
        requires
            pow2(exp) == w * one,
    ;
    lemma_fundamental_div_mod_converse(
        (sig * pow2(exp) + pow2(148)) as int,
        one,
        sig * w,
        pow2(148) as int,
    );
}

impl Binary32 {
    /// The nearest whole number, and of two equally near the one away from
    /// zero.
    pub fn round(self) -> (r: Binary32)
        ensures
            r@ == self@.round_to_integer(),
    {
        let p: u32 = self.magnitude_bits();
        if p >= INFINITY_BITS {
            return self;
        }
        let (exp, sig) = split(p);
        if exp >= 149 {
            proof {
                lemma_round_whole(sig as nat, exp as nat);
            }
            return self;
        }
        let negative: bool = self.is_sign_negative();
        let ghost unit_g = pow2((149 - exp) as nat) as int;
        let ghost half_g = pow2((148 - exp) as nat) as int;
        proof {
            lemma2_to64();
            lemma_round_units(sig as nat, exp as nat, (149 - exp) as nat);
            lemma_pow2_unfold((149 - exp) as nat);
            lemma_pow2_pos((148 - exp) as nat);
            lemma_pow2_adds((149 - exp) as nat, exp as nat);
        }
        if p < 0x3f00_0000 {
            proof {
                lemma_pow2_grows(24, (148 - exp) as nat);
                lemma_fundamental_div_mod_converse(sig + half_g, unit_g, 0, sig + half_g);
                lemma_units_zero(0);
                assert((0 * unit_g) * pow2(exp as nat) == 0) by (nonlinear_arith);
            }
            return Binary32::from_sign_and_magnitude(negative, 0);
        }
        if p < 0x3f80_0000 {
            proof {
                assert(exp == 125);
                lemma_fundamental_div_mod_converse(
                    sig + half_g,
                    unit_g,
                    1,
                    sig + half_g - unit_g,
                );
                lemma_units_of_parts(126, 0x80_0000);
                lemma_pow2_adds(23, 126);
                assert((1 * unit_g) * pow2(exp as nat) == pow2(149)) by (nonlinear_arith)
                    requires
                        pow2(149) == unit_g * pow2(exp as nat),
                ;
            }
            return Binary32::from_sign_and_magnitude(negative, 0x3f80_0000);
        }
        let f: u32 = 149 - exp;
        proof {
            lemma_pow2_grows(f as nat, 23);
            lemma_u32_shl_is_mul(1, f);
        }
        let unit: u32 = 1u32 << f;
        let half: u32 = unit / 2;
        let k: u32 = (sig + half) / unit;
        proof {
            let c = pow2((23 - f) as nat) as int;
            lemma_pow2_adds((23 - f) as nat, f as nat);
            lemma_fundamental_div_mod(sig + half, unit as int);
            lemma_mod_bound(sig + half, unit as int);
            let r = (sig + half) % (unit as int);
            assert(unit * (k + 1) == unit * k + unit && unit * (2 * c + 1) == 2 * (c * unit)
                + unit) by (nonlinear_arith);
            assert(k + 1 > c) by (nonlinear_arith)
                requires
                    unit * (k + 1) > c * unit,
                    unit > 0,
            ;
            assert(k < 2 * c + 1) by (nonlinear_arith)
                requires
                    unit * k < unit * (2 * c + 1),
                    unit > 0,
            ;
            assert(c * unit <= k * unit <= (2 * c) * unit) by (nonlinear_arith)
                requires
                    c <= k <= 2 * c,
                    unit > 0,
            ;
            assert((2 * c) * unit == 2 * (c * unit)) by (nonlinear_arith);
            lemma_units_of_parts(exp as nat, (k * unit) as nat);
        }
        let kept: u32 = k * unit;
        Binary32::from_sign_and_magnitude(negative, exp * 0x80_0000 + kept)
    }
}

} // verus!
