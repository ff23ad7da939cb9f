//! Division and the square root, each rounded to the nearest number.
use vstd::prelude::*;
use vstd::arithmetic::div_mod::{lemma_fundamental_div_mod, lemma_mod_bound};
use vstd::arithmetic::power2::{
    pow2, lemma_pow2_pos, lemma_pow2_adds, lemma2_to64, lemma2_to64_rest,
};
use vstd::bits::{lemma_u32_shl_is_mul, lemma_u64_shl_is_mul};
use crate::arith::split;
use crate::binary32::{
    lemma_units_increase, lemma_units_step, lemma_units_zero, pattern_exponent,
    pattern_significand, pattern_units, Binary32, Number, INFINITY_BITS, NAN_BITS,
};
use crate::pack::{bit_length, lemma_pow2_grows, round_pack};
use crate::rounding::{
    floor_pattern, lemma_below_bound, lemma_floor_pattern_exists, lemma_units_of_parts,
    nearest_pattern, rounded, Exact,
};

verus! {

impl Number {
    /// The quotient of two numbers; its sign is negative where the signs of
    /// the two differ.
    pub open spec fn divided_by(self, other: Number) -> Number {
        match (self, other) {
            (Number::Nan, _) => Number::Nan,
            (_, Number::Nan) => Number::Nan,
            (Number::Infinite { .. }, Number::Infinite { .. }) => Number::Nan,
            (Number::Infinite { negative: a }, Number::Finite { negative: b, .. }) => {
                Number::Infinite { negative: a != b }
            },
            (Number::Finite { negative: a, .. }, Number::Infinite { negative: b }) => {
                Number::Finite { negative: a != b, units: 0 }
            },
            (
                Number::Finite { negative: a, units: u },
                Number::Finite { negative: b, units: v },
            ) => {
                if v != 0 {
                    rounded(a != b, Exact::Ratio { num: u * pow2(149), den: v })
                } else if u != 0 {
                    Number::Infinite { negative: a != b }
                } else {
                    Number::Nan
                }
            },
        }
    }

    /// The square root; that of negative zero is negative zero.
    pub open spec fn square_root(self) -> Number {
        match self {
            Number::Nan => Number::Nan,
            Number::Infinite { negative } => if negative {
                Number::Nan
            } else {
                self
            },
            Number::Finite { negative, units } => if units == 0 {
                self
            } else if negative {
                Number::Nan
            } else {
                rounded(false, Exact::Root { radicand: units * pow2(149) })
            },
        }
    }
}

/// The square root of a magnitude is finite, and the exact square of what
/// it rounds to differs from the magnitude by no more than 2^-22 of either.
pub proof fn lemma_root_error(s: nat)
    requires
        0 < s < pattern_units(0x7f80_0000),
    ensures
        ({
            let p = nearest_pattern(Exact::Root { radicand: s * pow2(149) });
            let r = pattern_units(p);
            &&& p < 0x7f80_0000
            &&& -(r * r) <= (r * r - s * pow2(149)) * 0x40_0000 <= r * r
            &&& -(s * pow2(149)) <= (r * r - s * pow2(149)) * 0x40_0000 <= s * pow2(149)
        }),
{
    let big = s * pow2(149);
    let x = Exact::Root { radicand: big };
    lemma_floor_pattern_exists(x);
    lemma2_to64();
    lemma2_to64_rest();
    let f = floor_pattern(x);
    let p = nearest_pattern(x);
    // the root is at least 2^24 units
    lemma_units_of_parts(1, 0x80_0000);
    lemma_pow2_grows(48, 149);
    assert(big >= 0x1_0000_0000_0000) by (nonlinear_arith)
        requires
            big == s * pow2(149),
            s >= 1,
            pow2(149) >= 0x1_0000_0000_0000,
    ;
    assert(pattern_units(0x100_0000) == 0x100_0000);
    assert(x.at_least(pattern_units(0x100_0000), 0));
    if f < 0x100_0000 {
        if f + 1 < 0x100_0000 {
            lemma_units_increase(f + 1, 0x100_0000);
        }
        assert(pattern_units(f + 1) * pow2(0) <= pattern_units(0x100_0000) * pow2(0));
        lemma_below_bound(x, pattern_units(f + 1), 0, pattern_units(0x100_0000), 0);
    }
    // and below 2^213 units
    let high: nat = 0x5f80_0000;
    lemma_units_of_parts(190, 0x80_0000);
    lemma_units_of_parts(254, 0x80_0000);
    lemma_pow2_adds(23, 190);
    lemma_pow2_adds(23, 254);
    lemma_pow2_adds(213, 213);
    lemma_pow2_adds(277, 149);
    lemma_pow2_pos(149);
    assert(pattern_units(high) == pow2(213));
    assert(pattern_units(0x7f80_0000) == pow2(277));
    assert(big < pow2(213) * pow2(213)) by (nonlinear_arith)
        requires
            big == s * pow2(149),
            s < pow2(277),
            pow2(277) * pow2(149) == pow2(213) * pow2(213),
            pow2(149) > 0,
    ;
    assert(!x.at_least(pattern_units(high), 0));
    if f >= high {
        if f > high {
            lemma_units_increase(high, f);
        }
        assert(pattern_units(high) * pow2(0) <= pattern_units(f) * pow2(0));
        lemma_below_bound(x, pattern_units(high), 0, pattern_units(f), 0);
    }
    // the two patterns about the root, a unit in the last place apart
    let lo = pattern_units(f);
    let hi = pattern_units(f + 1);
    let w = pow2(pattern_exponent(f));
    lemma_units_step(f);
    lemma_pow2_pos(pattern_exponent(f));
    assert(w * 0x80_0000 <= lo) by (nonlinear_arith)
        requires
            lo == pattern_significand(f) * w,
            pattern_significand(f) >= 0x80_0000,
            w > 0,
    ;
    assert(lo * w * 0x80_0000 <= lo * lo && w * w * 0x80_0000 <= lo * w) by (nonlinear_arith)
        requires
            w * 0x80_0000 <= lo,
            w > 0,
    ;
    let middle = lo + hi;
    assert(middle * middle == 4 * (lo * lo) + 4 * (lo * w) + w * w && hi * hi == lo * lo + 2
        * (lo * w) + w * w) by (nonlinear_arith)
        requires
            middle == lo + hi,
            hi == lo + w,
    ;
    assert(big * (pow2(0) * pow2(0)) == big && big * (pow2(1) * pow2(1)) == 4 * big)
        by (nonlinear_arith)
        requires
            pow2(0) == 1,
            pow2(1) == 2,
    ;
    assert(lo * lo <= big < hi * hi);
    if p == f {
        assert(!x.above(middle, 1));
        assert(middle * middle >= 4 * big);
    } else {
        assert(x.at_least(middle, 1));
        assert(middle * middle <= 4 * big);
    }
}

/// A significand moved up until it has 24 bits, and by how many places.
fn normalize(sig: u32) -> (r: (u32, u32))
    requires
        0 < sig < 0x100_0000,
    ensures
        r.0 == sig * pow2(r.1 as nat),
        0x80_0000 <= r.0 < 0x100_0000,
        r.1 <= 23,
{
    let n: u32 = bit_length(sig as u64);
    proof {
        lemma2_to64();
        if n > 24 {
            lemma_pow2_grows(24, (n - 1) as nat);
        }
    }
    let by: u32 = 24 - n;
    proof {
        let w = pow2(by as nat);
        lemma_pow2_adds(n as nat, by as nat);
        lemma_pow2_adds((n - 1) as nat, by as nat);
        lemma_pow2_pos(by as nat);
        assert(0x80_0000 <= sig * w < 0x100_0000) by (nonlinear_arith)
            requires
                pow2((n - 1) as nat) <= sig < pow2(n as nat),
                pow2(n as nat) * w == 0x100_0000,
                pow2((n - 1) as nat) * w == 0x80_0000,
                w > 0,
        ;
        lemma_u32_shl_is_mul(sig, by);
    }
    (sig << by, by)
}

/// Where `q` and `rem` are the quotient and the remainder of the
/// normalized significands, the first moved up 26 places, the quotient of
/// the two magnitudes lies from `q` to below `q + 1` at the exponent
/// `ea + lb + 123 - la - eb`, and above `q` where `rem` is not zero.
proof fn lemma_quotient_between(
    sa: nat,
    ea: nat,
    sb: nat,
    eb: nat,
    na: nat,
    la: nat,
    nb: nat,
    lb: nat,
    q: nat,
    rem: nat,
)
    requires
        na == sa * pow2(la),
        nb == sb * pow2(lb),
        sb > 0,
        na * 0x400_0000 == q * nb + rem,
        rem < nb,
    ensures
        ({
            let x = Exact::Ratio { num: (sa * pow2(ea)) * pow2(149), den: sb * pow2(eb) };
            let g = pow2(ea + lb + 123);
            &&& x.wf()
            &&& x.at_least(q * g, la + eb)
            &&& !x.at_least((q + 1) * g, la + eb)
            &&& x.above(q * g, la + eb) == (rem != 0)
        }),
{
    lemma2_to64();
    let a = pow2(ea);
    let b = pow2(eb);
    let wa = pow2(la);
    let wb = pow2(lb);
    let c = pow2(123);
    let d = pow2(26);
    let e = pow2(149);
    let g = pow2(ea + lb + 123);
    let f = pow2(la + eb);
    let u = sa * a;
    let v = sb * b;
    lemma_pow2_adds(ea, lb);
    lemma_pow2_adds(ea + lb, 123);
    lemma_pow2_adds(la, eb);
    lemma_pow2_adds(123, 26);
    lemma_pow2_pos(ea);
    lemma_pow2_pos(eb);
    lemma_pow2_pos(123);
    lemma_pow2_pos(lb);
    let k = (a * b) * c;
    assert(k > 0) by (nonlinear_arith)
        requires
            k == (a * b) * c,
            a > 0,
            b > 0,
            c > 0,
    ;
    assert(v > 0) by (nonlinear_arith)
        requires
            v == sb * b,
            sb > 0,
            b > 0,
    ;
    assert(g * v == nb * k) by (nonlinear_arith)
        requires
            g == (a * wb) * c,
            v == sb * b,
            nb == sb * wb,
            k == (a * b) * c,
    ;
    assert((q * g) * v == (q * nb) * k && ((q + 1) * g) * v == (q * nb) * k + nb * k)
        by (nonlinear_arith)
        requires
            g * v == nb * k,
    ;
    assert((u * e) * f == (na * d) * k) by (nonlinear_arith)
        requires
            u == sa * a,
            e == c * d,
            f == wa * b,
            na == sa * wa,
            k == (a * b) * c,
    ;
    assert((na * d) * k == (q * nb) * k + rem * k) by (nonlinear_arith)
        requires
            na * d == q * nb + rem,
    ;
    assert(0 <= rem * k < nb * k && (rem != 0 ==> rem * k > 0)) by (nonlinear_arith)
        requires
            rem < nb,
            k > 0,
    ;
}

/// The whole part of the square root of `m`.
pub fn integer_sqrt(m: u64) -> (r: u64)
    ensures
        r * r <= m < (r + 1) * (r + 1),
        r < 0x1_0000_0000,
{
    let mut r: u64 = 0;
    let mut step: u64 = 0x1_0000_0000;
    assert(m < (r + step) * (r + step)) by (nonlinear_arith)
        requires
            r == 0,
            step == 0x1_0000_0000,
            m < 0x1_0000_0000_0000_0000,
    ;
    while step > 1
        invariant
            step >= 1,
            r + step <= 0x1_0000_0000,
            r * r <= m < (r + step) * (r + step),
        decreases step,
    {
        let bit: u64 = step / 2;
        let c: u64 = r + bit;
        assert(c * c < 0x1_0000_0000_0000_0000) by (nonlinear_arith)
            requires
                c < 0x1_0000_0000,
        ;
        if c * c <= m {
            assert((c + (step - bit)) * (c + (step - bit)) == (r + step) * (r + step));
            r = c;
            step = step - bit;
        } else {
            step = bit;
        }
    }
    r
}

impl Binary32 {
    /// `self / other`, rounded to the nearest number.
    pub fn div(self, other: Binary32) -> (r: Binary32)
        ensures
            r@ == self@.divided_by(other@),
            r@ is Nan ==> r.bits == NAN_BITS,
    {
        if self.is_nan() || other.is_nan() {
            return Binary32 { bits: NAN_BITS };
        }
        let negative: bool = self.is_sign_negative() != other.is_sign_negative();
        let pa: u32 = self.magnitude_bits();
        let pb: u32 = other.magnitude_bits();
        proof {
            lemma_units_zero(pa as nat);
            lemma_units_zero(pb as nat);
            lemma_units_zero(0);
        }
        if pa == INFINITY_BITS {
            if pb == INFINITY_BITS {
                return Binary32 { bits: NAN_BITS };
            }
            return Binary32::from_sign_and_magnitude(negative, INFINITY_BITS);
        }
        if pb == INFINITY_BITS {
            return Binary32::from_sign_and_magnitude(negative, 0);
        }
        if pb == 0 {
            if pa == 0 {
                return Binary32 { bits: NAN_BITS };
            }
            return Binary32::from_sign_and_magnitude(negative, INFINITY_BITS);
        }
        let (ea, sa) = split(pa);
        let (eb, sb) = split(pb);
        let ghost x = Exact::Ratio {
            num: pattern_units(pa as nat) * pow2(149),
            den: pattern_units(pb as nat),
        };
        if pa == 0 {
            proof {
                lemma2_to64();
                assert(0 * pow2(0) == 0 && 1 * pow2(0) == 1);
                assert(0 * pow2(149) == 0) by (nonlinear_arith);
            }
            let p: u32 = round_pack(0, 0, 0, false, Ghost(x));
            return Binary32::from_sign_and_magnitude(negative, p);
        }
        proof {
            assert(sa > 0 && sb > 0) by (nonlinear_arith)
                requires
                    pattern_units(pa as nat) == sa * pow2(ea as nat),
                    pattern_units(pb as nat) == sb * pow2(eb as nat),
                    pattern_units(pa as nat) > 0,
                    pattern_units(pb as nat) > 0,
            ;
        }
        let (na, la) = normalize(sa);
        let (nb, lb) = normalize(sb);
        proof {
            lemma2_to64();
            assert(na * pow2(26) < 0x4_0000_0000_0000) by (nonlinear_arith)
                requires
                    na < 0x100_0000,
                    pow2(26) == 0x400_0000,
            ;
            lemma_u64_shl_is_mul(na as u64, 26);
        }
        let scaled: u64 = (na as u64) << 26;
        let q: u64 = scaled / (nb as u64);
        let rem: u64 = scaled % (nb as u64);
        let kpos: u32 = ea + lb + 123;
        let kneg: u32 = la + eb;
        proof {
            lemma_fundamental_div_mod(scaled as int, nb as int);
            lemma_mod_bound(scaled as int, nb as int);
            assert(na * 0x400_0000 == q * nb + rem) by (nonlinear_arith)
                requires
                    scaled == nb * (scaled / (nb as u64)) + scaled % (nb as u64),
                    q == scaled / (nb as u64),
                    rem == scaled % (nb as u64),
                    scaled == na * 0x400_0000,
            ;
            assert(0x200_0000 <= q < 0x800_0000) by (nonlinear_arith)
                requires
                    na * 0x400_0000 == q * nb + rem,
                    0 <= rem < nb,
                    0x80_0000 <= na < 0x100_0000,
                    0x80_0000 <= nb < 0x100_0000,
            ;
            lemma_quotient_between(
                sa as nat,
                ea as nat,
                sb as nat,
                eb as nat,
                na as nat,
                la as nat,
                nb as nat,
                lb as nat,
                q as nat,
                rem as nat,
            );
        }
        let p: u32 = round_pack(q, kpos, kneg, rem != 0, Ghost(x));
        Binary32::from_sign_and_magnitude(negative, p)
    }

    /// The square root, rounded to the nearest number.
    pub fn sqrt(self) -> (r: Binary32)
        ensures
            r@ == self@.square_root(),
            r@ is Nan ==> r.bits == NAN_BITS,
    {
        if self.is_nan() {
            return Binary32 { bits: NAN_BITS };
        }
        let p: u32 = self.magnitude_bits();
        proof {
            lemma_units_zero(p as nat);
        }
        if p == 0 {
            return self;
        }
        if self.is_sign_negative() {
            return Binary32 { bits: NAN_BITS };
        }
        if p == INFINITY_BITS {
            return self;
        }
        let (ea, sa) = split(p);
        let ghost u = pattern_units(p as nat);
        let ghost x = Exact::Root { radicand: u * pow2(149) };
        proof {
            assert(sa > 0) by (nonlinear_arith)
                requires
                    u == sa * pow2(ea as nat),
                    u > 0,
            ;
        }
        let (na, la) = normalize(sa);
        let t: u32 = ea + 149 - la;
        let j: u32 = if t % 2 == 0 {
            38
        } else {
            39
        };
        proof {
            lemma2_to64();
            lemma2_to64_rest();
            assert(0x2000_0000_0000_0000 <= na * pow2(j as nat) < 0x8000_0000_0000_0000)
                by (nonlinear_arith)
                requires
                    0x80_0000 <= na < 0x100_0000,
                    pow2(j as nat) == 0x40_0000_0000 || pow2(j as nat) == 0x80_0000_0000,
            ;
            lemma_u64_shl_is_mul(na as u64, j as u64);
        }
        let m: u64 = (na as u64) << (j as u64);
        let root: u64 = integer_sqrt(m);
        let kpos: u32 = (t - j) / 2;
        proof {
            let g = pow2(kpos as nat);
            let wa = pow2(la as nat);
            let wj = pow2(j as nat);
            let wt = pow2(t as nat);
            lemma_pow2_adds(kpos as nat, kpos as nat);
            lemma_pow2_adds(j as nat, (t - j) as nat);
            lemma_pow2_adds(t as nat, la as nat);
            lemma_pow2_adds(ea as nat, 149);
            lemma_pow2_pos(la as nat);
            lemma_pow2_pos(kpos as nat);
            // the radicand is m * g^2
            assert((u * pow2(149)) * wa == (m * (g * g)) * wa) by (nonlinear_arith)
                requires
                    u == sa * pow2(ea as nat),
                    pow2(ea as nat) * pow2(149) == wt * wa,
                    na == sa * wa,
                    m == na * wj,
                    wt == wj * (g * g),
            ;
            assert(u * pow2(149) == m * (g * g)) by (nonlinear_arith)
                requires
                    (u * pow2(149)) * wa == (m * (g * g)) * wa,
                    wa > 0,
            ;
            let lo = root as nat * g;
            let hi = (root + 1) as nat * g;
            assert(lo * lo == (root * root) * (g * g) && hi * hi == ((root + 1) * (root + 1)) * (g
                * g)) by (nonlinear_arith)
                requires
                    lo == root * g,
                    hi == (root + 1) * g,
            ;
            assert((root * root) * (g * g) <= m * (g * g) < ((root + 1) * (root + 1)) * (g * g)
                && ((root * root != m) == ((root * root) * (g * g) < m * (g * g))))
                by (nonlinear_arith)
                requires
                    root * root <= m < (root + 1) * (root + 1),
                    g > 0,
            ;
            assert(pow2(0) * pow2(0) == 1);
            assert(root >= 0x200_0000) by (nonlinear_arith)
                requires
                    m < (root + 1) * (root + 1),
                    m >= 0x2000_0000_0000_0000,
            ;
        }
        let sticky: bool = root * root != m;
        let q: u32 = round_pack(root, kpos, 0, sticky, Ghost(x));
        Binary32::from_sign_and_magnitude(false, q)
    }
}

} // verus!
