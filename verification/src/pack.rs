//! From a significand and an exponent to the nearest magnitude pattern.
use vstd::prelude::*;
use vstd::arithmetic::div_mod::{lemma_fundamental_div_mod, lemma_mod_bound};
use vstd::arithmetic::power2::{
    pow2, lemma_pow2_pos, lemma_pow2_adds, lemma_pow2_unfold, lemma_pow2_strictly_increases,
    lemma2_to64, lemma2_to64_rest,
};
use vstd::bits::{lemma_u64_pow2_no_overflow, lemma_u64_shl_is_mul};
use vstd::std_specs::bits::u64_leading_zeros;
use crate::binary32::{lemma_units_step, lemma_units_zero, pattern_units, INFINITY_BITS};
use crate::rounding::{
    lemma_at_least_zero, lemma_below_bound, lemma_nearest_between, lemma_units_of_parts,
    nearest_pattern, Exact,
};

verus! {

/// Powers of two grow with the exponent.
pub proof fn lemma_pow2_grows(a: nat, b: nat)
    requires
        a <= b,
    ensures
        pow2(a) <= pow2(b),
        pow2(a) > 0,
{
    lemma_pow2_pos(a);
    if a < b {
        lemma_pow2_strictly_increases(a, b);
    }
}

/// A positive `i` has `64 - leading_zeros(i)` bits.
proof fn lemma_leading_zeros(i: u64)
    requires
        i > 0,
    ensures
        0 <= u64_leading_zeros(i) <= 63,
        pow2((63 - u64_leading_zeros(i)) as nat) <= i < pow2((64 - u64_leading_zeros(i)) as nat),
    decreases i,
{
    reveal_with_fuel(u64_leading_zeros, 2);
    lemma2_to64();
    lemma2_to64_rest();
    if i == 1 {
        assert(u64_leading_zeros(1) == 63);
    } else {
        let j: u64 = i / 2;
        lemma_leading_zeros(j);
        let k = (63 - u64_leading_zeros(j)) as nat;
        if u64_leading_zeros(j) == 0 {
            assert(pow2(63) <= j);
            assert(false);
        }
        lemma_pow2_unfold(k + 1);
        lemma_pow2_unfold(k + 2);
    }
}

/// The number of bits of `x`: the place of its highest set bit, counted from
/// one, and zero for zero.
pub fn bit_length(x: u64) -> (n: u32)
    ensures
        n <= 64,
        x == 0 <==> n == 0,
        x > 0 ==> pow2((n - 1) as nat) <= x < pow2(n as nat),
{
    proof {
        if x > 0 {
            lemma_leading_zeros(x);
        } else {
            reveal_with_fuel(u64_leading_zeros, 1);
        }
    }
    64 - x.leading_zeros()
}

/// Zero rounds to the pattern zero.
proof fn lemma_pack_zero(x: Exact, kneg: nat)
    requires
        x.wf(),
        !x.above(0, kneg),
    ensures
        nearest_pattern(x) == 0,
{
    lemma2_to64();
    lemma_pow2_pos(kneg);
    lemma_units_zero(0);
    lemma_units_step(0);
    let f = pow2(kneg);
    assert(pattern_units(0) == 0 && pattern_units(1) == 1);
    if x.at_least(1, 1) {
        assert(0 * pow2(1) < 1 * f) by (nonlinear_arith)
            requires
                f > 0,
        ;
        lemma_below_bound(x, 0, kneg, 1, 1);
    }
    if x.at_least(1, 0) {
        assert(1 * pow2(0) <= 1 * pow2(1));
        lemma_below_bound(x, 1, 1, 1, 0);
    }
    lemma_at_least_zero(x);
    lemma_nearest_between(x, 0, false);
}

/// What is less than half a unit rounds to the pattern zero.
proof fn lemma_pack_tiny(x: Exact, sig: nat, kpos: nat, kneg: nat)
    requires
        x.wf(),
        sig < 0x4000_0000_0000_0000,
        kneg >= kpos + 64,
        !x.at_least((sig + 1) * pow2(kpos), kneg),
    ensures
        nearest_pattern(x) == 0,
{
    lemma2_to64();
    lemma2_to64_rest();
    lemma_units_zero(0);
    lemma_units_step(0);
    assert(pattern_units(0) == 0 && pattern_units(1) == 1);
    let g = pow2(kpos);
    let f = pow2(kneg);
    let h = pow2((kneg - kpos) as nat);
    lemma_pow2_adds((kneg - kpos) as nat, kpos);
    lemma_pow2_grows(64, (kneg - kpos) as nat);
    lemma_pow2_pos(kpos);
    if x.at_least(1, 1) {
        assert(((sig + 1) * g) * pow2(1) <= 1 * f) by (nonlinear_arith)
            requires
                f == h * g,
                h >= 0x1_0000_0000_0000_0000,
                sig < 0x4000_0000_0000_0000,
                g > 0,
                pow2(1) == 2,
        ;
        lemma_below_bound(x, (sig + 1) * g, kneg, 1, 1);
    }
    if x.at_least(1, 0) {
        assert(1 * pow2(0) <= 1 * pow2(1));
        lemma_below_bound(x, 1, 1, 1, 0);
    }
    lemma_at_least_zero(x);
    lemma_nearest_between(x, 0, false);
}

/// A value that a significand of at most 24 bits holds exactly rounds to
/// itself.
proof fn lemma_pack_exact(x: Exact, sig: nat, kpos: nat, kneg: nat, qe: nat, lift: nat, s: nat)
    requires
        x.wf(),
        x.at_least(sig * pow2(kpos), kneg),
        !x.above(sig * pow2(kpos), kneg),
        kpos == qe + kneg + lift,
        s == sig * pow2(lift),
        s < 0x100_0000,
        qe > 0 ==> s >= 0x80_0000,
    ensures
        nearest_pattern(x) == if qe * 0x80_0000 + s >= 0x7f80_0000 {
            0x7f80_0000
        } else {
            qe * 0x80_0000 + s
        },
{
    lemma2_to64();
    let g = pow2(kpos);
    let f = pow2(kneg);
    let q = pow2(qe);
    let u = pow2(lift);
    lemma_pow2_adds(qe + kneg, lift);
    lemma_pow2_adds(qe, kneg);
    lemma_pow2_pos(qe);
    lemma_pow2_pos(kneg);
    assert(g == (q * f) * u);
    let held = qe * 0x80_0000 + s;
    lemma_units_of_parts(qe, s);
    lemma_units_of_parts(qe, s + 1);
    assert(held + 1 == qe * 0x80_0000 + (s + 1));
    let lo = s * q;
    let hi = (s + 1) * q;
    assert(lo * f == (sig * g) * 1 && (sig * g) * 1 < hi * f && (sig * g) * 2 < (lo + hi) * f)
        by (nonlinear_arith)
        requires
            g == (q * f) * u,
            s == sig * u,
            lo == s * q,
            hi == (s + 1) * q,
            q > 0,
            f > 0,
    ;
    assert(lo * f <= (sig * g) * pow2(0));
    lemma_below_bound(x, lo, 0, sig * g, kneg);
    if x.at_least(hi, 0) {
        assert((sig * g) * pow2(0) < hi * f);
        lemma_below_bound(x, sig * g, kneg, hi, 0);
    }
    if x.at_least(lo + hi, 1) {
        assert((sig * g) * pow2(1) < (lo + hi) * f);
        lemma_below_bound(x, sig * g, kneg, lo + hi, 1);
    }
    lemma_nearest_between(x, held, false);
}

/// A value with more bits than a significand holds rounds by the bits that
/// are dropped: up if they are more than half a unit of the last place kept,
/// or half a unit and the value is above them or the kept part is odd.
proof fn lemma_pack_inexact(
    x: Exact,
    sig: nat,
    kpos: nat,
    kneg: nat,
    sticky: bool,
    qe: nat,
    shift: nat,
    q: nat,
    rem: nat,
)
    requires
        x.wf(),
        x.at_least(sig * pow2(kpos), kneg),
        !x.at_least((sig + 1) * pow2(kpos), kneg),
        sticky == x.above(sig * pow2(kpos), kneg),
        shift >= 1,
        qe + kneg == shift + kpos,
        sig == q * pow2(shift) + rem,
        rem < pow2(shift),
        q < 0x100_0000,
        qe > 0 ==> q >= 0x80_0000,
    ensures
        nearest_pattern(x) == if qe * 0x80_0000 + q >= 0x7f80_0000 {
            0x7f80_0000
        } else if rem > pow2((shift - 1) as nat) || (rem == pow2((shift - 1) as nat) && (sticky
            || q % 2 == 1)) {
            qe * 0x80_0000 + q + 1
        } else {
            qe * 0x80_0000 + q
        },
{
    lemma2_to64();
    let g = pow2(kpos);
    let f = pow2(kneg);
    let w = pow2(qe);
    let h = pow2(shift);
    let half = pow2((shift - 1) as nat);
    lemma_pow2_adds(qe, kneg);
    lemma_pow2_adds(shift, kpos);
    lemma_pow2_unfold(shift);
    lemma_pow2_pos(kpos);
    lemma_pow2_pos(kneg);
    lemma_pow2_pos(qe);
    assert(w * f == h * g);
    assert(h == 2 * half);
    let held = qe * 0x80_0000 + q;
    lemma_units_of_parts(qe, q);
    lemma_units_of_parts(qe, q + 1);
    assert(held + 1 == qe * 0x80_0000 + (q + 1));
    let lo = q * w;
    let hi = (q + 1) * w;
    let a = sig * g;
    let b = (sig + 1) * g;
    assert(lo * f == (q * h) * g && hi * f == ((q + 1) * h) * g && (lo + hi) * f == ((2 * q + 1)
        * h) * g) by (nonlinear_arith)
        requires
            w * f == h * g,
            lo == q * w,
            hi == (q + 1) * w,
    ;
    // the enclosing patterns
    assert(lo * f <= a * 1) by (nonlinear_arith)
        requires
            lo * f == (q * h) * g,
            a == sig * g,
            sig == q * h + rem,
            g > 0,
    ;
    assert(lo * f <= a * pow2(0));
    lemma_below_bound(x, lo, 0, a, kneg);
    assert(b * 1 <= hi * f) by (nonlinear_arith)
        requires
            hi * f == ((q + 1) * h) * g,
            b == (sig + 1) * g,
            sig == q * h + rem,
            rem < h,
            g > 0,
    ;
    if x.at_least(hi, 0) {
        assert(b * pow2(0) <= hi * f);
        lemma_below_bound(x, b, kneg, hi, 0);
    }
    // the middle
    if rem < half {
        assert(b * 2 <= (lo + hi) * f) by (nonlinear_arith)
            requires
                (lo + hi) * f == ((2 * q + 1) * h) * g,
                b == (sig + 1) * g,
                sig == q * h + rem,
                rem < half,
                h == 2 * half,
                g > 0,
        ;
        if x.at_least(lo + hi, 1) {
            assert(b * pow2(1) <= (lo + hi) * f);
            lemma_below_bound(x, b, kneg, lo + hi, 1);
        }
    } else if rem > half {
        assert((lo + hi) * f < a * 2) by (nonlinear_arith)
            requires
                (lo + hi) * f == ((2 * q + 1) * h) * g,
                a == sig * g,
                sig == q * h + rem,
                rem > half,
                h == 2 * half,
                g > 0,
        ;
        assert((lo + hi) * f < a * pow2(1));
        lemma_below_bound(x, lo + hi, 1, a, kneg);
    } else {
        assert((lo + hi) * f == a * 2) by (nonlinear_arith)
            requires
                (lo + hi) * f == ((2 * q + 1) * h) * g,
                a == sig * g,
                sig == q * h + rem,
                rem == half,
                h == 2 * half,
        ;
        assert((lo + hi) * f <= a * pow2(1));
        lemma_below_bound(x, lo + hi, 1, a, kneg);
        if x.above(lo + hi, 1) {
            assert(a * pow2(1) <= (lo + hi) * f);
            lemma_below_bound(x, a, kneg, lo + hi, 1);
        }
    }
    assert(held % 2 == q % 2);
    let up = rem > half || (rem == half && (sticky || q % 2 == 1));
    lemma_nearest_between(x, held, up);
}

/// The magnitude pattern nearest to `x`, which lies between
/// `sig * 2^kpos / 2^kneg` and the same with `sig + 1`, and above the
/// former if and only if `sticky`; then `sig` has at least two bits more
/// than a significand.
pub(crate) fn round_pack(
    sig: u64,
    kpos: u32,
    kneg: u32,
    sticky: bool,
    Ghost(x): Ghost<Exact>,
) -> (p: u32)
    requires
        x.wf(),
        sig < 0x4000_0000_0000_0000,
        kpos <= 1000,
        kneg <= 1000,
        x.at_least(sig as nat * pow2(kpos as nat), kneg as nat),
        !x.at_least((sig + 1) as nat * pow2(kpos as nat), kneg as nat),
        sticky == x.above(sig as nat * pow2(kpos as nat), kneg as nat),
        sticky ==> sig >= 0x200_0000,
    ensures
        p == nearest_pattern(x),
        p <= 0x7f80_0000,
{
    if sig == 0 {
        proof {
            assert(0 * pow2(kpos as nat) == 0) by (nonlinear_arith);
            lemma_pack_zero(x, kneg as nat);
        }
        return 0;
    }
    let n: u32 = bit_length(sig);
    let top: i64 = n as i64 + kpos as i64 - kneg as i64 - 24;
    let qe: i64 = if top > 0 {
        top
    } else {
        0
    };
    let shift: i64 = qe + kneg as i64 - kpos as i64;
    proof {
        lemma2_to64();
        lemma2_to64_rest();
        if n > 62 {
            lemma_pow2_grows(62, (n - 1) as nat);
        }
        if sticky {
            if n < 26 {
                lemma_pow2_grows(n as nat, 25);
            }
        }
    }
    let kept: u64;
    let up: bool;
    if shift <= 0 {
        let lift: u64 = (-shift) as u64;
        proof {
            lemma_pow2_adds(n as nat, lift as nat);
            lemma_pow2_grows((n + lift) as nat, 24);
            lemma_pow2_pos(lift as nat);
            assert(sig * pow2(lift as nat) < 0x100_0000) by (nonlinear_arith)
                requires
                    sig < pow2(n as nat),
                    pow2(n as nat) * pow2(lift as nat) <= 0x100_0000,
                    pow2(lift as nat) > 0,
            ;
            lemma_u64_shl_is_mul(sig, lift);
            if qe > 0 {
                lemma_pow2_adds((n - 1) as nat, lift as nat);
                assert(sig * pow2(lift as nat) >= 0x80_0000) by (nonlinear_arith)
                    requires
                        sig >= pow2((n - 1) as nat),
                        pow2((n - 1) as nat) * pow2(lift as nat) == 0x80_0000,
                        pow2(lift as nat) > 0,
                ;
            }
            lemma_pack_exact(
                x,
                sig as nat,
                kpos as nat,
                kneg as nat,
                qe as nat,
                lift as nat,
                sig as nat * pow2(lift as nat),
            );
        }
        kept = sig << lift;
        up = false;
    } else if shift >= 64 {
        proof {
            lemma_pack_tiny(x, sig as nat, kpos as nat, kneg as nat);
        }
        return 0;
    } else {
        proof {
            lemma_u64_pow2_no_overflow(shift as nat);
            lemma_u64_shl_is_mul(1, shift as u64);
        }
        let h: u64 = 1u64 << (shift as u64);
        let q: u64 = sig / h;
        let rem: u64 = sig % h;
        let half: u64 = h / 2;
        proof {
            lemma_fundamental_div_mod(sig as int, h as int);
            lemma_mod_bound(sig as int, h as int);
            lemma_pow2_unfold(shift as nat);
            assert(h == pow2(shift as nat));
            assert(half == pow2((shift - 1) as nat));
            assert(sig == q * h + rem) by (nonlinear_arith)
                requires
                    sig == h * (sig / h) + (sig % h),
                    q == sig / h,
                    rem == sig % h,
            ;
            // the part kept has at most 24 bits, and exactly 24 above the subnormal range
            lemma_pow2_adds(shift as nat, 24);
            lemma_pow2_grows(n as nat, (shift + 24) as nat);
            assert(q < 0x100_0000) by (nonlinear_arith)
                requires
                    sig == q * h + rem,
                    sig < h * 0x100_0000,
                    h > 0,
            ;
            if qe > 0 {
                lemma_pow2_adds(shift as nat, 23);
                assert(q >= 0x80_0000) by (nonlinear_arith)
                    requires
                        sig == q * h + rem,
                        rem < h,
                        sig >= h * 0x80_0000,
                        h > 0,
                ;
            }
            lemma_pack_inexact(
                x,
                sig as nat,
                kpos as nat,
                kneg as nat,
                sticky,
                qe as nat,
                shift as nat,
                q as nat,
                rem as nat,
            );
        }
        kept = q;
        up = rem > half || (rem == half && (sticky || q % 2 == 1));
    }
    if qe >= 255 {
        return INFINITY_BITS;
    }
    let held: u32 = (qe as u32) * 0x80_0000 + (kept as u32);
    if held >= INFINITY_BITS {
        INFINITY_BITS
    } else if up {
        held + 1
    } else {
        held
    }
}

} // verus!
