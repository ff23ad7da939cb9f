//! Single-precision numbers as bit patterns, and what a pattern denotes.
//!
//! A pattern has a sign bit, eight exponent bits and twenty-three fraction
//! bits. Without its sign it is a *magnitude pattern*; magnitude patterns
//! are ordered as the magnitudes they denote. Every finite number is a whole
//! multiple of 2^-149, the smallest positive one, and the model counts in
//! that unit.
use vstd::prelude::*;
use vstd::arithmetic::power2::{pow2, lemma_pow2_pos, lemma_pow2_unfold, lemma2_to64};

verus! {

/// The sign bit of a pattern.
pub const SIGN_BIT: u32 = 0x8000_0000;

/// The magnitude pattern of infinity; every larger one is a NaN.
pub const INFINITY_BITS: u32 = 0x7f80_0000;

/// The NaN that arithmetic returns.
pub const NAN_BITS: u32 = 0x7fc0_0000;

/// What a pattern denotes.
pub enum Number {
    /// Not a number.
    Nan,
    /// Positive or negative infinity.
    Infinite { negative: bool },
    /// The number `units` * 2^-149, negated if `negative`. Zero has a sign.
    Finite { negative: bool, units: nat },
}

/// The exponent of the least significant bit of the magnitude pattern `p`,
/// counted from 2^-149.
pub open spec fn pattern_exponent(p: nat) -> nat {
    if p < 0x100_0000 {
        0
    } else {
        (p / 0x80_0000 - 1) as nat
    }
}

/// The significand of the magnitude pattern `p`: its fraction bits, under
/// the implicit bit unless the exponent field is zero.
pub open spec fn pattern_significand(p: nat) -> nat {
    if p < 0x80_0000 {
        p
    } else {
        0x80_0000 + p % 0x80_0000
    }
}

/// The magnitude that the magnitude pattern `p` denotes, in units of 2^-149.
/// For the pattern of infinity this is 2^128, the value that the next
/// number would have.
pub open spec fn pattern_units(p: nat) -> nat {
    pattern_significand(p) * pow2(pattern_exponent(p))
}

impl Number {
    /// Whether the sign is negative; a NaN has none here.
    pub open spec fn is_negative(self) -> bool {
        match self {
            Number::Nan => false,
            Number::Infinite { negative } => negative,
            Number::Finite { negative, .. } => negative,
        }
    }

    /// A finite number in units of 2^-149, with its sign.
    pub open spec fn signed_units(self) -> int
        recommends
            self is Finite,
    {
        match self {
            Number::Finite { negative, units } => if negative {
                -(units as int)
            } else {
                units as int
            },
            _ => 0,
        }
    }

    /// `self < other` as numbers: false when either is a NaN, and the two
    /// zeros are equal.
    pub open spec fn less_than(self, other: Number) -> bool {
        match (self, other) {
            (Number::Nan, _) => false,
            (_, Number::Nan) => false,
            (Number::Infinite { negative: a }, Number::Infinite { negative: b }) => a && !b,
            (Number::Infinite { negative }, Number::Finite { .. }) => negative,
            (Number::Finite { .. }, Number::Infinite { negative }) => !negative,
            (Number::Finite { .. }, Number::Finite { .. }) => self.signed_units()
                < other.signed_units(),
        }
    }

    /// `self == other` as numbers: false when either is a NaN, and the two
    /// zeros are equal.
    pub open spec fn equal_to(self, other: Number) -> bool {
        match (self, other) {
            (Number::Infinite { negative: a }, Number::Infinite { negative: b }) => a == b,
            (Number::Finite { .. }, Number::Finite { .. }) => self.signed_units()
                == other.signed_units(),
            _ => false,
        }
    }

    /// The number with the sign removed.
    pub open spec fn magnitude(self) -> Number {
        match self {
            Number::Nan => Number::Nan,
            Number::Infinite { .. } => Number::Infinite { negative: false },
            Number::Finite { units, .. } => Number::Finite { negative: false, units },
        }
    }

    /// The number with the sign changed.
    pub open spec fn negated(self) -> Number {
        match self {
            Number::Nan => Number::Nan,
            Number::Infinite { negative } => Number::Infinite { negative: !negative },
            Number::Finite { negative, units } => Number::Finite { negative: !negative, units },
        }
    }
}

/// What the magnitude pattern `p` denotes under the sign `negative`.
pub open spec fn denoted(negative: bool, p: nat) -> Number {
    if p > 0x7f80_0000 {
        Number::Nan
    } else if p == 0x7f80_0000 {
        Number::Infinite { negative }
    } else {
        Number::Finite { negative, units: pattern_units(p) }
    }
}

/// From one magnitude pattern to the next, the magnitude grows by one unit
/// in the last place.
pub proof fn lemma_units_step(p: nat)
    ensures
        pattern_units(p + 1) == pattern_units(p) + pow2(pattern_exponent(p)),
{
    lemma2_to64();
    let e = pattern_exponent(p);
    let s = pattern_significand(p);
    if p + 1 < 0x100_0000 {
        assert(pattern_units(p) == p * 1);
        assert(pattern_units(p + 1) == (p + 1) * 1);
    } else if p + 1 == 0x100_0000 {
        assert(pattern_units(p) == p * 1);
        assert(pattern_units(p + 1) == 0x80_0000 * 2);
    } else {
        let m = p % 0x80_0000;
        if m + 1 < 0x80_0000 {
            assert(pattern_exponent(p + 1) == e);
            assert(pattern_significand(p + 1) == s + 1);
            assert((s + 1) * pow2(e) == s * pow2(e) + pow2(e)) by (nonlinear_arith);
        } else {
            assert(pattern_exponent(p + 1) == e + 1);
            assert(pattern_significand(p + 1) == 0x80_0000);
            assert(s == 0x100_0000 - 1);
            lemma_pow2_unfold(e + 1);
            assert(0x80_0000 * (2 * pow2(e)) == (0x100_0000 - 1) * pow2(e) + pow2(e))
                by (nonlinear_arith);
        }
    }
}

/// Magnitude patterns are ordered as the magnitudes they denote.
pub proof fn lemma_units_increase(p: nat, q: nat)
    requires
        p < q,
    ensures
        pattern_units(p) < pattern_units(q),
    decreases q - p,
{
    lemma_units_step(p);
    lemma_pow2_pos(pattern_exponent(p));
    if p + 1 < q {
        lemma_units_increase(p + 1, q);
    }
}

/// Only the pattern zero denotes zero.
pub proof fn lemma_units_zero(p: nat)
    ensures
        pattern_units(p) == 0 <==> p == 0,
{
    lemma2_to64();
    assert(pattern_units(0) == 0 * 1);
    if p > 0 {
        lemma_units_increase(0, p);
    }
}

/// A single-precision number, held as its bit pattern.
#[derive(Clone, Copy, Debug)]
pub struct Binary32 {
    pub bits: u32,
}

impl View for Binary32 {
    type V = Number;

    open spec fn view(&self) -> Number {
        denoted(self.bits >= 0x8000_0000, (self.bits % 0x8000_0000) as nat)
    }
}

impl Binary32 {
    /// The pattern that stands for `n`; among those of a NaN it is the one
    /// that arithmetic returns.
    pub open spec fn of(n: Number) -> Binary32 {
        match n {
            Number::Nan => Binary32 { bits: NAN_BITS },
            Number::Infinite { negative } => Binary32 {
                bits: if negative {
                    0xff80_0000
                } else {
                    0x7f80_0000
                },
            },
            Number::Finite { negative, units } => {
                let p = choose|p: nat| p < 0x7f80_0000 && pattern_units(p) == units;
                Binary32 {
                    bits: if negative {
                        (p + 0x8000_0000) as u32
                    } else {
                        p as u32
                    },
                }
            },
        }
    }
}

/// A number has one pattern only, and a NaN has the one that arithmetic
/// returns if it has come from arithmetic.
pub proof fn lemma_one_pattern(b: Binary32)
    requires
        b@ is Nan ==> b.bits == NAN_BITS,
    ensures
        b == Binary32::of(b@),
{
    let own = (b.bits % 0x8000_0000) as nat;
    if own < 0x7f80_0000 {
        let p = choose|p: nat| p < 0x7f80_0000 && pattern_units(p) == pattern_units(own);
        if p < own {
            lemma_units_increase(p, own);
        }
        if own < p {
            lemma_units_increase(own, p);
        }
    }
}

/// The signed magnitude pattern of a number that is no NaN.
pub open spec fn rank_of(a: Binary32) -> int {
    if a.bits >= 0x8000_0000 {
        -(a.bits % 0x8000_0000)
    } else {
        (a.bits % 0x8000_0000) as int
    }
}

impl Binary32 {
    /// The number with the given pattern.
    pub fn from_bits(bits: u32) -> (r: Self)
        ensures
            r.bits == bits,
    {
        Binary32 { bits }
    }

    /// The pattern of the number.
    pub fn to_bits(self) -> (bits: u32)
        ensures
            bits == self.bits,
    {
        self.bits
    }

    /// The pattern without its sign bit.
    pub fn magnitude_bits(self) -> (p: u32)
        ensures
            p == self.bits % 0x8000_0000,
            p <= 0x7fff_ffff,
    {
        let bits: u32 = self.bits;
        assert(bits & 0x7fff_ffff == bits % 0x8000_0000) by (bit_vector);
        bits & 0x7fff_ffff
    }

    /// Whether the sign bit is set, as it may be in any pattern.
    pub fn is_sign_negative(self) -> (r: bool)
        ensures
            r == (self.bits >= 0x8000_0000),
            !(self@ is Nan) ==> r == self@.is_negative(),
    {
        self.bits >= SIGN_BIT
    }

    /// The number with the magnitude pattern `p` under the given sign.
    pub fn from_sign_and_magnitude(negative: bool, p: u32) -> (r: Self)
        requires
            p <= 0x7fff_ffff,
        ensures
            r@ == denoted(negative, p as nat),
            r.bits % 0x8000_0000 == p,
            (r.bits >= 0x8000_0000) == negative,
    {
        if negative {
            Binary32 { bits: p + SIGN_BIT }
        } else {
            Binary32 { bits: p }
        }
    }

    /// Whether the pattern is that of a NaN.
    pub fn is_nan(self) -> (r: bool)
        ensures
            r == (self@ is Nan),
    {
        self.magnitude_bits() > INFINITY_BITS
    }

    /// Whether the number is positive or negative infinity.
    pub fn is_infinite(self) -> (r: bool)
        ensures
            r == (self@ is Infinite),
    {
        self.magnitude_bits() == INFINITY_BITS
    }

    /// Whether the number is neither infinite nor a NaN.
    pub fn is_finite(self) -> (r: bool)
        ensures
            r == (self@ is Finite),
    {
        self.magnitude_bits() < INFINITY_BITS
    }

    /// The absolute value: the same pattern with the sign bit cleared.
    pub fn abs(self) -> (r: Self)
        ensures
            r@ == self@.magnitude(),
            r.bits == self.bits % 0x8000_0000,
    {
        Binary32 { bits: self.magnitude_bits() }
    }

    /// The negation: the same pattern with the sign bit flipped.
    pub fn neg(self) -> (r: Self)
        ensures
            r@ == self@.negated(),
            r.bits % 0x8000_0000 == self.bits % 0x8000_0000,
            (r.bits >= 0x8000_0000) != (self.bits >= 0x8000_0000),
    {
        Self::from_sign_and_magnitude(!self.is_sign_negative(), self.magnitude_bits())
    }

    /// The place of a number that is no NaN in the order of all such
    /// numbers, with both zeros at place zero.
    fn rank(self) -> (k: i64)
        ensures
            k == rank_of(self),
    {
        let p: i64 = self.magnitude_bits() as i64;
        if self.is_sign_negative() {
            -p
        } else {
            p
        }
    }

    /// `self < other`.
    pub fn lt(self, other: Binary32) -> (r: bool)
        ensures
            r == self@.less_than(other@),
    {
        if self.is_nan() || other.is_nan() {
            return false;
        }
        proof {
            lemma_rank_order(self, other);
        }
        self.rank() < other.rank()
    }

    /// `self > other`.
    pub fn gt(self, other: Binary32) -> (r: bool)
        ensures
            r == other@.less_than(self@),
    {
        other.lt(self)
    }

    /// `self <= other`.
    pub fn le(self, other: Binary32) -> (r: bool)
        ensures
            r == (self@.less_than(other@) || self@.equal_to(other@)),
    {
        if self.is_nan() || other.is_nan() {
            return false;
        }
        proof {
            lemma_rank_order(self, other);
        }
        self.rank() <= other.rank()
    }

    /// `self >= other`.
    pub fn ge(self, other: Binary32) -> (r: bool)
        ensures
            r == (other@.less_than(self@) || other@.equal_to(self@)),
    {
        other.le(self)
    }

    /// `self == other` as numbers.
    pub fn eq(self, other: Binary32) -> (r: bool)
        ensures
            r == self@.equal_to(other@),
    {
        if self.is_nan() || other.is_nan() {
            return false;
        }
        proof {
            lemma_rank_order(self, other);
        }
        self.rank() == other.rank()
    }
}

/// Numbers that are no NaN are ordered as their signed magnitude patterns.
pub proof fn lemma_rank_order(a: Binary32, b: Binary32)
    requires
        !(a@ is Nan),
        !(b@ is Nan),
    ensures
        rank_of(a) < rank_of(b) <==> a@.less_than(b@),
        rank_of(a) == rank_of(b) <==> a@.equal_to(b@),
{
    let p = (a.bits % 0x8000_0000) as nat;
    let q = (b.bits % 0x8000_0000) as nat;
    lemma_units_zero(p);
    lemma_units_zero(q);
    if p < q {
        lemma_units_increase(p, q);
    }
    if q < p {
        lemma_units_increase(q, p);
    }
}

} // verus!
