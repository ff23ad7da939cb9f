//! Plane vectors, and the normalisation of rectangles given as a position
//! and a size.
use vstd::prelude::*;
use vstd::arithmetic::power2::{pow2, lemma_pow2_adds, lemma_pow2_pos, lemma2_to64};
use vstd::std_specs::cmp::PartialEqSpecImpl;
use vstd::std_specs::ops::{AddSpecImpl, MulSpecImpl, SubSpecImpl};
use crate::arith::lemma_pattern_rounds_to_itself;
use crate::binary32::{lemma_one_pattern, lemma_units_zero, Binary32, Number};
use crate::rounding::{lemma_nearest_of_positive, lemma_units_of_parts, nearest_pattern, Exact};
use crate::tolerance::lemma_zero_rounds_to_zero;

verus! {

/// The pattern of 2^-23, the distance from one to the next larger number.
pub const EPSILON_BITS: u32 = 0x3400_0000;

/// The pattern of one.
pub const ONE_BITS: u32 = 0x3f80_0000;

/// The pattern of 0.2617994, a twelfth of pi: fifteen degrees.
pub const SNAP_STEP_BITS: u32 = 0x3e86_0a92;

/// The pattern of a quarter of pi: forty-five degrees.
pub const QUARTER_PI_BITS: u32 = 0x3f49_0fdb;

/// The pattern of half of pi: ninety degrees.
pub const HALF_PI_BITS: u32 = 0x3fc9_0fdb;

/// What the pattern `bits` denotes.
pub open spec fn number_of(bits: u32) -> Number {
    (Binary32 { bits })@
}

impl Number {
    /// Positive zero.
    pub open spec fn zero() -> Number {
        Number::Finite { negative: false, units: 0 }
    }

    /// 2^-23.
    pub open spec fn epsilon() -> Number {
        Number::Finite { negative: false, units: pow2(126) }
    }

    /// `other <= self` as numbers.
    pub open spec fn at_least(self, other: Number) -> bool {
        other.less_than(self) || other.equal_to(self)
    }
}

impl Binary32 {
    /// Positive zero.
    pub fn zero() -> (r: Binary32)
        ensures
            r@ == Number::zero(),
            r.bits == 0,
    {
        proof {
            lemma_units_zero(0);
        }
        Binary32 { bits: 0 }
    }

    /// 2^-23.
    pub fn epsilon() -> (r: Binary32)
        ensures
            r@ == Number::epsilon(),
            r.bits == EPSILON_BITS,
    {
        proof {
            lemma2_to64();
            lemma_units_of_parts(103, 0x80_0000);
            lemma_pow2_adds(23, 103);
        }
        Binary32 { bits: EPSILON_BITS }
    }
}

/// A vector of the plane.
#[derive(Clone, Copy, Debug)]
pub struct Vec2D {
    pub x: Binary32,
    pub y: Binary32,
}

impl View for Vec2D {
    type V = (Number, Number);

    open spec fn view(&self) -> (Number, Number) {
        (self.x@, self.y@)
    }
}

/// The square of the length of `v`: `x * x + y * y`, each step rounded.
pub open spec fn norm2_of(v: (Number, Number)) -> Number {
    v.0.times(v.0).plus(v.1.times(v.1))
}

/// The angle `angle` brought to the nearest multiple of fifteen degrees:
/// the step, times the whole number nearest to the number of steps in
/// `angle`.
pub open spec fn snapped_angle(angle: Number) -> Number {
    angle.divided_by(number_of(SNAP_STEP_BITS)).round_to_integer().times(
        number_of(SNAP_STEP_BITS),
    )
}

/// Whether a snapped angle is less than forty-five degrees from the x-axis.
pub open spec fn nearer_to_x_axis(new_angle: Number) -> bool {
    new_angle.magnitude().less_than(number_of(QUARTER_PI_BITS))
}

/// The angle whose tangent serves to rebuild a vector at the snapped angle
/// `new_angle`: the angle itself, or what it lacks to ninety degrees where
/// it is nearer to the x-axis, so that the tangent stays small.
pub open spec fn tangent_angle(new_angle: Number) -> Number {
    if nearer_to_x_axis(new_angle) {
        number_of(HALF_PI_BITS).minus(new_angle)
    } else {
        new_angle
    }
}

/// The sizes along x and y of the vector of squared length `norm2` at the
/// snapped angle `new_angle`, from the square of the tangent of
/// `tangent_angle(new_angle)`. One is `sqrt(norm2 / (tangent^2 + 1))`; the
/// other is what it leaves of `norm2`.
pub open spec fn snapped_sizes(norm2: Number, new_angle: Number, tangent_squared: Number) -> (
    Number,
    Number,
) {
    let first = norm2.divided_by(tangent_squared.plus(number_of(ONE_BITS))).square_root();
    let second = norm2.minus(first.times(first)).square_root();
    if nearer_to_x_axis(new_angle) {
        (second, first)
    } else {
        (first, second)
    }
}

/// The sizes `a` along x and `b` along y, with the signs of the quadrant
/// in which `v` lies.
pub open spec fn in_quadrant_of(v: (Number, Number), a: Number, b: Number) -> (Number, Number) {
    let right = v.0.at_least(Number::zero());
    let left = v.0.less_than(Number::zero());
    let up = v.1.at_least(Number::zero());
    let down = v.1.less_than(Number::zero());
    if right && up {
        (a, b)
    } else if left && up {
        (a.negated(), b)
    } else if right && down {
        (a, b.negated())
    } else {
        (a.negated(), b.negated())
    }
}

/// Snapping keeps the quadrant. Where the square of the tangent has no
/// negative sign, a component of the snapped vector that is a number has a
/// negative sign if and only if that component of `v` is below zero.
pub proof fn lemma_snapping_keeps_quadrant(
    v: (Number, Number),
    new_angle: Number,
    tangent_squared: Number,
)
    requires
        !tangent_squared.is_negative(),
    ensures
        ({
            let sizes = snapped_sizes(norm2_of(v), new_angle, tangent_squared);
            let r = in_quadrant_of(v, sizes.0, sizes.1);
            &&& !(r.0 is Nan) ==> (r.0.is_negative() <==> v.0.less_than(Number::zero()))
            &&& !(r.1 is Nan) ==> (r.1.is_negative() <==> v.1.less_than(Number::zero()))
        }),
{
    let n2 = norm2_of(v);
    let one = number_of(ONE_BITS);
    let t1 = tangent_squared.plus(one);
    let first = n2.divided_by(t1).square_root();
    let square = first.times(first);
    let rest = n2.minus(square);
    let second = rest.square_root();
    lemma_units_zero(0x3f80_0000);
    assert(!n2.is_negative());
    assert(v.0 is Nan || v.1 is Nan ==> n2 is Nan);
    assert(!t1.is_negative());
    assert(first is Nan || !first.is_negative());
    assert(!square.is_negative());
    assert(second is Nan || !second.is_negative()) by {
        if n2 is Finite && square is Finite {
            let sum = n2.signed_units() + square.negated().signed_units();
            if sum < 0 {
                lemma_nearest_of_positive((-sum) as nat);
                lemma_units_zero(nearest_pattern(Exact::Ratio { num: (-sum) as nat, den: 1 }));
            }
        }
    }
}

/// Whether both components are nearer to zero than 2^-23.
pub open spec fn nearly_zero(v: (Number, Number)) -> bool {
    v.0.magnitude().less_than(Number::epsilon()) && v.1.magnitude().less_than(Number::epsilon())
}

/// The zero vector is nearly zero, and no vector is that has a component
/// of magnitude 2^-23 or more.
pub proof fn lemma_nearly_zero(v: (Number, Number))
    ensures
        nearly_zero((Number::zero(), Number::zero())),
        v.0.magnitude().at_least(Number::epsilon()) || v.1.magnitude().at_least(Number::epsilon())
            ==> !nearly_zero(v),
{
    lemma_pow2_pos(126);
}

impl Vec2D {
    /// The zero vector.
    pub fn zero() -> (r: Self)
        ensures
            r@ == (Number::zero(), Number::zero()),
            r.x.bits == 0,
            r.y.bits == 0,
    {
        Vec2D { x: Binary32::zero(), y: Binary32::zero() }
    }

    /// The vector with the given components.
    pub fn new(x: Binary32, y: Binary32) -> (r: Self)
        ensures
            r.x == x,
            r.y == y,
    {
        Vec2D { x, y }
    }

    /// The length: the square root of `x * x + y * y`. That of the zero
    /// vector is zero.
    pub fn norm(&self) -> (r: Binary32)
        ensures
            r@ == norm2_of(self@).square_root(),
            self@ == (Number::zero(), Number::zero()) ==> r@ == Number::zero(),
    {
        proof {
            lemma_pow2_pos(149);
            lemma_zero_rounds_to_zero(pow2(149));
            lemma_units_zero(0);
            assert(0 * 0 == 0);
        }
        self.x.mul(self.x).add(self.y.mul(self.y)).sqrt()
    }

    /// The square of the length: `x * x + y * y`, each step rounded.
    pub fn norm2(&self) -> (r: Binary32)
        ensures
            r@ == norm2_of(self@),
    {
        self.x.mul(self.x).add(self.y.mul(self.y))
    }

    /// The slope `y / x`, whose arctangent is the angle of the vector from
    /// the x-axis, taken as if `x` were positive. It is no number for the
    /// zero vector.
    pub fn slope(&self) -> (r: Binary32)
        ensures
            r@ == self.y@.divided_by(self.x@),
    {
        self.y.div(self.x)
    }

    /// The vector of the same length at the snapped angle `new_angle`, in
    /// the quadrant of this vector, from the square of the tangent of
    /// `snap_tangent_angle(new_angle)`.
    pub fn snapped_vector_15deg(&self, new_angle: Binary32, tangent_squared: Binary32) -> (r:
        Vec2D)
        ensures
            r@ == ({
                let sizes = snapped_sizes(norm2_of(self@), new_angle@, tangent_squared@);
                in_quadrant_of(self@, sizes.0, sizes.1)
            }),
            !tangent_squared@.is_negative() && !(r.x@ is Nan) ==> (r.x@.is_negative()
                <==> self.x@.less_than(Number::zero())),
            !tangent_squared@.is_negative() && !(r.y@ is Nan) ==> (r.y@.is_negative()
                <==> self.y@.less_than(Number::zero())),
    {
        proof {
            if !tangent_squared@.is_negative() {
                lemma_snapping_keeps_quadrant(self@, new_angle@, tangent_squared@);
            }
        }
        let current_norm2: Binary32 = self.norm2();
        let one: Binary32 = Binary32 { bits: ONE_BITS };
        let first: Binary32 = current_norm2.div(tangent_squared.add(one)).sqrt();
        let second: Binary32 = current_norm2.sub(first.mul(first)).sqrt();
        let (a, b) = if new_angle.abs().lt(Binary32 { bits: QUARTER_PI_BITS }) {
            (second, first)
        } else {
            (first, second)
        };
        let zero: Binary32 = Binary32::zero();
        if self.x.ge(zero) && self.y.ge(zero) {
            Vec2D::new(a, b)
        } else if self.x.lt(zero) && self.y.ge(zero) {
            Vec2D::new(a.neg(), b)
        } else if self.x.ge(zero) && self.y.lt(zero) {
            Vec2D::new(a, b.neg())
        } else {
            Vec2D::new(a.neg(), b.neg())
        }
    }

    /// Whether both components are nearer to zero than 2^-23.
    pub fn is_zero(&self) -> (r: bool)
        ensures
            r == nearly_zero(self@),
            self.x@.magnitude().at_least(Number::epsilon()) || self.y@.magnitude().at_least(
                Number::epsilon(),
            ) ==> !r,
    {
        proof {
            lemma_nearly_zero(self@);
        }
        self.x.abs().lt(Binary32::epsilon()) && self.y.abs().lt(Binary32::epsilon())
    }
}

impl core::ops::AddAssign for Vec2D {
    /// Adds `rhs` to the vector, component by component.
    fn add_assign(&mut self, rhs: Vec2D)
        ensures
            final(self)@ == (old(self).x@.plus(rhs.x@), old(self).y@.plus(rhs.y@)),
    {
        self.x = self.x.add(rhs.x);
        self.y = self.y.add(rhs.y);
    }
}

impl core::ops::SubAssign for Vec2D {
    /// Subtracts `rhs` from the vector, component by component.
    fn sub_assign(&mut self, rhs: Vec2D)
        ensures
            final(self)@ == (old(self).x@.minus(rhs.x@), old(self).y@.minus(rhs.y@)),
    {
        self.x = self.x.sub(rhs.x);
        self.y = self.y.sub(rhs.y);
    }
}

impl Default for Vec2D {
    /// The zero vector.
    fn default() -> (r: Self)
        ensures
            r@ == (Number::zero(), Number::zero()),
    {
        Vec2D::zero()
    }
}

impl PartialEq for Vec2D {
    /// Whether the components are equal as numbers.
    fn eq(&self, other: &Vec2D) -> (r: bool) {
        self.x.eq(other.x) && self.y.eq(other.y)
    }
}

impl PartialEqSpecImpl for Vec2D {
    open spec fn obeys_eq_spec() -> bool {
        true
    }

    open spec fn eq_spec(&self, other: &Vec2D) -> bool {
        self.x@.equal_to(other.x@) && self.y@.equal_to(other.y@)
    }
}

impl AddSpecImpl for Vec2D {
    open spec fn obeys_add_spec() -> bool {
        true
    }

    open spec fn add_req(self, rhs: Vec2D) -> bool {
        true
    }

    open spec fn add_spec(self, rhs: Vec2D) -> Vec2D {
        Vec2D { x: Binary32::of(self.x@.plus(rhs.x@)), y: Binary32::of(self.y@.plus(rhs.y@)) }
    }
}

impl core::ops::Add for Vec2D {
    type Output = Vec2D;

    /// The sum, component by component.
    fn add(self, rhs: Vec2D) -> (r: Vec2D)
        ensures
            r@ == (self.x@.plus(rhs.x@), self.y@.plus(rhs.y@)),
    {
        let r = Vec2D { x: self.x.add(rhs.x), y: self.y.add(rhs.y) };
        proof {
            lemma_one_pattern(r.x);
            lemma_one_pattern(r.y);
        }
        r
    }
}

impl SubSpecImpl for Vec2D {
    open spec fn obeys_sub_spec() -> bool {
        true
    }

    open spec fn sub_req(self, rhs: Vec2D) -> bool {
        true
    }

    open spec fn sub_spec(self, rhs: Vec2D) -> Vec2D {
        Vec2D { x: Binary32::of(self.x@.minus(rhs.x@)), y: Binary32::of(self.y@.minus(rhs.y@)) }
    }
}

impl core::ops::Sub for Vec2D {
    type Output = Vec2D;

    /// The difference, component by component.
    fn sub(self, rhs: Vec2D) -> (r: Vec2D)
        ensures
            r@ == (self.x@.minus(rhs.x@), self.y@.minus(rhs.y@)),
    {
        let r = Vec2D { x: self.x.sub(rhs.x), y: self.y.sub(rhs.y) };
        proof {
            lemma_one_pattern(r.x);
            lemma_one_pattern(r.y);
        }
        r
    }
}

impl MulSpecImpl<Binary32> for Vec2D {
    open spec fn obeys_mul_spec() -> bool {
        true
    }

    open spec fn mul_req(self, rhs: Binary32) -> bool {
        true
    }

    open spec fn mul_spec(self, rhs: Binary32) -> Vec2D {
        Vec2D { x: Binary32::of(self.x@.times(rhs@)), y: Binary32::of(self.y@.times(rhs@)) }
    }
}

impl core::ops::Mul<Binary32> for Vec2D {
    type Output = Vec2D;

    /// The vector scaled by `rhs`.
    fn mul(self, rhs: Binary32) -> (r: Vec2D)
        ensures
            r@ == (self.x@.times(rhs@), self.y@.times(rhs@)),
    {
        let r = Vec2D::new(self.x.mul(rhs), self.y.mul(rhs));
        proof {
            lemma_one_pattern(r.x);
            lemma_one_pattern(r.y);
        }
        r
    }
}

/// One axis of a rectangle with a size that is not negative: as it is where
/// the size is zero or more, else begun at its other end.
pub open spec fn positive_axis(pos: Number, size: Number) -> (Number, Number) {
    if size.at_least(Number::zero()) {
        (pos, size)
    } else {
        (pos.plus(size), size.magnitude())
    }
}

/// One axis of `rect_ensure_positive_size`.
fn axis_ensure_positive_size(pos: Binary32, size: Binary32) -> (r: (Binary32, Binary32))
    ensures
        (r.0@, r.1@) == positive_axis(pos@, size@),
        !(size@ is Nan) ==> r.1@.at_least(Number::zero()),
{
    if size.ge(Binary32::zero()) {
        (pos, size)
    } else {
        (pos.add(size), size.abs())
    }
}

/// The rectangle that covers what `(pos, size)` covers, with a size that is
/// not negative on either axis (where that size is a number at all).
pub fn rect_ensure_positive_size(pos: Vec2D, size: Vec2D) -> (r: (Vec2D, Vec2D))
    ensures
        (r.0.x@, r.1.x@) == positive_axis(pos.x@, size.x@),
        (r.0.y@, r.1.y@) == positive_axis(pos.y@, size.y@),
        !(size.x@ is Nan) ==> r.1.x@.at_least(Number::zero()),
        !(size.y@ is Nan) ==> r.1.y@.at_least(Number::zero()),
{
    let (pos_x, size_x) = axis_ensure_positive_size(pos.x, size.x);
    let (pos_y, size_y) = axis_ensure_positive_size(pos.y, size.y);
    (Vec2D::new(pos_x, pos_y), Vec2D::new(size_x, size_y))
}

/// One axis of a rectangle held between `low` and `high`. A near edge below
/// `low` moves up to it; the size is then reduced by the distance from the
/// moved edge to `low`, which is none. After that a far edge above `high`
/// is drawn back to it.
pub open spec fn bounded_axis(pos: Number, size: Number, low: Number, high: Number) -> (
    Number,
    Number,
) {
    let near = if pos.less_than(low) {
        (low, size.minus(low.minus(low)))
    } else {
        (pos, size)
    };
    if high.less_than(near.0.plus(near.1)) {
        (near.0, high.minus(near.0))
    } else {
        near
    }
}

/// Moving the near edge up to a finite bound leaves the size as it was.
pub proof fn lemma_near_edge_keeps_size(size: Binary32, low: Binary32)
    requires
        low@ is Finite,
    ensures
        size@.minus(low@.minus(low@)) == size@,
{
    let p = (size.bits % 0x8000_0000) as nat;
    if p < 0x7f80_0000 {
        lemma_pattern_rounds_to_itself(p);
        lemma_units_zero(p);
    }
}

/// One axis of `rect_ensure_in_bounds`.
fn axis_ensure_in_bounds(pos: Binary32, size: Binary32, low: Binary32, high: Binary32) -> (r: (
    Binary32,
    Binary32,
))
    ensures
        (r.0@, r.1@) == bounded_axis(pos@, size@, low@, high@),
{
    let mut pos = pos;
    let mut size = size;
    if pos.lt(low) {
        pos = low;
        size = size.sub(low.sub(pos));
    }
    if pos.add(size).gt(high) {
        size = high.sub(pos);
    }
    (pos, size)
}

/// The rectangle `rect`, a position and a size, held within `bounds`, a
/// lowest and a highest corner.
pub fn rect_ensure_in_bounds(rect: (Vec2D, Vec2D), bounds: (Vec2D, Vec2D)) -> (r: (Vec2D, Vec2D))
    ensures
        (r.0.x@, r.1.x@) == bounded_axis(rect.0.x@, rect.1.x@, bounds.0.x@, bounds.1.x@),
        (r.0.y@, r.1.y@) == bounded_axis(rect.0.y@, rect.1.y@, bounds.0.y@, bounds.1.y@),
        !(rect.0.x@ is Nan) && !(bounds.0.x@ is Nan) ==> r.0.x@.at_least(bounds.0.x@),
        !(rect.0.y@ is Nan) && !(bounds.0.y@ is Nan) ==> r.0.y@.at_least(bounds.0.y@),
{
    let (pos, size) = rect;
    let (pos_x, size_x) = axis_ensure_in_bounds(pos.x, size.x, bounds.0.x, bounds.1.x);
    let (pos_y, size_y) = axis_ensure_in_bounds(pos.y, size.y, bounds.0.y, bounds.1.y);
    (Vec2D::new(pos_x, pos_y), Vec2D::new(size_x, size_y))
}

/// The rectangle with each of its four numbers rounded to the nearest whole
/// number, halves away from zero.
pub fn rect_round(rect: (Vec2D, Vec2D)) -> (r: (Vec2D, Vec2D))
    ensures
        r.0@ == (rect.0.x@.round_to_integer(), rect.0.y@.round_to_integer()),
        r.1@ == (rect.1.x@.round_to_integer(), rect.1.y@.round_to_integer()),
{
    let (pos, size) = rect;
    (
        Vec2D::new(pos.x.round(), pos.y.round()),
        Vec2D::new(size.x.round(), size.y.round()),
    )
}

/// The angle `current_angle` brought to the nearest multiple of fifteen
/// degrees.
pub fn snapped_angle_15deg(current_angle: Binary32) -> (r: Binary32)
    ensures
        r@ == snapped_angle(current_angle@),
{
    let step: Binary32 = Binary32 { bits: SNAP_STEP_BITS };
    current_angle.div(step).round().mul(step)
}

/// The angle whose tangent `snapped_vector_15deg` asks for.
pub fn snap_tangent_angle(new_angle: Binary32) -> (r: Binary32)
    ensures
        r@ == tangent_angle(new_angle@),
{
    if new_angle.abs().lt(Binary32 { bits: QUARTER_PI_BITS }) {
        (Binary32 { bits: HALF_PI_BITS }).sub(new_angle)
    } else {
        new_angle
    }
}

/// The text of a vector from the texts of its components: `(x,y)`.
pub fn text_form(x_text: &[u8], y_text: &[u8]) -> (r: Vec<u8>)
    ensures
        r@ == seq![0x28u8] + x_text@ + seq![0x2cu8] + y_text@ + seq![0x29u8],
{
    let mut r: Vec<u8> = Vec::new();
    r.push(0x28);
    let mut i: usize = 0;
    while i < x_text.len()
        invariant
            i <= x_text.len(),
            r@ == seq![0x28u8] + x_text@.subrange(0, i as int),
        decreases x_text.len() - i,
    {
        r.push(x_text[i]);
        i += 1;
    }
    assert(x_text@.subrange(0, i as int) == x_text@);
    r.push(0x2c);
    let mut j: usize = 0;
    while j < y_text.len()
        invariant
            j <= y_text.len(),
            r@ == seq![0x28u8] + x_text@ + seq![0x2cu8] + y_text@.subrange(0, j as int),
        decreases y_text.len() - j,
    {
        r.push(y_text[j]);
        j += 1;
    }
    assert(y_text@.subrange(0, j as int) == y_text@);
    r.push(0x29);
    r
}

} // verus!
