//! What holds of vectors up to rounding.
use vstd::prelude::*;
use vstd::arithmetic::power2::{pow2, lemma_pow2_pos};
use crate::binary32::{lemma_units_increase, pattern_units, Number};
use crate::math::{in_quadrant_of, norm2_of, number_of, positive_axis, snapped_sizes, ONE_BITS};
use crate::quotient::lemma_root_error;
use crate::rounding::{nearest_pattern, Exact};
use crate::tolerance::{
    lemma_add_then_sub, lemma_plus_within, lemma_root_within, lemma_times_within,
    lemma_within_chain, lemma_within_product, lemma_within_scaled, lemma_within_self,
    lemma_within_sum, lemma_within_unscaled, product_is_normal, returns_nearly, within,
};

verus! {

/// Adding a vector and taking it away again returns the first vector up to
/// the roundings: in each component, where all the numbers are finite, by no
/// more than 2^-24 of the sum and of the result together.
pub proof fn lemma_add_then_sub_returns(v: (Number, Number), w: (Number, Number))
    ensures
        ({
            let sum = (v.0.plus(w.0), v.1.plus(w.1));
            let back = (sum.0.minus(w.0), sum.1.minus(w.1));
            &&& v.0 is Finite && w.0 is Finite && sum.0 is Finite && back.0 is Finite
                ==> returns_nearly(v.0, sum.0, back.0)
            &&& v.1 is Finite && w.1 is Finite && sum.1 is Finite && back.1 is Finite
                ==> returns_nearly(v.1, sum.1, back.1)
        }),
{
    if v.0 is Finite && w.0 is Finite && v.0.plus(w.0) is Finite && v.0.plus(w.0).minus(w.0)
        is Finite {
        lemma_add_then_sub(v.0, w.0);
    }
    if v.1 is Finite && w.1 is Finite && v.1.plus(w.1) is Finite && v.1.plus(w.1).minus(w.1)
        is Finite {
        lemma_add_then_sub(v.1, w.1);
    }
}

/// The square of the length is the squared length up to the rounding of
/// the root. Where `norm2` is finite, `norm` is finite and not negative, and
/// its exact square differs from `norm2` by no more than 2^-22 of itself;
/// where `norm2` is infinite, so is `norm`. (The square of `r` units is
/// `r * r` in units of 2^-298, in which `s` units are `s * 2^149`.)
pub proof fn lemma_norm_squared(v: (Number, Number))
    ensures
        ({
            let norm2 = norm2_of(v);
            let norm = norm2.square_root();
            let s = norm2->units;
            let r = norm->units;
            &&& norm2 is Finite ==> {
                &&& norm is Finite
                &&& !norm.is_negative()
                &&& -(r * r) <= (r * r - s * pow2(149)) * 0x40_0000 <= r * r
            }
            &&& norm2 is Infinite ==> norm is Infinite
        }),
{
    let a = v.0.times(v.0);
    let b = v.1.times(v.1);
    let norm2 = a.plus(b);
    assert(!norm2.is_negative());
    if norm2 is Finite && norm2->units == 0 {
        let s = norm2->units;
        let r = norm2.square_root()->units;
        assert(s * pow2(149) == 0 && r * r == 0) by (nonlinear_arith)
            requires
                s == 0,
                r == 0,
        ;
    }
    if norm2 is Finite && norm2->units > 0 {
        let s = norm2->units;
        assert(!norm2.is_negative());
        let sum = a.signed_units() + b.signed_units();
        let p = nearest_pattern(Exact::Ratio { num: sum as nat, den: 1 });
        assert(s == pattern_units(p));
        lemma_units_increase(p, 0x7f80_0000);
        lemma_root_error(s);
    }
}

/// Making a negative size positive keeps what the axis covers. The new
/// near edge is the old far edge, and the new far edge is the old near
/// edge up to the roundings: where all the numbers are finite, by no more
/// than 2^-24 of the two edges of the result together.
pub proof fn lemma_positive_size_covers_the_same(pos: Number, size: Number)
    requires
        size.less_than(Number::zero()),
    ensures
        ({
            let r = positive_axis(pos, size);
            &&& r.0 == pos.plus(size)
            &&& r.1 == size.negated()
            &&& pos is Finite && size is Finite && r.0 is Finite && r.0.plus(r.1) is Finite
                ==> returns_nearly(pos, r.0, r.0.plus(r.1))
        }),
{
    let r = positive_axis(pos, size);
    if pos is Finite && size is Finite && r.0 is Finite && r.0.plus(r.1) is Finite {
        lemma_add_then_sub(pos, size);
    }
}

/// The square of a scaled component agrees with the exact square of the
/// exact product up to three roundings.
proof fn lemma_scaled_square(x: Number, k: Number)
    requires
        product_is_normal(x, k),
        product_is_normal(x.times(k), x.times(k)),
        x.times(k).times(x.times(k)) is Finite,
    ensures
        within(
            x.times(k).times(x.times(k))->units * ((pow2(149) * pow2(149)) * pow2(149)),
            (x->units * k->units) * (x->units * k->units),
            3,
        ),
{
    let e = pow2(149);
    let a = x.times(k);
    let sq = a.times(a);
    let xu = x->units;
    let ku = k->units;
    let au = a->units;
    let su = sq->units;
    lemma_times_within(x, k);
    lemma_times_within(a, a);
    lemma_within_product(au * e, xu * ku, 1, au * e, xu * ku, 1);
    lemma_within_scaled(su * e, au * au, 1, e * e);
    assert((au * au) * (e * e) == (au * e) * (au * e)) by (nonlinear_arith);
    assert((su * e) * (e * e) == su * ((e * e) * e)) by (nonlinear_arith);
    lemma_within_chain((su * e) * (e * e), (au * e) * (au * e), (xu * ku) * (xu * ku), 1, 2);
}

/// Scaling a vector scales its squared length by the square of the factor,
/// up to six roundings. This holds where nothing overflows and no product
/// falls below the least normal number without being zero.
pub proof fn lemma_scaling_scales_norm2(v: (Number, Number), k: Number)
    requires
        product_is_normal(v.0, k),
        product_is_normal(v.1, k),
        product_is_normal(v.0.times(k), v.0.times(k)),
        product_is_normal(v.1.times(k), v.1.times(k)),
        product_is_normal(v.0, v.0),
        product_is_normal(v.1, v.1),
        norm2_of((v.0.times(k), v.1.times(k))) is Finite,
        norm2_of(v) is Finite,
    ensures
        within(
            norm2_of((v.0.times(k), v.1.times(k)))->units * (pow2(149) * pow2(149)),
            norm2_of(v)->units * (k->units * k->units),
            6,
        ),
{
    let e = pow2(149);
    let e3 = (e * e) * e;
    lemma_pow2_pos(149);
    let xu = v.0->units;
    let yu = v.1->units;
    let ku = k->units;
    // the scaled vector
    let a2 = v.0.times(k).times(v.0.times(k));
    let b2 = v.1.times(k).times(v.1.times(k));
    let long = a2.plus(b2);
    let au = a2->units;
    let bu = b2->units;
    let lu = long->units;
    assert(a2 is Finite && b2 is Finite);
    assert(a2.signed_units() == au && b2.signed_units() == bu && long.signed_units() == lu);
    lemma_scaled_square(v.0, k);
    lemma_scaled_square(v.1, k);
    let xk2 = (xu * ku) * (xu * ku);
    let yk2 = (yu * ku) * (yu * ku);
    lemma_within_sum(au * e3, xk2, bu * e3, yk2, 3);
    lemma_plus_within(a2, b2);
    lemma_within_scaled(lu, au + bu, 1, e3);
    assert((au + bu) * e3 == au * e3 + bu * e3) by (nonlinear_arith);
    lemma_within_chain(lu * e3, au * e3 + bu * e3, xk2 + yk2, 1, 3);
    // the vector itself
    let p = v.0.times(v.0);
    let q = v.1.times(v.1);
    let short = p.plus(q);
    let pu = p->units;
    let qu = q->units;
    let nu = short->units;
    assert(p is Finite && q is Finite);
    assert(p.signed_units() == pu && q.signed_units() == qu && short.signed_units() == nu);
    lemma_times_within(v.0, v.0);
    lemma_times_within(v.1, v.1);
    lemma_within_sum(pu * e, xu * xu, qu * e, yu * yu, 1);
    lemma_plus_within(p, q);
    lemma_within_scaled(nu, pu + qu, 1, e);
    assert((pu + qu) * e == pu * e + qu * e) by (nonlinear_arith);
    lemma_within_chain(nu * e, pu * e + qu * e, xu * xu + yu * yu, 1, 1);
    lemma_within_scaled(nu * e, xu * xu + yu * yu, 2, ku * ku);
    assert((xu * xu + yu * yu) * (ku * ku) == xk2 + yk2) by (nonlinear_arith)
        requires
            xk2 == (xu * ku) * (xu * ku),
            yk2 == (yu * ku) * (yu * ku),
    ;
    // side by side
    lemma_within_chain(lu * e3, xk2 + yk2, (nu * e) * (ku * ku), 4, 2);
    assert(lu * e3 == (lu * (e * e)) * e && (nu * e) * (ku * ku) == (nu * (ku * ku)) * e)
        by (nonlinear_arith)
        requires
            e3 == (e * e) * e,
    ;
    lemma_within_unscaled(lu * (e * e), nu * (ku * ku), 6, e);
}

/// Snapping keeps the length: the squared length of the snapped vector
/// agrees with that of the vector up to seven roundings, whatever the square
/// of the tangent is. This holds where the snapped vector is finite, its
/// squared length does not overflow, and the square of neither component
/// falls below the least normal number without being zero.
pub proof fn lemma_snapping_keeps_length(
    v: (Number, Number),
    new_angle: Number,
    tangent_squared: Number,
)
    requires
        ({
            let sizes = snapped_sizes(norm2_of(v), new_angle, tangent_squared);
            let r = in_quadrant_of(v, sizes.0, sizes.1);
            &&& product_is_normal(r.0, r.0)
            &&& product_is_normal(r.1, r.1)
            &&& norm2_of(r) is Finite
        }),
    ensures
        ({
            let sizes = snapped_sizes(norm2_of(v), new_angle, tangent_squared);
            let r = in_quadrant_of(v, sizes.0, sizes.1);
            within(norm2_of(r)->units, norm2_of(v)->units, 7)
        }),
{
    let e = pow2(149);
    lemma_pow2_pos(149);
    let n2 = norm2_of(v);
    let sizes = snapped_sizes(n2, new_angle, tangent_squared);
    let r = in_quadrant_of(v, sizes.0, sizes.1);
    let first = n2.divided_by(tangent_squared.plus(number_of(ONE_BITS))).square_root();
    let f2 = first.times(first);
    let rest = n2.minus(f2);
    let second = rest.square_root();
    let s2 = second.times(second);
    assert(first is Finite && second is Finite);
    assert(product_is_normal(second, second));
    assert(norm2_of(r) == f2.plus(s2));
    assert(n2 is Finite);
    assert(!n2.is_negative());
    assert(f2 is Finite && s2 is Finite);
    let nu = n2->units;
    let fu = f2->units;
    let su = s2->units;
    let ru = rest->units;
    let du = second->units;
    let lu = norm2_of(r)->units;
    assert(n2.signed_units() == nu && f2.signed_units() == fu && s2.signed_units() == su
        && f2.negated().signed_units() == -fu && f2.plus(s2).signed_units() == lu);
    // what is left of the squared length after the first size
    lemma_plus_within(n2, f2.negated());
    assert(rest is Finite);
    assert(nu - fu >= 0 && rest.signed_units() == ru);
    // its root, squared again
    if ru == 0 {
        assert(du == 0);
        assert(du * du == 0 && ru * e == 0) by (nonlinear_arith)
            requires
                du == 0,
                ru == 0,
        ;
        lemma_within_self(0, 4);
    } else {
        let p = nearest_pattern(Exact::Ratio { num: (nu - fu) as nat, den: 1 });
        assert(ru == pattern_units(p));
        lemma_units_increase(p, 0x7f80_0000);
        lemma_root_within(ru);
    }
    lemma_times_within(second, second);
    lemma_within_chain(su * e, du * du, ru * e, 1, 4);
    lemma_within_unscaled(su, ru, 5, e);
    lemma_within_chain(su, ru, (nu - fu) as nat, 5, 1);
    lemma_within_self(fu, 6);
    lemma_within_sum(fu, fu, su, (nu - fu) as nat, 6);
    lemma_plus_within(f2, s2);
    lemma_within_chain(lu, fu + su, nu, 1, 6);
}

} // verus!
