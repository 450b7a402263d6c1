//! The approximate arcus tangents.
//!
//! The approximation is a polynomial on the range from -1 to 1; outside it, and in the left half of
//! the plane, the polynomial is folded.

use crate::arithmetic::{difference, product, quotient, sum, Arithmetic, Operations};
use crate::fidelity::{
    finite, is_faithful, law_differences_stay_between, law_products_stay_between,
    law_quotients_stay_between, law_sums_stay_between, lemma_finite_between,
    lemma_unit_is_positive, product_is_exact, sum_is_exact, unit,
};
use crate::numbers::{
    HALF_TURN, MINUS_0_333, MINUS_HALF_TURN, MINUS_RIGHT_ANGLE, PLUS_0_193, PLUS_0_5, PLUS_1_5,
    RIGHT_ANGLE,
};
use crate::single::{
    law_a_value_has_one_pattern, law_negation_turns_the_value, law_numbers_are_ordered,
    law_unsigned_numbers_keep_their_distance, lemma_key_orders, Single, FRACTIONS, ONE, ZERO,
};
use vstd::arithmetic::power2::*;
use vstd::prelude::*;

verus! {

/// Outside the range of the polynomial.
pub open spec fn steep(z: Single) -> bool {
    Single::of(ONE).below(z.unsigned())
}

/// A right angle on the side of a number, and none at zero.
pub open spec fn right_angle(y: Single) -> Single {
    if Single::of(ZERO).below(y) {
        Single::of(RIGHT_ANGLE)
    } else if y.below(Single::of(ZERO)) {
        Single::of(MINUS_RIGHT_ANGLE)
    } else {
        Single::of(ZERO)
    }
}

/// A right angle on the side of a number, and none at zero.
pub fn signed_right_angle(y: Single) -> (r: Single)
    ensures
        r == right_angle(y),
{
    if (Single { bits: ZERO }).less_than(y) {
        Single { bits: RIGHT_ANGLE }
    } else if y.less_than(Single { bits: ZERO }) {
        Single { bits: MINUS_RIGHT_ANGLE }
    } else {
        Single { bits: ZERO }
    }
}

impl Operations {
    /// The polynomial: `z * (0.193 * z^4 - 0.333 * z^2 + 1)`.
    pub open spec fn polynomial(self, z: Single) -> Single {
        let z2 = (self.product)(z, z);
        let z4 = (self.product)(z2, z2);
        let inner = (self.sum)(
            (self.sum)(
                (self.product)(z4, Single::of(PLUS_0_193)),
                (self.product)(z2, Single::of(MINUS_0_333)),
            ),
            Single::of(ONE),
        );
        (self.product)(z, inner)
    }

    /// The arcus tangent: the polynomial, or, where the tangent is steep, the polynomial at its inverse
    /// taken from a right angle.
    pub open spec fn atan(self, z: Single) -> Single {
        if steep(z) {
            (self.difference)(
                right_angle(z),
                self.polynomial((self.quotient)(Single::of(ONE), z)),
            )
        } else {
            self.polynomial(z)
        }
    }

    /// The angle of the direction from the origin to a point: a right angle on the vertical axis; to
    /// the left of it, the arcus tangent a half turn down below the horizontal axis and a half turn up
    /// elsewhere; to the right, the arcus tangent itself.
    pub open spec fn atan2(self, y: Single, x: Single) -> Single {
        if x.same(Single::of(ZERO)) {
            right_angle(y)
        } else {
            let arc = self.atan((self.quotient)(y, x));
            if x.below(Single::of(ZERO)) {
                if y.below(Single::of(ZERO)) {
                    (self.sum)(arc, Single::of(MINUS_HALF_TURN))
                } else {
                    (self.sum)(arc, Single::of(HALF_TURN))
                }
            } else {
                arc
            }
        }
    }

    /// The angles of the directions to the points.
    pub open spec fn angles(self, y: Seq<Single>, x: Seq<Single>) -> Seq<Single> {
        Seq::new(y.len(), |i: int| self.atan2(y[i], x[i]))
    }
}

fn polynomial<A: Arithmetic>(arithmetic: &A, z: Single) -> (r: Single)
    ensures
        forall|m: Operations| #[trigger] m.describes(*arithmetic) ==> r == m.polynomial(z),
{
    let z2 = product(arithmetic, z, z);
    let z4 = product(arithmetic, z2, z2);
    let fourth = product(arithmetic, z4, Single { bits: PLUS_0_193 });
    let second = product(arithmetic, z2, Single { bits: MINUS_0_333 });
    let both = sum(arithmetic, fourth, second);
    let inner = sum(arithmetic, both, Single { bits: ONE });
    product(arithmetic, z, inner)
}

fn atan<A: Arithmetic>(arithmetic: &A, z: Single) -> (r: Single)
    ensures
        forall|m: Operations| #[trigger] m.describes(*arithmetic) ==> r == m.atan(z),
{
    if (Single { bits: ONE }).less_than(z.abs()) {
        let inverse = quotient(arithmetic, Single { bits: ONE }, z);
        let value = polynomial(arithmetic, inverse);
        difference(arithmetic, signed_right_angle(z), value)
    } else {
        polynomial(arithmetic, z)
    }
}

fn atan2<A: Arithmetic>(arithmetic: &A, y: Single, x: Single) -> (r: Single)
    ensures
        forall|m: Operations| #[trigger] m.describes(*arithmetic) ==> r == m.atan2(y, x),
{
    if x.equals(Single { bits: ZERO }) {
        return signed_right_angle(y);
    }
    let z = quotient(arithmetic, y, x);
    let arc = atan(arithmetic, z);
    if x.less_than(Single { bits: ZERO }) {
        if y.less_than(Single { bits: ZERO }) {
            sum(arithmetic, arc, Single { bits: MINUS_HALF_TURN })
        } else {
            sum(arithmetic, arc, Single { bits: HALF_TURN })
        }
    } else {
        arc
    }
}

/// The numbers are the arcs of the tangents.
pub open spec fn are_arcs<A: Arithmetic>(arithmetic: A, z: Seq<Single>, r: Seq<Single>) -> bool {
    &&& r.len() == z.len()
    &&& forall|m: Operations, i: int| #[trigger]
        m.describes(arithmetic) && 0 <= i < z.len() ==> #[trigger] r[i] == m.atan(z[i])
}

/// The numbers are the angles of the directions to the points.
pub open spec fn are_angles<A: Arithmetic>(
    arithmetic: A,
    y: Seq<Single>,
    x: Seq<Single>,
    r: Seq<Single>,
) -> bool {
    &&& r.len() == y.len()
    &&& forall|m: Operations, i: int| #[trigger]
        m.describes(arithmetic) && 0 <= i < y.len() ==> #[trigger] r[i] == m.atan2(y[i], x[i])
}

/// The arcus tangent of each number.
pub fn approx_atan<A: Arithmetic>(arithmetic: &A, z: &Vec<Single>) -> (r: Vec<Single>)
    ensures
        r@.len() == z@.len(),
        forall|m: Operations| #[trigger]
            m.describes(*arithmetic) ==> r@ == Seq::new(z@.len(), |i: int| m.atan(z@[i])),
        are_arcs(*arithmetic, z@, r@),
{
    let mut r: Vec<Single> = Vec::new();
    let mut i: usize = 0;
    while i < z.len()
        invariant
            i <= z@.len(),
            r@.len() == i,
            forall|m: Operations, k: int| #[trigger]
                m.describes(*arithmetic) && 0 <= k < i ==> #[trigger] r@[k] == m.atan(z@[k]),
        decreases z@.len() - i,
    {
        r.push(atan(arithmetic, z[i]));
        i = i + 1;
    }
    assert forall|m: Operations| #[trigger] m.describes(*arithmetic) implies r@ == Seq::new(
        z@.len(),
        |i: int| m.atan(z@[i]),
    ) by {
        assert(r@ =~= Seq::new(z@.len(), |i: int| m.atan(z@[i])));
    }
    r
}

/// The angle of the direction from the origin to each point `(x, y)`.
pub fn approx_atan2<A: Arithmetic>(
    arithmetic: &A,
    y: &Vec<Single>,
    x: &Vec<Single>,
) -> (r: Vec<Single>)
    requires
        x@.len() == y@.len(),
    ensures
        r@.len() == y@.len(),
        forall|m: Operations| #[trigger] m.describes(*arithmetic) ==> r@ == m.angles(y@, x@),
        are_angles(*arithmetic, y@, x@, r@),
{
    let mut r: Vec<Single> = Vec::new();
    let mut i: usize = 0;
    while i < y.len()
        invariant
            x@.len() == y@.len(),
            i <= y@.len(),
            r@.len() == i,
            forall|m: Operations, k: int| #[trigger]
                m.describes(*arithmetic) && 0 <= k < i ==> #[trigger] r@[k] == m.atan2(y@[k], x@[k]),
        decreases y@.len() - i,
    {
        r.push(atan2(arithmetic, y[i], x[i]));
        i = i + 1;
    }
    assert forall|m: Operations| #[trigger] m.describes(*arithmetic) implies r@ == m.angles(y@, x@) by {
        assert(r@ =~= m.angles(y@, x@));
    }
    r
}

/// A number other than zero.
pub open spec fn is_signed(a: Single) -> bool {
    !a.nan() && !a.same(Single::of(ZERO))
}

/// The operations treat both signs alike: where a product or a quotient is a number, it changes its sign
/// with either argument, and where a sum or a difference is a number other than zero, it changes its sign
/// with both.
pub open spec fn is_odd(m: Operations) -> bool {
    &&& forall|a: Single, b: Single|
        !(m.product)(a, b).nan() ==> #[trigger] (m.product)(a.negated(), b) == (m.product)(
            a,
            b,
        ).negated()
    &&& forall|a: Single, b: Single| #[trigger]
        (m.product)(a.negated(), b.negated()) == (m.product)(a, b)
    &&& forall|a: Single, b: Single|
        !(m.quotient)(a, b).nan() ==> #[trigger] (m.quotient)(a.negated(), b) == (m.quotient)(
            a,
            b,
        ).negated()
    &&& forall|a: Single, b: Single|
        !(m.quotient)(a, b).nan() ==> #[trigger] (m.quotient)(a, b.negated()) == (m.quotient)(
            a,
            b,
        ).negated()
    &&& forall|a: Single, b: Single|
        is_signed((m.sum)(a, b)) ==> #[trigger] (m.sum)(a.negated(), b.negated()) == (m.sum)(
            a,
            b,
        ).negated()
    &&& forall|a: Single, b: Single|
        is_signed((m.difference)(a, b)) ==> #[trigger] (m.difference)(a.negated(), b.negated())
            == (m.difference)(a, b).negated()
}

/// The arcus tangent of `z` comes of numbers, and of a number other than zero where `z` is steep.
pub open spec fn has_arc(m: Operations, z: Single) -> bool {
    if steep(z) {
        let inverse = (m.quotient)(Single::of(ONE), z);
        !inverse.nan() && !m.polynomial(inverse).nan() && is_signed(m.atan(z))
    } else {
        !m.polynomial(z).nan()
    }
}

proof fn lemma_polynomial_is_odd(m: Operations, z: Single)
    requires
        is_odd(m),
        !m.polynomial(z).nan(),
    ensures
        m.polynomial(z.negated()) == m.polynomial(z).negated(),
{
    assert((m.product)(z.negated(), z.negated()) == (m.product)(z, z));
}

/// With operations that treat both signs alike, the arcus tangent does too.
pub proof fn law_arcus_tangent_is_odd(m: Operations, z: Single)
    requires
        is_odd(m),
        has_arc(m, z),
    ensures
        m.atan(z.negated()) == m.atan(z).negated(),
{
    let one = Single::of(ONE);
    law_negation_turns_the_value(z);
    assert(z.negated().unsigned() == z.unsigned());
    if steep(z) {
        lemma_polynomial_is_odd(m, (m.quotient)(one, z));
        lemma_right_angle_is_odd(z);
        assert((m.quotient)(one, z.negated()) == (m.quotient)(one, z).negated());
    } else {
        lemma_polynomial_is_odd(m, z);
    }
}

/// A steep tangent or a number that is not zero has a right angle on its side.
proof fn lemma_right_angle_is_odd(y: Single)
    requires
        is_signed(y),
    ensures
        right_angle(y.negated()) == right_angle(y).negated(),
{
    law_negation_turns_the_value(y);
    law_numbers_are_ordered(y, Single::of(ZERO));
}

/// With operations that treat both signs alike, mirroring a point at the horizontal axis negates its
/// angle, unless it lies on that axis.
pub proof fn law_mirrored_points_have_negated_angles(m: Operations, y: Single, x: Single)
    requires
        is_odd(m),
        is_signed(y),
        !x.same(Single::of(ZERO)) ==> {
            &&& !(m.quotient)(y, x).nan()
            &&& has_arc(m, (m.quotient)(y, x))
        },
        x.below(Single::of(ZERO)) ==> is_signed(m.atan2(y, x)),
    ensures
        m.atan2(y.negated(), x) == m.atan2(y, x).negated(),
{
    lemma_right_angle_is_odd(y);
    law_negation_turns_the_value(y);
    law_numbers_are_ordered(y, Single::of(ZERO));
    if !x.same(Single::of(ZERO)) {
        let arc = m.atan((m.quotient)(y, x));
        law_arcus_tangent_is_odd(m, (m.quotient)(y, x));
        assert((m.quotient)(y.negated(), x) == (m.quotient)(y, x).negated());
        assert(Single::of(HALF_TURN).negated() == Single::of(MINUS_HALF_TURN));
        assert(Single::of(MINUS_HALF_TURN).negated() == Single::of(HALF_TURN));
        if x.below(Single::of(ZERO)) {
            if y.below(Single::of(ZERO)) {
                assert((m.sum)(arc.negated(), Single::of(MINUS_HALF_TURN).negated()) == (m.sum)(
                    arc,
                    Single::of(MINUS_HALF_TURN),
                ).negated());
            } else {
                assert((m.sum)(arc.negated(), Single::of(HALF_TURN).negated()) == (m.sum)(
                    arc,
                    Single::of(HALF_TURN),
                ).negated());
            }
        }
    }
}

/// Differences taken the other way round have the other sign.
pub proof fn lemma_differences_turn(m: Operations, a: Single, b: Single)
    requires
        is_faithful(m),
        is_odd(m),
        finite(a),
        finite(b),
    ensures
        (m.difference)(b, a).value() == -(m.difference)(a, b).value(),
{
    law_negation_turns_the_value(a);
    law_negation_turns_the_value(b);
    law_negation_turns_the_value((m.difference)(a, b));
    law_negation_turns_the_value((m.difference)(b, a));
    assert(Single::of(ZERO).value() == 0);
    assert((m.difference)(a.negated(), b.negated()).value() == (m.difference)(b, a).value());
    assert((m.difference)(b.negated(), a.negated()).value() == (m.difference)(a, b).value());
}

/// Where two numbers are no farther apart than two others, their difference is no farther from zero.
pub proof fn lemma_farther_differences(m: Operations, a: Single, b: Single, c: Single, d: Single)
    requires
        is_faithful(m),
        is_odd(m),
        finite(a),
        finite(b),
        finite(c),
        finite(d),
        (a.value() - b.value()) * (a.value() - b.value()) <= (c.value() - d.value()) * (c.value()
            - d.value()),
    ensures
        (m.difference)(a, b).value() * (m.difference)(a, b).value() <= (m.difference)(c, d).value()
            * (m.difference)(c, d).value(),
{
    let zero = Single::of(ZERO);
    assert((m.difference)(zero, zero).value() == 0);
    lemma_differences_turn(m, a, b);
    lemma_differences_turn(m, c, d);
    let (x, y) = (a.value() - b.value(), c.value() - d.value());
    let (p, q) = (
        if x >= 0 {
            (m.difference)(a, b).value()
        } else {
            (m.difference)(b, a).value()
        },
        if y >= 0 {
            (m.difference)(c, d).value()
        } else {
            (m.difference)(d, c).value()
        },
    );
    let (v, w) = (
        if x >= 0 {
            x
        } else {
            -x
        },
        if y >= 0 {
            y
        } else {
            -y
        },
    );
    assert(v * v == x * x && w * w == y * y) by (nonlinear_arith)
        requires
            v == x || v == -x,
            w == y || w == -y,
    ;
    assert(v <= w) by (nonlinear_arith)
        requires
            v >= 0,
            w >= 0,
            v * v <= w * w,
    ;
    assert(0 <= p <= q);
    let (e, f) = ((m.difference)(a, b).value(), (m.difference)(c, d).value());
    assert(e * e == p * p && f * f == q * q) by (nonlinear_arith)
        requires
            p == e || p == -e,
            q == f || q == -f,
    ;
    assert(p * p <= q * q) by (nonlinear_arith)
        requires
            0 <= p <= q,
    ;
}

/// One is two halves, and one and a half are three.
pub proof fn lemma_halves()
    ensures
        Single::of(PLUS_0_5).value() > 0,
        unit() == 2 * Single::of(PLUS_0_5).value(),
        Single::of(PLUS_1_5).value() == 3 * Single::of(PLUS_0_5).value(),
{
    lemma_pow2_unfold(126);
    lemma_pow2_pos(125);
    assert(Single::of(PLUS_0_5).value() == FRACTIONS * pow2(125));
    assert(Single::of(ONE).value() == FRACTIONS * pow2(126));
    assert(Single::of(PLUS_1_5).value() == (0x40_0000 + FRACTIONS) * pow2(126)) by {
        assert(PLUS_1_5 as int / (FRACTIONS as int) == 127);
        assert(PLUS_1_5 as int % (FRACTIONS as int) == 0x40_0000);
    }
}

/// Where the tangent is not steep, the polynomial is a number on the side of the tangent, one and a half
/// from zero at the most.
proof fn lemma_polynomial_is_bounded(m: Operations, z: Single)
    requires
        is_faithful(m),
        !z.nan(),
        !steep(z),
    ensures
        finite(m.polynomial(z)),
        z.value() >= 0 ==> 0 <= m.polynomial(z).value() <= Single::of(PLUS_1_5).value(),
        z.value() <= 0 ==> -Single::of(PLUS_1_5).value() <= m.polynomial(z).value() <= 0,
{
    let (zero, one, half) = (Single::of(ZERO), Single::of(ONE), Single::of(PLUS_0_5));
    let (third, fifth) = (Single::of(MINUS_0_333), Single::of(PLUS_0_193));
    let most = Single::of(PLUS_1_5);
    lemma_halves();
    law_negation_turns_the_value(one);
    law_negation_turns_the_value(half);
    law_negation_turns_the_value(most);
    let (u, v) = (unit(), z.value());
    assert(-u <= v <= u);
    lemma_finite_between(z, one.negated(), one);

    assert(zero.value() == 0);
    assert(0 * u == 0) by (nonlinear_arith);
    let z2 = (m.product)(z, z);
    assert(0 <= v * v <= u * u) by (nonlinear_arith)
        requires
            -u <= v <= u,
    ;
    law_products_stay_between(m, z, z, zero, one);
    let z4 = (m.product)(z2, z2);
    assert(0 <= z2.value() * z2.value() <= u * u) by (nonlinear_arith)
        requires
            0 <= z2.value() <= u,
    ;
    law_products_stay_between(m, z2, z2, zero, one);

    lemma_key_orders(zero, fifth);
    lemma_key_orders(fifth, half);
    lemma_key_orders(third, zero);
    lemma_key_orders(half.negated(), third);
    let fourth = (m.product)(z4, fifth);
    assert(0 <= z4.value() * fifth.value() <= fifth.value() * u) by (nonlinear_arith)
        requires
            0 <= z4.value() <= u,
            0 <= fifth.value(),
    ;
    law_products_stay_between(m, z4, fifth, zero, fifth);
    let second = (m.product)(z2, third);
    assert(third.value() * u <= z2.value() * third.value() <= 0) by (nonlinear_arith)
        requires
            0 <= z2.value() <= u,
            third.value() <= 0,
    ;
    law_products_stay_between(m, z2, third, third, zero);
    let both = (m.sum)(fourth, second);
    law_sums_stay_between(m, fourth, second, half.negated(), half);
    let inner = (m.sum)(both, one);
    law_sums_stay_between(m, both, one, half, most);

    if v >= 0 {
        assert(0 <= v * inner.value() <= most.value() * u) by (nonlinear_arith)
            requires
                0 <= v <= u,
                0 <= inner.value() <= most.value(),
        ;
        law_products_stay_between(m, z, inner, zero, most);
    }
    if v <= 0 {
        assert(-most.value() * u <= v * inner.value() <= 0) by (nonlinear_arith)
            requires
                -u <= v <= 0,
                0 <= inner.value() <= most.value(),
        ;
        law_products_stay_between(m, z, inner, most.negated(), zero);
    }
}

/// The inverse of a steep tangent is a number on its side, and not steep.
proof fn lemma_inverses_are_not_steep(m: Operations, z: Single)
    requires
        is_faithful(m),
        steep(z),
    ensures
        ({
            let inverse = (m.quotient)(Single::of(ONE), z);
            &&& !inverse.nan()
            &&& !steep(inverse)
            &&& z.value() > 0 ==> inverse.value() >= 0
            &&& z.value() < 0 ==> inverse.value() <= 0
            &&& !finite(z) ==> inverse.value() == 0
        }),
        z.value() != 0,
{
    let (zero, one) = (Single::of(ZERO), Single::of(ONE));
    let inverse = (m.quotient)(one, z);
    let (u, v) = (unit(), z.value());
    lemma_unit_is_positive();
    law_negation_turns_the_value(one);
    lemma_key_orders(inverse, zero);
    if finite(z) {
        if v > 0 {
            assert(0 * v <= u * u <= u * v) by (nonlinear_arith)
                requires
                    0 < u < v,
            ;
            law_quotients_stay_between(m, one, z, zero, one);
        } else {
            assert(0 * v <= u * u <= -u * v) by (nonlinear_arith)
                requires
                    v < -u < 0,
            ;
            law_quotients_stay_between(m, one, z, one.negated(), zero);
        }
    }
}

/// A tangent beyond one has a right angle for its arc, less the arc of its inverse, and one beyond minus one
/// a right angle down.
pub proof fn law_steep_arcs_complete_those_of_the_inverse(m: Operations, z: Single)
    requires
        is_faithful(m),
        !z.nan(),
        z.value() > unit() || z.value() < -unit(),
    ensures
        steep(z),
        m.atan(z) == (m.difference)(right_angle(z), m.atan((m.quotient)(Single::of(ONE), z))),
        z.value() > 0 ==> m.atan(z) == (m.difference)(
            Single::of(RIGHT_ANGLE),
            m.atan((m.quotient)(Single::of(ONE), z)),
        ),
        z.value() < 0 ==> m.atan(z) == (m.difference)(
            Single::of(RIGHT_ANGLE).negated(),
            m.atan((m.quotient)(Single::of(ONE), z)),
        ),
{
    lemma_unit_is_positive();
    assert(Single::of(ZERO).value() == 0);
    law_unsigned_numbers_keep_their_distance(z);
    assert(steep(z));
    lemma_inverses_are_not_steep(m, z);
}

/// The arc of a number is a number on its side, a right angle from zero at the most: zero at zero, and a
/// right angle at the infinities.
pub proof fn law_arcs_lie_within_a_right_angle(m: Operations, z: Single)
    requires
        is_faithful(m),
        !z.nan(),
    ensures
        finite(m.atan(z)),
        z.value() >= 0 ==> 0 <= m.atan(z).value() <= Single::of(RIGHT_ANGLE).value(),
        z.value() <= 0 ==> Single::of(MINUS_RIGHT_ANGLE).value() <= m.atan(z).value() <= 0,
        z.value() == 0 ==> m.atan(z).value() == 0,
        steep(z) ==> m.atan(z).value() != 0,
        !finite(z) ==> m.atan(z).value() == right_angle(z).value(),
{
    let (zero, most) = (Single::of(ZERO), Single::of(PLUS_1_5));
    let (right, minus) = (Single::of(RIGHT_ANGLE), Single::of(MINUS_RIGHT_ANGLE));
    let least = Single::of(1);
    lemma_halves();
    lemma_key_orders(most, right);
    law_negation_turns_the_value(right);
    law_negation_turns_the_value(least);
    assert(right.negated() == minus);
    assert(least.value() == 1);
    if steep(z) {
        let inverse = (m.quotient)(Single::of(ONE), z);
        lemma_inverses_are_not_steep(m, z);
        lemma_polynomial_is_bounded(m, inverse);
        let rest = m.polynomial(inverse);
        if z.value() > 0 {
            law_differences_stay_between(m, right, rest, least, right);
        } else {
            law_differences_stay_between(m, minus, rest, minus, least.negated());
        }
        if !finite(z) {
            assert(rest.value() == 0);
            law_differences_stay_between(
                m,
                right_angle(z),
                rest,
                right_angle(z),
                right_angle(z),
            );
        }
    } else {
        lemma_polynomial_is_bounded(m, z);
        if !finite(z) {
            lemma_key_orders(Single::of(ONE), z.unsigned());
        }
    }
}

/// The arc of every number comes of numbers.
proof fn lemma_arcs_exist(m: Operations, z: Single)
    requires
        is_faithful(m),
        !z.nan(),
    ensures
        has_arc(m, z),
{
    law_arcs_lie_within_a_right_angle(m, z);
    if steep(z) {
        lemma_inverses_are_not_steep(m, z);
        lemma_polynomial_is_bounded(m, (m.quotient)(Single::of(ONE), z));
    } else {
        lemma_polynomial_is_bounded(m, z);
    }
}

/// The quotient of two numbers lies on the side of the dividend, or across it where the divisor is
/// negative.
proof fn lemma_quotient_has_a_side(m: Operations, y: Single, x: Single)
    requires
        is_faithful(m),
        finite(y),
        finite(x),
        x.value() != 0,
    ensures
        !(m.quotient)(y, x).nan(),
        y.value() == 0 ==> (m.quotient)(y, x).value() == 0,
        (y.value() >= 0) == (x.value() > 0) ==> (m.quotient)(y, x).value() >= 0,
        (y.value() <= 0) == (x.value() > 0) ==> (m.quotient)(y, x).value() <= 0,
{
    let zero = Single::of(ZERO);
    let (n, d) = (y.value(), x.value());
    assert(zero.value() == 0);
    assert(0 * d == 0) by (nonlinear_arith);
    assert(d * d > 0) by (nonlinear_arith)
        requires
            d != 0,
    ;
    let none = (m.quotient)(zero, x);
    law_quotients_stay_between(m, zero, x, zero, zero);
    assert(n * d >= 0 ==> none.value() <= (m.quotient)(y, x).value());
    assert(n * d <= 0 ==> (m.quotient)(y, x).value() <= none.value());
    assert((n >= 0) == (d > 0) ==> n * d >= 0) by (nonlinear_arith);
    assert((n <= 0) == (d > 0) ==> n * d <= 0) by (nonlinear_arith);
    assert(n == 0 ==> n * d == 0) by (nonlinear_arith);
}

/// The angle of a point is a number, a half turn from zero at the most, and on the side of the horizontal
/// axis on which the point lies.
pub proof fn law_angles_lie_within_a_half_turn(m: Operations, y: Single, x: Single)
    requires
        is_faithful(m),
        finite(y),
        finite(x),
    ensures
        finite(m.atan2(y, x)),
        y.value() >= 0 ==> 0 <= m.atan2(y, x).value() <= Single::of(HALF_TURN).value(),
        y.value() < 0 ==> Single::of(MINUS_HALF_TURN).value() <= m.atan2(y, x).value() <= 0,
{
    let zero = Single::of(ZERO);
    let (half, minus) = (Single::of(HALF_TURN), Single::of(MINUS_HALF_TURN));
    let right = Single::of(RIGHT_ANGLE);
    assert(zero.value() == 0);
    lemma_key_orders(zero, right);
    lemma_key_orders(right, half);
    law_negation_turns_the_value(right);
    law_negation_turns_the_value(half);
    assert(right.negated() == Single::of(MINUS_RIGHT_ANGLE));
    assert(half.negated() == minus);
    if x.value() != 0 {
        let z = (m.quotient)(y, x);
        lemma_quotient_has_a_side(m, y, x);
        law_arcs_lie_within_a_right_angle(m, z);
        if x.value() < 0 {
            if y.value() < 0 {
                law_sums_stay_between(m, m.atan(z), minus, minus, zero);
            } else {
                law_sums_stay_between(m, m.atan(z), half, zero, half);
            }
        }
    }
}

/// Points on the same ray from the origin have the same angle: a common positive factor that multiplies
/// both coordinates without rounding changes nothing.
pub proof fn law_a_common_factor_leaves_the_angle(m: Operations, factor: Single, y: Single, x: Single)
    requires
        is_faithful(m),
        finite(factor),
        finite(y),
        finite(x),
        factor.value() > 0,
        finite((m.product)(factor, y)),
        finite((m.product)(factor, x)),
        (m.product)(factor, y).value() * unit() == factor.value() * y.value(),
        (m.product)(factor, x).value() * unit() == factor.value() * x.value(),
    ensures
        m.atan2((m.product)(factor, y), (m.product)(factor, x)).value() == m.atan2(y, x).value(),
{
    let (far_y, far_x) = ((m.product)(factor, y), (m.product)(factor, x));
    let (u, k) = (unit(), factor.value());
    lemma_unit_is_positive();
    assert(Single::of(ZERO).value() == 0);
    lemma_same_side(u, k, far_y.value(), y.value());
    lemma_same_side(u, k, far_x.value(), x.value());
    if x.value() != 0 {
        let (far, near) = ((m.quotient)(far_y, far_x), (m.quotient)(y, x));
        assert(far_x.value() * x.value() > 0 && x.value() * far_x.value() > 0)
            by (nonlinear_arith)
            requires
                x.value() != 0,
                far_x.value() > 0 <==> x.value() > 0,
                far_x.value() < 0 <==> x.value() < 0,
        ;
        lemma_same_ray(u, k, far_y.value(), far_x.value(), y.value(), x.value());
        assert(far.value() == near.value());
        law_a_value_has_one_pattern(far, near);
        law_arcs_lie_within_a_right_angle(m, far);
        law_arcs_lie_within_a_right_angle(m, near);
        if far != near {
            let (half, minus) = (Single::of(HALF_TURN), Single::of(MINUS_HALF_TURN));
            law_sums_stay_between(m, m.atan(far), half, half, half);
            law_sums_stay_between(m, m.atan(near), half, half, half);
            law_sums_stay_between(m, m.atan(far), minus, minus, minus);
            law_sums_stay_between(m, m.atan(near), minus, minus, minus);
        }
    }
}

/// Points of which one is a multiple of the other have the same slope.
proof fn lemma_same_ray(u: int, k: int, far_y: int, far_x: int, y: int, x: int)
    requires
        u > 0,
        far_y * u == k * y,
        far_x * u == k * x,
    ensures
        far_y * x == y * far_x,
{
    let (a, b) = (far_y * x, y * far_x);
    assert(a * u == (far_y * u) * x) by (nonlinear_arith)
        requires
            a == far_y * x,
    ;
    assert(b * u == (far_x * u) * y) by (nonlinear_arith)
        requires
            b == y * far_x,
    ;
    assert((k * y) * x == (k * x) * y) by (nonlinear_arith);
    assert(a == b) by (nonlinear_arith)
        requires
            u > 0,
            a * u == b * u,
    ;
}

/// Of a product with a positive factor, the sign is that of the other factor.
proof fn lemma_same_side(u: int, k: int, product: int, other: int)
    requires
        u > 0,
        k > 0,
        product * u == k * other,
    ensures
        product > 0 <==> other > 0,
        product < 0 <==> other < 0,
{
    assert(product > 0 <==> product * u > 0) by (nonlinear_arith)
        requires
            u > 0,
    ;
    assert(product < 0 <==> product * u < 0) by (nonlinear_arith)
        requires
            u > 0,
    ;
    assert(other > 0 <==> k * other > 0) by (nonlinear_arith)
        requires
            k > 0,
    ;
    assert(other < 0 <==> k * other < 0) by (nonlinear_arith)
        requires
            k > 0,
    ;
}

/// Mirroring a point above the horizontal axis at the vertical one takes its angle from a half turn: so the
/// operations say of a point to the right, and so it is on either side where the sum with the half turn is
/// not rounded.
pub proof fn law_points_mirrored_at_the_vertical_axis_share_a_half_turn(
    m: Operations,
    y: Single,
    x: Single,
)
    requires
        is_odd(m),
        is_faithful(m),
        finite(y),
        finite(x),
        y.value() > 0,
        x.value() != 0,
    ensures
        x.value() > 0 ==> m.atan2(y, x.negated()) == (m.sum)(
            m.atan2(y, x).negated(),
            Single::of(HALF_TURN),
        ),
        ({
            let left = if x.value() < 0 {
                x
            } else {
                x.negated()
            };
            let arc = m.atan((m.quotient)(y, left));
            let half = Single::of(HALF_TURN);
            (m.sum)(arc, half).value() == arc.value() + half.value() ==> m.atan2(
                y,
                x.negated(),
            ).value() == half.value() - m.atan2(y, x).value()
        }),
{
    let z = (m.quotient)(y, x);
    assert(Single::of(ZERO).value() == 0);
    law_negation_turns_the_value(x);
    assert((m.quotient)(y, x.negated()) == z.negated());
    lemma_arcs_exist(m, z);
    law_arcus_tangent_is_odd(m, z);
    law_negation_turns_the_value(m.atan(z));
}

/// Mirroring a point above the horizontal axis at the origin takes a half turn off its angle: so the
/// operations say of a point to the right, and so it is on either side where the sum with the half turn is
/// not rounded.
pub proof fn law_points_mirrored_at_the_origin_lie_a_half_turn_apart(
    m: Operations,
    y: Single,
    x: Single,
)
    requires
        is_odd(m),
        is_faithful(m),
        finite(y),
        finite(x),
        y.value() > 0,
        x.value() != 0,
    ensures
        x.value() > 0 ==> m.atan2(y.negated(), x.negated()) == (m.sum)(
            m.atan2(y, x),
            Single::of(MINUS_HALF_TURN),
        ),
        ({
            let arc = m.atan((m.quotient)(y, x));
            let half = if x.value() < 0 {
                Single::of(HALF_TURN)
            } else {
                Single::of(MINUS_HALF_TURN)
            };
            (m.sum)(arc, half).value() == arc.value() + half.value() ==> m.atan2(
                y.negated(),
                x.negated(),
            ).value() == m.atan2(y, x).value() - Single::of(HALF_TURN).value()
        }),
{
    let z = (m.quotient)(y, x);
    let half = Single::of(HALF_TURN);
    assert(Single::of(ZERO).value() == 0);
    law_negation_turns_the_value(y);
    law_negation_turns_the_value(x);
    law_negation_turns_the_value(z);
    law_negation_turns_the_value(half);
    assert(half.negated() == Single::of(MINUS_HALF_TURN));
    assert((m.quotient)(y, x.negated()) == z.negated());
    assert((m.quotient)(y.negated(), x.negated()) == z.negated().negated());
}

/// No step that leads to the polynomial is rounded.
pub open spec fn expands_exactly(m: Operations, z: Single) -> bool {
    let (third, fifth) = (Single::of(MINUS_0_333), Single::of(PLUS_0_193));
    let z2 = (m.product)(z, z);
    let z4 = (m.product)(z2, z2);
    let (fourth, second) = ((m.product)(z4, fifth), (m.product)(z2, third));
    let both = (m.sum)(fourth, second);
    let inner = (m.sum)(both, Single::of(ONE));
    &&& product_is_exact(m, z, z)
    &&& product_is_exact(m, z2, z2)
    &&& product_is_exact(m, z4, fifth)
    &&& product_is_exact(m, z2, third)
    &&& sum_is_exact(m, fourth, second)
    &&& sum_is_exact(m, both, Single::of(ONE))
    &&& product_is_exact(m, z, inner)
}

/// Where nothing is rounded and the tangent lies between minus one and one, the arc is the tangent less 0.333 of its third
/// power and 0.193 of its fifth more. All are values: what has fewer factors is multiplied by the unit
/// instead.
pub proof fn law_arcs_are_polynomials(m: Operations, z: Single)
    requires
        !z.nan(),
        -unit() <= z.value() <= unit(),
        expands_exactly(m, z),
    ensures
        ({
            let (u, v) = (unit(), z.value());
            let (uu, vv) = (u * u, v * v);
            let (third, fifth) = (
                Single::of(MINUS_0_333).value(),
                Single::of(PLUS_0_193).value(),
            );
            m.atan(z).value() * (u * (uu * uu)) == v * (u * (uu * uu) + (vv * uu) * third + (vv * vv)
                * fifth)
        }),
{
    law_unsigned_numbers_keep_their_distance(z);
    let (third, fifth) = (Single::of(MINUS_0_333), Single::of(PLUS_0_193));
    let z2 = (m.product)(z, z);
    let z4 = (m.product)(z2, z2);
    let (fourth, second) = ((m.product)(z4, fifth), (m.product)(z2, third));
    let inner = (m.sum)((m.sum)(fourth, second), Single::of(ONE));
    let (u, v) = (unit(), z.value());
    let (uu, vv) = (u * u, v * v);
    let (a, b, c, d) = (z2.value(), z4.value(), third.value(), fifth.value());
    let (f, s, i) = (fourth.value(), second.value(), inner.value());
    let wide = uu * uu;
    assert(s * wide == (vv * uu) * c) by {
        assert(s * wide == ((s * u) * u) * uu) by (nonlinear_arith)
            requires
                wide == uu * uu,
                uu == u * u,
        ;
        assert(((a * c) * u) * uu == ((a * u) * c) * uu) by (nonlinear_arith);
        assert((vv * c) * uu == (vv * uu) * c) by (nonlinear_arith);
    }
    assert(b * (u * uu) == vv * vv) by {
        assert(b * (u * uu) == (b * u) * uu) by (nonlinear_arith);
        assert((a * a) * uu == (a * u) * (a * u)) by (nonlinear_arith)
            requires
                uu == u * u,
        ;
    }
    assert(f * wide == (vv * vv) * d) by {
        assert(f * wide == (f * u) * (u * uu)) by (nonlinear_arith)
            requires
                wide == uu * uu,
                uu == u * u,
        ;
        assert((b * d) * (u * uu) == (b * (u * uu)) * d) by (nonlinear_arith);
    }
    let whole = u * wide;
    assert(i * wide == whole + s * wide + f * wide) by (nonlinear_arith)
        requires
            i == f + s + u,
            whole == u * wide,
    ;
    let p = m.polynomial(z).value();
    assert(p * whole == (p * u) * wide) by (nonlinear_arith)
        requires
            whole == u * wide,
    ;
    assert((v * i) * wide == v * (i * wide)) by (nonlinear_arith);
}

/// The angle of a point follows from its slope: to the right of the vertical axis it is the arc of the
/// slope, to the left of it that arc and a half turn, up above the horizontal axis and on it, and down below
/// it. On the vertical axis it is a right angle, up or down. A slope of zero may have either sign.
pub proof fn law_angles_follow_from_slopes(m: Operations, y: Single, x: Single, slope: Single)
    requires
        is_faithful(m),
        finite(y),
        finite(x),
        x.value() != 0 ==> {
            &&& finite(slope)
            &&& slope.value() != 0
            &&& slope.value() * x.value() == y.value() * unit()
        },
    ensures
        x.value() > 0 ==> m.atan2(y, x) == m.atan(slope),
        x.value() < 0 && y.value() >= 0 ==> m.atan2(y, x) == (m.sum)(
            m.atan(slope),
            Single::of(HALF_TURN),
        ),
        x.value() < 0 && y.value() < 0 ==> m.atan2(y, x) == (m.sum)(
            m.atan(slope),
            Single::of(HALF_TURN).negated(),
        ),
        x.value() == 0 && y.value() > 0 ==> m.atan2(y, x) == Single::of(RIGHT_ANGLE),
        x.value() == 0 && y.value() < 0 ==> m.atan2(y, x) == Single::of(RIGHT_ANGLE).negated(),
        x.value() == 0 && y.value() == 0 ==> m.atan2(y, x).value() == 0,
{
    assert(Single::of(ZERO).value() == 0);
    if x.value() != 0 {
        law_quotients_stay_between(m, y, x, slope, slope);
        lemma_key_orders(slope, Single::of(ZERO));
        law_a_value_has_one_pattern((m.quotient)(y, x), slope);
    }
}

/// A point on the horizontal axis to the right of the vertical one has no angle, and one to the left of it a
/// half turn.
pub proof fn law_the_horizontal_axis_is_level(m: Operations, y: Single, x: Single)
    requires
        is_faithful(m),
        finite(y),
        finite(x),
        y.value() == 0,
    ensures
        x.value() >= 0 ==> m.atan2(y, x).value() == 0,
        x.value() < 0 ==> m.atan2(y, x).value() == Single::of(HALF_TURN).value(),
{
    let half = Single::of(HALF_TURN);
    assert(Single::of(ZERO).value() == 0);
    if x.value() != 0 {
        lemma_quotient_has_a_side(m, y, x);
        law_arcs_lie_within_a_right_angle(m, (m.quotient)(y, x));
        law_sums_stay_between(m, m.atan((m.quotient)(y, x)), half, half, half);
    }
}

/// What is computed of a list of tangents, number by number: negated tangents have negated arcs, an arc lies
/// within a right angle on the side of its tangent, that of a steep tangent completes that of its inverse,
/// and, where nothing is rounded, that of any other one is a polynomial.
pub proof fn law_listed_arcs<A: Arithmetic>(
    arithmetic: A,
    m: Operations,
    z: Seq<Single>,
    r: Seq<Single>,
    i: int,
    k: int,
)
    requires
        m.describes(arithmetic),
        is_faithful(m),
        is_odd(m),
        are_arcs(arithmetic, z, r),
        0 <= i < z.len(),
        0 <= k < z.len(),
        !z[i].nan(),
    ensures
        z[k] == z[i].negated() ==> r[k] == r[i].negated(),
        z[i].value() > unit() && z[k] == (m.quotient)(Single::of(ONE), z[i]) ==> r[i] == (
        m.difference)(Single::of(RIGHT_ANGLE), r[k]),
        z[i].value() >= 0 ==> 0 <= r[i].value() <= Single::of(RIGHT_ANGLE).value(),
        z[i].value() <= 0 ==> -Single::of(RIGHT_ANGLE).value() <= r[i].value() <= 0,
        -unit() <= z[i].value() <= unit() && expands_exactly(m, z[i]) ==> {
            let (u, v) = (unit(), z[i].value());
            let (uu, vv) = (u * u, v * v);
            r[i].value() * (u * (uu * uu)) == v * (u * (uu * uu) + (vv * uu) * Single::of(
                MINUS_0_333,
            ).value() + (vv * vv) * Single::of(PLUS_0_193).value())
        },
{
    lemma_arcs_exist(m, z[i]);
    law_arcus_tangent_is_odd(m, z[i]);
    law_arcs_lie_within_a_right_angle(m, z[i]);
    law_negation_turns_the_value(Single::of(RIGHT_ANGLE));
    assert(Single::of(RIGHT_ANGLE).negated() == Single::of(MINUS_RIGHT_ANGLE));
    lemma_unit_is_positive();
    if z[i].value() > unit() || z[i].value() < -unit() {
        law_steep_arcs_complete_those_of_the_inverse(m, z[i]);
    } else if expands_exactly(m, z[i]) {
        law_arcs_are_polynomials(m, z[i]);
    }
}

/// What is computed of a list of points, point by point: the angle of a point follows from its slope.
pub proof fn law_listed_angles<A: Arithmetic>(
    arithmetic: A,
    m: Operations,
    y: Seq<Single>,
    x: Seq<Single>,
    r: Seq<Single>,
    i: int,
    slope: Single,
)
    requires
        m.describes(arithmetic),
        is_faithful(m),
        are_angles(arithmetic, y, x, r),
        0 <= i < y.len(),
        finite(y[i]),
        finite(x[i]),
        x[i].value() != 0 ==> {
            &&& finite(slope)
            &&& slope.value() != 0
            &&& slope.value() * x[i].value() == y[i].value() * unit()
        },
    ensures
        x[i].value() > 0 ==> r[i] == m.atan(slope),
        x[i].value() < 0 && y[i].value() >= 0 ==> r[i] == (m.sum)(
            m.atan(slope),
            Single::of(HALF_TURN),
        ),
        x[i].value() < 0 && y[i].value() < 0 ==> r[i] == (m.sum)(
            m.atan(slope),
            Single::of(HALF_TURN).negated(),
        ),
        x[i].value() == 0 && y[i].value() > 0 ==> r[i] == Single::of(RIGHT_ANGLE),
        x[i].value() == 0 && y[i].value() < 0 ==> r[i] == Single::of(RIGHT_ANGLE).negated(),
        x[i].value() == 0 && y[i].value() == 0 ==> r[i].value() == 0,
{
    law_angles_follow_from_slopes(m, y[i], x[i], slope);
}

} // verus!
