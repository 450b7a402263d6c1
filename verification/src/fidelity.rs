//! What may be asked of operations that round.
//!
//! Some laws hold where nothing is rounded; they ask that an operation is exact on the numbers that occur.
//! Others ask for fidelity alone: the results of faithful operations on finite numbers are ordered as the
//! exact results are, and what is added to zero or multiplied by one keeps its value. So they lie between
//! any two numbers between which the exact result lies, and are exact where that is a number. The operations
//! of IEEE 754 are faithful, whichever way they round, and so are totals that add up one by one.

use crate::arithmetic::Operations;
use crate::numbers::{MINUS_0_5, MINUS_4, PLUS_0_5, PLUS_10, PLUS_2};
use crate::single::{
    law_negation_turns_the_value, lemma_key_orders, Single, FRACTIONS, INFINITY_BITS, MINUS_ONE, ONE,
    ZERO,
};
use vstd::arithmetic::power2::*;
use vstd::prelude::*;

verus! {

/// The value of one.
pub open spec fn unit() -> int {
    Single::of(ONE).value()
}

/// The values of the numbers.
pub open spec fn values_of(numbers: Seq<Single>) -> Seq<int> {
    numbers.map_values(|a: Single| a.value())
}

/// The numbers together.
pub open spec fn values_total(numbers: Seq<Single>) -> int
    decreases numbers.len(),
{
    if numbers.len() == 0 {
        0
    } else {
        values_total(numbers.drop_last()) + numbers.last().value()
    }
}

/// The squares of the numbers together.
pub open spec fn squared_total(numbers: Seq<Single>) -> int
    decreases numbers.len(),
{
    if numbers.len() == 0 {
        0
    } else {
        squared_total(numbers.drop_last()) + numbers.last().value() * numbers.last().value()
    }
}

/// The sum is not rounded.
pub open spec fn sum_is_exact(m: Operations, a: Single, b: Single) -> bool {
    (m.sum)(a, b).value() == a.value() + b.value()
}

/// The product is not rounded.
pub open spec fn product_is_exact(m: Operations, a: Single, b: Single) -> bool {
    (m.product)(a, b).value() * unit() == a.value() * b.value()
}

/// The quotient is not rounded.
pub open spec fn quotient_is_exact(m: Operations, a: Single, b: Single) -> bool {
    (m.quotient)(a, b).value() * b.value() == a.value() * unit()
}

/// A number that is not infinite.
pub open spec fn finite(a: Single) -> bool {
    a.magnitude() < INFINITY_BITS
}

/// Sums of finite numbers are numbers, ordered as the exact sums are, and zero adds nothing.
pub open spec fn sums_faithfully(m: Operations) -> bool {
    &&& forall|a: Single, b: Single|
        finite(a) && finite(b) ==> !(#[trigger] (m.sum)(a, b)).nan()
    &&& forall|a: Single, b: Single, c: Single, d: Single|
        finite(a) && finite(b) && finite(c) && finite(d) && a.value() + b.value() <= c.value()
            + d.value() ==> (#[trigger] (m.sum)(a, b)).value() <= (#[trigger] (m.sum)(
            c,
            d,
        )).value()
    &&& forall|a: Single|
        finite(a) ==> (#[trigger] (m.sum)(a, Single::of(ZERO))).value() == a.value()
}

/// Differences of finite numbers are numbers, ordered as the exact differences are, and zero takes nothing
/// away.
pub open spec fn subtracts_faithfully(m: Operations) -> bool {
    &&& forall|a: Single, b: Single|
        finite(a) && finite(b) ==> !(#[trigger] (m.difference)(a, b)).nan()
    &&& forall|a: Single, b: Single, c: Single, d: Single|
        finite(a) && finite(b) && finite(c) && finite(d) && a.value() - b.value() <= c.value()
            - d.value() ==> (#[trigger] (m.difference)(a, b)).value() <= (#[trigger] (
        m.difference)(c, d)).value()
    &&& forall|a: Single|
        finite(a) ==> (#[trigger] (m.difference)(a, Single::of(ZERO))).value() == a.value()
}

/// Products of finite numbers are numbers, ordered as the exact products are, and one changes nothing.
pub open spec fn multiplies_faithfully(m: Operations) -> bool {
    &&& forall|a: Single, b: Single|
        finite(a) && finite(b) ==> !(#[trigger] (m.product)(a, b)).nan()
    &&& forall|a: Single, b: Single, c: Single, d: Single|
        finite(a) && finite(b) && finite(c) && finite(d) && a.value() * b.value() <= c.value()
            * d.value() ==> (#[trigger] (m.product)(a, b)).value() <= (#[trigger] (m.product)(
            c,
            d,
        )).value()
    &&& forall|a: Single|
        finite(a) ==> (#[trigger] (m.product)(a, Single::of(ONE))).value() == a.value()
}

/// Quotients of finite numbers by others than zero are numbers, those by divisors of the same sign are
/// ordered as the exact quotients are, one changes nothing and minus one the sign alone; by an infinity
/// they are zero.
pub open spec fn divides_faithfully(m: Operations) -> bool {
    &&& forall|a: Single, b: Single|
        finite(a) && finite(b) && b.value() != 0 ==> !(#[trigger] (m.quotient)(a, b)).nan()
    &&& forall|a: Single, b: Single, c: Single, d: Single|
        finite(a) && finite(b) && finite(c) && finite(d) && b.value() * d.value() > 0 && a.value()
            * d.value() <= c.value() * b.value() ==> (#[trigger] (m.quotient)(a, b)).value() <= (
        #[trigger] (m.quotient)(c, d)).value()
    &&& forall|a: Single|
        finite(a) ==> (#[trigger] (m.quotient)(a, Single::of(ONE))).value() == a.value()
    &&& forall|a: Single|
        finite(a) ==> (#[trigger] (m.quotient)(a, Single::of(MINUS_ONE))).value() == -a.value()
    &&& forall|a: Single, b: Single|
        finite(a) && b.magnitude() == INFINITY_BITS ==> !(#[trigger] (m.quotient)(a, b)).nan() && (
        m.quotient)(a, b).value() == 0
}

/// Squares of finite numbers are the products of the numbers with themselves.
pub open spec fn squares_faithfully(m: Operations) -> bool {
    forall|a: Single|
        finite(a) ==> !(#[trigger] (m.square)(a)).nan() && (m.square)(a).value() == (m.product)(
            a,
            a,
        ).value()
}

/// Totals of finite numbers are ordered where the numbers are, one by one, unless they overflow.
pub open spec fn totals_faithfully(m: Operations) -> bool {
    forall|a: Seq<Single>, b: Seq<Single>|
        #![trigger (m.total)(a), (m.total)(b)]
        a.len() == b.len() && finite((m.total)(a)) && finite((m.total)(b)) && (forall|i: int|
            #![trigger a[i]]
            #![trigger b[i]]
            0 <= i < a.len() ==> finite(a[i]) && finite(b[i]) && a[i].value() <= b[i].value())
            ==> (m.total)(a).value() <= (m.total)(b).value()
}

/// The square is not rounded.
pub open spec fn square_is_exact(m: Operations, a: Single) -> bool {
    (m.square)(a).value() * unit() == a.value() * a.value()
}

/// The difference is not rounded.
pub open spec fn difference_is_exact(m: Operations, a: Single, b: Single) -> bool {
    (m.difference)(a, b).value() == a.value() - b.value()
}

/// The root is not negative, and not rounded.
pub open spec fn root_is_exact(m: Operations, a: Single) -> bool {
    (m.root)(a).value() >= 0 && (m.root)(a).value() * (m.root)(a).value() == a.value() * unit()
}

/// The total is not rounded.
pub open spec fn total_is_exact(m: Operations, numbers: Seq<Single>) -> bool {
    (m.total)(numbers).value() == values_total(numbers)
}

/// Exponentials of numbers are numbers, ordered as the numbers are.
pub open spec fn exponentiates_in_order(m: Operations) -> bool {
    &&& forall|a: Single| !a.nan() ==> !(#[trigger] (m.exponential)(a)).nan()
    &&& forall|a: Single, b: Single|
        !a.nan() && !b.nan() && a.value() <= b.value() ==> (#[trigger] (m.exponential)(a)).value()
            <= (#[trigger] (m.exponential)(b)).value()
}

/// The operations are faithful.
pub open spec fn is_faithful(m: Operations) -> bool {
    &&& sums_faithfully(m)
    &&& subtracts_faithfully(m)
    &&& multiplies_faithfully(m)
    &&& divides_faithfully(m)
    &&& squares_faithfully(m)
    &&& totals_faithfully(m)
}

/// One has a positive value.
pub proof fn lemma_unit_is_positive()
    ensures
        unit() > 0,
{
    lemma_key_orders(Single::of(ZERO), Single::of(ONE));
    assert(Single::of(ZERO).value() == 0);
}

/// The values of a few numbers, by that of one.
pub proof fn lemma_whole_numbers()
    ensures
        unit() > 0,
        Single::of(ZERO).value() == 0,
        2 * Single::of(PLUS_0_5).value() == unit(),
        2 * Single::of(MINUS_0_5).value() == -unit(),
        Single::of(PLUS_2).value() == 2 * unit(),
        Single::of(MINUS_4).value() == -4 * unit(),
        Single::of(PLUS_10).value() == 10 * unit(),
{
    lemma_unit_is_positive();
    lemma_pow2_unfold(126);
    lemma_pow2_unfold(127);
    lemma_pow2_unfold(128);
    lemma_pow2_unfold(129);
    let one = pow2(125);
    assert(unit() == FRACTIONS * (2 * one));
    assert(Single::of(PLUS_0_5).value() == FRACTIONS * one);
    assert(Single::of(MINUS_0_5).value() == -(FRACTIONS * one));
    assert(Single::of(PLUS_2).value() == FRACTIONS * pow2(127));
    assert(pow2(127) == 4 * one);
    assert(Single::of(MINUS_4).value() == -(FRACTIONS * pow2(128)));
    assert(pow2(128) == 8 * one);
    assert(PLUS_10 as int / (FRACTIONS as int) == 130);
    assert(PLUS_10 as int % (FRACTIONS as int) == 0x20_0000);
    assert(Single::of(PLUS_10).value() == (0x20_0000 + FRACTIONS) * pow2(129));
    assert(pow2(129) == 16 * one);
}

/// A number between finite ones is finite.
pub proof fn lemma_finite_between(a: Single, low: Single, high: Single)
    requires
        finite(low),
        finite(high),
        low.value() <= a.value() <= high.value(),
    ensures
        finite(a),
{
    lemma_key_orders(low, a);
    lemma_key_orders(a, high);
}

/// A faithful sum lies between the numbers between which the exact sum lies.
pub proof fn law_sums_stay_between(m: Operations, a: Single, b: Single, low: Single, high: Single)
    requires
        sums_faithfully(m),
        finite(a),
        finite(b),
        finite(low),
        finite(high),
        low.value() <= a.value() + b.value() <= high.value(),
    ensures
        finite((m.sum)(a, b)),
        low.value() <= (m.sum)(a, b).value() <= high.value(),
{
    let zero = Single::of(ZERO);
    assert((m.sum)(low, zero).value() <= (m.sum)(a, b).value() <= (m.sum)(high, zero).value());
    lemma_finite_between((m.sum)(a, b), low, high);
}

/// A faithful difference lies between the numbers between which the exact difference lies.
pub proof fn law_differences_stay_between(
    m: Operations,
    a: Single,
    b: Single,
    low: Single,
    high: Single,
)
    requires
        subtracts_faithfully(m),
        finite(a),
        finite(b),
        finite(low),
        finite(high),
        low.value() <= a.value() - b.value() <= high.value(),
    ensures
        finite((m.difference)(a, b)),
        low.value() <= (m.difference)(a, b).value() <= high.value(),
{
    let zero = Single::of(ZERO);
    assert((m.difference)(low, zero).value() <= (m.difference)(a, b).value() <= (m.difference)(
        high,
        zero,
    ).value());
    lemma_finite_between((m.difference)(a, b), low, high);
}

/// A faithful product lies between the numbers between which the exact product lies.
pub proof fn law_products_stay_between(
    m: Operations,
    a: Single,
    b: Single,
    low: Single,
    high: Single,
)
    requires
        multiplies_faithfully(m),
        finite(a),
        finite(b),
        finite(low),
        finite(high),
        low.value() * unit() <= a.value() * b.value() <= high.value() * unit(),
    ensures
        finite((m.product)(a, b)),
        low.value() <= (m.product)(a, b).value() <= high.value(),
{
    let one = Single::of(ONE);
    assert((m.product)(low, one).value() <= (m.product)(a, b).value() <= (m.product)(
        high,
        one,
    ).value());
    lemma_finite_between((m.product)(a, b), low, high);
}

/// A faithful quotient lies between the numbers between which the exact quotient lies.
pub proof fn law_quotients_stay_between(
    m: Operations,
    a: Single,
    b: Single,
    low: Single,
    high: Single,
)
    requires
        divides_faithfully(m),
        finite(a),
        finite(b),
        finite(low),
        finite(high),
        b.value() != 0,
        b.value() > 0 ==> low.value() * b.value() <= a.value() * unit() <= high.value()
            * b.value(),
        b.value() < 0 ==> high.value() * b.value() <= a.value() * unit() <= low.value()
            * b.value(),
    ensures
        finite((m.quotient)(a, b)),
        low.value() <= (m.quotient)(a, b).value() <= high.value(),
{
    let (one, minus) = (Single::of(ONE), Single::of(MINUS_ONE));
    let (u, d) = (unit(), b.value());
    lemma_unit_is_positive();
    if d > 0 {
        assert(d * u > 0 && u * d > 0) by (nonlinear_arith)
            requires
                d > 0,
                u > 0,
        ;
        assert((m.quotient)(low, one).value() <= (m.quotient)(a, b).value() <= (m.quotient)(
            high,
            one,
        ).value());
    } else {
        law_negation_turns_the_value(low);
        law_negation_turns_the_value(high);
        law_negation_turns_the_value(one);
        assert(one.negated() == minus);
        assert(d * -u > 0 && -u * d > 0) by (nonlinear_arith)
            requires
                d < 0,
                u > 0,
        ;
        assert(-low.value() * d == -(low.value() * d)) by (nonlinear_arith);
        assert(-high.value() * d == -(high.value() * d)) by (nonlinear_arith);
        assert(a.value() * -u == -(a.value() * u)) by (nonlinear_arith);
        assert((m.quotient)(low.negated(), minus).value() <= (m.quotient)(a, b).value() <= (
        m.quotient)(high.negated(), minus).value());
    }
    lemma_finite_between((m.quotient)(a, b), low, high);
}

/// What squares make together, where none is rounded.
pub proof fn lemma_squared_total(m: Operations, numbers: Seq<Single>)
    requires
        forall|i: int| 0 <= i < numbers.len() ==> square_is_exact(m, #[trigger] numbers[i]),
    ensures
        values_total(m.squares(numbers)) * unit() == squared_total(numbers),
    decreases numbers.len(),
{
    if numbers.len() > 0 {
        let rest = numbers.drop_last();
        assert forall|i: int| 0 <= i < rest.len() implies square_is_exact(m, #[trigger] rest[i]) by {
            assert(rest[i] == numbers[i]);
        }
        lemma_squared_total(m, rest);
        assert(m.squares(numbers).drop_last() =~= m.squares(rest));
        assert(square_is_exact(m, numbers[numbers.len() - 1]));
        let (a, b, u) = (
            values_total(m.squares(rest)),
            (m.square)(numbers.last()).value(),
            unit(),
        );
        assert((a + b) * u == a * u + b * u) by (nonlinear_arith);
    } else {
        assert(0 * unit() == 0) by (nonlinear_arith);
    }
}

/// What makes the same when multiplied by the same is the same.
pub proof fn lemma_cancel(a: int, b: int, by: int)
    requires
        by != 0,
        a * by == b * by,
    ensures
        a == b,
{
    assert(a == b) by (nonlinear_arith)
        requires
            by != 0,
            a * by == b * by,
    ;
}

} // verus!
